//! Which files of a directory get a header and what their `prev` link says:
//! every dated file in listing order, each linked to the dated file before it.

use vstd::prelude::*;

use crate::header::field_ok;
use crate::names::{
    chronicle_date_part, chronicler_date_from_path, is_chronicle_file_name,
    is_chronicler_markdown_filename, is_date_text, is_journal_file_name,
    is_journal_markdown_filename, journal_date_from_path, journal_date_part,
};
use crate::text::{
    char_free, dash_separated, lemma_dash_free_marker_free, lemma_enclosed_marker_free,
    lemma_marker_free_concat, marker_free,
};

verus! {

/// The two kinds of dated files.
#[derive(Debug, Clone, Copy, PartialEq, Eq)]
pub enum FileKind {
    /// `chronicle-YYYY-MM-DD.md`
    Chronicle,
    /// `YYYY-MM-DD.md`
    Journal,
}

/// A directory without any dated file of the kind asked for.
#[derive(Debug, Clone, Copy, PartialEq, Eq)]
pub enum UpdateError {
    NoDatedFiles,
}

/// One file to give a header: its position in the listing and its `prev` link.
#[derive(Debug)]
pub struct HeaderUpdate {
    pub index: usize,
    pub prev: String,
}

/// `[[`
pub open spec fn link_open() -> Seq<char> {
    seq!['[', '[']
}

/// `]]`
pub open spec fn link_close() -> Seq<char> {
    seq![']', ']']
}

/// `[[chronicle-`
pub open spec fn chronicle_link_open() -> Seq<char> {
    seq!['[', '[', 'c', 'h', 'r', 'o', 'n', 'i', 'c', 'l', 'e', '-']
}

/// The wiki link to the journal entry of a date: `[[<date>]]`.
pub open spec fn journal_link(date: Seq<char>) -> Seq<char> {
    link_open() + date + link_close()
}

/// The wiki link to the chronicle of a date: `[[chronicle-<date>]]`.
pub open spec fn chronicle_link(date: Seq<char>) -> Seq<char> {
    chronicle_link_open() + date + link_close()
}

/// `n` is a dated file name of the kind.
pub open spec fn is_dated_name(kind: FileKind, n: Seq<char>) -> bool {
    match kind {
        FileKind::Chronicle => is_chronicle_file_name(n),
        FileKind::Journal => is_journal_file_name(n),
    }
}

/// The date part of a dated file name of the kind.
pub open spec fn date_part(kind: FileKind, n: Seq<char>) -> Seq<char> {
    match kind {
        FileKind::Chronicle => chronicle_date_part(n),
        FileKind::Journal => journal_date_part(n),
    }
}

/// The link to the file of the kind for a date.
pub open spec fn link_to(kind: FileKind, date: Seq<char>) -> Seq<char> {
    match kind {
        FileKind::Chronicle => chronicle_link(date),
        FileKind::Journal => journal_link(date),
    }
}

/// The positions of the dated names of the kind, in listing order.
pub open spec fn dated_positions(kind: FileKind, names: Seq<String>) -> Seq<int>
    decreases names.len(),
{
    if names.len() == 0 {
        Seq::empty()
    } else {
        let p = dated_positions(kind, names.drop_last());
        if is_dated_name(kind, names.last()@) {
            p.push(names.len() - 1)
        } else {
            p
        }
    }
}

/// The `prev` link of the `k`-th dated file: empty for the first, else the
/// link to the dated file before it.
pub open spec fn planned_prev(kind: FileKind, names: Seq<String>, k: int) -> Seq<char> {
    if k == 0 {
        Seq::empty()
    } else {
        link_to(kind, date_part(kind, names[dated_positions(kind, names)[k - 1]]@))
    }
}

/// The positions are increasing, in range, and hold exactly the dated names.
pub proof fn lemma_dated_positions(kind: FileKind, names: Seq<String>)
    ensures
        forall|k: int|
            0 <= k < dated_positions(kind, names).len() ==> 0 <= #[trigger] dated_positions(
                kind,
                names,
            )[k] < names.len() && is_dated_name(kind, names[dated_positions(kind, names)[k]]@),
        forall|k: int, l: int|
            0 <= k < l < dated_positions(kind, names).len() ==> #[trigger] dated_positions(
                kind,
                names,
            )[k] < #[trigger] dated_positions(kind, names)[l],
        forall|i: int|
            0 <= i < names.len() && is_dated_name(kind, names[i]@) ==> dated_positions(
                kind,
                names,
            ).contains(i),
    decreases names.len(),
{
    if names.len() > 0 {
        let front = names.drop_last();
        lemma_dated_positions(kind, front);
        let p = dated_positions(kind, front);
        assert forall|k: int| 0 <= k < p.len() implies names[p[k]] == front[p[k]] by {}
        assert forall|i: int|
            0 <= i < names.len() && is_dated_name(kind, names[i]@) implies dated_positions(
            kind,
            names,
        ).contains(i) by {
            if i < names.len() - 1 {
                assert(front[i] == names[i]);
                assert(p.contains(i));
                let k = choose|k: int| 0 <= k < p.len() && p[k] == i;
                assert(dated_positions(kind, names)[k] == i);
            } else {
                assert(dated_positions(kind, names).last() == i);
            }
        }
    }
}

/// Taking one more name adds its position when it is dated.
proof fn lemma_dated_positions_step(kind: FileKind, names: Seq<String>, i: int)
    requires
        0 <= i < names.len(),
    ensures
        dated_positions(kind, names.take(i + 1)) == if is_dated_name(kind, names[i]@) {
            dated_positions(kind, names.take(i)).push(i)
        } else {
            dated_positions(kind, names.take(i))
        },
{
    assert(names.take(i + 1).drop_last() =~= names.take(i));
}

/// A `YYYY-MM-DD` date has no line break and no two dashes in a row.
pub proof fn lemma_date_text_separated(d: Seq<char>)
    requires
        is_date_text(d),
    ensures
        dash_separated(d),
        char_free(d, '\n'),
{
    assert forall|i: int| 0 <= i < d.len() - 1 && #[trigger] d[i] == '-' implies d[i + 1] != '-' by {
        if i != 4 && i != 7 {
            assert(crate::names::is_ascii_digit(d[i]));
        } else {
            assert(crate::names::is_ascii_digit(d[i + 1]));
        }
    }
    assert forall|i: int| 0 <= i < d.len() implies #[trigger] d[i] != '\n' by {
        if i != 4 && i != 7 {
            assert(crate::names::is_ascii_digit(d[i]));
        }
    }
    assert(crate::names::is_ascii_digit(d[9]));
}

/// A link to a date can be a header value: it has no line break and no `---`.
pub proof fn lemma_link_ok(kind: FileKind, d: Seq<char>)
    requires
        dash_separated(d),
        char_free(d, '\n'),
    ensures
        field_ok(link_to(kind, d)),
{
    let close = link_close();
    let open = match kind {
        FileKind::Chronicle => chronicle_link_open(),
        FileKind::Journal => link_open(),
    };
    assert(char_free(close, '-'));
    match kind {
        FileKind::Chronicle => {
            let word = seq!['[', '[', 'c', 'h', 'r', 'o', 'n', 'i', 'c', 'l', 'e'];
            assert(char_free(word, '-'));
            lemma_dash_free_marker_free(word);
            assert(marker_free(seq!['-']));
            lemma_marker_free_concat(word, seq!['-']);
            assert(open =~= word + seq!['-']);
        },
        FileKind::Journal => {
            assert(char_free(open, '-'));
            lemma_dash_free_marker_free(open);
        },
    }
    lemma_enclosed_marker_free(open, d, close);
    let l = open + d + close;
    assert(link_to(kind, d) == l);
    assert forall|i: int| 0 <= i < l.len() implies #[trigger] l[i] != '\n' by {
        if i < open.len() {
            assert(l[i] == open[i]);
        } else if i < open.len() + d.len() {
            assert(l[i] == d[i - open.len()]);
        } else {
            assert(l[i] == close[i - open.len() - d.len()]);
        }
    }
}

/// Every planned `prev` link can be a header value.
pub proof fn lemma_planned_prev_ok(kind: FileKind, names: Seq<String>, k: int)
    requires
        0 <= k < dated_positions(kind, names).len(),
    ensures
        field_ok(planned_prev(kind, names, k)),
{
    if k == 0 {
        assert(char_free(Seq::<char>::empty(), '\n'));
        assert(marker_free(Seq::<char>::empty()));
    } else {
        lemma_dated_positions(kind, names);
        let n = names[dated_positions(kind, names)[k - 1]]@;
        assert(is_dated_name(kind, n));
        lemma_date_text_separated(date_part(kind, n));
        lemma_link_ok(kind, date_part(kind, n));
    }
}

fn is_dated(kind: FileKind, name: &str) -> (b: bool)
    ensures
        b == is_dated_name(kind, name@),
{
    match kind {
        FileKind::Chronicle => is_chronicler_markdown_filename(name),
        FileKind::Journal => is_journal_markdown_filename(name),
    }
}

/// The link for the dated name `name` of the kind.
fn link_for(kind: FileKind, name: &str) -> (s: String)
    requires
        is_dated_name(kind, name@),
    ensures
        s@ == link_to(kind, date_part(kind, name@)),
{
    proof {
        reveal_strlit("[[chronicle-");
        reveal_strlit("[[");
        reveal_strlit("]]");
    }
    let mut s = String::new();
    match kind {
        FileKind::Chronicle => {
            s.append("[[chronicle-");
            match chronicler_date_from_path(name) {
                Ok(d) => s.append(d.as_str()),
                Err(_) => {},
            }
        },
        FileKind::Journal => {
            s.append("[[");
            match journal_date_from_path(name) {
                Ok(d) => s.append(d.as_str()),
                Err(_) => {},
            }
        },
    }
    s.append("]]");
    assert(s@ =~= link_to(kind, date_part(kind, name@)));
    s
}

/// The header updates for a listing of file names: every dated name of the
/// kind, in listing order, with `prev` empty for the first and the link to
/// the previous dated file for the others. Fails when no name is dated.
pub fn plan_header_updates(kind: FileKind, names: &Vec<String>) -> (r: Result<
    Vec<HeaderUpdate>,
    UpdateError,
>)
    ensures
        match r {
            Ok(v) => {
                &&& dated_positions(kind, names@).len() > 0
                &&& v@.len() == dated_positions(kind, names@).len()
                &&& forall|k: int|
                    0 <= k < v@.len() ==> #[trigger] v@[k].index == dated_positions(kind, names@)[k]
                        && v@[k].prev@ == planned_prev(kind, names@, k)
            },
            Err(e) => dated_positions(kind, names@).len() == 0 && e == UpdateError::NoDatedFiles,
        },
{
    let mut plan: Vec<HeaderUpdate> = Vec::new();
    let mut last: usize = 0;
    let mut i: usize = 0;
    while i < names.len()
        invariant
            i <= names.len(),
            plan@.len() == dated_positions(kind, names@.take(i as int)).len(),
            plan@.len() > 0 ==> last == dated_positions(kind, names@.take(i as int)).last(),
            forall|k: int|
                #![trigger plan@[k]]
                0 <= k < plan@.len() ==> plan@[k].index == dated_positions(
                    kind,
                    names@.take(i as int),
                )[k] && plan@[k].prev@ == planned_prev(kind, names@.take(i as int), k),
        decreases names.len() - i,
    {
        let ghost before = names@.take(i as int);
        let ghost after = names@.take(i + 1);
        let ghost old_plan = plan@;
        proof {
            lemma_dated_positions_step(kind, names@, i as int);
            lemma_dated_positions(kind, before);
            assert forall|j: int| 0 <= j < i implies after[j] == before[j] by {}
            assert forall|k: int| 0 <= k < plan@.len() implies planned_prev(kind, after, k)
                == planned_prev(kind, before, k) by {
                if k > 0 {
                    let p = dated_positions(kind, before);
                    assert(dated_positions(kind, after)[k - 1] == p[k - 1]);
                }
            }
        }
        if is_dated(kind, names[i].as_str()) {
            let prev = if plan.len() == 0 {
                String::new()
            } else {
                proof {
                    assert(names@[last as int] == before[last as int]);
                }
                link_for(kind, names[last].as_str())
            };
            let ghost k = plan@.len() as int;
            proof {
                if k > 0 {
                    assert(after[last as int] == names@[last as int]);
                }
            }
            plan.push(HeaderUpdate { index: i, prev });
            last = i;
        }
        proof {
            assert forall|k: int| #![trigger plan@[k]] 0 <= k < plan@.len() implies plan@[k].index
                == dated_positions(kind, after)[k] && plan@[k].prev@ == planned_prev(
                kind,
                after,
                k,
            ) by {
                if k < old_plan.len() {
                    assert(plan@[k] == old_plan[k]);
                }
            }
        }
        i = i + 1;
    }
    proof {
        assert(names@.take(names@.len() as int) =~= names@);
    }
    if plan.len() == 0 {
        Err(UpdateError::NoDatedFiles)
    } else {
        Ok(plan)
    }
}

/// The positions of the last `n` dated names of the kind (all of them when
/// there are fewer), in listing order.
pub fn last_dated_files(kind: FileKind, names: &Vec<String>, n: usize) -> (r: Vec<usize>)
    ensures
        ({
            let p = dated_positions(kind, names@);
            let from = if p.len() > n {
                p.len() - n
            } else {
                0
            };
            &&& r@.len() == p.len() - from
            &&& forall|t: int| 0 <= t < r@.len() ==> #[trigger] r@[t] == p[from + t]
        }),
{
    let mut all: Vec<usize> = Vec::new();
    let mut i: usize = 0;
    while i < names.len()
        invariant
            i <= names.len(),
            all@.len() == dated_positions(kind, names@.take(i as int)).len(),
            forall|t: int|
                0 <= t < all@.len() ==> #[trigger] all@[t] == dated_positions(
                    kind,
                    names@.take(i as int),
                )[t],
        decreases names.len() - i,
    {
        proof {
            lemma_dated_positions_step(kind, names@, i as int);
        }
        if is_dated(kind, names[i].as_str()) {
            all.push(i);
        }
        i = i + 1;
    }
    assert(names@.take(names@.len() as int) =~= names@);
    let total = all.len();
    let from = if total > n {
        total - n
    } else {
        0
    };
    let mut r: Vec<usize> = Vec::new();
    let mut k = from;
    while k < total
        invariant
            from <= k <= total,
            total == all@.len(),
            r@.len() == k - from,
            forall|t: int| 0 <= t < r@.len() ==> #[trigger] r@[t] == all@[from + t],
        decreases total - k,
    {
        r.push(all[k]);
        k = k + 1;
    }
    r
}

} // verus!
