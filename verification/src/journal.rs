//! Journal files, `YYYY-MM-DD.md`: a header is added in front of a file that
//! has no valid one, and a file that has one is left as it is.

use vstd::prelude::*;

use crate::header::{
    between_dashes, extract_between_dashes, field_ok, header_body, header_text,
    lemma_header_roundtrip, parse_header, parsed_header, Header, HeaderModel,
};
use crate::text::{lemma_first_marker_at, marker_at, marker_free};
use crate::updates::{dated_positions, lemma_planned_prev_ok, planned_prev, FileKind};

verus! {

/// `s` has two `---` and what lies between them parses as a header.
pub open spec fn has_valid_header(s: Seq<char>) -> bool {
    match between_dashes(s) {
        Some(b) => parsed_header(b) is Some,
        None => false,
    }
}

/// The header of a journal entry: a `prev` link and no `journal` field.
pub open spec fn journal_header(prev: Seq<char>) -> HeaderModel {
    HeaderModel { prev, journal: None }
}

/// A journal's text with a header in front of it.
pub open spec fn with_journal_header(s: Seq<char>, prev: Seq<char>) -> Seq<char> {
    header_text(journal_header(prev)) + seq!['\n'] + s
}

/// Whether `contents` already has a valid header.
pub fn journal_has_valid_header(contents: &str) -> (b: bool)
    ensures
        b == has_valid_header(contents@),
{
    match extract_between_dashes(contents) {
        Some(inner) => parse_header(inner).is_some(),
        None => false,
    }
}

/// The new text of a journal file whose text is `contents`: `None` when it
/// already has a valid header, else the header with `prev` (and no `journal`
/// field), a line break and the old text.
pub fn journal_contents_with_header(contents: &str, prev: &str) -> (r: Option<String>)
    ensures
        match r {
            Some(t) => !has_valid_header(contents@) && t@ == with_journal_header(
                contents@,
                prev@,
            ),
            None => has_valid_header(contents@),
        },
{
    if journal_has_valid_header(contents) {
        return None;
    }
    proof {
        reveal_strlit("\n");
    }
    let header = Header { prev: prev.to_string(), journal: None };
    let mut out = header.to_string();
    out.append("\n");
    out.append(contents);
    assert(out@ =~= with_journal_header(contents@, prev@));
    Some(out)
}

/// A journal file that got a header reads it back — `prev` and no `journal`
/// field — for any `prev` that can be a header value, and a second update
/// leaves it as it is.
pub proof fn lemma_journal_update_reads_back(s: Seq<char>, prev: Seq<char>)
    requires
        field_ok(prev),
    ensures
        between_dashes(with_journal_header(s, prev)) == Some(header_body(journal_header(prev))),
        parsed_header(header_body(journal_header(prev))) == Some(journal_header(prev)),
        has_valid_header(with_journal_header(s, prev)),
{
    let h = journal_header(prev);
    lemma_header_roundtrip(h, seq!['\n'] + s);
    assert(with_journal_header(s, prev) =~= header_text(h) + (seq!['\n'] + s));
}

/// Every dated file of a journal directory that got a header as planned reads
/// back a `prev` linking the journal entry before it (empty for the first).
pub proof fn lemma_planned_journal_update_reads_back(names: Seq<String>, k: int, s: Seq<char>)
    requires
        0 <= k < dated_positions(FileKind::Journal, names).len(),
    ensures
        ({
            let h = journal_header(planned_prev(FileKind::Journal, names, k));
            &&& between_dashes(with_journal_header(s, planned_prev(FileKind::Journal, names, k)))
                == Some(header_body(h))
            &&& parsed_header(header_body(h)) == Some(h)
        }),
{
    lemma_planned_prev_ok(FileKind::Journal, names, k);
    lemma_journal_update_reads_back(s, planned_prev(FileKind::Journal, names, k));
}

/// A journal that gets a header keeps its whole text: the new text is the
/// header, one line break, and then the old text in full.
pub proof fn lemma_journal_update_keeps_text(s: Seq<char>, prev: Seq<char>)
    ensures
        ({
            let t = with_journal_header(s, prev);
            let k = header_text(journal_header(prev)).len() + 1;
            &&& t.len() == k + s.len()
            &&& t.subrange(0, k - 1) == header_text(journal_header(prev))
            &&& t[k - 1] == '\n'
            &&& t.subrange(k as int, t.len() as int) == s
        }),
{
    let t = with_journal_header(s, prev);
    let k = header_text(journal_header(prev)).len() + 1;
    assert(t.subrange(0, k - 1) =~= header_text(journal_header(prev)));
    assert(t.subrange(k as int, t.len() as int) =~= s);
}

/// A journal text that opens with frontmatter — `---`, a text without `---`
/// that does not end in a dash, `---` — has a valid header exactly when that
/// frontmatter parses as a header, whatever other keys it holds and in
/// whatever order; such a file is left as it is.
pub proof fn lemma_frontmatter_validity(b: Seq<char>, rest: Seq<char>)
    requires
        marker_free(b),
        b.len() == 0 || b.last() != '-',
    ensures
        has_valid_header(seq!['-', '-', '-'] + b + seq!['-', '-', '-'] + rest) == (parsed_header(
            b,
        ) is Some),
{
    let t = seq!['-', '-', '-'] + b + seq!['-', '-', '-'] + rest;
    let m: int = 3 + b.len() as int;
    assert(marker_at(t, 0));
    lemma_first_marker_at(t, 0, 0);
    assert(marker_at(t, m));
    assert forall|k: int| 3 <= k < m implies !#[trigger] marker_at(t, k) by {
        if marker_at(t, k) {
            if k + 3 <= m {
                assert(marker_at(b, k - 3));
            } else {
                assert(t[m - 1] == b.last());
            }
        }
    }
    lemma_first_marker_at(t, 3, m as nat);
    assert(t.subrange(3, m) =~= b);
}

} // verus!
