//! Which entries of a directory listing are markdown files, and in what order
//! they come: by their names' bytes, as paths of one directory sort.

use vstd::prelude::*;
use vstd::utf8::{encode_utf8, is_ascii_chars, is_ascii_chars_encode_utf8};

use crate::names::{chronicle_prefix, is_ascii_digit, md_suffix};
use crate::updates::{date_part, is_dated_name, FileKind};

verus! {

/// A file name whose extension is `md`: it ends in `.md` and has something before the dot.
pub open spec fn is_md_name(n: Seq<u8>) -> bool {
    &&& n.len() > 3
    &&& n[n.len() - 3] == 46u8
    &&& n[n.len() - 2] == 109u8
    &&& n[n.len() - 1] == 100u8
}

/// `a` comes no later than `b` in lexicographic byte order.
pub open spec fn bytes_le(a: Seq<u8>, b: Seq<u8>) -> bool
    decreases a.len(),
{
    if a.len() == 0 {
        true
    } else if b.len() == 0 {
        false
    } else if a[0] != b[0] {
        a[0] < b[0]
    } else {
        bytes_le(a.drop_first(), b.drop_first())
    }
}

/// The listing entry `i` is a markdown file.
pub open spec fn is_selected(names: Seq<Vec<u8>>, is_file: Seq<bool>, i: int) -> bool {
    is_file[i] && is_md_name(names[i]@)
}

/// `r` lists the markdown files of the listing, each once, in byte order of their names.
pub open spec fn is_markdown_order(names: Seq<Vec<u8>>, is_file: Seq<bool>, r: Seq<usize>) -> bool {
    &&& forall|k: int|
        0 <= k < r.len() ==> #[trigger] r[k] < names.len() && is_selected(names, is_file, r[k] as int)
    &&& forall|i: int|
        0 <= i < names.len() && is_selected(names, is_file, i) ==> r.contains(i as usize)
    &&& r.no_duplicates()
    &&& forall|k: int, l: int|
        0 <= k < l < r.len() ==> bytes_le(names[#[trigger] r[k] as int]@, names[#[trigger] r[l] as int]@)
}

pub proof fn lemma_bytes_le_total(a: Seq<u8>, b: Seq<u8>)
    ensures
        bytes_le(a, b) || bytes_le(b, a),
    decreases a.len(),
{
    if a.len() > 0 && b.len() > 0 && a[0] == b[0] {
        lemma_bytes_le_total(a.drop_first(), b.drop_first());
    }
}

pub proof fn lemma_bytes_le_transitive(a: Seq<u8>, b: Seq<u8>, c: Seq<u8>)
    requires
        bytes_le(a, b),
        bytes_le(b, c),
    ensures
        bytes_le(a, c),
    decreases a.len(),
{
    if a.len() > 0 && b.len() > 0 && c.len() > 0 && a[0] == b[0] && b[0] == c[0] {
        lemma_bytes_le_transitive(a.drop_first(), b.drop_first(), c.drop_first());
    }
}

/// Inserting the selected entry `i` where it belongs keeps the listing order.
proof fn lemma_insert_in_order(
    names: Seq<Vec<u8>>,
    is_file: Seq<bool>,
    old_r: Seq<usize>,
    p: int,
    i: int,
)
    requires
        0 <= p <= old_r.len(),
        0 <= i < names.len() <= usize::MAX,
        is_selected(names, is_file, i),
        forall|k: int|
            0 <= k < old_r.len() ==> #[trigger] old_r[k] < i && is_selected(
                names,
                is_file,
                old_r[k] as int,
            ),
        forall|j: int| 0 <= j < i && is_selected(names, is_file, j) ==> old_r.contains(j as usize),
        old_r.no_duplicates(),
        forall|k: int, l: int|
            0 <= k < l < old_r.len() ==> bytes_le(
                names[#[trigger] old_r[k] as int]@,
                names[#[trigger] old_r[l] as int]@,
            ),
        forall|k: int| 0 <= k < p ==> bytes_le(names[#[trigger] old_r[k] as int]@, names[i]@),
        forall|l: int| p <= l < old_r.len() ==> bytes_le(names[i]@, names[#[trigger] old_r[l] as int]@),
    ensures
        ({
            let nr = old_r.insert(p, i as usize);
            &&& forall|k: int|
                0 <= k < nr.len() ==> #[trigger] nr[k] < i + 1 && is_selected(
                    names,
                    is_file,
                    nr[k] as int,
                )
            &&& forall|j: int|
                0 <= j < i + 1 && is_selected(names, is_file, j) ==> nr.contains(j as usize)
            &&& nr.no_duplicates()
            &&& forall|k: int, l: int|
                0 <= k < l < nr.len() ==> bytes_le(
                    names[#[trigger] nr[k] as int]@,
                    names[#[trigger] nr[l] as int]@,
                )
        }),
{
    let nr = old_r.insert(p, i as usize);
    assert forall|k: int| 0 <= k < nr.len() implies #[trigger] nr[k] < i + 1 && is_selected(
        names,
        is_file,
        nr[k] as int,
    ) by {
        if k > p {
            assert(nr[k] == old_r[k - 1]);
        } else if k < p {
            assert(nr[k] == old_r[k]);
        }
    }
    assert forall|j: int| 0 <= j < i + 1 && is_selected(names, is_file, j) implies nr.contains(
        j as usize,
    ) by {
        if j < i {
            let k = choose|k: int| 0 <= k < old_r.len() && old_r[k] == j as usize;
            if k < p {
                assert(nr[k] == old_r[k]);
            } else {
                assert(nr[k + 1] == old_r[k]);
            }
        } else {
            assert(nr[p] == i);
        }
    }
    assert forall|a: int, b: int| 0 <= a < b < nr.len() implies nr[a] != nr[b] by {
        if a == p {
            assert(nr[b] == old_r[b - 1]);
        } else if b == p {
            assert(nr[a] == old_r[a]);
        } else {
            let oa = if a < p {
                a
            } else {
                a - 1
            };
            let ob = if b < p {
                b
            } else {
                b - 1
            };
            assert(nr[a] == old_r[oa]);
            assert(nr[b] == old_r[ob]);
        }
    }
    assert forall|a: int, b: int| 0 <= a < b < nr.len() implies bytes_le(
        names[#[trigger] nr[a] as int]@,
        names[#[trigger] nr[b] as int]@,
    ) by {
        if a == p {
            assert(nr[b] == old_r[b - 1]);
        } else if b == p {
            assert(nr[a] == old_r[a]);
        } else {
            let oa = if a < p {
                a
            } else {
                a - 1
            };
            let ob = if b < p {
                b
            } else {
                b - 1
            };
            assert(nr[a] == old_r[oa]);
            assert(nr[b] == old_r[ob]);
            if oa < p && p <= ob {
                lemma_bytes_le_transitive(names[nr[a] as int]@, names[i]@, names[nr[b] as int]@);
            }
        }
    }
}

/// The value of a decimal digit character.
pub open spec fn digit_value(c: char) -> int {
    (c as u32) - 48
}

/// The year, month and day of a `YYYY-MM-DD` date as one number, `YYYYMMDD`.
pub open spec fn date_key(d: Seq<char>) -> int {
    digit_value(d[0]) * 10000000 + digit_value(d[1]) * 1000000 + digit_value(d[2]) * 100000
        + digit_value(d[3]) * 10000 + digit_value(d[5]) * 1000 + digit_value(d[6]) * 100
        + digit_value(d[8]) * 10 + digit_value(d[9])
}

/// The first position where two sequences of one length differ, or their length.
proof fn first_difference(a: Seq<u8>, b: Seq<u8>) -> (j: int)
    requires
        a.len() == b.len(),
    ensures
        0 <= j <= a.len(),
        forall|i: int| 0 <= i < j ==> a[i] == b[i],
        j < a.len() ==> a[j] != b[j],
    decreases a.len(),
{
    if a.len() == 0 || a[0] != b[0] {
        0
    } else {
        let r = first_difference(a.drop_first(), b.drop_first());
        assert forall|i: int| 0 <= i < r + 1 implies a[i] == b[i] by {
            if i > 0 {
                assert(a[i] == a.drop_first()[i - 1]);
                assert(b[i] == b.drop_first()[i - 1]);
            }
        }
        r + 1
    }
}

/// Byte order of two sequences of one length is decided where they first differ.
proof fn lemma_bytes_le_at_difference(a: Seq<u8>, b: Seq<u8>, j: int)
    requires
        a.len() == b.len(),
        0 <= j <= a.len(),
        forall|i: int| 0 <= i < j ==> a[i] == b[i],
        j < a.len() ==> a[j] != b[j],
    ensures
        bytes_le(a, b) == (j == a.len() || a[j] < b[j]),
    decreases a.len(),
{
    if a.len() > 0 && j > 0 {
        assert forall|i: int| 0 <= i < j - 1 implies a.drop_first()[i] == b.drop_first()[i] by {
            assert(a[i + 1] == b[i + 1]);
        }
        lemma_bytes_le_at_difference(a.drop_first(), b.drop_first(), j - 1);
    }
}

proof fn lemma_ascii_char(c: char)
    requires
        (c as u32) <= 0x7f,
    ensures
        '\0' <= c <= '\u{7f}',
{
}

/// Where the date starts in a dated file name of the kind.
pub open spec fn date_offset(kind: FileKind) -> int {
    match kind {
        FileKind::Chronicle => 10,
        FileKind::Journal => 0,
    }
}

/// A dated file name is plain ASCII: its prefix, a `YYYY-MM-DD` date, `.md`.
proof fn lemma_dated_name_ascii(kind: FileKind, n: Seq<char>)
    requires
        is_dated_name(kind, n),
    ensures
        is_ascii_chars(n),
        n.len() == date_offset(kind) + 13,
        date_part(kind, n) == n.subrange(date_offset(kind), date_offset(kind) + 10),
        kind == FileKind::Chronicle ==> n.subrange(0, 10) == chronicle_prefix(),
        n.subrange(n.len() - 3, n.len() as int) == md_suffix(),
{
    let o = date_offset(kind);
    let d = date_part(kind, n);
    if kind == FileKind::Chronicle {
        crate::names::lemma_chronicle_shape_len(n);
    }
    assert forall|i: int| 0 <= i < n.len() implies '\0' <= #[trigger] n[i] <= '\u{7f}' by {
        if o <= i < o + 10 && i != o + 4 && i != o + 7 {
            assert(n[i] == d[i - o]);
            assert(is_ascii_digit(d[i - o]));
        } else if i == o + 4 || i == o + 7 {
            assert(n[i] == d[i - o]);
        } else if i < o {
            assert(n[i] == n.subrange(0, 10)[i]);
        } else {
            assert(n[i] == n.subrange(n.len() - 3, n.len() as int)[i - (n.len() - 3)]);
        }
        lemma_ascii_char(n[i]);
    }
}

/// Dated files come in the order of their dates: in the byte order of their
/// names, which is how a directory listing sorts them, one dated file of a
/// kind comes no later than another exactly when its date is no later.
pub proof fn lemma_listing_order_is_chronological(kind: FileKind, n1: Seq<char>, n2: Seq<char>)
    requires
        is_dated_name(kind, n1),
        is_dated_name(kind, n2),
    ensures
        bytes_le(encode_utf8(n1), encode_utf8(n2)) == (date_key(date_part(kind, n1)) <= date_key(
            date_part(kind, n2),
        )),
{
    let o = date_offset(kind);
    let len = o + 13;
    lemma_dated_name_ascii(kind, n1);
    lemma_dated_name_ascii(kind, n2);
    is_ascii_chars_encode_utf8(n1);
    is_ascii_chars_encode_utf8(n2);
    let e1 = encode_utf8(n1);
    let e2 = encode_utf8(n2);
    let d1 = date_part(kind, n1);
    let d2 = date_part(kind, n2);
    let j = first_difference(e1, e2);
    lemma_bytes_le_at_difference(e1, e2, j);
    assert forall|i: int| 0 <= i < len implies (#[trigger] e1[i] == e2[i]) == (n1[i] == n2[i]) by {
        assert(e1[i] == n1[i] as u8);
        assert(e2[i] == n2[i] as u8);
    }
    assert forall|i: int| 0 <= i < o implies n1[i] == n2[i] by {
        assert(n1[i] == n1.subrange(0, 10)[i]);
        assert(n2[i] == n2.subrange(0, 10)[i]);
    }
    assert forall|i: int| o + 10 <= i < len implies n1[i] == n2[i] by {
        assert(n1[i] == n1.subrange(o + 10, len)[i - o - 10]);
        assert(n2[i] == n2.subrange(o + 10, len)[i - o - 10]);
    }
    assert forall|i: int| 0 <= i < 10 implies d1[i] == n1[i + o] && d2[i] == n2[i + o] by {}
    assert forall|i: int| 0 <= i < 10 && i != 4 && i != 7 implies 0 <= digit_value(#[trigger] d1[i])
        <= 9 && 0 <= digit_value(d2[i]) <= 9 by {
        assert(is_ascii_digit(d1[i]));
        assert(is_ascii_digit(d2[i]));
    }
    if j < len {
        assert(o <= j < o + 10 && j != o + 4 && j != o + 7) by {
            if j < o || j >= o + 10 {
                assert(n1[j] == n2[j]);
            }
            if j == o + 4 || j == o + 7 {
                assert(n1[j] == d1[j - o]);
                assert(n2[j] == d2[j - o]);
            }
        }
        assert((e1[j] < e2[j]) == ((n1[j] as u32) < (n2[j] as u32)));
        assert forall|i: int| 0 <= i < j - o implies d1[i] == d2[i] by {
            assert(e1[i + o] == e2[i + o]);
        }
        assert(d1[j - o] != d2[j - o]);
    } else {
        assert forall|i: int| 0 <= i < 10 implies d1[i] == d2[i] by {
            assert(e1[i + o] == e2[i + o]);
        }
    }
}

/// Whether `a` comes no later than `b` in byte order.
fn bytes_le_exec(a: &Vec<u8>, b: &Vec<u8>) -> (r: bool)
    ensures
        r == bytes_le(a@, b@),
{
    let mut i: usize = 0;
    assert(a@.skip(0) =~= a@);
    assert(b@.skip(0) =~= b@);
    while i < a.len() && i < b.len() && a[i] == b[i]
        invariant
            i <= a.len(),
            i <= b.len(),
            bytes_le(a@.skip(i as int), b@.skip(i as int)) == bytes_le(a@, b@),
        decreases a.len() - i,
    {
        assert(a@.skip(i as int).drop_first() =~= a@.skip(i + 1));
        assert(b@.skip(i as int).drop_first() =~= b@.skip(i + 1));
        i = i + 1;
    }
    if i == a.len() {
        true
    } else if i == b.len() {
        false
    } else {
        a[i] < b[i]
    }
}

fn md_name(n: &Vec<u8>) -> (b: bool)
    ensures
        b == is_md_name(n@),
{
    let l = n.len();
    l > 3 && n[l - 3] == 46u8 && n[l - 2] == 109u8 && n[l - 1] == 100u8
}

/// The positions of the markdown files of a directory listing — the entries
/// that are files and whose extension is `md` — in byte order of their names.
pub fn select_markdown_files(names: &Vec<Vec<u8>>, is_file: &Vec<bool>) -> (r: Vec<usize>)
    requires
        names.len() == is_file.len(),
    ensures
        is_markdown_order(names@, is_file@, r@),
{
    let mut r: Vec<usize> = Vec::new();
    let mut i: usize = 0;
    while i < names.len()
        invariant
            names.len() == is_file.len(),
            i <= names.len(),
            forall|k: int|
                0 <= k < r@.len() ==> #[trigger] r@[k] < i && is_selected(
                    names@,
                    is_file@,
                    r@[k] as int,
                ),
            forall|j: int| 0 <= j < i && is_selected(names@, is_file@, j) ==> r@.contains(j as usize),
            r@.no_duplicates(),
            forall|k: int, l: int|
                0 <= k < l < r@.len() ==> bytes_le(
                    names@[#[trigger] r@[k] as int]@,
                    names@[#[trigger] r@[l] as int]@,
                ),
        decreases names.len() - i,
    {
        if is_file[i] && md_name(&names[i]) {
            let mut p = r.len();
            while p > 0 && !bytes_le_exec(&names[r[p - 1]], &names[i])
                invariant
                    p <= r@.len(),
                    i < names.len(),
                    forall|k: int| 0 <= k < r@.len() ==> #[trigger] r@[k] < i,
                    forall|l: int| p <= l < r@.len() ==> !bytes_le(names@[#[trigger] r@[l] as int]@, names@[i as int]@),
                decreases p,
            {
                p = p - 1;
            }
            let ghost old_r = r@;
            proof {
                assert forall|l: int| p <= l < old_r.len() implies bytes_le(
                    names@[i as int]@,
                    names@[old_r[l] as int]@,
                ) by {
                    lemma_bytes_le_total(names@[i as int]@, names@[old_r[l] as int]@);
                }
                if p > 0 {
                    assert forall|k: int| 0 <= k < p implies bytes_le(
                        names@[old_r[k] as int]@,
                        names@[i as int]@,
                    ) by {
                        if k < p - 1 {
                            lemma_bytes_le_transitive(
                                names@[old_r[k] as int]@,
                                names@[old_r[p - 1] as int]@,
                                names@[i as int]@,
                            );
                        }
                    }
                }
            }
            r.insert(p, i);
            proof {
                lemma_insert_in_order(names@, is_file@, old_r, p as int, i as int);
            }
        }
        i = i + 1;
    }
    r
}

} // verus!
