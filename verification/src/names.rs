//! Dated file names: `chronicle-YYYY-MM-DD.md` for chronicles and
//! `YYYY-MM-DD.md` for journal entries.

use vstd::prelude::*;

use crate::text::chars_of;

verus! {

/// An ASCII decimal digit.
pub open spec fn is_ascii_digit(c: char) -> bool {
    0x30 <= (c as u32) <= 0x39
}

/// `YYYY-MM-DD`: four digits, a dash, two digits, a dash, two digits.
pub open spec fn is_date_text(d: Seq<char>) -> bool {
    &&& d.len() == 10
    &&& forall|i: int| 0 <= i < 10 && i != 4 && i != 7 ==> is_ascii_digit(#[trigger] d[i])
    &&& d[4] == '-'
    &&& d[7] == '-'
}

/// `chronicle-`
pub open spec fn chronicle_prefix() -> Seq<char> {
    seq!['c', 'h', 'r', 'o', 'n', 'i', 'c', 'l', 'e', '-']
}

/// `.md`
pub open spec fn md_suffix() -> Seq<char> {
    seq!['.', 'm', 'd']
}

pub open spec fn starts_with(s: Seq<char>, p: Seq<char>) -> bool {
    s.len() >= p.len() && s.subrange(0, p.len() as int) == p
}

pub open spec fn ends_with(s: Seq<char>, p: Seq<char>) -> bool {
    s.len() >= p.len() && s.subrange(s.len() - p.len(), s.len() as int) == p
}

/// The part of `chronicle-<date>.md` between the prefix and the extension.
pub open spec fn chronicle_date_part(n: Seq<char>) -> Seq<char> {
    n.subrange(10, n.len() - 3)
}

/// The part of `<date>.md` before the extension.
pub open spec fn journal_date_part(n: Seq<char>) -> Seq<char> {
    n.subrange(0, n.len() - 3)
}

/// `n` has the shape `chronicle-<anything>.md`.
pub open spec fn has_chronicle_shape(n: Seq<char>) -> bool {
    starts_with(n, chronicle_prefix()) && ends_with(n, md_suffix())
}

/// `n` is `chronicle-YYYY-MM-DD.md`.
pub open spec fn is_chronicle_file_name(n: Seq<char>) -> bool {
    has_chronicle_shape(n) && is_date_text(chronicle_date_part(n))
}

/// `n` is `YYYY-MM-DD.md`.
pub open spec fn is_journal_file_name(n: Seq<char>) -> bool {
    ends_with(n, md_suffix()) && is_date_text(journal_date_part(n))
}

/// A file name that does not have the shape that a date is taken from.
#[derive(Debug, Clone, Copy, PartialEq, Eq)]
pub enum DateNameError {
    DoesNotMatch,
}

/// `chronicle-` and `.md` cannot overlap, so such a name is at least 13 characters long.
pub proof fn lemma_chronicle_shape_len(n: Seq<char>)
    requires
        has_chronicle_shape(n),
    ensures
        n.len() >= 13,
{
    if n.len() < 13 {
        let i = n.len() - 3;
        assert(n[i] == md_suffix()[0]) by {
            assert(n.subrange(n.len() - 3, n.len() as int)[0] == n[i]);
        }
        assert(n[i] == chronicle_prefix()[i]) by {
            assert(n.subrange(0, 10)[i] == n[i]);
        }
    }
}

/// No file name is both a chronicle and a journal file name: a journal name
/// starts with a digit, a chronicle name with `c`.
pub proof fn lemma_names_disjoint(n: Seq<char>)
    ensures
        !(is_chronicle_file_name(n) && is_journal_file_name(n)),
{
    if is_chronicle_file_name(n) && is_journal_file_name(n) {
        assert(n[0] == n.subrange(0, 10)[0]);
        assert(n[0] == journal_date_part(n)[0]);
        assert(is_ascii_digit(journal_date_part(n)[0]));
    }
}

/// Whether the characters of `s` from `at` on are those of `p`.
fn matches_at(s: &Vec<char>, at: usize, p: &Vec<char>) -> (b: bool)
    requires
        at <= s.len(),
    ensures
        b == (at + p.len() <= s.len() && s@.subrange(at as int, at + p.len()) == p@),
{
    if p.len() > s.len() - at {
        return false;
    }
    let mut i: usize = 0;
    while i < p.len()
        invariant
            at + p.len() <= s.len(),
            i <= p.len(),
            forall|k: int| 0 <= k < i ==> s@[at + k] == p@[k],
        decreases p.len() - i,
    {
        if s[at + i] != p[i] {
            proof {
                assert(s@.subrange(at as int, at + p.len())[i as int] == s@[at + i]);
            }
            return false;
        }
        i = i + 1;
    }
    proof {
        assert(s@.subrange(at as int, at + p.len()) =~= p@);
    }
    true
}

fn ascii_digit(c: char) -> (b: bool)
    ensures
        b == is_ascii_digit(c),
{
    let u = c as u32;
    0x30 <= u && u <= 0x39
}

/// Whether `s[lo..hi]` is `YYYY-MM-DD`.
fn date_text_at(s: &Vec<char>, lo: usize, hi: usize) -> (b: bool)
    requires
        lo <= hi <= s.len(),
    ensures
        b == is_date_text(s@.subrange(lo as int, hi as int)),
{
    let ghost d = s@.subrange(lo as int, hi as int);
    if hi - lo != 10 {
        return false;
    }
    let mut i: usize = 0;
    while i < 10
        invariant
            hi - lo == 10,
            hi <= s.len(),
            d == s@.subrange(lo as int, hi as int),
            i <= 10,
            forall|k: int| 0 <= k < i && k != 4 && k != 7 ==> is_ascii_digit(#[trigger] d[k]),
            i > 4 ==> d[4] == '-',
            i > 7 ==> d[7] == '-',
        decreases 10 - i,
    {
        let c = s[lo + i];
        assert(c == d[i as int]);
        if i == 4 || i == 7 {
            if c != '-' {
                return false;
            }
        } else if !ascii_digit(c) {
            return false;
        }
        i = i + 1;
    }
    true
}

/// Whether `name` is a chronicle file name, `chronicle-YYYY-MM-DD.md`.
pub fn is_chronicler_markdown_filename(name: &str) -> (b: bool)
    ensures
        b == is_chronicle_file_name(name@),
{
    let s = chars_of(name);
    let prefix = vec!['c', 'h', 'r', 'o', 'n', 'i', 'c', 'l', 'e', '-'];
    let suffix = vec!['.', 'm', 'd'];
    assert(prefix@ =~= chronicle_prefix());
    assert(suffix@ =~= md_suffix());
    let n = s.len();
    if n < 13 {
        proof {
            if has_chronicle_shape(name@) {
                lemma_chronicle_shape_len(name@);
            }
        }
        return false;
    }
    if !matches_at(&s, 0, &prefix) || !matches_at(&s, n - 3, &suffix) {
        return false;
    }
    date_text_at(&s, 10, n - 3)
}

/// Whether `name` is a journal file name, `YYYY-MM-DD.md`.
pub fn is_journal_markdown_filename(name: &str) -> (b: bool)
    ensures
        b == is_journal_file_name(name@),
{
    let s = chars_of(name);
    let suffix = vec!['.', 'm', 'd'];
    assert(suffix@ =~= md_suffix());
    let n = s.len();
    if n < 3 || !matches_at(&s, n - 3, &suffix) {
        return false;
    }
    date_text_at(&s, 0, n - 3)
}

/// The date part of a `chronicle-<date>.md` file name.
pub fn chronicler_date_from_path(name: &str) -> (r: Result<String, DateNameError>)
    ensures
        match r {
            Ok(d) => has_chronicle_shape(name@) && d@ == chronicle_date_part(name@),
            Err(e) => !has_chronicle_shape(name@) && e == DateNameError::DoesNotMatch,
        },
{
    let s = chars_of(name);
    let prefix = vec!['c', 'h', 'r', 'o', 'n', 'i', 'c', 'l', 'e', '-'];
    let suffix = vec!['.', 'm', 'd'];
    assert(prefix@ =~= chronicle_prefix());
    assert(suffix@ =~= md_suffix());
    let n = s.len();
    if n < 13 {
        proof {
            if has_chronicle_shape(name@) {
                lemma_chronicle_shape_len(name@);
            }
        }
        return Err(DateNameError::DoesNotMatch);
    }
    if !matches_at(&s, 0, &prefix) || !matches_at(&s, n - 3, &suffix) {
        return Err(DateNameError::DoesNotMatch);
    }
    Ok(name.substring_char(10, n - 3).to_string())
}

/// The date part of a `<date>.md` file name.
pub fn journal_date_from_path(name: &str) -> (r: Result<String, DateNameError>)
    ensures
        match r {
            Ok(d) => ends_with(name@, md_suffix()) && d@ == journal_date_part(name@),
            Err(e) => !ends_with(name@, md_suffix()) && e == DateNameError::DoesNotMatch,
        },
{
    let s = chars_of(name);
    let suffix = vec!['.', 'm', 'd'];
    assert(suffix@ =~= md_suffix());
    let n = s.len();
    if n < 3 || !matches_at(&s, n - 3, &suffix) {
        return Err(DateNameError::DoesNotMatch);
    }
    Ok(name.substring_char(0, n - 3).to_string())
}

} // verus!
