//! Character-level helpers over the `Seq<char>` view of strings: white space,
//! trimming, searching for a character or for the `---` marker.

use vstd::prelude::*;
use vstd::std_specs::iter::IteratorSpec;

verus! {

/// The characters with the Unicode `White_Space` property, which is what
/// `char::is_whitespace` and `str::trim` go by.
pub open spec fn is_white_space(c: char) -> bool {
    let u = c as u32;
    ||| 0x9 <= u <= 0xd
    ||| u == 0x20
    ||| u == 0x85
    ||| u == 0xa0
    ||| u == 0x1680
    ||| 0x2000 <= u <= 0x200a
    ||| u == 0x2028
    ||| u == 0x2029
    ||| u == 0x202f
    ||| u == 0x205f
    ||| u == 0x3000
}

/// `s` without its leading white space.
pub open spec fn trim_start(s: Seq<char>) -> Seq<char>
    decreases s.len(),
{
    if s.len() > 0 && is_white_space(s[0]) {
        trim_start(s.drop_first())
    } else {
        s
    }
}

/// `s` without its trailing white space.
pub open spec fn trim_end(s: Seq<char>) -> Seq<char>
    decreases s.len(),
{
    if s.len() > 0 && is_white_space(s.last()) {
        trim_end(s.drop_last())
    } else {
        s
    }
}

/// `s` without leading and trailing white space (`str::trim`).
pub open spec fn trim(s: Seq<char>) -> Seq<char> {
    trim_end(trim_start(s))
}

/// The index of the first `c` in `s`, or `s.len()` when there is none.
pub open spec fn first_index_of(s: Seq<char>, c: char) -> int
    decreases s.len(),
{
    if s.len() == 0 {
        0
    } else if s[0] == c {
        0
    } else {
        1 + first_index_of(s.drop_first(), c)
    }
}

/// Three dashes start at index `i` of `s`.
pub open spec fn marker_at(s: Seq<char>, i: int) -> bool {
    &&& 0 <= i
    &&& i + 3 <= s.len()
    &&& s[i] == '-'
    &&& s[i + 1] == '-'
    &&& s[i + 2] == '-'
}

/// The start of the first `---` in `s` at or after index `i`.
pub open spec fn first_marker_from(s: Seq<char>, i: nat) -> Option<nat>
    decreases s.len() - i,
{
    if i + 3 > s.len() {
        None
    } else if marker_at(s, i as int) {
        Some(i)
    } else {
        first_marker_from(s, i + 1)
    }
}

/// `s` holds no `---`.
pub open spec fn marker_free(s: Seq<char>) -> bool {
    forall|k: int| !#[trigger] marker_at(s, k)
}

/// `s` holds no `c`.
pub open spec fn char_free(s: Seq<char>, c: char) -> bool {
    forall|k: int| 0 <= k < s.len() ==> #[trigger] s[k] != c
}

pub proof fn lemma_first_index_of(s: Seq<char>, c: char)
    ensures
        0 <= first_index_of(s, c) <= s.len(),
        forall|k: int| 0 <= k < first_index_of(s, c) ==> s[k] != c,
        first_index_of(s, c) < s.len() ==> s[first_index_of(s, c)] == c,
    decreases s.len(),
{
    if s.len() > 0 && s[0] != c {
        lemma_first_index_of(s.drop_first(), c);
        assert forall|k: int| 0 <= k < first_index_of(s, c) implies s[k] != c by {
            if k > 0 {
                assert(s[k] == s.drop_first()[k - 1]);
            }
        }
    }
}

/// The first `c` is at `i` when no `c` comes before `i` and `i` holds a `c` or is the end.
pub proof fn lemma_first_index_of_at(s: Seq<char>, c: char, i: int)
    requires
        0 <= i <= s.len(),
        forall|k: int| 0 <= k < i ==> s[k] != c,
        i < s.len() ==> s[i] == c,
    ensures
        first_index_of(s, c) == i,
{
    lemma_first_index_of(s, c);
    let r = first_index_of(s, c);
    if r < i {
        assert(s[r] == c);
    } else if i < r {
        assert(s[i] != c);
    }
}

pub proof fn lemma_first_marker_from(s: Seq<char>, i: nat)
    ensures
        match first_marker_from(s, i) {
            Some(j) => {
                &&& i <= j
                &&& marker_at(s, j as int)
                &&& forall|k: int| i <= k < j ==> !#[trigger] marker_at(s, k)
            },
            None => forall|k: int| i <= k ==> !#[trigger] marker_at(s, k),
        },
    decreases s.len() - i,
{
    if i + 3 <= s.len() && !marker_at(s, i as int) {
        lemma_first_marker_from(s, i + 1);
    }
}

/// The first `---` at or after `i` starts at `j` when `j` holds one and none starts between.
pub proof fn lemma_first_marker_at(s: Seq<char>, i: nat, j: nat)
    requires
        i <= j,
        marker_at(s, j as int),
        forall|k: int| i <= k < j ==> !#[trigger] marker_at(s, k),
    ensures
        first_marker_from(s, i) == Some(j),
{
    lemma_first_marker_from(s, i);
    match first_marker_from(s, i) {
        Some(r) => {
            if r < j {
                assert(marker_at(s, r as int));
            } else if j < r {
                assert(!marker_at(s, j as int));
            }
        },
        None => {
            assert(!marker_at(s, j as int));
        },
    }
}

/// A `---` of `a + b` lies in `a`, in `b`, or across the seam, where it needs a dash on each side.
pub proof fn lemma_marker_free_concat(a: Seq<char>, b: Seq<char>)
    requires
        marker_free(a),
        marker_free(b),
        a.len() == 0 || b.len() == 0 || a.last() != '-' || b[0] != '-',
    ensures
        marker_free(a + b),
{
    let s = a + b;
    assert forall|k: int| !#[trigger] marker_at(s, k) by {
        if marker_at(s, k) {
            if k + 3 <= a.len() {
                assert(marker_at(a, k));
            } else if k >= a.len() {
                assert(marker_at(b, k - a.len()));
            } else {
                assert(s[a.len() - 1] == a.last());
                assert(s[a.len() as int] == b[0]);
            }
        }
    }
}

/// A sequence without dashes holds no `---`.
pub proof fn lemma_dash_free_marker_free(s: Seq<char>)
    requires
        char_free(s, '-'),
    ensures
        marker_free(s),
{
    assert forall|k: int| !#[trigger] marker_at(s, k) by {
        if 0 <= k < s.len() {
            assert(s[k] != '-');
        }
    }
}

/// No dash of `s` is followed by another dash, and `s` does not end in one.
pub open spec fn dash_separated(s: Seq<char>) -> bool {
    &&& s.len() > 0
    &&& s.last() != '-'
    &&& forall|i: int| 0 <= i < s.len() - 1 && #[trigger] s[i] == '-' ==> s[i + 1] != '-'
}

/// A text between an opening that does not end in two dashes and a closing
/// without dashes holds no `---` when the text between has no two dashes in a row.
pub proof fn lemma_enclosed_marker_free(open: Seq<char>, d: Seq<char>, close: Seq<char>)
    requires
        marker_free(open),
        open.len() >= 2,
        open[open.len() - 2] != '-',
        dash_separated(d),
        char_free(close, '-'),
    ensures
        marker_free(open + d + close),
{
    let s = open + d + close;
    let o = open.len() as int;
    let e = o + d.len();
    assert forall|k: int| !#[trigger] marker_at(s, k) by {
        if marker_at(s, k) {
            if k + 3 <= o {
                assert(marker_at(open, k));
            } else if k == o - 2 {
                assert(s[k] == open[o - 2]);
            } else if k == o - 1 {
                assert(s[k + 1] == d[0]);
                if d.len() == 1 {
                    assert(s[k + 2] == close[0]);
                } else {
                    assert(s[k + 2] == d[1]);
                }
            } else if k + 1 < e {
                assert(s[k] == d[k - o]);
                assert(s[k + 1] == d[k - o + 1]);
            } else if k + 1 == e {
                assert(s[k + 1] == d.last());
            } else {
                assert(s[k] == close[k - e]);
            }
        }
    }
}

pub proof fn lemma_trim_start_fixed(s: Seq<char>)
    requires
        s.len() == 0 || !is_white_space(s[0]),
    ensures
        trim_start(s) == s,
{
}

pub proof fn lemma_trim_end_fixed(s: Seq<char>)
    requires
        s.len() == 0 || !is_white_space(s.last()),
    ensures
        trim_end(s) == s,
{
}

/// Copies the characters of `s` into a vector.
pub fn chars_of(s: &str) -> (out: Vec<char>)
    ensures
        out@ == s@,
{
    let mut out: Vec<char> = Vec::new();
    for c in it: s.chars()
        invariant
            out@ == it.seq().take(it.index() as int),
    {
        out.push(c);
    }
    out
}

/// Whether two strings hold the same characters.
pub fn same_text(a: &str, b: &str) -> (r: bool)
    ensures
        r == (a@ == b@),
{
    let x = chars_of(a);
    let y = chars_of(b);
    if x.len() != y.len() {
        return false;
    }
    let mut i: usize = 0;
    while i < x.len()
        invariant
            x@ == a@,
            y@ == b@,
            x@.len() == y@.len(),
            i <= x@.len(),
            forall|k: int| 0 <= k < i ==> x@[k] == y@[k],
        decreases x.len() - i,
    {
        if x[i] != y[i] {
            assert(x@[i as int] != y@[i as int]);
            return false;
        }
        i = i + 1;
    }
    assert(x@ =~= y@);
    true
}

/// Whether `c` has the Unicode `White_Space` property.
pub fn white_space(c: char) -> (b: bool)
    ensures
        b == is_white_space(c),
{
    let u = c as u32;
    (0x9 <= u && u <= 0xd) || u == 0x20 || u == 0x85 || u == 0xa0 || u == 0x1680 || (0x2000 <= u
        && u <= 0x200a) || u == 0x2028 || u == 0x2029 || u == 0x202f || u == 0x205f || u == 0x3000
}

/// The position of the first `c` in `s[lo..hi]`, or `hi`.
pub fn find_char(s: &Vec<char>, lo: usize, hi: usize, c: char) -> (r: usize)
    requires
        lo <= hi <= s.len(),
    ensures
        lo <= r <= hi,
        r - lo == first_index_of(s@.subrange(lo as int, hi as int), c),
{
    let mut i = lo;
    while i < hi && s[i] != c
        invariant
            lo <= i <= hi <= s.len(),
            forall|k: int| lo <= k < i ==> s@[k] != c,
        decreases hi - i,
    {
        i = i + 1;
    }
    proof {
        let sub = s@.subrange(lo as int, hi as int);
        assert forall|k: int| 0 <= k < i - lo implies sub[k] != c by {
            assert(sub[k] == s@[lo + k]);
        }
        lemma_first_index_of_at(sub, c, i - lo);
    }
    i
}

/// The start of the first `---` in `s` at or after `from`.
pub fn find_marker(s: &Vec<char>, from: usize) -> (r: Option<usize>)
    ensures
        match r {
            Some(j) => first_marker_from(s@, from as nat) == Some(j as nat),
            None => first_marker_from(s@, from as nat) is None,
        },
{
    let n = s.len();
    let mut i = from;
    while i < n && n - i >= 3
        invariant
            n == s@.len(),
            from <= i,
            first_marker_from(s@, i as nat) == first_marker_from(s@, from as nat),
        decreases n - i,
    {
        if s[i] == '-' && s[i + 1] == '-' && s[i + 2] == '-' {
            return Some(i);
        }
        i = i + 1;
    }
    None
}

/// The bounds of `trim(s[lo..hi])` inside `s`.
pub fn trim_bounds(s: &Vec<char>, lo: usize, hi: usize) -> (r: (usize, usize))
    requires
        lo <= hi <= s.len(),
    ensures
        lo <= r.0 <= r.1 <= hi,
        s@.subrange(r.0 as int, r.1 as int) == trim(s@.subrange(lo as int, hi as int)),
{
    let mut a = lo;
    while a < hi && white_space(s[a])
        invariant
            lo <= a <= hi <= s.len(),
            trim_start(s@.subrange(a as int, hi as int)) == trim_start(
                s@.subrange(lo as int, hi as int),
            ),
        decreases hi - a,
    {
        assert(s@.subrange(a as int, hi as int).drop_first() =~= s@.subrange(
            a + 1,
            hi as int,
        ));
        a = a + 1;
    }
    let mut b = hi;
    while b > a && white_space(s[b - 1])
        invariant
            lo <= a <= b <= hi <= s.len(),
            trim_end(s@.subrange(a as int, b as int)) == trim_end(
                s@.subrange(a as int, hi as int),
            ),
        decreases b - a,
    {
        assert(s@.subrange(a as int, b as int).drop_last() =~= s@.subrange(
            a as int,
            b - 1,
        ));
        b = b - 1;
    }
    (a, b)
}

} // verus!
