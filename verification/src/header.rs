//! YAML frontmatter headers of chronicle and journal files: a `prev` field and
//! an optional `journal` field between two `---` lines.

use vstd::prelude::*;

use crate::text::{
    char_free, chars_of, find_char, find_marker, first_index_of, first_marker_from, is_white_space,
    lemma_dash_free_marker_free, lemma_first_index_of_at, lemma_first_marker_at,
    lemma_marker_free_concat, lemma_trim_end_fixed, lemma_trim_start_fixed, marker_at, marker_free,
    trim, trim_bounds,
};

verus! {

/// A chronicle file's YAML frontmatter header.
pub struct Header {
    pub prev: String,
    pub journal: Option<String>,
}

/// What a header holds, as character sequences.
pub struct HeaderModel {
    pub prev: Seq<char>,
    pub journal: Option<Seq<char>>,
}

/// The characters of an optional string.
pub open spec fn opt_view(o: Option<String>) -> Option<Seq<char>> {
    match o {
        Some(s) => Some(s@),
        None => None,
    }
}

impl View for Header {
    type V = HeaderModel;

    open spec fn view(&self) -> HeaderModel {
        HeaderModel { prev: self.prev@, journal: opt_view(self.journal) }
    }
}

/// `---` followed by a line break.
pub open spec fn open_line() -> Seq<char> {
    seq!['-', '-', '-', '\n']
}

/// A line break followed by `---`.
pub open spec fn close_line() -> Seq<char> {
    seq!['\n', '-', '-', '-']
}

/// `prev: "`
pub open spec fn prev_intro() -> Seq<char> {
    seq!['p', 'r', 'e', 'v', ':', ' ', '"']
}

/// A line break and `journal: "`
pub open spec fn journal_intro() -> Seq<char> {
    seq!['\n', 'j', 'o', 'u', 'r', 'n', 'a', 'l', ':', ' ', '"']
}

/// One double quote.
pub open spec fn quote() -> Seq<char> {
    seq!['"']
}

/// The key `prev`.
pub open spec fn prev_key() -> Seq<char> {
    seq!['p', 'r', 'e', 'v']
}

/// The key `journal`.
pub open spec fn journal_key() -> Seq<char> {
    seq!['j', 'o', 'u', 'r', 'n', 'a', 'l']
}

/// The text of a header: `---`, the quoted `prev` line, the quoted `journal`
/// line when there is a journal, and `---`, one per line.
pub open spec fn header_text(h: HeaderModel) -> Seq<char> {
    open_line() + prev_intro() + h.prev + quote() + match h.journal {
        Some(j) => journal_intro() + j + quote(),
        None => Seq::empty(),
    } + close_line()
}

/// The text between the first `---` and the next `---` after it.
pub open spec fn between_dashes(s: Seq<char>) -> Option<Seq<char>> {
    match first_marker_from(s, 0) {
        None => None,
        Some(a) => match first_marker_from(s, a + 3) {
            None => None,
            Some(b) => Some(s.subrange(a + 3int, b as int)),
        },
    }
}

/// A value without one pair of enclosing double quotes, when it has them.
pub open spec fn unquote(v: Seq<char>) -> Seq<char> {
    if v.len() >= 2 && v[0] == '"' && v.last() == '"' {
        v.subrange(1, v.len() - 1)
    } else {
        v
    }
}

/// The `prev` and `journal` values seen so far.
pub type Fields = (Option<Seq<char>>, Option<Seq<char>>);

/// What one trimmed line does to the fields seen so far: a blank line does
/// nothing, a line without `:` is an error, `prev` and `journal` may each be
/// given once, other keys are ignored.
pub open spec fn apply_line(line: Seq<char>, acc: Fields) -> Option<Fields> {
    if line.len() == 0 {
        Some(acc)
    } else {
        let c = first_index_of(line, ':');
        if c == line.len() {
            None
        } else {
            let key = trim(line.subrange(0, c));
            let value = unquote(trim(line.subrange(c + 1, line.len() as int)));
            if key == prev_key() {
                if acc.0 is Some {
                    None
                } else {
                    Some((Some(value), acc.1))
                }
            } else if key == journal_key() {
                if acc.1 is Some {
                    None
                } else {
                    Some((acc.0, Some(value)))
                }
            } else {
                Some(acc)
            }
        }
    }
}

/// The text after the first line break of `s` (empty when there is none).
pub open spec fn after_first_line(s: Seq<char>) -> Seq<char> {
    let e = first_index_of(s, '\n');
    if e < s.len() {
        s.subrange(e + 1, s.len() as int)
    } else {
        Seq::empty()
    }
}

/// The fields of `s`, line by line, starting from `acc`.
pub open spec fn scan_lines(s: Seq<char>, acc: Fields) -> Option<Fields>
    decreases s.len(),
{
    if s.len() == 0 {
        Some(acc)
    } else {
        proof {
            crate::text::lemma_first_index_of(s, '\n');
        }
        let line = trim(s.subrange(0, first_index_of(s, '\n')));
        match apply_line(line, acc) {
            Some(next) => scan_lines(after_first_line(s), next),
            None => None,
        }
    }
}

/// The header that the text `s` describes, if it is well formed and has a `prev`.
pub open spec fn parsed_header(s: Seq<char>) -> Option<HeaderModel> {
    match scan_lines(s, (None, None)) {
        Some((Some(p), j)) => Some(HeaderModel { prev: p, journal: j }),
        _ => None,
    }
}

impl Header {
    /// The header as YAML frontmatter, for instance
    /// `---\nprev: "[[chronicle-2026-03-03]]"\njournal: "[[2026-03-04]]"\n---`.
    pub fn to_string(&self) -> (out: String)
        ensures
            out@ == header_text(self@),
    {
        let mut out = String::new();
        out.append("---\n");
        out.append("prev: \"");
        out.append(self.prev.as_str());
        out.append("\"");
        proof {
            reveal_strlit("---\n");
            reveal_strlit("prev: \"");
            reveal_strlit("\"");
        }
        match &self.journal {
            Some(j) => {
                out.append("\njournal: \"");
                out.append(j.as_str());
                out.append("\"");
                proof {
                    reveal_strlit("\njournal: \"");
                }
            },
            None => {},
        }
        out.append("\n---");
        proof {
            reveal_strlit("\n---");
        }
        out
    }
}

/// Extracts the content between the first pair of `---` delimiters.
///
/// Returns `None` if the input doesn't contain both opening and closing delimiters.
pub fn extract_between_dashes(input: &str) -> (out: Option<&str>)
    ensures
        match out {
            Some(t) => between_dashes(input@) == Some(t@),
            None => between_dashes(input@) is None,
        },
{
    let s = chars_of(input);
    let a = match find_marker(&s, 0) {
        Some(a) => a,
        None => return None,
    };
    proof {
        crate::text::lemma_first_marker_from(s@, 0);
    }
    let b = match find_marker(&s, a + 3) {
        Some(b) => b,
        None => return None,
    };
    proof {
        crate::text::lemma_first_marker_from(s@, (a + 3) as nat);
    }
    Some(input.substring_char(a + 3, b))
}

/// Whether `s[lo..hi]` is the given key.
fn is_key(s: &Vec<char>, lo: usize, hi: usize, prev: bool) -> (b: bool)
    requires
        lo <= hi <= s.len(),
    ensures
        b == (s@.subrange(lo as int, hi as int) == if prev {
            prev_key()
        } else {
            journal_key()
        }),
{
    let ghost key = s@.subrange(lo as int, hi as int);
    let r = if prev {
        hi - lo == 4 && s[lo] == 'p' && s[lo + 1] == 'r' && s[lo + 2] == 'e' && s[lo + 3] == 'v'
    } else {
        hi - lo == 7 && s[lo] == 'j' && s[lo + 1] == 'o' && s[lo + 2] == 'u' && s[lo + 3] == 'r'
            && s[lo + 4] == 'n' && s[lo + 5] == 'a' && s[lo + 6] == 'l'
    };
    proof {
        let want = if prev {
            prev_key()
        } else {
            journal_key()
        };
        if r {
            assert(key =~= want);
        } else if key == want {
            assert(key.len() == want.len());
            assert(key[0] == want[0]);
            assert(key[1] == want[1]);
            assert(key[2] == want[2]);
            assert(key[3] == want[3]);
            if !prev {
                assert(key[4] == want[4]);
                assert(key[5] == want[5]);
                assert(key[6] == want[6]);
            }
        }
    }
    r
}

/// Parses a YAML header string into a `Header`.
///
/// Returns `None` if the header is malformed or missing required fields.
/// The `prev` field is required, while `journal` is optional.
pub fn parse_header(header: &str) -> (out: Option<Header>)
    ensures
        match out {
            Some(h) => parsed_header(header@) == Some(h@),
            None => parsed_header(header@) is None,
        },
{
    let s = chars_of(header);
    let n = s.len();
    let mut prev: Option<String> = None;
    let mut journal: Option<String> = None;
    let mut pos: usize = 0;
    assert(s@.subrange(0, n as int) =~= s@);
    while pos < n
        invariant
            n == s@.len(),
            s@ == header@,
            pos <= n,
            scan_lines(s@.subrange(pos as int, n as int), (opt_view(prev), opt_view(journal)))
                == scan_lines(s@, (None, None)),
        decreases n - pos,
    {
        let ghost sub = s@.subrange(pos as int, n as int);
        let e = find_char(&s, pos, n, '\n');
        let (a, b) = trim_bounds(&s, pos, e);
        let next = if e < n {
            e + 1
        } else {
            n
        };
        proof {
            assert(s@.subrange(pos as int, e as int) =~= sub.subrange(0, e - pos));
            assert(s@.subrange(next as int, n as int) =~= after_first_line(sub));
        }
        let ghost line = s@.subrange(a as int, b as int);
        if a < b {
            let c = find_char(&s, a, b, ':');
            if c == b {
                return None;
            }
            let (ka, kb) = trim_bounds(&s, a, c);
            let (va, vb) = trim_bounds(&s, c + 1, b);
            proof {
                assert(s@.subrange(a as int, c as int) =~= line.subrange(0, c - a));
                assert(s@.subrange(c + 1, b as int) =~= line.subrange(c - a + 1, line.len() as int));
            }
            let quoted = vb - va >= 2 && s[va] == '"' && s[vb - 1] == '"';
            let (ua, ub) = if quoted {
                (va + 1, vb - 1)
            } else {
                (va, vb)
            };
            proof {
                let v = s@.subrange(va as int, vb as int);
                assert(s@.subrange(ua as int, ub as int) =~= unquote(v));
            }
            if is_key(&s, ka, kb, true) {
                if prev.is_some() {
                    return None;
                }
                prev = Some(header.substring_char(ua, ub).to_string());
            } else if is_key(&s, ka, kb, false) {
                if journal.is_some() {
                    return None;
                }
                journal = Some(header.substring_char(ua, ub).to_string());
            }
        }
        pos = next;
    }
    proof {
        assert(s@.subrange(pos as int, n as int) =~= Seq::<char>::empty());
    }
    match prev {
        Some(p) => Some(Header { prev: p, journal }),
        None => None,
    }
}

/// A value that a header line can carry and give back: no line break, no `---`.
pub open spec fn field_ok(v: Seq<char>) -> bool {
    char_free(v, '\n') && marker_free(v)
}

/// The line `key: "v"`.
pub open spec fn field_line(key: Seq<char>, v: Seq<char>) -> Seq<char> {
    key + seq![':', ' ', '"'] + v + quote()
}

/// The header text between its two `---`.
pub open spec fn header_body(h: HeaderModel) -> Seq<char> {
    seq!['\n'] + field_line(prev_key(), h.prev) + match h.journal {
        Some(j) => seq!['\n'] + field_line(journal_key(), j),
        None => Seq::empty(),
    } + seq!['\n']
}

proof fn lemma_header_text_parts(h: HeaderModel)
    ensures
        header_text(h) =~= seq!['-', '-', '-'] + header_body(h) + seq!['-', '-', '-'],
{
    assert(prev_intro() + h.prev + quote() =~= field_line(prev_key(), h.prev));
    if let Some(j) = h.journal {
        assert(journal_intro() + j + quote() =~= seq!['\n'] + field_line(journal_key(), j));
    }
}

/// Scanning a text whose first line is `l` applies `l` and goes on after the line break.
proof fn lemma_scan_first_line(l: Seq<char>, more: Seq<char>, acc: Fields)
    requires
        char_free(l, '\n'),
    ensures
        scan_lines(l + seq!['\n'] + more, acc) == match apply_line(trim(l), acc) {
            Some(next) => scan_lines(more, next),
            None => None,
        },
{
    let s = l + seq!['\n'] + more;
    lemma_first_index_of_at(s, '\n', l.len() as int);
    assert(s.subrange(0, l.len() as int) =~= l);
    assert(after_first_line(s) =~= more);
}

/// A line `key: "v"` with a known key sets that key's field to `v`.
proof fn lemma_apply_field_line(key: Seq<char>, v: Seq<char>, acc: Fields)
    requires
        key == prev_key() || key == journal_key(),
    ensures
        apply_line(trim(field_line(key, v)), acc) == if key == prev_key() {
            if acc.0 is Some {
                None
            } else {
                Some((Some(v), acc.1))
            }
        } else {
            if acc.1 is Some {
                None
            } else {
                Some((acc.0, Some(v)))
            }
        },
{
    let line = field_line(key, v);
    assert(!is_white_space(key[0]));
    assert(!is_white_space(line.last()));
    lemma_trim_start_fixed(line);
    lemma_trim_end_fixed(line);
    assert(trim(line) == line);
    assert forall|k: int| 0 <= k < key.len() implies line[k] != ':' by {
        assert(line[k] == key[k]);
    }
    assert(line[key.len() as int] == ':');
    lemma_first_index_of_at(line, ':', key.len() as int);
    let kpart = line.subrange(0, key.len() as int);
    assert(kpart =~= key);
    lemma_trim_start_fixed(key);
    lemma_trim_end_fixed(key);
    let vpart = line.subrange(key.len() + 1int, line.len() as int);
    assert(vpart =~= seq![' '] + (quote() + v + quote()));
    assert(is_white_space(vpart[0]));
    assert(vpart.drop_first() =~= quote() + v + quote());
    let q = quote() + v + quote();
    assert(!is_white_space(q[0]));
    assert(!is_white_space(q.last()));
    lemma_trim_start_fixed(q);
    lemma_trim_end_fixed(q);
    assert(trim(vpart) == q);
    assert(unquote(q) =~= v);
    assert(prev_key() != journal_key()) by {
        assert(prev_key().len() != journal_key().len());
    }
}

proof fn lemma_field_line_free(key: Seq<char>, v: Seq<char>)
    requires
        key == prev_key() || key == journal_key(),
        marker_free(v),
    ensures
        marker_free(field_line(key, v)),
        field_line(key, v).last() == '"',
        field_line(key, v)[0] != '-',
{
    let head = key + seq![':', ' ', '"'];
    assert(char_free(head, '-')) by {
        assert forall|k: int| 0 <= k < head.len() implies #[trigger] head[k] != '-' by {
            if k < key.len() {
                assert(head[k] == key[k]);
            }
        }
    }
    lemma_dash_free_marker_free(head);
    lemma_dash_free_marker_free(quote());
    lemma_marker_free_concat(head, v);
    lemma_marker_free_concat(head + v, quote());
    assert(field_line(key, v) =~= head + v + quote());
}

/// A header whose fields hold no `---` opens at the start and closes at its end: the text
/// between the first two `---` of the header followed by anything is the header's body.
pub proof fn lemma_between_dashes_of_header(h: HeaderModel, rest: Seq<char>)
    requires
        marker_free(h.prev),
        h.journal matches Some(j) ==> marker_free(j),
    ensures
        first_marker_from(header_text(h) + rest, 0) == Some(0nat),
        first_marker_from(header_text(h) + rest, 3) == Some((header_text(h).len() - 3) as nat),
        header_text(h).len() == header_body(h).len() + 6,
        between_dashes(header_text(h) + rest) == Some(header_body(h)),
{
    let body = header_body(h);
    let dashes = seq!['-', '-', '-'];
    let t = header_text(h) + rest;
    lemma_header_text_parts(h);
    assert(t =~= dashes + body + dashes + rest);
    let m: int = 3 + body.len() as int;
    // the body holds no `---`
    lemma_field_line_free(prev_key(), h.prev);
    let nl = seq!['\n'];
    lemma_dash_free_marker_free(nl);
    lemma_marker_free_concat(nl, field_line(prev_key(), h.prev));
    let first = nl + field_line(prev_key(), h.prev);
    let jpart = match h.journal {
        Some(j) => nl + field_line(journal_key(), j),
        None => Seq::empty(),
    };
    if let Some(j) = h.journal {
        lemma_field_line_free(journal_key(), j);
        lemma_marker_free_concat(nl, field_line(journal_key(), j));
    } else {
        assert(marker_free(jpart));
    }
    assert(first.last() == '"');
    lemma_marker_free_concat(first, jpart);
    assert((first + jpart).len() > 0 && (first + jpart).last() != '-');
    lemma_marker_free_concat(first + jpart, nl);
    assert(body =~= first + jpart + nl);
    assert(marker_at(t, 0));
    lemma_first_marker_at(t, 0, 0);
    assert(marker_at(t, m));
    assert forall|k: int| 3 <= k < m implies !#[trigger] marker_at(t, k) by {
        if marker_at(t, k) {
            if k + 3 <= m {
                assert(marker_at(body, k - 3));
            } else {
                assert(t[m - 1] == body.last());
            }
        }
    }
    lemma_first_marker_at(t, 3, m as nat);
    assert(t.subrange(3, m as int) =~= body);
}

/// Reading a header's body gives the header back.
proof fn lemma_parse_header_body(h: HeaderModel)
    requires
        field_ok(h.prev),
        h.journal matches Some(j) ==> field_ok(j),
    ensures
        parsed_header(header_body(h)) == Some(h),
{
    let nl = seq!['\n'];
    let pl = field_line(prev_key(), h.prev);
    let empty = Seq::<char>::empty();
    let none: Fields = (None, None);
    assert(char_free(pl, '\n')) by {
        assert forall|k: int| 0 <= k < pl.len() implies #[trigger] pl[k] != '\n' by {
            if k >= 7 && k < 7 + h.prev.len() {
                assert(pl[k] == h.prev[k - 7]);
            }
        }
    }
    lemma_trim_start_fixed(empty);
    lemma_trim_end_fixed(empty);
    lemma_apply_field_line(prev_key(), h.prev, none);
    let after_prev: Fields = (Some(h.prev), None);
    match h.journal {
        Some(j) => {
            let jl = field_line(journal_key(), j);
            assert(char_free(jl, '\n')) by {
                assert forall|k: int| 0 <= k < jl.len() implies #[trigger] jl[k] != '\n' by {
                    if k >= 10 && k < 10 + j.len() {
                        assert(jl[k] == j[k - 10]);
                    }
                }
            }
            let body = header_body(h);
            assert(body =~= empty + nl + (pl + nl + (jl + nl + empty)));
            lemma_scan_first_line(empty, pl + nl + (jl + nl + empty), none);
            lemma_scan_first_line(pl, jl + nl + empty, none);
            lemma_apply_field_line(journal_key(), j, after_prev);
            lemma_scan_first_line(jl, empty, after_prev);
        },
        None => {
            let body = header_body(h);
            assert(body =~= empty + nl + (pl + nl + empty));
            lemma_scan_first_line(empty, pl + nl + empty, none);
            lemma_scan_first_line(pl, empty, none);
        },
    }
}

/// What a header writes is what reading it gives back: for a header whose
/// fields hold no line break and no `---`, the text between the first two
/// `---` of the header followed by anything parses to that header.
pub proof fn lemma_header_roundtrip(h: HeaderModel, rest: Seq<char>)
    requires
        field_ok(h.prev),
        h.journal matches Some(j) ==> field_ok(j),
    ensures
        between_dashes(header_text(h) + rest) == Some(header_body(h)),
        parsed_header(header_body(h)) == Some(h),
{
    lemma_between_dashes_of_header(h, rest);
    lemma_parse_header_body(h);
}

} // verus!
