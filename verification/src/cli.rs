//! The command line: which mode the arguments ask for.

use vstd::prelude::*;

use crate::names::is_ascii_digit;
use crate::text::{chars_of, same_text};

verus! {

/// What the command line asks for.
#[derive(Debug, PartialEq, Eq)]
pub enum Command {
    /// Show the last so many chronicle files.
    ReadLast(usize),
    /// Put headers in every chronicle and journal file.
    UpdateHeaders,
    /// Append this entry to today's chronicle.
    Append(String),
    /// Nothing that the tool knows: show how to use it.
    ShowUsage,
}

/// The value of a run of ASCII digits.
pub open spec fn decimal_value(d: Seq<char>) -> int
    decreases d.len(),
{
    if d.len() == 0 {
        0
    } else {
        10 * decimal_value(d.drop_last()) + ((d.last() as u32) - 48)
    }
}

pub open spec fn all_digits(d: Seq<char>) -> bool {
    forall|i: int| 0 <= i < d.len() ==> is_ascii_digit(#[trigger] d[i])
}

/// What `str::parse::<usize>` gives: an optional `+`, then one or more ASCII
/// digits whose value fits a `usize`.
pub open spec fn parsed_count(s: Seq<char>) -> Option<int> {
    let d = if s.len() > 0 && s[0] == '+' {
        s.drop_first()
    } else {
        s
    };
    if d.len() == 0 || !all_digits(d) || decimal_value(d) > usize::MAX {
        None
    } else {
        Some(decimal_value(d))
    }
}

/// The number of files that `--read` shows when no count follows it.
pub open spec fn default_read_count() -> int {
    7
}

/// The read request of `args` from position `i` on: `--today` asks for one
/// file, `--read` for the count after it or the default; the first of them counts.
pub open spec fn read_request_from(args: Seq<String>, i: int) -> Option<int>
    decreases args.len() - i,
{
    if i < 0 || i >= args.len() {
        None
    } else if args[i]@ == "--today"@ {
        Some(1)
    } else if args[i]@ == "--read"@ {
        if i + 1 < args.len() && parsed_count(args[i + 1]@) is Some {
            parsed_count(args[i + 1]@)
        } else {
            Some(default_read_count())
        }
    } else {
        read_request_from(args, i + 1)
    }
}

/// The read request of a command line; the program's name comes first and is skipped.
pub open spec fn read_request(args: Seq<String>) -> Option<int> {
    read_request_from(args, 1)
}

/// Some argument after the program's name is `--update-headers` or `-u`.
pub open spec fn update_requested(args: Seq<String>) -> bool {
    exists|i: int|
        1 <= i < args.len() && (#[trigger] args[i]@ == "--update-headers"@ || args[i]@ == "-u"@)
}

/// The command that a command line asks for: a read request first, then an
/// update request, then an entry to append, else the usage text.
pub open spec fn command_of(args: Seq<String>) -> Command {
    match read_request(args) {
        Some(n) => Command::ReadLast(n as usize),
        None => if update_requested(args) {
            Command::UpdateHeaders
        } else if args.len() >= 2 {
            Command::Append(args[1])
        } else {
            Command::ShowUsage
        },
    }
}

proof fn lemma_decimal_value_grows(d: Seq<char>, k: int)
    requires
        all_digits(d),
        0 <= k <= d.len(),
    ensures
        0 <= decimal_value(d.take(k)) <= decimal_value(d),
    decreases d.len(),
{
    if d.len() > 0 {
        if k == d.len() {
            assert(d.take(k) =~= d);
            lemma_decimal_value_grows(d.drop_last(), k - 1);
        } else {
            assert(d.take(k) =~= d.drop_last().take(k));
            lemma_decimal_value_grows(d.drop_last(), k);
        }
        assert(is_ascii_digit(d[d.len() - 1]));
    }
}

/// A count as `str::parse::<usize>` reads it.
pub fn parse_count(s: &str) -> (r: Option<usize>)
    ensures
        match r {
            Some(n) => parsed_count(s@) == Some(n as int),
            None => parsed_count(s@) is None,
        },
{
    let c = chars_of(s);
    let n = c.len();
    let start: usize = if n > 0 && c[0] == '+' {
        1
    } else {
        0
    };
    let ghost d = c@.subrange(start as int, n as int);
    assert(d =~= if s@.len() > 0 && s@[0] == '+' {
        s@.drop_first()
    } else {
        s@
    });
    if start == n {
        return None;
    }
    let mut v: usize = 0;
    let mut i = start;
    while i < n
        invariant
            start <= i <= n,
            n == c@.len(),
            d == c@.subrange(start as int, n as int),
            d == if s@.len() > 0 && s@[0] == '+' {
                s@.drop_first()
            } else {
                s@
            },
            all_digits(d.take(i - start)),
            v == decimal_value(d.take(i - start)),
        decreases n - i,
    {
        let ch = c[i];
        let u = ch as u32;
        assert(ch == d[i - start]);
        if u < 0x30 || u > 0x39 {
            assert(!is_ascii_digit(d[i - start]));
            return None;
        }
        assert(d.take(i - start + 1).drop_last() =~= d.take(i - start));
        assert(d.take(i - start + 1).last() == ch);
        assert(decimal_value(d.take(i - start + 1)) == 10 * v + (u - 48));
        assert(all_digits(d.take(i - start + 1)));
        match v.checked_mul(10) {
            Some(t) => match t.checked_add((u - 0x30) as usize) {
                Some(w) => {
                    v = w;
                },
                None => {
                    proof {
                        if all_digits(d) {
                            lemma_decimal_value_grows(d, i - start + 1);
                        }
                    }
                    return None;
                },
            },
            None => {
                proof {
                    if all_digits(d) {
                        lemma_decimal_value_grows(d, i - start + 1);
                    }
                }
                return None;
            },
        }
        i = i + 1;
    }
    assert(d.take(n - start) =~= d);
    Some(v)
}

/// How many chronicle files the command line asks to show, if it asks.
pub fn should_read_last_n(args: Vec<String>) -> (r: Option<usize>)
    ensures
        match r {
            Some(n) => read_request(args@) == Some(n as int),
            None => read_request(args@) is None,
        },
{
    let mut i: usize = 1;
    while i < args.len()
        invariant
            1 <= i,
            read_request_from(args@, i as int) == read_request(args@),
        decreases args.len() - i,
    {
        if same_text(args[i].as_str(), "--today") {
            return Some(1);
        }
        if same_text(args[i].as_str(), "--read") {
            if i + 1 < args.len() {
                match parse_count(args[i + 1].as_str()) {
                    Some(n) => {
                        return Some(n);
                    },
                    None => {},
                }
            }
            return Some(7);
        }
        i = i + 1;
    }
    None
}

/// Whether the command line asks to update the headers.
pub fn should_update_headers(args: Vec<String>) -> (r: bool)
    ensures
        r == update_requested(args@),
{
    let mut i: usize = 1;
    while i < args.len()
        invariant
            1 <= i,
            forall|k: int|
                1 <= k < i && k < args@.len() ==> !(#[trigger] args@[k]@ == "--update-headers"@
                    || args@[k]@ == "-u"@),
        decreases args.len() - i,
    {
        if same_text(args[i].as_str(), "--update-headers") || same_text(args[i].as_str(), "-u") {
            return true;
        }
        i = i + 1;
    }
    false
}

/// The command that the command line asks for.
pub fn parse_command(args: Vec<String>) -> (c: Command)
    ensures
        c == command_of(args@),
{
    let n = args.len();
    let first = if n >= 2 {
        Some(args[1].clone())
    } else {
        None
    };
    match should_read_last_n(args.clone()) {
        Some(k) => Command::ReadLast(k),
        None => {
            if should_update_headers(args) {
                Command::UpdateHeaders
            } else {
                match first {
                    Some(entry) => Command::Append(entry),
                    None => Command::ShowUsage,
                }
            }
        },
    }
}

} // verus!
