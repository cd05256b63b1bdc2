//! Chronicle files, `chronicle-YYYY-MM-DD.md`: what a new day's file starts
//! with, how an entry line reads, and how a file's header is put in place.

use vstd::prelude::*;

use crate::clock::{
    date_text, is_calendar_date, format_time, lemma_date_text_is_date, lemma_date_text_shape, push_date,
    read_local_clock, reading_in_range, clock_reading, lemma_reading_is_minute_of_day, time_text, ClockReading,
};
use crate::header::{
    between_dashes, field_ok, header_body, header_text, lemma_between_dashes_of_header,
    lemma_header_roundtrip, parsed_header, Header, HeaderModel,
};
use crate::names::{
    chronicle_date_part, chronicle_prefix, chronicler_date_from_path, has_chronicle_shape,
    is_chronicle_file_name, md_suffix, DateNameError,
};
use crate::text::{chars_of, find_marker, first_marker_from, marker_at, marker_free};
use crate::updates::{
    chronicle_link, dated_positions, journal_link, lemma_date_text_separated, lemma_link_ok,
    lemma_planned_prev_ok, planned_prev, FileKind,
};

verus! {

/// What appending an entry writes: the file's name, the text that a new file
/// starts with, and the entry's line.
#[derive(Debug)]
pub struct AppendPlan {
    pub file_name: String,
    pub preamble: String,
    pub entry_line: String,
}

/// `## Chronicles` on a line of its own, between blank lines.
pub open spec fn chronicles_heading() -> Seq<char> {
    seq!['\n', '\n', '#', '#', ' ', 'C', 'h', 'r', 'o', 'n', 'i', 'c', 'l', 'e', 's', '\n', '\n']
}

/// The header of a new chronicle: `prev` links yesterday's chronicle and
/// `journal` links today's journal entry.
pub open spec fn new_chronicle_header(r: ClockReading) -> HeaderModel {
    HeaderModel {
        prev: chronicle_link(date_text(r.yesterday)),
        journal: Some(journal_link(date_text(r.today))),
    }
}

/// `chronicle-<today>.md`
pub open spec fn chronicle_file_name(r: ClockReading) -> Seq<char> {
    chronicle_prefix() + date_text(r.today) + md_suffix()
}

/// What a new chronicle file starts with: its header, a blank line,
/// `## Chronicles` and another blank line.
pub open spec fn chronicle_preamble(r: ClockReading) -> Seq<char> {
    header_text(new_chronicle_header(r)) + chronicles_heading()
}

/// `- HH:MM: <entry>` and a line break.
pub open spec fn entry_line(r: ClockReading, entry: Seq<char>) -> Seq<char> {
    seq!['-', ' '] + time_text(r.hour as int, r.minute as int) + seq![':', ' '] + entry + seq![
        '\n',
    ]
}

/// The plan for appending `entry` at the time that `r` reads.
pub open spec fn append_plan_matches(p: AppendPlan, r: ClockReading, entry: Seq<char>) -> bool {
    &&& p.file_name@ == chronicle_file_name(r)
    &&& p.preamble@ == chronicle_preamble(r)
    &&& p.entry_line@ == entry_line(r, entry)
}

/// The header of the chronicle of `date` with the given `prev` link.
pub open spec fn chronicle_header(prev: Seq<char>, date: Seq<char>) -> HeaderModel {
    HeaderModel { prev, journal: Some(journal_link(date)) }
}

/// `s` opens with frontmatter: it starts with `---` and has another `---` after it.
pub open spec fn has_frontmatter(s: Seq<char>) -> bool {
    marker_at(s, 0) && first_marker_from(s, 3) is Some
}

/// The text after a chronicle's frontmatter and the line break that follows
/// it; all of `s` when `s` does not open with frontmatter.
pub open spec fn text_after_header(s: Seq<char>) -> Seq<char> {
    if has_frontmatter(s) {
        let after = first_marker_from(s, 3)->0 + 3;
        if after < s.len() && s[after as int] == '\n' {
            s.subrange(after + 1int, s.len() as int)
        } else {
            s.subrange(after as int, s.len() as int)
        }
    } else {
        s
    }
}

/// A chronicle's text with `h` in place of the frontmatter it opens with, or in front
/// of the whole text when it does not open with frontmatter.
pub open spec fn with_header(s: Seq<char>, h: HeaderModel) -> Seq<char> {
    header_text(h) + seq!['\n'] + text_after_header(s)
}

/// The new text of a chronicle file, and whether it replaced a header.
#[derive(Debug)]
pub struct ContentsUpdate {
    pub contents: String,
    pub replaced: bool,
}

/// The plan for appending `entry_text` to the chronicle of the day that `clock` reads.
pub fn plan_chronicle_append(clock: &ClockReading, entry_text: &str) -> (p: AppendPlan)
    requires
        reading_in_range(*clock),
    ensures
        append_plan_matches(p, *clock, entry_text@),
{
    proof {
        reveal_strlit("chronicle-");
        reveal_strlit(".md");
        reveal_strlit("[[chronicle-");
        reveal_strlit("[[");
        reveal_strlit("]]");
        reveal_strlit("\n\n## Chronicles\n\n");
        reveal_strlit("- ");
        reveal_strlit(": ");
        reveal_strlit("\n");
    }
    let mut file_name = String::new();
    file_name.append("chronicle-");
    push_date(&mut file_name, clock.today);
    file_name.append(".md");
    assert(file_name@ =~= chronicle_file_name(*clock));

    let mut prev = String::new();
    prev.append("[[chronicle-");
    push_date(&mut prev, clock.yesterday);
    prev.append("]]");
    let mut journal = String::new();
    journal.append("[[");
    push_date(&mut journal, clock.today);
    journal.append("]]");
    assert(prev@ =~= chronicle_link(date_text(clock.yesterday)));
    assert(journal@ =~= journal_link(date_text(clock.today)));
    let header = Header { prev, journal: Some(journal) };
    let mut preamble = header.to_string();
    preamble.append("\n\n## Chronicles\n\n");
    assert(preamble@ =~= chronicle_preamble(*clock));

    let mut line = String::new();
    line.append("- ");
    let time = format_time(clock.hour, clock.minute);
    line.append(time.as_str());
    line.append(": ");
    line.append(entry_text);
    line.append("\n");
    assert(line@ =~= entry_line(*clock, entry_text@));
    AppendPlan { file_name, preamble, entry_line: line }
}

/// Reads the local clock and plans appending `entry_text` to that day's chronicle.
pub fn plan_chronicle_append_now(entry_text: &str) -> (r: (ClockReading, AppendPlan))
    ensures
        reading_in_range(r.0),
        is_calendar_date(r.0.today),
        is_calendar_date(r.0.yesterday),
        append_plan_matches(r.1, r.0, entry_text@),
{
    let raw = read_local_clock();
    let clock = clock_reading(&raw);
    proof {
        lemma_reading_is_minute_of_day(raw);
    }
    let plan = plan_chronicle_append(&clock, entry_text);
    (clock, plan)
}

/// The new text of the chronicle file `name` whose text is `contents`: the
/// header with `prev` and a `journal` link to the file's date, a line break,
/// and the text after the frontmatter that `contents` opens with (a `---` at
/// the very start and the next `---`, with one line break after it); the
/// whole text, kept in full, when it does not open with frontmatter.
/// Fails when `name` is not `chronicle-<date>.md`.
pub fn chronicle_contents_with_header(contents: &str, name: &str, prev: &str) -> (r: Result<
    ContentsUpdate,
    DateNameError,
>)
    ensures
        match r {
            Ok(u) => {
                &&& has_chronicle_shape(name@)
                &&& u.replaced == has_frontmatter(contents@)
                &&& u.contents@ == with_header(
                    contents@,
                    chronicle_header(prev@, chronicle_date_part(name@)),
                )
            },
            Err(e) => !has_chronicle_shape(name@) && e == DateNameError::DoesNotMatch,
        },
{
    proof {
        reveal_strlit("[[");
        reveal_strlit("]]");
        reveal_strlit("\n");
    }
    let date = match chronicler_date_from_path(name) {
        Ok(d) => d,
        Err(e) => return Err(e),
    };
    let mut journal = String::new();
    journal.append("[[");
    journal.append(date.as_str());
    journal.append("]]");
    let header = Header { prev: prev.to_string(), journal: Some(journal) };
    let ghost h = chronicle_header(prev@, chronicle_date_part(name@));
    assert(journal@ =~= journal_link(chronicle_date_part(name@)));
    assert(header@ == h);
    let mut out = header.to_string();
    out.append("\n");
    let s = chars_of(contents);
    let n = s.len();
    let mut replaced = false;
    let opens = n >= 3 && s[0] == '-' && s[1] == '-' && s[2] == '-';
    let closing = if opens {
        find_marker(&s, 3)
    } else {
        None
    };
    match closing {
        Some(b) => {
            proof {
                crate::text::lemma_first_marker_from(s@, 3);
            }
            let after = b + 3;
            let start = if after < n && s[after] == '\n' {
                after + 1
            } else {
                after
            };
            out.append(contents.substring_char(start, n));
            replaced = true;
        },
        None => {
            out.append(contents);
        },
    }
    assert(out@ =~= with_header(contents@, h));
    Ok(ContentsUpdate { contents: out, replaced })
}

/// A new chronicle's `prev` and `journal` links can be header values.
proof fn lemma_new_chronicle_header_ok(r: ClockReading)
    requires
        reading_in_range(r),
    ensures
        field_ok(new_chronicle_header(r).prev),
        field_ok(journal_link(date_text(r.today))),
{
    lemma_date_text_shape(r.yesterday);
    lemma_date_text_shape(r.today);
    lemma_link_ok(FileKind::Chronicle, date_text(r.yesterday));
    lemma_link_ok(FileKind::Journal, date_text(r.today));
}

/// A new chronicle file, whatever entries follow its preamble, reads back the
/// header it was created with: `prev` links yesterday's chronicle and
/// `journal` links today's journal entry.
pub proof fn lemma_new_chronicle_reads_back(r: ClockReading, entries: Seq<char>)
    requires
        reading_in_range(r),
    ensures
        between_dashes(chronicle_preamble(r) + entries) == Some(
            header_body(new_chronicle_header(r)),
        ),
        parsed_header(header_body(new_chronicle_header(r))) == Some(new_chronicle_header(r)),
{
    let h = new_chronicle_header(r);
    lemma_new_chronicle_header_ok(r);
    lemma_header_roundtrip(h, chronicles_heading() + entries);
    assert(chronicle_preamble(r) + entries =~= header_text(h) + (chronicles_heading() + entries));
}

/// For years 0 to 9999 the file that an entry goes to is a chronicle file,
/// and its date is today's.
pub proof fn lemma_chronicle_file_name(r: ClockReading)
    requires
        reading_in_range(r),
        0 <= r.today.year <= 9999,
    ensures
        is_chronicle_file_name(chronicle_file_name(r)),
        chronicle_date_part(chronicle_file_name(r)) == date_text(r.today),
{
    let n = chronicle_file_name(r);
    lemma_date_text_is_date(r.today);
    assert(n.subrange(0, 10) =~= chronicle_prefix());
    assert(n.subrange(n.len() - 3, n.len() as int) =~= md_suffix());
    assert(chronicle_date_part(n) =~= date_text(r.today));
}

/// The header that an update puts on a chronicle file is what reading the
/// updated file gives back, for any `prev` that can be a header value.
pub proof fn lemma_chronicle_update_reads_back(s: Seq<char>, name: Seq<char>, prev: Seq<char>)
    requires
        is_chronicle_file_name(name),
        field_ok(prev),
    ensures
        ({
            let h = chronicle_header(prev, chronicle_date_part(name));
            &&& between_dashes(with_header(s, h)) == Some(header_body(h))
            &&& parsed_header(header_body(h)) == Some(h)
        }),
{
    let d = chronicle_date_part(name);
    let h = chronicle_header(prev, d);
    lemma_date_text_separated(d);
    lemma_link_ok(FileKind::Journal, d);
    let rest = seq!['\n'] + text_after_header(s);
    lemma_header_roundtrip(h, rest);
    assert(with_header(s, h) =~= header_text(h) + rest);
}

/// Putting a header on a chronicle file twice gives what putting it once
/// gives: the second time replaces the header that the first time wrote.
pub proof fn lemma_chronicle_update_idempotent(s: Seq<char>, h: HeaderModel)
    requires
        marker_free(h.prev),
        h.journal matches Some(j) ==> marker_free(j),
    ensures
        with_header(with_header(s, h), h) == with_header(s, h),
{
    let t = with_header(s, h);
    let rest = seq!['\n'] + text_after_header(s);
    assert(t =~= header_text(h) + rest);
    lemma_between_dashes_of_header(h, rest);
    let hl = header_text(h).len() as int;
    assert(t[hl] == '\n');
    assert(t.subrange(hl + 1, t.len() as int) =~= text_after_header(s));
    assert(text_after_header(t) == text_after_header(s));
}

/// Every dated file of a chronicle directory, once updated as planned, reads
/// back a header whose `prev` links the chronicle before it (empty for the
/// first) and whose `journal` links the file's own date.
pub proof fn lemma_planned_chronicle_update_reads_back(names: Seq<String>, k: int, s: Seq<char>)
    requires
        0 <= k < dated_positions(FileKind::Chronicle, names).len(),
    ensures
        ({
            let name = names[dated_positions(FileKind::Chronicle, names)[k]]@;
            let h = chronicle_header(
                planned_prev(FileKind::Chronicle, names, k),
                chronicle_date_part(name),
            );
            &&& between_dashes(with_header(s, h)) == Some(header_body(h))
            &&& parsed_header(header_body(h)) == Some(h)
        }),
{
    crate::updates::lemma_dated_positions(FileKind::Chronicle, names);
    lemma_planned_prev_ok(FileKind::Chronicle, names, k);
    let name = names[dated_positions(FileKind::Chronicle, names)[k]]@;
    lemma_chronicle_update_reads_back(s, name, planned_prev(FileKind::Chronicle, names, k));
}

/// Putting a header on a chronicle keeps the rest of the file: the new text
/// is the header, one line break, and a tail of the old text. The tail is the
/// whole old text when it does not open with frontmatter; otherwise it is
/// everything after the frontmatter's closing `---` and the line break that
/// may follow it.
pub proof fn lemma_chronicle_update_keeps_body(s: Seq<char>, h: HeaderModel)
    ensures
        ({
            let t = with_header(s, h);
            let k = header_text(h).len() + 1;
            let body = t.subrange(k as int, t.len() as int);
            let cut = s.len() - body.len();
            &&& k <= t.len()
            &&& t.subrange(0, k as int) == header_text(h) + seq!['\n']
            &&& 0 <= cut <= s.len()
            &&& s.subrange(cut, s.len() as int) == body
            &&& !has_frontmatter(s) ==> body == s
            &&& has_frontmatter(s) ==> {
                let close = first_marker_from(s, 3)->0 as int;
                ||| cut == close + 3 && !(cut < s.len() && s[cut] == '\n')
                ||| cut == close + 4 && s[cut - 1] == '\n'
            }
        }),
{
    let t = with_header(s, h);
    let k = header_text(h).len() + 1;
    let body = t.subrange(k as int, t.len() as int);
    assert(t.subrange(0, k as int) =~= header_text(h) + seq!['\n']);
    assert(body =~= text_after_header(s));
    if has_frontmatter(s) {
        crate::text::lemma_first_marker_from(s, 3);
        let close = first_marker_from(s, 3)->0 as int;
        let after = close + 3;
        if after < s.len() && s[after] == '\n' {
            assert(s.subrange(after + 1, s.len() as int) =~= body);
        } else {
            assert(s.subrange(after, s.len() as int) =~= body);
        }
    } else {
        assert(s.subrange(0, s.len() as int) =~= s);
    }
}

} // verus!
