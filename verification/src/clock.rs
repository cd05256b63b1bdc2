//! Calendar dates and clock times as the chronicle files name and stamp them:
//! `YYYY-MM-DD` dates and `HH:MM` times, and the reading of the local clock.

use vstd::prelude::*;

use chrono::{Datelike, Timelike};

use crate::names::{is_ascii_digit, is_date_text};
use crate::text::{char_free, dash_separated};

verus! {

/// A calendar date.
#[derive(Debug, Clone, Copy, PartialEq, Eq)]
pub struct CalendarDate {
    pub year: i32,
    pub month: u32,
    pub day: u32,
}

/// A date whose month and day lie in their calendar ranges.
pub open spec fn date_in_range(d: CalendarDate) -> bool {
    1 <= d.month <= 12 && 1 <= d.day <= 31
}

/// A leap year of the proleptic Gregorian calendar, which chrono's dates follow.
pub open spec fn is_leap_year(y: int) -> bool {
    (y % 4 == 0 && y % 100 != 0) || y % 400 == 0
}

/// The number of days of month `m` in year `y`.
pub open spec fn days_in_month(y: int, m: int) -> int {
    if m == 2 {
        if is_leap_year(y) {
            29
        } else {
            28
        }
    } else if m == 4 || m == 6 || m == 9 || m == 11 {
        30
    } else {
        31
    }
}

/// A date that the calendar has.
pub open spec fn is_calendar_date(d: CalendarDate) -> bool {
    date_in_range(d) && d.day <= days_in_month(d.year as int, d.month as int)
}

/// What one reading of the local clock gives: today's date, the date one day
/// (24 hours) earlier, and the time of day.
#[derive(Debug, Clone, Copy, PartialEq, Eq)]
pub struct ClockReading {
    pub today: CalendarDate,
    pub yesterday: CalendarDate,
    pub hour: u32,
    pub minute: u32,
}

/// A reading whose fields lie in their ranges.
pub open spec fn reading_in_range(r: ClockReading) -> bool {
    date_in_range(r.today) && date_in_range(r.yesterday) && r.hour < 24 && r.minute < 60
}

/// What the local clock reads: today's date, the date one day (24 hours)
/// earlier, and the seconds since midnight of the time of day.
#[derive(Debug, Clone, Copy, PartialEq, Eq)]
pub struct LocalClock {
    pub today: CalendarDate,
    pub yesterday: CalendarDate,
    pub seconds_of_day: u32,
}

/// Reads the local clock: calls `chrono::Local::now()`, takes from it the
/// local date and `Timelike::num_seconds_from_midnight`, and subtracts
/// `chrono::Duration::days(1)` from it for the local date one day earlier.
/// What the clock reads is not stated; the contract claims only that both
/// dates are dates of the calendar, as every `chrono::NaiveDate` is, and that
/// the seconds since midnight are fewer than a day's, as chrono computes them
/// from an hour below 24, a minute below 60 and a second below 60.
#[verifier::external_body]
pub(crate) fn read_local_clock() -> (r: LocalClock)
    ensures
        is_calendar_date(r.today),
        is_calendar_date(r.yesterday),
        r.seconds_of_day < 86400,
{
    let now = chrono::Local::now();
    let earlier = now - chrono::Duration::days(1);
    LocalClock {
        today: CalendarDate { year: now.year(), month: now.month(), day: now.day() },
        yesterday: CalendarDate { year: earlier.year(), month: earlier.month(), day: earlier.day() },
        seconds_of_day: now.num_seconds_from_midnight(),
    }
}

/// The reading that a clock gives: its dates, and the hour and minute that
/// its seconds since midnight fall in.
pub open spec fn reading_of(c: LocalClock) -> ClockReading {
    ClockReading {
        today: c.today,
        yesterday: c.yesterday,
        hour: (c.seconds_of_day / 3600) as u32,
        minute: ((c.seconds_of_day % 3600) / 60) as u32,
    }
}

/// The hour and minute of a clock reading.
pub fn clock_reading(c: &LocalClock) -> (r: ClockReading)
    ensures
        r == reading_of(*c),
{
    ClockReading {
        today: c.today,
        yesterday: c.yesterday,
        hour: c.seconds_of_day / 3600,
        minute: (c.seconds_of_day % 3600) / 60,
    }
}

/// The hour and minute of a reading are the minute of the day that its
/// seconds since midnight fall in: `HH:MM` starts at most 59 seconds before
/// the time read, and the dates are the clock's.
pub proof fn lemma_reading_is_minute_of_day(c: LocalClock)
    requires
        c.seconds_of_day < 86400,
    ensures
        reading_of(c).hour < 24,
        reading_of(c).minute < 60,
        reading_of(c).hour * 3600 + reading_of(c).minute * 60 <= c.seconds_of_day,
        c.seconds_of_day < reading_of(c).hour * 3600 + reading_of(c).minute * 60 + 60,
        reading_of(c).today == c.today,
        reading_of(c).yesterday == c.yesterday,
{
}

/// The character of a decimal digit.
pub open spec fn digit_char(d: int) -> char {
    (48 + d) as char
}

/// The decimal digits of `n`, without leading zeros.
pub open spec fn decimal(n: nat) -> Seq<char>
    decreases n,
{
    if n < 10 {
        seq![digit_char(n as int)]
    } else {
        decimal(n / 10).push(digit_char((n % 10) as int))
    }
}

/// `s` with zeros in front up to `width` characters.
pub open spec fn zero_padded(s: Seq<char>, width: nat) -> Seq<char> {
    if s.len() >= width {
        s
    } else {
        Seq::new((width - s.len()) as nat, |i: int| '0') + s
    }
}

/// Two decimal digits for `n` below 100.
pub open spec fn two_digits(n: int) -> Seq<char> {
    seq![digit_char(n / 10), digit_char(n % 10)]
}

/// A year as a date shows it: four digits for years 0 to 9999, else a sign
/// and at least four digits.
pub open spec fn year_text(y: int) -> Seq<char> {
    if 0 <= y <= 9999 {
        two_digits(y / 100) + two_digits(y % 100)
    } else if y < 0 {
        seq!['-'] + zero_padded(decimal((-y) as nat), 4)
    } else {
        seq!['+'] + zero_padded(decimal(y as nat), 4)
    }
}

/// A date as `YYYY-MM-DD`.
pub open spec fn date_text(d: CalendarDate) -> Seq<char> {
    year_text(d.year as int) + seq!['-'] + two_digits(d.month as int) + seq!['-'] + two_digits(
        d.day as int,
    )
}

/// A time of day as `HH:MM`.
pub open spec fn time_text(hour: int, minute: int) -> Seq<char> {
    two_digits(hour) + seq![':'] + two_digits(minute)
}

/// Every character of `s` is an ASCII digit.
pub open spec fn digits_only(s: Seq<char>) -> bool {
    forall|i: int| 0 <= i < s.len() ==> is_ascii_digit(#[trigger] s[i])
}

proof fn lemma_digit_char(d: int)
    requires
        0 <= d < 10,
    ensures
        is_ascii_digit(digit_char(d)),
        digit_char(d) != '-',
        digit_char(d) != '\n',
{
}

proof fn lemma_decimal_digits(n: nat)
    ensures
        digits_only(decimal(n)),
        decimal(n).len() >= 1,
    decreases n,
{
    lemma_digit_char((n % 10) as int);
    if n >= 10 {
        lemma_decimal_digits(n / 10);
        let s = decimal(n);
        assert forall|i: int| 0 <= i < s.len() implies is_ascii_digit(#[trigger] s[i]) by {
            if i < s.len() - 1 {
                assert(s[i] == decimal(n / 10)[i]);
            }
        }
    }
}

proof fn lemma_zero_padded_digits(s: Seq<char>, width: nat)
    requires
        digits_only(s),
        s.len() >= 1,
    ensures
        digits_only(zero_padded(s, width)),
        zero_padded(s, width).len() >= width,
        zero_padded(s, width).len() >= 1,
{
    let z = zero_padded(s, width);
    if s.len() < width {
        let pad = Seq::new((width - s.len()) as nat, |i: int| '0');
        assert forall|i: int| 0 <= i < z.len() implies is_ascii_digit(#[trigger] z[i]) by {
            if i < pad.len() {
                assert(z[i] == '0');
            } else {
                assert(z[i] == s[i - pad.len()]);
            }
        }
    }
}

proof fn lemma_two_digits(n: int)
    requires
        0 <= n < 100,
    ensures
        digits_only(two_digits(n)),
        two_digits(n).len() == 2,
{
    lemma_digit_char(n / 10);
    lemma_digit_char(n % 10);
}

/// A date's text has no line break, no two dashes in a row, and does not end in a dash.
pub proof fn lemma_date_text_shape(d: CalendarDate)
    requires
        date_in_range(d),
    ensures
        dash_separated(date_text(d)),
        char_free(date_text(d), '\n'),
{
    let y = d.year as int;
    let yt = year_text(y);
    let m = two_digits(d.month as int);
    let dd = two_digits(d.day as int);
    lemma_two_digits(d.month as int);
    lemma_two_digits(d.day as int);
    // the year: digits, after an optional sign
    let mag: Seq<char> = if 0 <= y <= 9999 {
        yt
    } else {
        yt.drop_first()
    };
    if 0 <= y <= 9999 {
        lemma_two_digits(y / 100);
        lemma_two_digits(y % 100);
        let a = two_digits(y / 100);
        let b = two_digits(y % 100);
        assert forall|i: int| 0 <= i < yt.len() implies is_ascii_digit(#[trigger] yt[i]) by {
            if i < 2 {
                assert(yt[i] == a[i]);
            } else {
                assert(yt[i] == b[i - 2]);
            }
        }
    } else {
        let n: nat = if y < 0 {
            (-y) as nat
        } else {
            y as nat
        };
        lemma_decimal_digits(n);
        lemma_zero_padded_digits(decimal(n), 4);
        assert(mag =~= zero_padded(decimal(n), 4));
    }
    assert(digits_only(mag));
    assert(mag.len() >= 1);
    let s = date_text(d);
    let lead: int = if 0 <= y <= 9999 {
        0
    } else {
        1
    };
    let yl = yt.len() as int;
    assert(s =~= yt + seq!['-'] + m + seq!['-'] + dd);
    assert forall|i: int| lead <= i < yl implies is_ascii_digit(#[trigger] s[i]) by {
        assert(s[i] == yt[i]);
        assert(yt[i] == mag[i - lead]);
    }
    assert(is_ascii_digit(s[yl + 1])) by {
        assert(s[yl + 1] == m[0]);
    }
    assert(is_ascii_digit(s[yl + 2])) by {
        assert(s[yl + 2] == m[1]);
    }
    assert(is_ascii_digit(s[yl + 4])) by {
        assert(s[yl + 4] == dd[0]);
    }
    assert(is_ascii_digit(s[yl + 5])) by {
        assert(s[yl + 5] == dd[1]);
    }
    assert(s.len() == yl + 6);
    assert(s[yl] == '-');
    assert(s[yl + 3] == '-');
    if lead == 1 {
        assert(s[0] == yt[0]);
        assert(is_ascii_digit(s[1])) by {
            assert(s[1] == mag[0]);
        }
        assert(yt[0] == '-' || yt[0] == '+');
    }
    assert forall|i: int| 0 <= i < s.len() - 1 && #[trigger] s[i] == '-' implies s[i + 1] != '-' by {
        if lead <= i < yl {
            assert(is_ascii_digit(s[i]));
        } else if i == yl + 1 || i == yl + 2 || i == yl + 4 {
            assert(is_ascii_digit(s[i]));
        }
    }
    assert forall|i: int| 0 <= i < s.len() implies #[trigger] s[i] != '\n' by {
        if lead <= i < yl {
            assert(is_ascii_digit(s[i]));
        } else if i == yl + 1 || i == yl + 2 || i == yl + 4 || i == yl + 5 {
            assert(is_ascii_digit(s[i]));
        }
    }
}

/// For years 0 to 9999 a date's text is `YYYY-MM-DD`.
pub proof fn lemma_date_text_is_date(d: CalendarDate)
    requires
        date_in_range(d),
        0 <= d.year <= 9999,
    ensures
        is_date_text(date_text(d)),
{
    let y = d.year as int;
    lemma_two_digits(y / 100);
    lemma_two_digits(y % 100);
    lemma_two_digits(d.month as int);
    lemma_two_digits(d.day as int);
    let s = date_text(d);
    let a = two_digits(y / 100);
    let b = two_digits(y % 100);
    let m = two_digits(d.month as int);
    let dd = two_digits(d.day as int);
    assert(s =~= a + b + seq!['-'] + m + seq!['-'] + dd);
    assert forall|i: int| 0 <= i < 10 && i != 4 && i != 7 implies is_ascii_digit(#[trigger] s[i]) by {
        if i < 2 {
            assert(s[i] == a[i]);
        } else if i < 4 {
            assert(s[i] == b[i - 2]);
        } else if i < 7 {
            assert(s[i] == m[i - 5]);
        } else {
            assert(s[i] == dd[i - 8]);
        }
    }
}

/// The text of one decimal digit.
fn digit_str(d: u32) -> (s: &'static str)
    requires
        d < 10,
    ensures
        s@ == seq![digit_char(d as int)],
{
    proof {
        reveal_strlit("0");
        reveal_strlit("1");
        reveal_strlit("2");
        reveal_strlit("3");
        reveal_strlit("4");
        reveal_strlit("5");
        reveal_strlit("6");
        reveal_strlit("7");
        reveal_strlit("8");
        reveal_strlit("9");
    }
    let s = match d {
        0 => "0",
        1 => "1",
        2 => "2",
        3 => "3",
        4 => "4",
        5 => "5",
        6 => "6",
        7 => "7",
        8 => "8",
        _ => "9",
    };
    assert(s@ =~= seq![digit_char(d as int)]);
    s
}

/// Appends the decimal digits of `n`.
fn push_decimal(out: &mut String, n: u32)
    ensures
        final(out)@ == old(out)@ + decimal(n as nat),
    decreases n,
{
    if n >= 10 {
        push_decimal(out, n / 10);
    }
    out.append(digit_str(n % 10));
    assert(final(out)@ =~= old(out)@ + decimal(n as nat)) by {
        if n >= 10 {
            assert(decimal(n as nat) == decimal((n / 10) as nat).push(digit_char((n % 10) as int)));
        }
    }
}

proof fn lemma_decimal_len(n: nat)
    ensures
        n < 10 ==> decimal(n).len() == 1,
        10 <= n < 100 ==> decimal(n).len() == 2,
        100 <= n < 1000 ==> decimal(n).len() == 3,
        1000 <= n ==> decimal(n).len() >= 4,
    decreases n,
{
    if n >= 10 {
        lemma_decimal_len(n / 10);
    }
}

/// Appends `n` with zeros in front up to four digits.
fn push_padded4(out: &mut String, n: u32)
    ensures
        final(out)@ == old(out)@ + zero_padded(decimal(n as nat), 4),
{
    proof {
        lemma_decimal_len(n as nat);
        reveal_strlit("000");
        reveal_strlit("00");
        reveal_strlit("0");
    }
    let ghost start = out@;
    if n < 10 {
        out.append("000");
    } else if n < 100 {
        out.append("00");
    } else if n < 1000 {
        out.append("0");
    }
    let ghost zeros = out@.subrange(start.len() as int, out@.len() as int);
    push_decimal(out, n);
    assert(final(out)@ =~= old(out)@ + zero_padded(decimal(n as nat), 4)) by {
        if n < 1000 {
            assert(zeros =~= Seq::new((4 - decimal(n as nat).len()) as nat, |i: int| '0'));
        } else {
            assert(zeros =~= Seq::<char>::empty());
        }
    }
}

/// Appends `n` below 100 as two digits.
fn push_two_digits(out: &mut String, n: u32)
    requires
        n < 100,
    ensures
        final(out)@ == old(out)@ + two_digits(n as int),
{
    out.append(digit_str(n / 10));
    out.append(digit_str(n % 10));
    assert(final(out)@ =~= old(out)@ + two_digits(n as int));
}

/// Appends the year as a date shows it.
fn push_year(out: &mut String, y: i32)
    ensures
        final(out)@ == old(out)@ + year_text(y as int),
{
    proof {
        reveal_strlit("-");
        reveal_strlit("+");
    }
    if 0 <= y && y <= 9999 {
        let y = y as u32;
        push_two_digits(out, y / 100);
        push_two_digits(out, y % 100);
        assert(final(out)@ =~= old(out)@ + year_text(y as int));
    } else if y < 0 {
        let m = (0 - (y as i64)) as u32;
        out.append("-");
        push_padded4(out, m);
        assert(final(out)@ =~= old(out)@ + year_text(y as int));
    } else {
        out.append("+");
        push_padded4(out, y as u32);
        assert(final(out)@ =~= old(out)@ + year_text(y as int));
    }
}

/// Appends a date as `YYYY-MM-DD`.
pub fn push_date(out: &mut String, d: CalendarDate)
    requires
        date_in_range(d),
    ensures
        final(out)@ == old(out)@ + date_text(d),
{
    proof {
        reveal_strlit("-");
    }
    push_year(out, d.year);
    out.append("-");
    push_two_digits(out, d.month);
    out.append("-");
    push_two_digits(out, d.day);
    assert(final(out)@ =~= old(out)@ + date_text(d));
}

/// A date as `YYYY-MM-DD`.
pub fn format_date(d: CalendarDate) -> (s: String)
    requires
        date_in_range(d),
    ensures
        s@ == date_text(d),
{
    let mut s = String::new();
    push_date(&mut s, d);
    assert(s@ =~= date_text(d));
    s
}

/// A time of day as `HH:MM`.
pub fn format_time(hour: u32, minute: u32) -> (s: String)
    requires
        hour < 24,
        minute < 60,
    ensures
        s@ == time_text(hour as int, minute as int),
{
    proof {
        reveal_strlit(":");
    }
    let mut s = String::new();
    push_two_digits(&mut s, hour);
    s.append(":");
    push_two_digits(&mut s, minute);
    assert(s@ =~= time_text(hour as int, minute as int));
    s
}

} // verus!
