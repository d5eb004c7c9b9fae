use vstd::prelude::*;
use chrono::Datelike;

verus! {

/// A day of the calendar, with the week of the ISO calendar in which it
/// falls and the year to which that week belongs.
#[derive(Clone, Copy, Debug, PartialEq, Eq)]
pub struct CalendarDay {
    pub year: i32,
    pub month: u32,
    pub day: u32,
    pub week_year: i32,
    pub week: u32,
}

impl CalendarDay {
    /// The month, the day and the week lie in the ranges of a calendar.
    pub open spec fn valid(&self) -> bool {
        1 <= self.month <= 12 && 1 <= self.day <= 31 && 1 <= self.week <= 53
    }
}

/// The instant that a date header names, in seconds since the epoch, as
/// `chrono::DateTime::parse_from_rfc2822` reads it; `None` where it
/// reads no date.
pub uninterp spec fn rfc2822_timestamp(date: Seq<char>) -> Option<i64>;

/// Reads a date with `chrono::DateTime::parse_from_rfc2822` and hands
/// out its `timestamp`. The contract claims that the same text always
/// reads as the same instant.
#[verifier::external_body]
pub(crate) fn date_int(date: &str) -> (r: Option<i64>)
    ensures
        r == rfc2822_timestamp(date@),
{
    chrono::DateTime::parse_from_rfc2822(date).ok().map(|d| d.timestamp())
}

/// Reads a date with `chrono::DateTime::parse_from_rfc2822` and moves it
/// into `chrono::Local`, the time zone of this machine. The contract
/// claims that a day comes out exactly where the date can be read, and
/// that its month, day and ISO week lie in the ranges that
/// `chrono::Datelike` documents. Which day it is depends on the machine.
#[verifier::external_body]
pub(crate) fn local_day(date: &str) -> (r: Option<CalendarDay>)
    ensures
        r is Some <==> rfc2822_timestamp(date@) is Some,
        r matches Some(day) ==> day.valid(),
{
    let local = chrono::DateTime::parse_from_rfc2822(date).ok()?.with_timezone(&chrono::Local);
    Some(CalendarDay {
        year: local.year(),
        month: local.month(),
        day: local.day(),
        week_year: local.iso_week().year(),
        week: local.iso_week().week(),
    })
}

/// Asks `chrono::Local::now` for the present day in the time zone of
/// this machine. The contract claims only the ranges that
/// `chrono::Datelike` documents.
#[verifier::external_body]
fn today() -> (r: CalendarDay)
    ensures
        r.valid(),
{
    let now = chrono::Local::now();
    CalendarDay {
        year: now.year(),
        month: now.month(),
        day: now.day(),
        week_year: now.iso_week().year(),
        week: now.iso_week().week(),
    }
}

/// The present day in the time zone of this machine.
pub fn local_today() -> (r: CalendarDay)
    ensures
        r.valid(),
{
    today()
}

/// The decimal digit for a value below ten.
pub open spec fn digit_char(n: int) -> char {
    (48 + n) as char
}

/// A number written out in decimal, without leading zeros.
pub open spec fn decimal(n: nat) -> Seq<char>
    decreases n,
{
    if n < 10 {
        seq![digit_char(n as int)]
    } else {
        decimal(n / 10).push(digit_char((n % 10) as int))
    }
}

/// A number written out in decimal with zeros before it up to `width`
/// digits.
pub open spec fn zero_padded(n: nat, width: nat) -> Seq<char> {
    let digits = decimal(n);
    if digits.len() < width {
        Seq::new((width - digits.len()) as nat, |i: int| '0') + digits
    } else {
        digits
    }
}

/// A year written out with four digits, and with its sign before it
/// where it lies outside the years 0 to 9999.
pub open spec fn year_text(year: int) -> Seq<char> {
    if 0 <= year <= 9999 {
        zero_padded(year as nat, 4)
    } else if year < 0 {
        seq!['-'] + zero_padded((-year) as nat, 4)
    } else {
        seq!['+'] + zero_padded(year as nat, 4)
    }
}

/// The label of the month of a day, as `MM-YYYY`.
pub open spec fn month_label(day: CalendarDay) -> Seq<char> {
    zero_padded(day.month as nat, 2) + seq!['-'] + year_text(day.year as int)
}

/// The label of the bucket in which a date falls when it is seen on
/// the day `now`: `Today` on the same day, else `This week` in the same
/// ISO week of the same ISO year, else `This month` in the same month of
/// the same year, else the month of the date. A date that could not be
/// read falls under `Date Error`.
pub open spec fn bucket_label(sent: Option<CalendarDay>, now: CalendarDay) -> Seq<char> {
    match sent {
        None => "Date Error"@,
        Some(day) => if day.year == now.year && day.month == now.month && day.day == now.day {
            "Today"@
        } else if day.week_year == now.week_year && day.week == now.week {
            "This week"@
        } else if day.year == now.year && day.month == now.month {
            "This month"@
        } else {
            month_label(day)
        },
    }
}

/// How much of a date a listing shows beside a message.
#[derive(Clone, Copy, Debug, PartialEq, Eq)]
pub enum DateStyle {
    /// The time of the day, for a message of today.
    TimeOfDay,
    /// The month and the day, for a message of this year.
    DayOfMonth,
    /// The day, the month and the year.
    FullDate,
}

/// How much of the date of a message of the day `sent` is shown on the
/// day `now`.
pub open spec fn style_on(sent: CalendarDay, now: CalendarDay) -> DateStyle {
    if sent.year == now.year && sent.month == now.month && sent.day == now.day {
        DateStyle::TimeOfDay
    } else if sent.year == now.year {
        DateStyle::DayOfMonth
    } else {
        DateStyle::FullDate
    }
}

/// Picks how much of the date of a message is shown.
pub fn relative_style(sent: CalendarDay, now: CalendarDay) -> (r: DateStyle)
    ensures
        r == style_on(sent, now),
{
    if sent.year == now.year && sent.month == now.month && sent.day == now.day {
        DateStyle::TimeOfDay
    } else if sent.year == now.year {
        DateStyle::DayOfMonth
    } else {
        DateStyle::FullDate
    }
}

/// Appends the decimal digits of `n` to `out`.
fn push_decimal(out: &mut String, n: u32)
    ensures
        final(out)@ == old(out)@ + decimal(n as nat),
    decreases n,
{
    if n >= 10 {
        push_decimal(out, n / 10);
    }
    out.push((48 + (n % 10) as u8) as char);
}

/// The number of decimal digits of `n`.
fn decimal_len(n: u32) -> (r: usize)
    ensures
        r == decimal(n as nat).len(),
        1 <= r <= 10,
    decreases n,
{
    if n >= 10 {
        let shorter = decimal_len(n / 10);
        proof {
            lemma_decimal_len(n as nat);
        }
        shorter + 1
    } else {
        1
    }
}

/// A number below a power of ten has at most that many digits.
proof fn lemma_decimal_len(n: nat)
    ensures
        1 <= decimal(n).len(),
        n < 10 ==> decimal(n).len() == 1,
        n < 100 ==> decimal(n).len() <= 2,
        n < 1000 ==> decimal(n).len() <= 3,
        n < 10000 ==> decimal(n).len() <= 4,
        n < 100000 ==> decimal(n).len() <= 5,
        n < 1000000 ==> decimal(n).len() <= 6,
        n < 10000000 ==> decimal(n).len() <= 7,
        n < 100000000 ==> decimal(n).len() <= 8,
        n < 1000000000 ==> decimal(n).len() <= 9,
        n < 10000000000 ==> decimal(n).len() <= 10,
    decreases n,
{
    if n >= 10 {
        lemma_decimal_len(n / 10);
    }
}

/// Appends `n` to `out` with zeros before it up to `width` digits.
fn push_zero_padded(out: &mut String, n: u32, width: usize)
    ensures
        final(out)@ == old(out)@ + zero_padded(n as nat, width as nat),
{
    let digits = decimal_len(n);
    let ghost start = out@;
    let mut written: usize = digits;
    while written < width
        invariant
            digits <= written,
            digits < width ==> written <= width,
            digits >= width ==> written == digits,
            out@ == start + Seq::new((written - digits) as nat, |i: int| '0'),
        decreases width - written,
    {
        out.push('0');
        written = written + 1;
        assert(out@ =~= start + Seq::new((written - digits) as nat, |i: int| '0'));
    }
    let ghost zeros = Seq::new((written - digits) as nat, |i: int| '0');
    push_decimal(out, n);
    assert(out@ == (start + zeros) + decimal(n as nat));
    assert((start + zeros) + decimal(n as nat) =~= start + (zeros + decimal(n as nat)));
    assert(zeros + decimal(n as nat) =~= zero_padded(n as nat, width as nat));
}

/// The label of the bucket in which `sent` falls when it is seen on the
/// day `now`.
pub fn date_group_on(sent: Option<CalendarDay>, now: CalendarDay) -> (label: String)
    ensures
        label@ == bucket_label(sent, now),
{
    match sent {
        None => "Date Error".to_owned(),
        Some(day) => {
            if day.year == now.year && day.month == now.month && day.day == now.day {
                "Today".to_owned()
            } else if day.week_year == now.week_year && day.week == now.week {
                "This week".to_owned()
            } else if day.year == now.year && day.month == now.month {
                "This month".to_owned()
            } else {
                let mut label = String::new();
                push_zero_padded(&mut label, day.month, 2);
                label.push('-');
                if day.year < 0 {
                    label.push('-');
                    push_zero_padded(&mut label, (0 - day.year as i64) as u32, 4);
                } else {
                    if day.year > 9999 {
                        label.push('+');
                    }
                    push_zero_padded(&mut label, day.year as u32, 4);
                }
                assert(label@ =~= month_label(day));
                label
            }
        },
    }
}

/// The names of the buckets with a fixed place differ from one another.
pub proof fn lemma_fixed_names_differ()
    ensures
        "Today"@ != "This week"@,
        "Today"@ != "This month"@,
        "Today"@ != "Date Error"@,
        "This week"@ != "This month"@,
        "This week"@ != "Date Error"@,
        "This month"@ != "Date Error"@,
{
    reveal_strlit("Today");
    reveal_strlit("This week");
    reveal_strlit("This month");
    reveal_strlit("Date Error");
    assert("Today"@.len() == 5);
    assert("This week"@.len() == 9);
    assert("This month"@.len() == 10);
    assert("Date Error"@.len() == 10);
    assert("This month"@[0] != "Date Error"@[0]);
}

/// A number written out in decimal begins with a digit.
proof fn lemma_decimal_begins_with_a_digit(n: nat)
    ensures
        decimal(n).len() > 0,
        '0' <= decimal(n)[0] <= '9',
    decreases n,
{
    if n >= 10 {
        lemma_decimal_begins_with_a_digit(n / 10);
    }
}

/// The label of a day that could be read is never `Date Error`.
pub proof fn lemma_label_of_a_day(day: CalendarDay, now: CalendarDay)
    ensures
        bucket_label(Some(day), now) != "Date Error"@,
{
    lemma_fixed_names_differ();
    reveal_strlit("Date Error");
    lemma_decimal_begins_with_a_digit(day.month as nat);
    let label = month_label(day);
    assert('0' <= label[0] <= '9') by {
        let digits = decimal(day.month as nat);
        if digits.len() < 2 {
            assert(zero_padded(day.month as nat, 2)[0] == '0');
        }
        assert(label[0] == zero_padded(day.month as nat, 2)[0]);
    }
    assert("Date Error"@[0] == 'D');
}

/// The label of the bucket in which the date written in `sent_at` falls
/// today, in the time zone of this machine. The label is `Date Error`
/// exactly where the date cannot be read.
pub fn date_group(sent_at: &str) -> (label: String)
    ensures
        rfc2822_timestamp(sent_at@) is None <==> label@ == "Date Error"@,
        exists|sent: Option<CalendarDay>, now: CalendarDay|
            (sent is Some <==> rfc2822_timestamp(sent_at@) is Some) && (sent matches Some(day)
                ==> day.valid()) && now.valid() && label@ == #[trigger] bucket_label(sent, now),
{
    let now = today();
    let sent = local_day(sent_at);
    proof {
        if sent is Some {
            lemma_label_of_a_day(sent->0, now);
        }
    }
    date_group_on(sent, now)
}

} // verus!
