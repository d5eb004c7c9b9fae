use bes::dates::{date_group, date_group_on, local_today, relative_style, CalendarDay, DateStyle};
use chrono::{Datelike, NaiveDate};

fn day(year: i32, month: u32, day: u32, week_year: i32, week: u32) -> CalendarDay {
    CalendarDay { year, month, day, week_year, week }
}

fn noon_of_mid_june() -> CalendarDay {
    day(2024, 6, 15, 2024, 24)
}

#[test]
fn a_message_of_the_same_day_falls_under_today() {
    assert_eq!(date_group_on(Some(day(2024, 6, 15, 2024, 24)), noon_of_mid_june()), "Today");
}

#[test]
fn a_message_of_the_same_iso_week_falls_under_this_week() {
    assert_eq!(date_group_on(Some(day(2024, 6, 10, 2024, 24)), noon_of_mid_june()), "This week");
}

#[test]
fn a_message_of_the_same_month_falls_under_this_month() {
    assert_eq!(date_group_on(Some(day(2024, 6, 9, 2024, 23)), noon_of_mid_june()), "This month");
    assert_eq!(date_group_on(Some(day(2024, 6, 30, 2024, 26)), noon_of_mid_june()), "This month");
}

#[test]
fn an_older_message_falls_under_its_month() {
    assert_eq!(date_group_on(Some(day(2024, 5, 2, 2024, 18)), noon_of_mid_june()), "05-2024");
    assert_eq!(date_group_on(Some(day(2023, 6, 15, 2023, 24)), noon_of_mid_june()), "06-2023");
    assert_eq!(date_group_on(Some(day(2023, 12, 31, 2023, 52)), noon_of_mid_june()), "12-2023");
}

#[test]
fn a_week_is_told_by_its_iso_year() {
    let late = day(2024, 12, 30, 2025, 1);
    assert_eq!(date_group_on(Some(day(2024, 1, 3, 2024, 1)), late), "01-2024");
    assert_eq!(date_group_on(Some(day(2025, 1, 2, 2025, 1)), late), "This week");
}

#[test]
fn a_date_that_could_not_be_read_falls_under_date_error() {
    assert_eq!(date_group_on(None, noon_of_mid_june()), "Date Error");
}

#[test]
fn months_and_years_are_padded_with_zeros() {
    let now = noon_of_mid_june();
    assert_eq!(date_group_on(Some(day(987, 1, 1, 987, 1)), now), "01-0987");
    assert_eq!(date_group_on(Some(day(5, 10, 1, 5, 40)), now), "10-0005");
    assert_eq!(date_group_on(Some(day(0, 3, 1, 0, 9)), now), "03-0000");
    assert_eq!(date_group_on(Some(day(9999, 3, 1, 9999, 9)), now), "03-9999");
}

#[test]
fn years_outside_four_digits_carry_their_sign() {
    let now = noon_of_mid_june();
    assert_eq!(date_group_on(Some(day(10000, 3, 1, 10000, 9)), now), "03-+10000");
    assert_eq!(date_group_on(Some(day(-1, 3, 1, -1, 9)), now), "03--0001");
    assert_eq!(date_group_on(Some(day(-12345, 11, 1, -12345, 44)), now), "11--12345");
    assert_eq!(date_group_on(Some(day(i32::MIN, 11, 1, 0, 44)), now), "11--2147483648");
    assert_eq!(date_group_on(Some(day(i32::MAX, 11, 1, 0, 44)), now), "11-+2147483647");
}

#[test]
fn date_group_reads_the_date_header() {
    assert_eq!(date_group("Mon, 06 Mar 2023 10:21:03 -0800"), "03-2023");
    assert_eq!(date_group("not a date"), "Date Error");
    assert_eq!(date_group(""), "Date Error");
}

#[test]
fn local_today_is_a_day_of_the_calendar() {
    let now = local_today();
    assert!(1 <= now.month && now.month <= 12);
    assert!(1 <= now.day && now.day <= 31);
    assert!(1 <= now.week && now.week <= 53);
    assert!(now.year >= 2024);
}

fn calendar(year: i32, month: u32, day: u32) -> CalendarDay {
    let date = NaiveDate::from_ymd_opt(year, month, day).unwrap();
    CalendarDay {
        year: date.year(),
        month: date.month(),
        day: date.day(),
        week_year: date.iso_week().year(),
        week: date.iso_week().week(),
    }
}

#[test]
fn buckets_of_mid_june_by_the_calendar() {
    let now = calendar(2024, 6, 15);
    assert_eq!(now, noon_of_mid_june());
    assert_eq!(date_group_on(Some(calendar(2024, 6, 15)), now), "Today");
    assert_eq!(date_group_on(Some(calendar(2024, 6, 10)), now), "This week");
    assert_eq!(date_group_on(Some(calendar(2024, 6, 16)), now), "This week");
    assert_eq!(date_group_on(Some(calendar(2024, 6, 9)), now), "This month");
    assert_eq!(date_group_on(Some(calendar(2024, 6, 17)), now), "This month");
    assert_eq!(date_group_on(Some(calendar(2024, 5, 2)), now), "05-2024");
    assert_eq!(date_group_on(Some(calendar(2024, 7, 1)), now), "07-2024");
}

#[test]
fn a_week_that_spans_two_months_is_this_week_first() {
    let now = calendar(2024, 7, 2);
    assert_eq!(date_group_on(Some(calendar(2024, 7, 1)), now), "This week");
    assert_eq!(date_group_on(Some(calendar(2024, 6, 30)), now), "06-2024");
    let now = calendar(2024, 5, 2);
    assert_eq!(date_group_on(Some(calendar(2024, 4, 29)), now), "This week");
    assert_eq!(date_group_on(Some(calendar(2024, 4, 28)), now), "04-2024");
}

#[test]
fn relative_style_shows_less_of_a_nearer_date() {
    let now = calendar(2024, 6, 15);
    assert_eq!(relative_style(calendar(2024, 6, 15), now), DateStyle::TimeOfDay);
    assert_eq!(relative_style(calendar(2024, 6, 14), now), DateStyle::DayOfMonth);
    assert_eq!(relative_style(calendar(2024, 1, 15), now), DateStyle::DayOfMonth);
    assert_eq!(relative_style(calendar(2023, 6, 15), now), DateStyle::FullDate);
    assert_eq!(relative_style(calendar(2025, 6, 15), now), DateStyle::FullDate);
}
