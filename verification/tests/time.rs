use octane::time::{decimal_string, pad_zero, Time};

fn http_date(stamp: i64) -> String {
    Time::time(stamp).unwrap().format()
}

#[test]
fn the_epoch_is_a_thursday() {
    assert_eq!(http_date(0), "Thu, 01 Jan 1970 00:00:00 GMT");
}

#[test]
fn a_date_of_the_nineties() {
    assert_eq!(http_date(784111777), "Sun, 06 Nov 1994 08:49:37 GMT");
}

#[test]
fn the_leap_day_of_2000_and_the_day_after() {
    assert_eq!(http_date(951782400), "Tue, 29 Feb 2000 00:00:00 GMT");
    assert_eq!(http_date(951868799), "Tue, 29 Feb 2000 23:59:59 GMT");
    assert_eq!(http_date(951868800), "Wed, 01 Mar 2000 00:00:00 GMT");
}

#[test]
fn years_that_are_no_leap_years() {
    assert_eq!(http_date(4107542400), "Mon, 01 Mar 2100 00:00:00 GMT");
    assert_eq!(http_date(4107542399), "Sun, 28 Feb 2100 23:59:59 GMT");
    assert_eq!(http_date(1677628799), "Tue, 28 Feb 2023 23:59:59 GMT");
}

#[test]
fn the_last_and_the_first_second_of_a_year() {
    assert_eq!(http_date(1704067199), "Sun, 31 Dec 2023 23:59:59 GMT");
    assert_eq!(http_date(1704067200), "Mon, 01 Jan 2024 00:00:00 GMT");
    assert_eq!(http_date(1709164800), "Thu, 29 Feb 2024 00:00:00 GMT");
}

#[test]
fn times_before_the_epoch() {
    assert_eq!(http_date(-1), "Wed, 31 Dec 1969 23:59:59 GMT");
    assert_eq!(http_date(-86400), "Wed, 31 Dec 1969 00:00:00 GMT");
    assert_eq!(http_date(-2208988800), "Mon, 01 Jan 1900 00:00:00 GMT");
}

#[test]
fn years_of_other_lengths_than_four_digits() {
    assert_eq!(http_date(-30610224000), "Wed, 01 Jan 1000 00:00:00 GMT");
    assert_eq!(http_date(-62135596800), "Mon, 01 Jan 1 00:00:00 GMT");
    assert_eq!(http_date(-62135596801), "Sun, 31 Dec 0 23:59:59 GMT");
    assert_eq!(http_date(-62162035200), "Wed, 01 Mar 0 00:00:00 GMT");
    assert_eq!(http_date(-62162121600), "Tue, 29 Feb 0 00:00:00 GMT");
    assert_eq!(http_date(-62167219200), "Sat, 01 Jan 0 00:00:00 GMT");
    assert_eq!(http_date(-62167219201), "Fri, 31 Dec -1 23:59:59 GMT");
    assert_eq!(http_date(253402300799), "Fri, 31 Dec 9999 23:59:59 GMT");
    assert_eq!(http_date(253402300800), "Sat, 01 Jan 10000 00:00:00 GMT");
}

#[test]
fn centuries_with_and_without_a_leap_day() {
    assert_eq!(http_date(13569465600), "Sat, 01 Jan 2400 00:00:00 GMT");
    assert_eq!(http_date(13574563200), "Tue, 29 Feb 2400 00:00:00 GMT");
    assert_eq!(http_date(32503680000), "Wed, 01 Jan 3000 00:00:00 GMT");
    assert_eq!(http_date(-12219292800), "Fri, 15 Oct 1582 00:00:00 GMT");
}

#[test]
fn the_first_and_the_last_time() {
    assert_eq!(http_date(i64::MAX), "Sun, 04 Dec 292277026596 15:30:07 GMT");
    assert_eq!(http_date(i64::MIN + 951868800), "Sat, 27 Mar -292277022627 08:29:52 GMT");
}

#[test]
fn a_stamp_too_early_has_no_time() {
    assert!(Time::time(i64::MIN).is_none());
    assert!(Time::time(i64::MIN + 951868799).is_none());
    assert!(Time::time(i64::MIN + 951868800).is_some());
    assert!(Time::time(i64::MAX).is_some());
}

#[test]
fn with_stamp_replaces_the_time() {
    let t = Time::time(0).unwrap().with_stamp(1000000000).unwrap();
    assert_eq!(t.format(), "Sun, 09 Sep 2001 01:46:40 GMT");
}

#[test]
fn names_of_week_day_and_month() {
    let t = Time::time(784111777).unwrap();
    assert_eq!(t.week_day(), Some("Sun".to_string()));
    assert_eq!(t.month_day(), Some("Nov".to_string()));
}

#[test]
fn now_is_after_2020() {
    let t = Time::now().unwrap();
    let text = t.format();
    assert_eq!(text.len(), 29);
    assert!(text.ends_with(" GMT"));
    let year: i64 = text[12..16].parse().unwrap();
    assert!(year >= 2020);
}

#[test]
fn zero_padding_keeps_the_last_two_characters() {
    assert_eq!(pad_zero(0), "00");
    assert_eq!(pad_zero(5), "05");
    assert_eq!(pad_zero(12), "12");
    assert_eq!(pad_zero(123), "23");
    assert_eq!(pad_zero(-5), "-5");
}

#[test]
fn decimal_text_of_numbers() {
    assert_eq!(decimal_string(0), "0");
    assert_eq!(decimal_string(7), "7");
    assert_eq!(decimal_string(1970), "1970");
    assert_eq!(decimal_string(-44), "-44");
    assert_eq!(decimal_string(i64::MAX), "9223372036854775807");
    assert_eq!(decimal_string(i64::MIN), "-9223372036854775808");
}

#[test]
fn a_count_of_seconds_from_a_clock() {
    assert_eq!(Time::from_unix_seconds(0).unwrap().format(), "Thu, 01 Jan 1970 00:00:00 GMT");
    assert_eq!(
        Time::from_unix_seconds(784111777).unwrap().format(),
        "Sun, 06 Nov 1994 08:49:37 GMT"
    );
    assert_eq!(
        Time::from_unix_seconds(i64::MAX as u64).unwrap().format(),
        "Sun, 04 Dec 292277026596 15:30:07 GMT"
    );
    assert!(Time::from_unix_seconds(i64::MAX as u64 + 1).is_none());
    assert!(Time::from_unix_seconds(u64::MAX).is_none());
}
