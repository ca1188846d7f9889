//! Calendar time: the date and the time of day of a Unix timestamp, and its
//! form as an HTTP date.

use vstd::prelude::*;
use crate::text::string_of;
use std::time::{Duration, SystemTime, SystemTimeError, UNIX_EPOCH};

verus! {

/// The system's clock reading, `std::time::SystemTime`, carried as it is.
#[verifier::external_type_specification]
#[verifier::external_body]
pub struct ExSystemTime(SystemTime);

/// The error of `SystemTime::duration_since`, carried as it is.
#[verifier::external_type_specification]
#[verifier::external_body]
pub struct ExSystemTimeError(SystemTimeError);

/// `SystemTime::now` reads the system clock. Nothing is claimed of the
/// reading.
pub assume_specification[ SystemTime::now ]() -> SystemTime;

/// `Duration::as_secs` gives the whole seconds of a duration. Nothing is
/// claimed of the number.
pub assume_specification[ Duration::as_secs ](elapsed: &Duration) -> u64;

/// `SystemTime::duration_since`, asked for the time from the Unix epoch to
/// `reading`: an error where `reading` lies before the epoch. Nothing is
/// claimed of the duration.
#[verifier::external_body]
fn since_unix_epoch(reading: &SystemTime) -> Result<Duration, SystemTimeError> {
    reading.duration_since(UNIX_EPOCH)
}

/// The Unix time of 1 March 2000, 00:00:00: the day after a leap day that
/// ends a cycle of 400 years.
pub const LEAPOCH: i64 = 951868800;

pub const DAYS_PER_400Y: i64 = 146097;

pub const DAYS_PER_100Y: i64 = 36524;

pub const DAYS_PER_4Y: i64 = 1461;

/// The lengths of the months of a year that begins in March.
pub const DAYS_IN_MONTH: [i64; 12] = [31, 30, 31, 30, 31, 31, 30, 31, 30, 31, 31, 29];

/// Whether the year `y` of the Gregorian calendar has a 29 February.
pub open spec fn is_leap_year(y: int) -> bool {
    y % 4 == 0 && (y % 100 != 0 || y % 400 == 0)
}

/// The length of the month `m` of the year `y`; January is month 0.
pub open spec fn days_in_month(y: int, m: int) -> int {
    if m == 1 {
        if is_leap_year(y) {
            29
        } else {
            28
        }
    } else if m == 3 || m == 5 || m == 8 || m == 10 {
        30
    } else {
        31
    }
}

/// The days of the year `y` that lie before its month `m`.
pub open spec fn days_before_month(y: int, m: int) -> int
    decreases m,
{
    if m <= 0 {
        0
    } else {
        days_before_month(y, m - 1) + days_in_month(y, m - 1)
    }
}

/// The number of leap years among the years 1 to `y`.
pub open spec fn leap_years_through(y: int) -> int {
    y / 4 - y / 100 + y / 400
}

/// The days from 1 January 1970 to 1 January of the year `y`; negative
/// before 1970.
pub open spec fn days_before_year(y: int) -> int {
    365 * (y - 1970) + leap_years_through(y - 1) - leap_years_through(1969)
}

/// The days from 1 January 1970 to the day `d` of the month `m` of the
/// year `y`; January is month 0, and the first day of a month is day 1.
pub open spec fn days_from_civil(y: int, m: int, d: int) -> int {
    days_before_year(y) + days_before_month(y, m) + (d - 1)
}

/// A date and a time of day, with the day of the week.
pub struct Moment {
    pub year: int,
    /// 0 for January to 11 for December.
    pub month: int,
    /// The day of the month, from 1.
    pub day: int,
    pub hour: int,
    pub min: int,
    pub sec: int,
    /// 0 for Sunday to 6 for Saturday.
    pub week: int,
}

impl Moment {
    /// The fields are those of a day that exists and of a time of that day.
    pub open spec fn is_valid(self) -> bool {
        &&& 0 <= self.month < 12
        &&& 1 <= self.day <= days_in_month(self.year, self.month)
        &&& 0 <= self.hour < 24
        &&& 0 <= self.min < 60
        &&& 0 <= self.sec < 60
        &&& 0 <= self.week < 7
    }

    /// The days from 1 January 1970 to the day of this moment.
    pub open spec fn day_number(self) -> int {
        days_from_civil(self.year, self.month, self.day)
    }

    /// The seconds from 1 January 1970, 00:00:00, to this moment.
    pub open spec fn seconds(self) -> int {
        self.day_number() * 86400 + self.hour * 3600 + self.min * 60 + self.sec
    }

    /// This moment is the Unix time `stamp`: its fields are valid, it lies
    /// `stamp` seconds after the start of 1970, and it names the day of the
    /// week of its date. 1 January 1970 was a Thursday.
    pub open spec fn is_time_of(self, stamp: int) -> bool {
        &&& self.is_valid()
        &&& self.seconds() == stamp
        &&& self.week == (self.day_number() + 4) % 7
    }
}

/// The days of a year that begins in March that lie before its month `m`,
/// where March is month 0.
pub open spec fn days_before_month_from_march(m: int) -> int
    decreases m,
{
    if m <= 0 {
        0
    } else {
        days_before_month_from_march(m - 1) + DAYS_IN_MONTH@[m - 1]
    }
}

/// The calendar year and month of the month `m` of the year that begins in
/// March of the year `2000 + y`.
pub open spec fn civil_month_from_march(y: int, m: int) -> (int, int) {
    if m < 10 {
        (2000 + y, m + 2)
    } else {
        (2001 + y, m - 10)
    }
}

/// `x` is `k` times `d` and `rem` more, so `k` and `rem` are its quotient
/// and remainder by `d`.
proof fn lemma_quotient(x: int, d: int, k: int, rem: int)
    requires
        d > 0,
        0 <= rem < d,
        x == k * d + rem,
    ensures
        x / d == k,
        x % d == rem,
{
    vstd::arithmetic::div_mod::lemma_fundamental_div_mod_converse(x, d, k, rem);
}

/// Where the cycles of 400, 100 and 4 years and the single years after
/// 1 March 2000 lead: to 1 March of a year, by the calendar's own count
/// of days. The year that begins there ends in a leap day exactly where it
/// is the fourth of its cycle of four, and that cycle is not the last of
/// a century, or the century is the last of its four.
proof fn lemma_cycles(qc: int, c: int, q: int, r: int)
    requires
        0 <= c <= 3,
        0 <= q <= 24,
        0 <= r <= 3,
    ensures
        ({
            let y = 400 * qc + 100 * c + 4 * q + r;
            let first = 11017 + 146097 * qc + 36524 * c + 1461 * q + 365 * r;
            &&& days_before_year(2000 + y) + 59 + (if is_leap_year(2000 + y) {
                1int
            } else {
                0
            }) == first
            &&& days_before_year(2001 + y) == first + 306
            &&& is_leap_year(2001 + y) <==> (r == 3 && (q != 24 || c == 3))
        }),
{
    let y = 400 * qc + 100 * c + 4 * q + r;
    let in400 = 100 * c + 4 * q + r;
    let in100 = 4 * q + r;
    lemma_quotient(1969, 4, 492, 1);
    lemma_quotient(1969, 100, 19, 69);
    lemma_quotient(1969, 400, 4, 369);
    lemma_quotient(2000 + y, 400, 5 + qc, in400);
    lemma_quotient(2000 + y, 100, 20 + 4 * qc + c, in100);
    lemma_quotient(2000 + y, 4, 500 + 100 * qc + 25 * c + q, r);
    if in400 == 0 {
        lemma_quotient(1999 + y, 400, 4 + qc, 399);
    } else {
        lemma_quotient(1999 + y, 400, 5 + qc, in400 - 1);
    }
    if in100 == 0 {
        lemma_quotient(1999 + y, 100, 19 + 4 * qc + c, 99);
    } else {
        lemma_quotient(1999 + y, 100, 20 + 4 * qc + c, in100 - 1);
    }
    if r == 0 {
        lemma_quotient(1999 + y, 4, 499 + 100 * qc + 25 * c + q, 3);
    } else {
        lemma_quotient(1999 + y, 4, 500 + 100 * qc + 25 * c + q, r - 1);
    }
    if in400 == 399 {
        lemma_quotient(2001 + y, 400, 6 + qc, 0);
    } else {
        lemma_quotient(2001 + y, 400, 5 + qc, in400 + 1);
    }
    if in100 == 99 {
        lemma_quotient(2001 + y, 100, 21 + 4 * qc + c, 0);
    } else {
        lemma_quotient(2001 + y, 100, 20 + 4 * qc + c, in100 + 1);
    }
    if r == 3 {
        lemma_quotient(2001 + y, 4, 501 + 100 * qc + 25 * c + q, 0);
    } else {
        lemma_quotient(2001 + y, 4, 500 + 100 * qc + 25 * c + q, r + 1);
    }
}

/// The months of a year that begins in March are those of the calendar:
/// the same lengths, and the same days before them.
proof fn lemma_months(y: int, m: int)
    requires
        0 <= m < 12,
    ensures
        ({
            let (cy, cm) = civil_month_from_march(y, m);
            &&& 0 <= cm < 12
            &&& m != 11 ==> days_in_month(cy, cm) == DAYS_IN_MONTH@[m]
            &&& m < 10 ==> days_before_month(cy, cm) == 59 + (if is_leap_year(cy) {
                1int
            } else {
                0
            }) + days_before_month_from_march(m)
            &&& m >= 10 ==> days_before_month(cy, cm) + 306 == days_before_month_from_march(m)
            &&& days_before_month_from_march(m) + DAYS_IN_MONTH@[m] <= 366
            &&& days_before_month_from_march(11) == 337
        }),
{
    reveal_with_fuel(days_before_month, 13);
    reveal_with_fuel(days_before_month_from_march, 13);
}

/// The day that lies `in_year` days after 1 March of the year that the
/// cycles lead to is the day `day0 + 1` of the calendar month of the month
/// `month` counted from March, and that day exists.
proof fn lemma_date(qc: int, c: int, q: int, r: int, in_year: int, month: int, day0: int)
    requires
        0 <= c <= 3,
        0 <= q <= 24,
        0 <= r <= 3,
        0 <= month < 12,
        0 <= day0 < DAYS_IN_MONTH@[month],
        in_year == days_before_month_from_march(month) + day0,
        in_year <= 365,
        in_year == 365 ==> r == 3 && (q != 24 || c == 3),
    ensures
        ({
            let y = 400 * qc + 100 * c + 4 * q + r;
            let (cy, cm) = civil_month_from_march(y, month);
            &&& 0 <= cm < 12
            &&& day0 + 1 <= days_in_month(cy, cm)
            &&& days_from_civil(cy, cm, day0 + 1) == 11017 + 146097 * qc + 36524 * c + 1461 * q
                + 365 * r + in_year
        }),
{
    let y = 400 * qc + 100 * c + 4 * q + r;
    lemma_cycles(qc, c, q, r);
    lemma_months(y, month);
}

/// The hours, minutes and seconds of the second `remsecs` of a day.
proof fn lemma_clock(remsecs: int)
    requires
        0 <= remsecs < 86400,
    ensures
        0 <= remsecs / 3600 < 24,
        0 <= (remsecs / 60) % 60 < 60,
        0 <= remsecs % 60 < 60,
        (remsecs / 3600) * 3600 + ((remsecs / 60) % 60) * 60 + remsecs % 60 == remsecs,
{
    let minutes = remsecs / 60;
    assert(minutes / 60 == remsecs / 3600);
}

/// The day of the week moves with the day number: the day `days` days
/// after 1 March 2000 is the day `days + 11017` days after 1 January 1970.
proof fn lemma_week(days: int)
    ensures
        (days + 3) % 7 == (days + 11017 + 4) % 7,
{
}

/// A point in time, as a date of the Gregorian calendar and a time of day
/// in UTC.
pub struct Time {
    min: i64,
    sec: i64,
    hour: i64,
    week: i64,
    year: i64,
    month: i64,
    day: i64,
}

impl View for Time {
    type V = Moment;

    closed spec fn view(&self) -> Moment {
        Moment {
            year: self.year as int,
            month: self.month as int,
            day: self.day as int,
            hour: self.hour as int,
            min: self.min as int,
            sec: self.sec as int,
            week: self.week as int,
        }
    }
}

/// The whole days in `secs` seconds, rounded down, and the seconds left.
fn days_and_seconds(secs: i64) -> (ret: (i64, i64))
    ensures
        secs == ret.0 * 86400 + ret.1,
        0 <= ret.1 < 86400,
{
    let mut days = secs / 86400;
    let mut remsecs = secs % 86400;
    if remsecs < 0 {
        remsecs += 86400;
        days -= 1;
    }
    (days, remsecs)
}

/// The whole cycles of 400 years in `days` days, rounded down, and the days
/// left.
fn eras_and_days(days: i64) -> (ret: (i64, i64))
    ensures
        days == ret.0 * DAYS_PER_400Y + ret.1,
        0 <= ret.1 < DAYS_PER_400Y,
{
    let mut qc_cycles = days / DAYS_PER_400Y;
    let mut remdays = days % DAYS_PER_400Y;
    if remdays < 0 {
        remdays += DAYS_PER_400Y;
        qc_cycles -= 1;
    }
    (qc_cycles, remdays)
}

/// The day of the week of the day that lies `days` days after 1 March 2000,
/// a Wednesday.
fn week_day_of(days: i64) -> (wday: i64)
    requires
        days <= i64::MAX - 3,
    ensures
        wday == (days + 3) % 7,
        0 <= wday < 7,
{
    let mut wday = (days + 3) % 7;
    if wday < 0 {
        wday += 7;
    }
    wday
}

/// Cuts the days of a cycle of 400 years that begins on 1 March into
/// centuries, cycles of four years, years and the days left in the last
/// year. The last century of the cycle, the last four years of the other
/// centuries and the last year of each four are longer or shorter by a day
/// than the others of their kind.
fn years_and_days(era_days: i64) -> (ret: (i64, i64, i64, i64))
    requires
        0 <= era_days < DAYS_PER_400Y,
    ensures
        ({
            let (c, q, r, in_year) = ret;
            &&& 0 <= c <= 3
            &&& 0 <= q <= 24
            &&& 0 <= r <= 3
            &&& era_days == c * DAYS_PER_100Y + q * DAYS_PER_4Y + r * 365 + in_year
            &&& 0 <= in_year <= 365
            &&& in_year == 365 ==> r == 3 && (q != 24 || c == 3)
        }),
{
    let mut remdays = era_days;
    let mut c_cycles = remdays / DAYS_PER_100Y;
    if c_cycles == 4 {
        c_cycles -= 1;
    }
    remdays -= c_cycles * DAYS_PER_100Y;
    let mut q_cycles = remdays / DAYS_PER_4Y;
    if q_cycles == 25 {
        q_cycles -= 1;
    }
    remdays -= q_cycles * DAYS_PER_4Y;
    let mut remyears = remdays / 365;
    if remyears == 4 {
        remyears -= 1;
    }
    remdays -= remyears * 365;
    (c_cycles, q_cycles, remyears, remdays)
}

/// The month of the day `in_year` of a year that begins in March, where
/// March is month 0, and the days of that month before the day.
fn month_and_day(in_year: i64) -> (ret: (usize, i64))
    requires
        0 <= in_year <= 365,
    ensures
        ret.0 < 12,
        0 <= ret.1 < DAYS_IN_MONTH@[ret.0 as int],
        in_year == days_before_month_from_march(ret.0 as int) + ret.1,
{
    let mut remdays = in_year;
    let mut month: usize = 0;
    while DAYS_IN_MONTH[month] <= remdays
        invariant
            0 <= month < 12,
            0 <= remdays,
            in_year <= 365,
            in_year == days_before_month_from_march(month as int) + remdays,
        decreases 12 - month,
    {
        proof {
            lemma_months(0, month as int);
            if month < 11 {
                lemma_months(0, month as int + 1);
            }
        }
        remdays -= DAYS_IN_MONTH[month];
        month += 1;
    }
    (month, remdays)
}

/// The character of the decimal digit `d`.
pub open spec fn digit_char(d: int) -> char
    recommends
        0 <= d < 10,
{
    ('0' as u8 + d) as char
}

/// The decimal digits of `n`, without leading zeros.
pub open spec fn decimal_digits(n: int) -> Seq<char>
    recommends
        0 <= n,
    decreases n,
{
    if n < 10 {
        seq![digit_char(n)]
    } else {
        decimal_digits(n / 10).push(digit_char(n % 10))
    }
}

/// `n` in decimal, with a minus sign where it is negative.
pub open spec fn decimal(n: int) -> Seq<char> {
    if n < 0 {
        seq!['-'] + decimal_digits(-n)
    } else {
        decimal_digits(n)
    }
}

/// The last two characters of `n` in decimal behind a zero: the two digits
/// of a number from 0 to 99.
pub open spec fn zero_padded(n: int) -> Seq<char> {
    let text = seq!['0'] + decimal(n);
    text.subrange(text.len() - 2, text.len() as int)
}

/// The name of the day `week` of the week, where Sunday is day 0.
pub open spec fn week_day_name(week: int) -> Option<Seq<char>> {
    if week == 0 {
        Some("Sun"@)
    } else if week == 1 {
        Some("Mon"@)
    } else if week == 2 {
        Some("Tue"@)
    } else if week == 3 {
        Some("Wed"@)
    } else if week == 4 {
        Some("Thu"@)
    } else if week == 5 {
        Some("Fri"@)
    } else if week == 6 {
        Some("Sat"@)
    } else {
        None
    }
}

/// The name of the month `month`, where January is month 0.
pub open spec fn month_name(month: int) -> Option<Seq<char>> {
    if month == 0 {
        Some("Jan"@)
    } else if month == 1 {
        Some("Feb"@)
    } else if month == 2 {
        Some("Mar"@)
    } else if month == 3 {
        Some("Apr"@)
    } else if month == 4 {
        Some("May"@)
    } else if month == 5 {
        Some("Jun"@)
    } else if month == 6 {
        Some("Jul"@)
    } else if month == 7 {
        Some("Aug"@)
    } else if month == 8 {
        Some("Sep"@)
    } else if month == 9 {
        Some("Oct"@)
    } else if month == 10 {
        Some("Nov"@)
    } else if month == 11 {
        Some("Dec"@)
    } else {
        None
    }
}

/// The HTTP date of a moment: the day of the week, the day of the month in
/// two digits, the month, the year, and the time of day in two digits each,
/// as in `Sun, 06 Nov 1994 08:49:37 GMT`. A moment whose month or day of
/// the week has no name has the empty text.
pub open spec fn http_date(m: Moment) -> Seq<char> {
    match (week_day_name(m.week), month_name(m.month)) {
        (Some(week_day), Some(month)) => week_day + ", "@ + zero_padded(m.day) + " "@ + month
            + " "@ + decimal(m.year) + " "@ + zero_padded(m.hour) + ":"@ + zero_padded(m.min)
            + ":"@ + zero_padded(m.sec) + " GMT"@,
        _ => Seq::empty(),
    }
}

/// Appends `n` in decimal to `out`.
fn push_decimal(out: &mut Vec<char>, n: i64)
    ensures
        final(out)@ == old(out)@ + decimal(n as int),
{
    let magnitude: u64 = if n < 0 {
        out.push('-');
        (-(n + 1)) as u64 + 1
    } else {
        n as u64
    };
    let mut digits: Vec<char> = Vec::new();
    let mut rest = magnitude;
    while rest >= 10
        invariant
            decimal_digits(magnitude as int) == decimal_digits(rest as int) + digits@.reverse(),
        decreases rest,
    {
        let ghost before = digits@;
        digits.push(('0' as u8 + (rest % 10) as u8) as char);
        proof {
            assert(decimal_digits(rest as int / 10).push(digit_char(rest as int % 10))
                + before.reverse() =~= decimal_digits(rest as int / 10) + digits@.reverse());
        }
        rest = rest / 10;
    }
    digits.push(('0' as u8 + rest as u8) as char);
    let ghost start = out@;
    let mut i: usize = digits.len();
    while i > 0
        invariant
            i <= digits@.len(),
            out@ == start + digits@.reverse().take(digits@.len() - i),
        decreases i,
    {
        i -= 1;
        out.push(digits[i]);
        proof {
            assert(out@ =~= start + digits@.reverse().take(digits@.len() - i));
        }
    }
    proof {
        assert(digits@.reverse().take(digits@.len() as int) =~= digits@.reverse());
        assert(digits@.reverse() =~= decimal_digits(magnitude as int));
        assert(out@ =~= old(out)@ + decimal(n as int));
    }
}

/// `n` in two digits: the last two characters of `n` in decimal behind a
/// zero.
pub fn pad_zero(n: i64) -> (ret: String)
    ensures
        ret@ == zero_padded(n as int),
{
    let mut text: Vec<char> = Vec::new();
    text.push('0');
    push_decimal(&mut text, n);
    let len = text.len();
    assert(text@ =~= seq!['0'] + decimal(n as int));
    assert(len >= 2);
    let mut ret = String::new();
    ret.push(text[len - 2]);
    ret.push(text[len - 1]);
    assert(ret@ =~= zero_padded(n as int));
    ret
}

/// `n` in decimal.
pub fn decimal_string(n: i64) -> (ret: String)
    ensures
        ret@ == decimal(n as int),
{
    let mut text: Vec<char> = Vec::new();
    push_decimal(&mut text, n);
    string_of(text.as_slice())
}

impl Time {
    /// The date and time of the Unix time `stamp`.
    ///
    /// The days are counted from 1 March 2000, in cycles of 400, 100 and 4
    /// years. Nothing is returned for a `stamp` so early that its distance
    /// to that day is no `i64`.
    pub fn time(stamp: i64) -> (ret: Option<Time>)
        ensures
            ret is Some <==> stamp >= i64::MIN + LEAPOCH,
            ret matches Some(t) ==> t@.is_time_of(stamp as int),
    {
        if stamp < i64::MIN + LEAPOCH {
            return None;
        }
        let secs = stamp - LEAPOCH;
        let (days, remsecs) = days_and_seconds(secs);
        let wday = week_day_of(days);
        let (qc_cycles, era_days) = eras_and_days(days);
        let (c_cycles, q_cycles, remyears, in_year) = years_and_days(era_days);
        let years = remyears + 4 * q_cycles + 100 * c_cycles + 400 * qc_cycles;
        let (month, remdays) = month_and_day(in_year);
        let mut final_year = years + 100;
        let mut final_mon = (month as i64) + 2;
        if final_mon >= 12 {
            final_mon -= 12;
            final_year += 1;
        }
        proof {
            lemma_date(
                qc_cycles as int,
                c_cycles as int,
                q_cycles as int,
                remyears as int,
                in_year as int,
                month as int,
                remdays as int,
            );
            lemma_clock(remsecs as int);
            lemma_week(days as int);
            assert(civil_month_from_march(years as int, month as int) == (
                1900 + final_year as int,
                final_mon as int,
            ));
        }
        let ret = Time {
            min: (remsecs / 60) % 60,
            sec: remsecs % 60,
            hour: remsecs / 3600,
            week: wday,
            day: remdays + 1,
            year: 1900 + final_year,
            month: final_mon,
        };
        proof {
            assert(ret@.day_number() == days + 11017);
            assert(stamp == (days + 11017) * 86400 + remsecs);
        }
        Some(ret)
    }

    /// The time that the system clock shows.
    ///
    /// Nothing is returned where the clock stands before 1970, or so late
    /// that its seconds are no `i64`.
    pub fn now() -> (ret: Option<Time>)
        ensures
            ret matches Some(t) ==> t@.is_time_of(t@.seconds()) && 0 <= t@.seconds() <= i64::MAX,
    {
        let reading = SystemTime::now();
        match since_unix_epoch(&reading) {
            Ok(elapsed) => Time::from_unix_seconds(elapsed.as_secs()),
            Err(_) => None,
        }
    }

    /// The date and time that lie `secs` whole seconds after the start of
    /// 1970, as a clock counts them. Nothing is returned for a count that is
    /// no `i64`.
    pub fn from_unix_seconds(secs: u64) -> (ret: Option<Time>)
        ensures
            ret is Some <==> secs <= i64::MAX,
            ret matches Some(t) ==> t@.is_time_of(secs as int),
    {
        if secs <= i64::MAX as u64 {
            Time::time(secs as i64)
        } else {
            None
        }
    }

    /// The date and time of the Unix time `stamp`, in place of this one.
    pub fn with_stamp(self, stamp: i64) -> (ret: Option<Time>)
        ensures
            ret is Some <==> stamp >= i64::MIN + LEAPOCH,
            ret matches Some(t) ==> t@.is_time_of(stamp as int),
    {
        Time::time(stamp)
    }

    /// The name of the day of the week, where the day has one.
    pub fn week_day(&self) -> (ret: Option<String>)
        ensures
            ret is Some <==> week_day_name(self@.week) is Some,
            ret matches Some(name) ==> Some(name@) == week_day_name(self@.week),
    {
        let name = match self.week {
            0 => "Sun",
            1 => "Mon",
            2 => "Tue",
            3 => "Wed",
            4 => "Thu",
            5 => "Fri",
            6 => "Sat",
            _ => {
                return None;
            },
        };
        Some(name.to_owned())
    }

    /// The name of the month, where the month has one.
    pub fn month_day(&self) -> (ret: Option<String>)
        ensures
            ret is Some <==> month_name(self@.month) is Some,
            ret matches Some(name) ==> Some(name@) == month_name(self@.month),
    {
        let name = match self.month {
            0 => "Jan",
            1 => "Feb",
            2 => "Mar",
            3 => "Apr",
            4 => "May",
            5 => "Jun",
            6 => "Jul",
            7 => "Aug",
            8 => "Sep",
            9 => "Oct",
            10 => "Nov",
            11 => "Dec",
            _ => {
                return None;
            },
        };
        Some(name.to_owned())
    }

    /// This time as an HTTP date, such as `Sun, 06 Nov 1994 08:49:37 GMT`.
    pub fn format(&self) -> (ret: String)
        ensures
            ret@ == http_date(self@),
    {
        if let Some(month_day) = self.month_day() {
            if let Some(week_day) = self.week_day() {
                let mut ret = week_day;
                ret.append(", ");
                ret.append(pad_zero(self.day).as_str());
                ret.append(" ");
                ret.append(month_day.as_str());
                ret.append(" ");
                ret.append(decimal_string(self.year).as_str());
                ret.append(" ");
                ret.append(pad_zero(self.hour).as_str());
                ret.append(":");
                ret.append(pad_zero(self.min).as_str());
                ret.append(":");
                ret.append(pad_zero(self.sec).as_str());
                ret.append(" GMT");
                ret
            } else {
                String::new()
            }
        } else {
            String::new()
        }
    }
}

/// The length of the year `y` in days.
pub open spec fn days_in_year(y: int) -> int {
    if is_leap_year(y) {
        366
    } else {
        365
    }
}

/// The count of days begins with 1 January 1970, and each year adds its
/// own days to it.
pub proof fn lemma_days_before_year(y: int)
    ensures
        days_before_year(1970) == 0,
        days_before_year(y + 1) == days_before_year(y) + days_in_year(y),
{
    lemma_quotient(1969, 4, 492, 1);
    lemma_quotient(1969, 100, 19, 69);
    lemma_quotient(1969, 400, 4, 369);
    let before = y - 1;
    if y % 4 == 0 {
        lemma_quotient(before, 4, y / 4 - 1, 3);
    } else {
        lemma_quotient(before, 4, y / 4, y % 4 - 1);
    }
    if y % 100 == 0 {
        lemma_quotient(before, 100, y / 100 - 1, 99);
    } else {
        lemma_quotient(before, 100, y / 100, y % 100 - 1);
    }
    if y % 400 == 0 {
        lemma_quotient(before, 400, y / 400 - 1, 399);
    } else {
        lemma_quotient(before, 400, y / 400, y % 400 - 1);
    }
    assert(y % 400 == 0 ==> y % 100 == 0) by {
        if y % 400 == 0 {
            lemma_quotient(y, 100, 4 * (y / 400), 0);
        }
    }
    assert(y % 100 == 0 ==> y % 4 == 0) by {
        if y % 100 == 0 {
            lemma_quotient(y, 4, 25 * (y / 100), 0);
        }
    }
}

proof fn lemma_years_grow(a: int, b: int)
    requires
        a <= b,
    ensures
        days_before_year(b) >= days_before_year(a) + 365 * (b - a),
    decreases b - a,
{
    if a < b {
        lemma_years_grow(a, b - 1);
        lemma_days_before_year(b - 1);
    }
}

proof fn lemma_months_grow(y: int, m1: int, m2: int)
    requires
        0 <= m1 <= m2 <= 12,
    ensures
        days_before_month(y, m1) <= days_before_month(y, m2),
        m1 < m2 ==> days_before_month(y, m1) + days_in_month(y, m1) <= days_before_month(y, m2),
        days_before_month(y, 12) == days_in_year(y),
{
    reveal_with_fuel(days_before_month, 13);
}

/// A day of the calendar has one day number, and a day number one day: two
/// days that exist and lie equally far from 1 January 1970 are the same.
pub proof fn lemma_day_number_is_unique(y1: int, m1: int, d1: int, y2: int, m2: int, d2: int)
    requires
        0 <= m1 < 12,
        1 <= d1 <= days_in_month(y1, m1),
        0 <= m2 < 12,
        1 <= d2 <= days_in_month(y2, m2),
        days_from_civil(y1, m1, d1) == days_from_civil(y2, m2, d2),
    ensures
        y1 == y2,
        m1 == m2,
        d1 == d2,
{
    lemma_months_grow(y1, m1, m1 + 1);
    lemma_months_grow(y1, m1 + 1, 12);
    lemma_months_grow(y1, 0, m1);
    lemma_months_grow(y2, m2, m2 + 1);
    lemma_months_grow(y2, m2 + 1, 12);
    lemma_months_grow(y2, 0, m2);
    if y1 < y2 {
        lemma_days_before_year(y1);
        lemma_years_grow(y1 + 1, y2);
    } else if y2 < y1 {
        lemma_days_before_year(y2);
        lemma_years_grow(y2 + 1, y1);
    } else if m1 < m2 {
        lemma_months_grow(y1, m1, m2);
    } else if m2 < m1 {
        lemma_months_grow(y1, m2, m1);
    }
}

/// A Unix time has one date and time: two moments of the same time are the
/// same moment.
pub proof fn lemma_time_is_unique(a: Moment, b: Moment, stamp: int)
    requires
        a.is_time_of(stamp),
        b.is_time_of(stamp),
    ensures
        a == b,
{
    let in_day_a = a.hour * 3600 + a.min * 60 + a.sec;
    let in_day_b = b.hour * 3600 + b.min * 60 + b.sec;
    assert(0 <= in_day_a < 86400);
    assert(0 <= in_day_b < 86400);
    lemma_quotient(stamp, 86400, a.day_number(), in_day_a);
    lemma_quotient(stamp, 86400, b.day_number(), in_day_b);
    lemma_quotient(in_day_a, 3600, a.hour, a.min * 60 + a.sec);
    lemma_quotient(in_day_b, 3600, b.hour, b.min * 60 + b.sec);
    lemma_quotient(a.min * 60 + a.sec, 60, a.min, a.sec);
    lemma_quotient(b.min * 60 + b.sec, 60, b.min, b.sec);
    lemma_day_number_is_unique(a.year, a.month, a.day, b.year, b.month, b.day);
}

} // verus!
