//! Points in time as RFC 3339 text.
use crate::text;
use std::time::SystemTime;
use vstd::prelude::*;
use vstd::string::StringExecFns;

verus! {

// ---------------------------------------------------------------------------
// The Gregorian calendar
// ---------------------------------------------------------------------------

/// A date of the Gregorian calendar and a time of day, both in UTC.
#[derive(Clone, Copy, Debug, PartialEq, Eq, Structural)]
pub struct CivilTime {
    pub year: u64,
    pub month: u64,
    pub day: u64,
    pub hour: u64,
    pub minute: u64,
    pub second: u64,
}

pub open spec fn is_leap(year: int) -> bool {
    year % 4 == 0 && (year % 100 != 0 || year % 400 == 0)
}

pub open spec fn days_in_month(year: int, month: int) -> int {
    if month == 2 {
        if is_leap(year) {
            29
        } else {
            28
        }
    } else if month == 4 || month == 6 || month == 9 || month == 11 {
        30
    } else {
        31
    }
}

/// Days of a year before the first of `month`.
pub open spec fn days_before_month(year: int, month: int) -> int
    decreases month,
{
    if month <= 1 {
        0
    } else {
        days_before_month(year, month - 1) + days_in_month(year, month - 1)
    }
}

/// Days from the first day of year one to the first day of `year`.
pub open spec fn days_before_year(year: int) -> int {
    365 * (year - 1) + (year - 1) / 4 - (year - 1) / 100 + (year - 1) / 400
}

pub open spec fn is_date(year: int, month: int, day: int) -> bool {
    1 <= month <= 12 && 1 <= day <= days_in_month(year, month)
}

/// Days from 1970-01-01 to the given date.
pub open spec fn day_number(year: int, month: int, day: int) -> int {
    days_before_year(year) - days_before_year(1970) + days_before_month(year, month) + day - 1
}

/// Whether `c` is the moment `secs` seconds after 1970-01-01T00:00:00Z.
pub open spec fn is_moment(c: CivilTime, secs: nat) -> bool {
    &&& is_date(c.year as int, c.month as int, c.day as int)
    &&& c.hour < 24 && c.minute < 60 && c.second < 60
    &&& day_number(c.year as int, c.month as int, c.day as int) * 86400 + c.hour * 3600 + c.minute * 60
        + c.second == secs
}

/// The date and time of day of a moment.
pub open spec fn civil(secs: nat) -> CivilTime {
    choose|c: CivilTime| is_moment(c, secs)
}

/// One more year adds a leap day exactly if it is a leap year.
proof fn lemma_leap_days(year: int)
    ensures
        year / 4 - year / 100 + year / 400 == (year - 1) / 4 - (year - 1) / 100 + (year - 1) / 400
            + (if is_leap(year) {
            1int
        } else {
            0int
        }),
{
    assert(year / 4 == (year - 1) / 4 + (if year % 4 == 0 {
        1int
    } else {
        0int
    }));
    assert(year / 100 == (year - 1) / 100 + (if year % 100 == 0 {
        1int
    } else {
        0int
    }));
    assert(year / 400 == (year - 1) / 400 + (if year % 400 == 0 {
        1int
    } else {
        0int
    }));
    assert(year % 100 == 0 ==> year % 4 == 0);
    assert(year % 400 == 0 ==> year % 100 == 0);
}

proof fn lemma_month_table(year: int)
    ensures
        days_before_month(year, 1) == 0,
        days_before_month(year, 2) == 31,
        ({
            let leap: int = if is_leap(year) {
                1
            } else {
                0
            };
            &&& days_before_month(year, 3) == 59 + leap
            &&& days_before_month(year, 4) == 90 + leap
            &&& days_before_month(year, 5) == 120 + leap
            &&& days_before_month(year, 6) == 151 + leap
            &&& days_before_month(year, 7) == 181 + leap
            &&& days_before_month(year, 8) == 212 + leap
            &&& days_before_month(year, 9) == 243 + leap
            &&& days_before_month(year, 10) == 273 + leap
            &&& days_before_month(year, 11) == 304 + leap
            &&& days_before_month(year, 12) == 334 + leap
            &&& days_before_month(year, 13) == 365 + leap
            &&& days_before_year(year + 1) == days_before_year(year) + 365 + leap
        }),
{
    reveal_with_fuel(days_before_month, 14);
    lemma_leap_days(year);
}

/// Days from the first of March of year zero to the first of March of `year`.
spec fn days_before_march(year: int) -> int {
    365 * year + year / 4 - year / 100 + year / 400
}

proof fn lemma_march(year: int)
    ensures
        days_before_march(year) == days_before_year(year) + days_before_month(year, 3) + 306,
        days_before_march(year + 1) == days_before_march(year) + 365 + (if is_leap(year + 1) {
            1int
        } else {
            0int
        }),
{
    lemma_month_table(year);
    lemma_leap_days(year);
    lemma_leap_days(year + 1);
}

/// The start of a year, counted in days from the start of its era of 400 years.
/// Years of an era begin in March.
spec fn era_days(yoe: int) -> int {
    365 * yoe + yoe / 4 - yoe / 100
}

/// The year of an era in which a day falls.
spec fn year_of_era(doe: int) -> int {
    (doe - doe / 1460 + doe / 36524 - doe / 146096) / 365
}

/// The same, for a day whose century of the era is known: `r` is the day of
/// the century.
proof fn lemma_year_of_century(c: int, r: int)
    requires
        0 <= c <= 3,
        0 <= r < 36524,
    ensures
        ({
            let doe = 36524 * c + r;
            let yoe = year_of_era(doe);
            &&& 100 * c <= yoe < 100 * (c + 1)
            &&& era_days(yoe) <= doe
            &&& yoe < 100 * c + 99 ==> doe < era_days(yoe + 1)
        }),
{
    let doe = 36524 * c + r;
    let a = r / 1461;
    let b = r % 1461;
    let j = if b < 365 {
        0int
    } else if b < 730 {
        1
    } else if b < 1095 {
        2
    } else {
        3
    };
    let k = 4 * a + j;
    assert(0 <= a <= 24 && r == 1461 * a + b);
    let t: int = if a + b + 24 * c >= 1460 {
        1
    } else {
        0
    };
    assert(doe == 1460 * (25 * c + a + t) + (a + b + 24 * c - 1460 * t));
    assert(doe / 1460 == 25 * c + a + t);
    assert(doe / 36524 == c);
    assert(doe / 146096 == 0);
    let n = doe - doe / 1460 + doe / 36524 - doe / 146096;
    assert(n == 365 * (100 * c + k) + (b - t - 365 * j));
    assert(0 <= b - t - 365 * j < 365);
    assert(n / 365 == 100 * c + k);
    let yoe = year_of_era(doe);
    assert(yoe == 100 * c + k);
    assert(yoe / 4 == 25 * c + a);
    assert(0 <= k < 100);
    assert(yoe / 100 == c);
    if k < 99 {
        assert((yoe + 1) / 100 == c);
        if j < 3 {
            assert((yoe + 1) / 4 == 25 * c + a);
        } else {
            assert((yoe + 1) / 4 == 25 * c + a + 1);
        }
    }
}

proof fn lemma_year_of_era(doe: int)
    requires
        0 <= doe < 146097,
    ensures
        0 <= year_of_era(doe) < 400,
        era_days(year_of_era(doe)) <= doe,
        year_of_era(doe) < 399 ==> doe < era_days(year_of_era(doe) + 1),
{
    if doe == 146096 {
        assert(year_of_era(doe) == 399);
    } else {
        let c = doe / 36524;
        let r = doe % 36524;
        assert(0 <= c <= 3 && doe == 36524 * c + r);
        lemma_year_of_century(c, r);
        let yoe = year_of_era(doe);
        if yoe == 100 * c + 99 {
            assert(yoe + 1 == 100 * (c + 1));
            assert((yoe + 1) / 100 == c + 1);
            assert((yoe + 1) / 4 == 25 * (c + 1));
        }
    }
}

/// What the arithmetic below computes from a day number is a date with that
/// day number.
proof fn lemma_date_of_day(days: int, era: int, yoe: int, doy: int, mp: int, day: int, month: int, year: int)
    requires
        0 <= days,
        era == (days + 719468) / 146097,
        yoe == year_of_era((days + 719468) % 146097),
        doy == (days + 719468) % 146097 - era_days(yoe),
        mp == (5 * doy + 2) / 153,
        day == doy - (153 * mp + 2) / 5 + 1,
        month == (if mp < 10 {
            mp + 3
        } else {
            mp - 9
        }),
        year == yoe + era * 400 + (if month <= 2 {
            1int
        } else {
            0int
        }),
    ensures
        is_date(year, month, day),
        day_number(year, month, day) == days,
{
    let z = days + 719468;
    let doe = z % 146097;
    lemma_year_of_era(doe);
    let y = yoe + era * 400;
    assert(y / 400 == era);
    assert(y / 100 == 4 * era + yoe / 100);
    assert(y / 4 == 100 * era + yoe / 4);
    assert(days_before_march(y) == 146097 * era + era_days(yoe));
    assert(z == days_before_march(y) + doy);
    lemma_march(y);
    lemma_month_table(y);
    lemma_month_table(y + 1);
    assert(days_before_year(1970) == 719162);
    assert(doy < 365 + (if is_leap(y + 1) {
        1int
    } else {
        0int
    })) by {
        if yoe < 399 {
            assert((y + 1) / 400 == era);
            assert((y + 1) / 100 == 4 * era + (yoe + 1) / 100);
            assert((y + 1) / 4 == 100 * era + (yoe + 1) / 4);
            assert(days_before_march(y + 1) == 146097 * era + era_days(yoe + 1));
        } else {
            assert(y + 1 == 400 * (era + 1));
            assert(is_leap(y + 1));
        }
    }
    assert(0 <= doy <= 365);
    assert(0 <= mp <= 11);
    assert(153 * mp <= 5 * doy + 2 < 153 * mp + 153);
    if mp == 0 {
    } else if mp == 1 {
    } else if mp == 2 {
    } else if mp == 3 {
    } else if mp == 4 {
    } else if mp == 5 {
    } else if mp == 6 {
    } else if mp == 7 {
    } else if mp == 8 {
    } else if mp == 9 {
    } else if mp == 10 {
    } else {
        assert(mp == 11);
    }
}

/// Different dates have different day numbers: a later date has a larger one.
proof fn lemma_day_number_grows(y1: int, m1: int, d1: int, y2: int, m2: int, d2: int)
    requires
        is_date(y1, m1, d1),
        is_date(y2, m2, d2),
        y1 < y2 || (y1 == y2 && (m1 < m2 || (m1 == m2 && d1 < d2))),
    ensures
        day_number(y1, m1, d1) < day_number(y2, m2, d2),
{
    lemma_month_table(y1);
    lemma_month_table(y2);
    if y1 < y2 {
        lemma_years_grow(y1 + 1, y2);
    }
    lemma_months_grow(y1, m1 + 1, 13);
    lemma_months_grow(y2, 1, m2);
    if y1 == y2 && m1 < m2 {
        lemma_months_grow(y1, m1 + 1, m2);
    }
}

proof fn lemma_years_grow(a: int, b: int)
    requires
        a <= b,
    ensures
        days_before_year(a) <= days_before_year(b),
    decreases b - a,
{
    if a < b {
        lemma_years_grow(a, b - 1);
        lemma_month_table(b - 1);
    }
}

proof fn lemma_months_grow(year: int, a: int, b: int)
    requires
        1 <= a <= b,
    ensures
        days_before_month(year, a) <= days_before_month(year, b),
    decreases b - a,
{
    if a < b {
        lemma_months_grow(year, a, b - 1);
    }
}

/// Seconds split in one way into days and a time of day.
proof fn lemma_time_of_day_is_unique(
    days: int,
    hour: int,
    minute: int,
    second: int,
    other_days: int,
    other_hour: int,
    other_minute: int,
    other_second: int,
)
    requires
        0 <= hour < 24 && 0 <= minute < 60 && 0 <= second < 60,
        0 <= other_hour < 24 && 0 <= other_minute < 60 && 0 <= other_second < 60,
        days * 86400 + hour * 3600 + minute * 60 + second == other_days * 86400 + other_hour * 3600
            + other_minute * 60 + other_second,
    ensures
        days == other_days,
        hour == other_hour,
        minute == other_minute,
        second == other_second,
{
    let time = hour * 3600 + minute * 60 + second;
    let other = other_hour * 3600 + other_minute * 60 + other_second;
    assert(0 <= time < 86400);
    assert(0 <= other < 86400);
    assert(days == other_days);
    assert(0 <= minute * 60 + second < 3600);
    assert(0 <= other_minute * 60 + other_second < 3600);
    assert(hour == other_hour);
}

/// A moment has one date and time of day.
pub proof fn law_moment_is_unique(a: CivilTime, b: CivilTime, secs: nat)
    requires
        is_moment(a, secs),
        is_moment(b, secs),
    ensures
        a == b,
{
    let na = day_number(a.year as int, a.month as int, a.day as int);
    let nb = day_number(b.year as int, b.month as int, b.day as int);
    lemma_time_of_day_is_unique(
        na,
        a.hour as int,
        a.minute as int,
        a.second as int,
        nb,
        b.hour as int,
        b.minute as int,
        b.second as int,
    );
    if (a.year, a.month, a.day) != (b.year, b.month, b.day) {
        if a.year < b.year || (a.year == b.year && (a.month < b.month || (a.month == b.month && a.day
            < b.day))) {
            lemma_day_number_grows(
                a.year as int,
                a.month as int,
                a.day as int,
                b.year as int,
                b.month as int,
                b.day as int,
            );
        } else {
            lemma_day_number_grows(
                b.year as int,
                b.month as int,
                b.day as int,
                a.year as int,
                a.month as int,
                a.day as int,
            );
        }
    }
}

/// The date and time of day `unix_secs` seconds after 1970-01-01T00:00:00Z.
pub fn civil_from_unix(unix_secs: u64) -> (r: CivilTime)
    ensures
        is_moment(r, unix_secs as nat),
        r == civil(unix_secs as nat),
{
    let days: u64 = unix_secs / 86_400;
    let z: u64 = days + 719_468;
    let era: u64 = z / 146_097;
    let doe: u64 = z % 146_097;
    let yoe: u64 = (doe - doe / 1460 + doe / 36524 - doe / 146_096) / 365;
    proof {
        lemma_year_of_era(doe as int);
    }
    let doy: u64 = doe - (365 * yoe + yoe / 4 - yoe / 100);
    let mp: u64 = (5 * doy + 2) / 153;
    assert(doy <= 365) by {
        if yoe == 399 {
            assert(era_days(399) == 145731);
        }
    }
    let day: u64 = doy + 1 - (153 * mp + 2) / 5;
    let month: u64 = if mp < 10 {
        mp + 3
    } else {
        mp - 9
    };
    let year: u64 = yoe + era * 400 + (if month <= 2 {
        1
    } else {
        0
    });
    let rem: u64 = unix_secs % 86_400;
    let r = CivilTime {
        year,
        month,
        day,
        hour: rem / 3600,
        minute: (rem % 3600) / 60,
        second: rem % 60,
    };
    proof {
        lemma_date_of_day(
            days as int,
            era as int,
            yoe as int,
            doy as int,
            mp as int,
            day as int,
            month as int,
            year as int,
        );
        assert(rem == r.hour * 3600 + r.minute * 60 + r.second);
        assert(is_moment(r, unix_secs as nat));
        law_moment_is_unique(r, civil(unix_secs as nat), unix_secs as nat);
    }
    r
}

// ---------------------------------------------------------------------------
// Text
// ---------------------------------------------------------------------------

/// The text of a date and time of day, up to the seconds.
pub open spec fn civil_text(c: CivilTime) -> Seq<char> {
    text::padded(c.year as nat, 4) + seq!['-'] + text::padded(c.month as nat, 2) + seq!['-']
        + text::padded(c.day as nat, 2) + seq!['T'] + text::padded(c.hour as nat, 2) + seq![':']
        + text::padded(c.minute as nat, 2) + seq![':'] + text::padded(c.second as nat, 2)
}

/// RFC 3339 text of a moment in UTC. A fraction of nine digits is written only
/// where it is not zero.
pub open spec fn rfc3339(secs: nat, nanos: nat) -> Seq<char> {
    if nanos == 0 {
        civil_text(civil(secs)) + seq!['Z']
    } else {
        civil_text(civil(secs)) + seq!['.'] + text::padded(nanos, 9) + seq!['Z']
    }
}

/// RFC 3339 text of the moment `secs` seconds and `nanos` nanoseconds after
/// 1970-01-01T00:00:00Z.
pub fn format_unix_time_rfc3339(secs: u64, nanos: u32) -> (r: String)
    ensures
        r@ == rfc3339(secs as nat, nanos as nat),
{
    let c = civil_from_unix(secs);
    let mut out = String::new();
    text::push_padded(&mut out, c.year, 4);
    out.push('-');
    text::push_padded(&mut out, c.month, 2);
    out.push('-');
    text::push_padded(&mut out, c.day, 2);
    out.push('T');
    text::push_padded(&mut out, c.hour, 2);
    out.push(':');
    text::push_padded(&mut out, c.minute, 2);
    out.push(':');
    text::push_padded(&mut out, c.second, 2);
    assert(out@ =~= civil_text(c));
    if nanos != 0 {
        out.push('.');
        text::push_padded(&mut out, nanos as u64, 9);
    }
    out.push('Z');
    assert(out@ =~= rfc3339(secs as nat, nanos as nat));
    out
}

/// `std::time::SystemTime`: a point in time, which nothing here looks into.
#[verifier::external_type_specification]
#[verifier::external_body]
pub struct ExSystemTime(SystemTime);

/// Whole seconds and nanoseconds from the Unix epoch to `time`; `None` for a
/// time before the epoch.
pub uninterp spec fn since_epoch(time: SystemTime) -> Option<(u64, u32)>;

/// `SystemTime::duration_since` the Unix epoch, with the duration taken apart
/// into whole seconds and the nanoseconds of the last second, of which there
/// are always less than a billion. Which moment a `SystemTime` holds keeps its
/// name.
#[verifier::external_body]
fn duration_since_epoch(time: SystemTime) -> (r: Option<(u64, u32)>)
    ensures
        r == since_epoch(time),
        r matches Some(d) ==> d.1 < 1_000_000_000,
{
    match time.duration_since(std::time::UNIX_EPOCH) {
        Ok(d) => Some((d.as_secs(), d.subsec_nanos())),
        Err(_) => None,
    }
}

/// RFC 3339 text of an optional distance from the Unix epoch; the epoch itself
/// stands in for earlier times.
pub open spec fn rfc3339_since_epoch(since: Option<(u64, u32)>) -> Seq<char> {
    match since {
        Some((secs, nanos)) => rfc3339(secs as nat, nanos as nat),
        None => "1970-01-01T00:00:00Z"@,
    }
}

/// RFC 3339 text of a point in time, in UTC. Times before 1970 read as the
/// start of 1970.
pub fn format_system_time_rfc3339(time: SystemTime) -> (r: String)
    ensures
        r@ == rfc3339_since_epoch(since_epoch(time)),
        since_epoch(time) matches Some(d) ==> d.1 < 1_000_000_000,
{
    match duration_since_epoch(time) {
        Some((secs, nanos)) => format_unix_time_rfc3339(secs, nanos),
        None => "1970-01-01T00:00:00Z".to_owned(),
    }
}

/// The ASCII digits of a text, in order.
pub open spec fn digits_of(s: Seq<char>) -> Seq<char> {
    s.filter(|c: char| text::is_ascii_digit(c))
}

/// The file name suggested for a snapshot captured at the time that `stamp`
/// writes: its first eight digits are the date and the next six the time.
pub open spec fn layout_filename(stamp: Seq<char>) -> Seq<char> {
    let digits = digits_of(stamp);
    if digits.len() >= 14 {
        "glazewm-layout-"@ + digits.subrange(0, 8) + "-"@ + digits.subrange(8, 14) + ".json"@
    } else {
        "glazewm-layout.json"@
    }
}

/// The file name suggested for a snapshot whose capture time is `stamp`.
pub fn layout_filename_for(stamp: &str) -> (r: String)
    ensures
        r@ == layout_filename(stamp@),
{
    let chars = text::chars_of(stamp);
    let ghost is_digit = |c: char| text::is_ascii_digit(c);
    let mut digits: Vec<char> = Vec::new();
    let mut i: usize = 0;
    assert(digits@ =~= stamp@.take(0).filter(is_digit)) by {
        reveal(Seq::filter);
    }
    while i < chars.len()
        invariant
            chars@ == stamp@,
            i <= chars@.len(),
            is_digit == (|c: char| text::is_ascii_digit(c)),
            digits@ == stamp@.take(i as int).filter(is_digit),
        decreases chars@.len() - i,
    {
        let c = chars[i];
        proof {
            assert(stamp@.take(i + 1).drop_last() =~= stamp@.take(i as int));
            assert(stamp@.take(i + 1).last() == c);
            reveal(Seq::filter);
        }
        if '0' <= c && c <= '9' {
            digits.push(c);
        }
        i = i + 1;
    }
    assert(stamp@.take(i as int) =~= stamp@);
    if digits.len() >= 14 {
        let mut out = "glazewm-layout-".to_owned();
        let date = text::string_of_range(&digits, 0, 8);
        let time = text::string_of_range(&digits, 8, 14);
        out.append(date.as_str());
        out.append("-");
        out.append(time.as_str());
        out.append(".json");
        out
    } else {
        "glazewm-layout.json".to_owned()
    }
}

/// The file name suggested for a snapshot captured at `time`.
pub fn default_layout_filename(time: SystemTime) -> (r: String)
    ensures
        r@ == layout_filename(rfc3339_since_epoch(since_epoch(time))),
{
    let stamp = format_system_time_rfc3339(time);
    layout_filename_for(stamp.as_str())
}

// ---------------------------------------------------------------------------
// Laws
// ---------------------------------------------------------------------------

proof fn lemma_digits_of_numeral(s: Seq<char>)
    requires
        text::all_digits(s),
    ensures
        digits_of(s) == s,
    decreases s.len(),
{
    reveal(Seq::filter);
    if s.len() > 0 {
        assert forall|i: int| 0 <= i < s.drop_last().len() implies text::is_ascii_digit(
            #[trigger] s.drop_last()[i],
        ) by {
            assert(s.drop_last()[i] == s[i]);
        }
        lemma_digits_of_numeral(s.drop_last());
        assert(text::is_ascii_digit(s[s.len() - 1]));
        assert(digits_of(s) =~= s);
    } else {
        assert(digits_of(s) =~= s);
    }
}

proof fn lemma_digits_of_sum(a: Seq<char>, b: Seq<char>)
    ensures
        digits_of(a + b) == digits_of(a) + digits_of(b),
{
    Seq::filter_distributes_over_add(a, b, |c: char| text::is_ascii_digit(c));
}

proof fn lemma_digits_of_mark(c: char)
    requires
        !text::is_ascii_digit(c),
    ensures
        digits_of(seq![c]) == Seq::<char>::empty(),
{
    reveal(Seq::filter);
    assert(seq![c].drop_last() =~= Seq::<char>::empty());
    assert(digits_of(Seq::<char>::empty()) =~= Seq::<char>::empty());
    assert(digits_of(seq![c]) =~= Seq::<char>::empty());
}

proof fn lemma_padded(n: nat, width: nat)
    requires
        (width == 2 && n < 100) || (width == 4 && n < 10_000) || (width == 9 && n < 1_000_000_000),
    ensures
        text::padded(n, width).len() == width,
        text::all_digits(text::padded(n, width)),
{
    text::law_decimal_reads_back(n);
    reveal_with_fuel(text::decimal, 10);
    let d = text::decimal(n);
    assert(d.len() <= width);
    let z = text::zeros(width - d.len());
    assert forall|i: int| 0 <= i < width implies text::is_ascii_digit(
        #[trigger] text::padded(n, width)[i],
    ) by {
        if i < z.len() {
            assert(text::padded(n, width)[i] == '0');
        } else {
            assert(text::padded(n, width)[i] == d[i - z.len()]);
        }
    }
}

proof fn lemma_digits_after_mark(prefix: Seq<char>, mark: char, numeral: Seq<char>)
    requires
        !text::is_ascii_digit(mark),
        text::all_digits(numeral),
    ensures
        digits_of(prefix + seq![mark] + numeral) == digits_of(prefix) + numeral,
{
    lemma_digits_of_sum(prefix + seq![mark], numeral);
    lemma_digits_of_sum(prefix, seq![mark]);
    lemma_digits_of_mark(mark);
    lemma_digits_of_numeral(numeral);
    assert(digits_of(prefix) + Seq::<char>::empty() =~= digits_of(prefix));
}

/// The date of a moment as eight digits.
pub open spec fn date_digits(c: CivilTime) -> Seq<char> {
    text::padded(c.year as nat, 4) + text::padded(c.month as nat, 2) + text::padded(
        c.day as nat,
        2,
    )
}

/// The time of day of a moment as six digits.
pub open spec fn time_digits(c: CivilTime) -> Seq<char> {
    text::padded(c.hour as nat, 2) + text::padded(c.minute as nat, 2) + text::padded(
        c.second as nat,
        2,
    )
}

proof fn lemma_digits_of_civil(c: CivilTime)
    requires
        c.year <= 9999,
        c.month < 100,
        c.day < 100,
        c.hour < 100,
        c.minute < 100,
        c.second < 100,
    ensures
        digits_of(civil_text(c)) == date_digits(c) + time_digits(c),
        date_digits(c).len() == 8,
        time_digits(c).len() == 6,
{
    let y = text::padded(c.year as nat, 4);
    let mo = text::padded(c.month as nat, 2);
    let d = text::padded(c.day as nat, 2);
    let h = text::padded(c.hour as nat, 2);
    let mi = text::padded(c.minute as nat, 2);
    let s = text::padded(c.second as nat, 2);
    lemma_padded(c.year as nat, 4);
    lemma_padded(c.month as nat, 2);
    lemma_padded(c.day as nat, 2);
    lemma_padded(c.hour as nat, 2);
    lemma_padded(c.minute as nat, 2);
    lemma_padded(c.second as nat, 2);
    lemma_digits_of_numeral(y);
    let t1 = y + seq!['-'] + mo;
    let t2 = t1 + seq!['-'] + d;
    let t3 = t2 + seq!['T'] + h;
    let t4 = t3 + seq![':'] + mi;
    let t5 = t4 + seq![':'] + s;
    lemma_digits_after_mark(y, '-', mo);
    lemma_digits_after_mark(t1, '-', d);
    lemma_digits_after_mark(t2, 'T', h);
    lemma_digits_after_mark(t3, ':', mi);
    lemma_digits_after_mark(t4, ':', s);
    assert(t5 == civil_text(c));
    assert(y + mo + d + h + mi + s =~= (y + mo + d) + (h + mi + s));
}

/// Up to the year 9999 the suggested file name is
/// `glazewm-layout-YYYYMMDD-HHMMSS.json`, whatever the fraction of a second.
pub proof fn law_filename_is_date_and_time(secs: nat, nanos: nat, c: CivilTime)
    requires
        is_moment(c, secs),
        c.year <= 9999,
        nanos < 1_000_000_000,
    ensures
        layout_filename(rfc3339(secs, nanos)) == "glazewm-layout-"@ + date_digits(c) + "-"@
            + time_digits(c) + ".json"@,
{
    law_moment_is_unique(c, civil(secs), secs);
    lemma_digits_of_civil(c);
    let all = date_digits(c) + time_digits(c);
    let digits = digits_of(rfc3339(secs, nanos));
    let t = civil_text(c);
    let end = seq!['Z'];
    lemma_digits_of_mark('Z');
    if nanos == 0 {
        lemma_digits_of_sum(t, end);
        assert(digits =~= all);
    } else {
        let f = text::padded(nanos, 9);
        lemma_padded(nanos, 9);
        lemma_digits_after_mark(t, '.', f);
        lemma_digits_of_sum(t + seq!['.'] + f, end);
        assert(digits =~= all + f);
    }
    assert(digits.subrange(0, 8) =~= date_digits(c));
    assert(digits.subrange(8, 14) =~= time_digits(c));
}

} // verus!
