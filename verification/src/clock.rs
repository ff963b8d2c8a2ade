//! UTC timestamps in the form `YYYY-MM-DDTHH:MM:SSZ`.
use vstd::prelude::*;

use crate::text::{decimal_padded, push_char, push_padded};

verus! {

/// Whether `y` is a leap year of the proleptic Gregorian calendar.
pub open spec fn is_leap_year(y: int) -> bool {
    y % 4 == 0 && (y % 100 != 0 || y % 400 == 0)
}

/// The number of leap years in `1..=y`.
pub open spec fn leap_years_through(y: int) -> int {
    y / 4 - y / 100 + y / 400
}

/// Days from 1970-01-01 to the first of January of year `y`.
pub open spec fn days_before_year(y: int) -> int {
    365 * (y - 1970) + leap_years_through(y - 1) - leap_years_through(1969)
}

/// Days from the first of January to the first day of month `m` (1 to 12) of year `y`.
pub open spec fn days_before_month(y: int, m: int) -> int {
    let base: int = if m == 1 { 0 } else if m == 2 { 31 } else if m == 3 { 59 } else if m == 4 { 90 }
        else if m == 5 { 120 } else if m == 6 { 151 } else if m == 7 { 181 } else if m == 8 { 212 }
        else if m == 9 { 243 } else if m == 10 { 273 } else if m == 11 { 304 } else { 334 };
    if m > 2 && is_leap_year(y) { base + 1 } else { base }
}

/// The number of days of month `m` (1 to 12) of year `y`.
pub open spec fn month_length(y: int, m: int) -> int {
    if m == 2 {
        if is_leap_year(y) { 29 } else { 28 }
    } else if m == 4 || m == 6 || m == 9 || m == 11 {
        30
    } else {
        31
    }
}

/// `(y, m, d)` is the calendar date `days` days after 1970-01-01.
pub open spec fn is_civil_date(days: int, y: int, m: int, d: int) -> bool {
    &&& 1 <= m <= 12
    &&& 1 <= d <= month_length(y, m)
    &&& days_before_year(y) + days_before_month(y, m) + d - 1 == days
}

/// Days from the first of March of year 0 to the first of March of year `k`.
pub open spec fn march_start(k: int) -> int {
    365 * k + k / 4 - k / 100 + k / 400
}

#[verifier::spinoff_prover]
proof fn lemma_year_of_era(doe: int)
    requires
        0 <= doe < 146097,
    ensures
        ({
            let yoe = (doe - doe / 1460 + doe / 36524 - doe / 146096) / 365;
            0 <= yoe <= 399 && march_start(yoe) <= doe < march_start(yoe + 1)
        }),
{
}

/// Days from the first of March to the first day of the `mp`-th month
/// counted from March (0 is March, 11 is February).
pub open spec fn march_month_offset(mp: int) -> int {
    (153 * mp + 2) / 5
}

proof fn lemma_march_year_length(k: int)
    ensures
        march_start(k) - march_start(k - 1) == 365 + if is_leap_year(k) { 1int } else { 0int },
{
}

proof fn lemma_era_start(era: int, yoe: int)
    requires
        0 <= era,
        0 <= yoe <= 400,
    ensures
        march_start(400 * era + yoe) == 146097 * era + march_start(yoe),
{
    let x = 400 * era + yoe;
    vstd::arithmetic::div_mod::lemma_fundamental_div_mod_converse(
        x,
        4,
        100 * era + yoe / 4,
        yoe % 4,
    );
    vstd::arithmetic::div_mod::lemma_fundamental_div_mod_converse(
        x,
        100,
        4 * era + yoe / 100,
        yoe % 100,
    );
    vstd::arithmetic::div_mod::lemma_fundamental_div_mod_converse(
        x,
        400,
        era + yoe / 400,
        yoe % 400,
    );
}

#[verifier::spinoff_prover]
proof fn lemma_month_of_year(doy: int, len: int)
    requires
        0 <= doy < len,
        len == 365 || len == 366,
    ensures
        ({
            let mp = (5 * doy + 2) / 153;
            let d = doy - march_month_offset(mp) + 1;
            &&& 0 <= mp <= 11
            &&& 1 <= d
            &&& mp < 11 ==> d <= march_month_offset(mp + 1) - march_month_offset(mp)
            &&& mp == 11 ==> d <= len - 337
        }),
{
}

proof fn lemma_days_before_year(y: int)
    ensures
        days_before_year(y) == march_start(y - 1) + 306 - 719468,
{
}

/// The date that Howard Hinnant's `civil_from_days` computes is the calendar
/// date `days` days after 1970-01-01.
pub proof fn lemma_civil_from_days(days: int)
    requires
        0 <= days,
    ensures
        ({
            let z = days + 719468;
            let era = z / 146097;
            let doe = z % 146097;
            let yoe = (doe - doe / 1460 + doe / 36524 - doe / 146096) / 365;
            let doy = doe - (365 * yoe + yoe / 4 - yoe / 100);
            let mp = (5 * doy + 2) / 153;
            let d = doy - (153 * mp + 2) / 5 + 1;
            let mon = if mp < 10 { mp + 3 } else { mp - 9 };
            let y = yoe + era * 400 + if mon <= 2 { 1int } else { 0int };
            is_civil_date(days, y, mon, d)
        }),
{
    let z = days + 719468;
    let era = z / 146097;
    let doe = z % 146097;
    let yoe = (doe - doe / 1460 + doe / 36524 - doe / 146096) / 365;
    let doy = doe - (365 * yoe + yoe / 4 - yoe / 100);
    let mp = (5 * doy + 2) / 153;
    let d = doy - (153 * mp + 2) / 5 + 1;
    let mon = if mp < 10 { mp + 3 } else { mp - 9 };
    let ym = yoe + era * 400;
    lemma_year_of_era(doe);
    assert(march_start(yoe) == 365 * yoe + yoe / 4 - yoe / 100);
    lemma_era_start(era, yoe);
    lemma_era_start(era, yoe + 1);
    lemma_march_year_length(ym + 1);
    let len = march_start(ym + 1) - march_start(ym);
    lemma_month_of_year(doy, len);
    if mon <= 2 {
        lemma_days_before_year(ym + 1);
    } else {
        lemma_days_before_year(ym);
        lemma_march_year_length(ym);
    }
}

/// The timestamp text `YYYY-MM-DDTHH:MM:SSZ` of a date and a time of day;
/// the year takes at least four digits.
pub open spec fn timestamp_text(y: nat, mon: nat, d: nat, h: nat, mi: nat, sec: nat) -> Seq<char> {
    decimal_padded(y, 4) + seq!['-'] + decimal_padded(mon, 2) + seq!['-'] + decimal_padded(d, 2)
        + seq!['T'] + decimal_padded(h, 2) + seq![':'] + decimal_padded(mi, 2) + seq![':']
        + decimal_padded(sec, 2) + seq!['Z']
}

/// `text` is the UTC timestamp of the moment `secs` seconds after the Unix epoch.
#[verifier::opaque]
pub open spec fn is_utc_timestamp(secs: nat, text: Seq<char>) -> bool {
    let days = secs / 86400;
    let t = secs % 86400;
    exists|y: nat, m: nat, d: nat|
        #![trigger is_civil_date(days as int, y as int, m as int, d as int)]
        is_civil_date(days as int, y as int, m as int, d as int) && text == timestamp_text(
            y,
            m,
            d,
            t / 3600,
            (t % 3600) / 60,
            t % 60,
        )
}

/// Formats the moment `secs` seconds after the Unix epoch as a UTC timestamp.
pub fn format_utc(secs: u64) -> (res: String)
    ensures
        is_utc_timestamp(secs as nat, res@),
{
    let days = secs / 86400;
    let time_secs = secs % 86400;
    let h = time_secs / 3600;
    let m = (time_secs % 3600) / 60;
    let s = time_secs % 60;
    let z = days + 719468;
    let era = z / 146097;
    let doe = z % 146097;
    proof {
        lemma_year_of_era(doe as int);
        lemma_civil_from_days(days as int);
    }
    let yoe = (doe - doe / 1460 + doe / 36524 - doe / 146096) / 365;
    let y = yoe + era * 400;
    assert(365 * yoe + yoe / 4 - yoe / 100 <= doe);
    let doy = doe - (365 * yoe + yoe / 4 - yoe / 100);
    assert(doy <= 365);
    let mp = (5 * doy + 2) / 153;
    assert((153 * mp + 2) / 5 <= doy);
    let d = doy - (153 * mp + 2) / 5 + 1;
    let mon = if mp < 10 {
        mp + 3
    } else {
        mp - 9
    };
    let y = if mon <= 2 {
        y + 1
    } else {
        y
    };
    let mut out = String::new();
    push_padded(&mut out, y, 4);
    push_char(&mut out, '-');
    push_padded(&mut out, mon, 2);
    push_char(&mut out, '-');
    push_padded(&mut out, d, 2);
    push_char(&mut out, 'T');
    push_padded(&mut out, h, 2);
    push_char(&mut out, ':');
    push_padded(&mut out, m, 2);
    push_char(&mut out, ':');
    push_padded(&mut out, s, 2);
    push_char(&mut out, 'Z');
    assert(out@ =~= timestamp_text(
        y as nat,
        mon as nat,
        d as nat,
        h as nat,
        m as nat,
        s as nat,
    ));
    assert(is_civil_date(days as int, y as int, mon as int, d as int));
    proof {
        reveal(is_utc_timestamp);
    }
    out
}

/// Reads the system clock, by `SystemTime::now` and `duration_since(UNIX_EPOCH)`,
/// as whole seconds and the nanoseconds within the second; a clock set before
/// the epoch reads as zero.
/// Trusted: the standard library documents that the sub-second part of a
/// `Duration` is below one billion nanoseconds. Nothing is stated of the time.
#[verifier::external_body]
pub(crate) fn unix_time() -> (res: (u64, u32))
    ensures
        res.1 < 1_000_000_000,
{
    let d = std::time::SystemTime::now().duration_since(std::time::UNIX_EPOCH).unwrap_or_default();
    (d.as_secs(), d.subsec_nanos())
}

/// The current time as a UTC timestamp `YYYY-MM-DDTHH:MM:SSZ`.
pub fn utc_now() -> (res: String)
    ensures
        exists|secs: nat| is_utc_timestamp(secs, res@),
{
    let (secs, _nanos) = unix_time();
    format_utc(secs)
}

} // verus!
