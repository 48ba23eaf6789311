//! Proleptic Gregorian calendar: day numbers counted from 1970-01-01, and
//! `YYYY-MM-DD` date strings.

use vstd::prelude::*;
use crate::text::{
    all_digits, chars_of, dec, digits_val, fmt_i64_zero_pad, is_digit, parse_i64, parse_i64_chars,
    lemma_dec_width, lemma_lex_le_transitive, lemma_lex_lt_append, lemma_lex_lt_common_prefix,
    lemma_parse_zero_pad, lemma_split_concat, lemma_split_single, lemma_zero_pad_lt, lex_le, lex_lt, pow10,
    push_str, repeat_char, split_chars, split_on, string_push, zero_pad,
};
use vstd::arithmetic::div_mod::{lemma_fundamental_div_mod, lemma_fundamental_div_mod_converse, lemma_mod_bound, lemma_mod_multiples_vanish};

verus! {

/// Division of `a` by `b > 0` rounding toward zero (Rust's `/` on signed integers).
pub open spec fn tdiv(a: int, b: int) -> int {
    if a >= 0 {
        a / b
    } else {
        -((-a) / b)
    }
}

pub open spec fn fits_i64(x: int) -> bool {
    i64::MIN <= x <= i64::MAX
}

/// Month index counted from March (March = 0, ..., February = 11).
pub open spec fn march_month(m: int) -> int {
    if m > 2 { m - 3 } else { m + 9 }
}

/// Day of the March-based year on which month `m`, day `d` falls.
pub open spec fn day_of_year(m: int, d: int) -> int {
    tdiv(153 * march_month(m) + 2, 5) + d - 1
}

/// Start of year `yoe` (0..400) within a 400-year era, in days.
pub open spec fn year_start(yoe: int) -> int {
    yoe * 365 + yoe / 4 - yoe / 100
}

/// Day number (days since 1970-01-01) of the date `y-m-d`.
pub open spec fn days_from_civil(y: int, m: int, d: int) -> int {
    let y1 = if m <= 2 { y - 1 } else { y };
    let era = y1 / 400;
    let yoe = y1 % 400;
    era * 146097 + year_start(yoe) + day_of_year(m, d) - 719468
}

/// Every intermediate value of the day-number computation fits in `i64`.
pub open spec fn civil_fits(y: int, m: int, d: int) -> bool {
    let y1 = if m <= 2 { y - 1 } else { y };
    let mp = march_month(m);
    let q = tdiv(153 * mp + 2, 5);
    let era = y1 / 400;
    let yoe = y1 % 400;
    let doe = year_start(yoe) + day_of_year(m, d);
    &&& fits_i64(y1)
    &&& fits_i64(153 * mp)
    &&& fits_i64(153 * mp + 2)
    &&& fits_i64(q + d)
    &&& fits_i64(q + d - 1)
    &&& fits_i64(doe)
    &&& fits_i64(era * 146097)
    &&& fits_i64(era * 146097 + doe)
    &&& fits_i64(era * 146097 + doe - 719468)
}

pub open spec fn is_leap(y: int) -> bool {
    y % 4 == 0 && (y % 100 != 0 || y % 400 == 0)
}

pub open spec fn days_in_month(y: int, m: int) -> int {
    if m == 2 {
        if is_leap(y) { 29 } else { 28 }
    } else if m == 4 || m == 6 || m == 9 || m == 11 {
        30
    } else {
        31
    }
}

/// A real calendar date.
pub open spec fn valid_date(y: int, m: int, d: int) -> bool {
    1 <= m <= 12 && 1 <= d <= days_in_month(y, m)
}

/// The date of day number `days` (inverse of `days_from_civil` on valid dates).
pub open spec fn civil_from_days(days: int) -> (int, int, int) {
    let z = days + 719468;
    let era = z / 146097;
    let doe = z % 146097;
    let yoe = (doe - doe / 1460 + doe / 36524 - doe / 146096) / 365;
    let doy = doe - year_start(yoe);
    let mp = (5 * doy + 2) / 153;
    let d = doy - (153 * mp + 2) / 5 + 1;
    let m = if mp < 10 { mp + 3 } else { mp - 9 };
    let y = yoe + era * 400;
    (if m <= 2 { y + 1 } else { y }, m, d)
}

/// Where a day of a 400-year era falls: its year within the era and its day
/// within that (March-based) year.
proof fn lemma_era_day(doe: u64)
    requires
        doe <= 146096,
    ensures
        ({
            let yoe = (doe - doe / 1460 + doe / 36524 - doe / 146096) / 365;
            &&& yoe <= 399
            &&& 365 * yoe + yoe / 4 - yoe / 100 <= doe
            &&& doe - (365 * yoe + yoe / 4 - yoe / 100) <= 365
        }),
{
    assert({
        let yoe = (doe - doe / 1460 + doe / 36524 - doe / 146096) / 365;
        &&& yoe <= 399
        &&& 365 * yoe + yoe / 4 - yoe / 100 <= doe
        &&& doe - (365 * yoe + yoe / 4 - yoe / 100) <= 365
    }) by (bit_vector)
        requires
            doe <= 146096,
    ;
}

/// Only the last year of a leap cycle reaches day 365 of its March-based year.
proof fn lemma_era_leap_day(doe: u64)
    requires
        doe <= 146096,
        ({
            let yoe = (doe - doe / 1460 + doe / 36524 - doe / 146096) / 365;
            doe - (365 * yoe + yoe / 4 - yoe / 100) == 365
        }),
    ensures
        ({
            let yoe = (doe - doe / 1460 + doe / 36524 - doe / 146096) / 365;
            (yoe + 1) % 4 == 0 && ((yoe + 1) % 100 != 0 || yoe == 399)
        }),
{
    assert({
        let yoe = (doe - doe / 1460 + doe / 36524 - doe / 146096) / 365;
        doe - (365 * yoe + yoe / 4 - yoe / 100) == 365 ==>
        (yoe + 1) % 4 == 0 && ((yoe + 1) % 100 != 0 || yoe == 399)
    }) by (bit_vector)
        requires
            doe <= 146096,
    ;
}

/// Month and day of a day of the March-based year.
proof fn lemma_year_day(doy: u64)
    requires
        doy <= 365,
    ensures
        ({
            let mp = (5 * doy + 2) / 153;
            let d = doy - (153 * mp + 2) / 5 + 1;
            &&& mp <= 11
            &&& (153 * mp + 2) / 5 <= doy
            &&& 1 <= d
            &&& (mp == 0 || mp == 2 || mp == 4 || mp == 5 || mp == 7 || mp == 9 || mp == 10) ==> d <= 31
            &&& (mp == 1 || mp == 3 || mp == 6 || mp == 8) ==> d <= 30
            &&& mp == 11 ==> d <= 29
            &&& (mp == 11 && d == 29) ==> doy == 365
        }),
{
    assert({
        let mp = (5 * doy + 2) / 153;
        let d = doy - (153 * mp + 2) / 5 + 1;
        &&& mp <= 11
        &&& (153 * mp + 2) / 5 <= doy
        &&& 1 <= d
        &&& (mp == 0 || mp == 2 || mp == 4 || mp == 5 || mp == 7 || mp == 9 || mp == 10) ==> d <= 31
        &&& (mp == 1 || mp == 3 || mp == 6 || mp == 8) ==> d <= 30
        &&& mp == 11 ==> d <= 29
        &&& (mp == 11 && d == 29) ==> doy == 365
    }) by (bit_vector)
        requires
            doy <= 365,
    ;
}


/// The day after a day of a 400-year era (not its last) is in the same
/// March-based year, or starts the next one when it was the last day of
/// its year (day 364, or 365 in a leap year).
#[verifier::rlimit(100)]
proof fn lemma_era_next_day(doe: u64)
    requires
        doe < 146096,
    ensures
        ({
            let yoe = (doe - doe / 1460 + doe / 36524 - doe / 146096) / 365;
            let n = (doe + 1) as u64;
            let yoe2 = (n - n / 1460 + n / 36524 - n / 146096) / 365;
            let doy = doe - (365 * yoe + yoe / 4 - yoe / 100);
            let leap: u64 = if (yoe + 1) % 4 == 0 && ((yoe + 1) % 100 != 0 || yoe == 399) { 1 } else { 0 };
            (yoe2 == yoe && doy < 364 + leap) || (yoe2 == yoe + 1 && doy == 364 + leap && n == 365 * yoe2 + yoe2 / 4
                - yoe2 / 100)
        }),
{
    assert({
        let yoe = (doe - doe / 1460 + doe / 36524 - doe / 146096) / 365;
        let n = (doe + 1) as u64;
        let yoe2 = (n - n / 1460 + n / 36524 - n / 146096) / 365;
        let doy = doe - (365 * yoe + yoe / 4 - yoe / 100);
        let leap: u64 = if (yoe + 1) % 4 == 0 && ((yoe + 1) % 100 != 0 || yoe == 399) { 1 } else { 0 };
        (yoe2 == yoe && doy < 364 + leap) || (yoe2 == yoe + 1 && doy == 364 + leap && n == 365 * yoe2 + yoe2 / 4
            - yoe2 / 100)
    }) by (bit_vector)
        requires
            doe < 146096,
    ;
}

/// The day after a day of a March-based year (not its day 365) is in the
/// same month, or starts the next month when it was the month's last day.
proof fn lemma_year_next_day(doy: u64)
    requires
        doy < 365,
    ensures
        ({
            let mp = (5 * doy + 2) / 153;
            let d = doy - (153 * mp + 2) / 5 + 1;
            let n = (doy + 1) as u64;
            let mp2 = (5 * n + 2) / 153;
            let d2 = n - (153 * mp2 + 2) / 5 + 1;
            let len: u64 = if mp == 1 || mp == 3 || mp == 6 || mp == 8 { 30 } else { 31 };
            (mp2 == mp && d2 == d + 1 && (mp <= 10 ==> d < len)) || (mp2 == mp + 1 && d2 == 1 && mp <= 10 && d == len)
        }),
{
    assert({
        let mp = (5 * doy + 2) / 153;
        let d = doy - (153 * mp + 2) / 5 + 1;
        let n = (doy + 1) as u64;
        let mp2 = (5 * n + 2) / 153;
        let d2 = n - (153 * mp2 + 2) / 5 + 1;
        let len: u64 = if mp == 1 || mp == 3 || mp == 6 || mp == 8 { 30 } else { 31 };
        (mp2 == mp && d2 == d + 1 && (mp <= 10 ==> d < len)) || (mp2 == mp + 1 && d2 == 1 && mp <= 10 && d == len)
    }) by (bit_vector)
        requires
            doy < 365,
    ;
}


/// `civil_from_days` gives a real date, and `days_from_civil` takes it back
/// to the same day number.
pub proof fn lemma_civil_roundtrip(days: int)
    ensures
        ({
            let (y, m, d) = civil_from_days(days);
            valid_date(y, m, d) && days_from_civil(y, m, d) == days
        }),
{
    let z = days + 719468;
    let era = z / 146097;
    let doe = z % 146097;
    lemma_mod_bound(z, 146097);
    lemma_fundamental_div_mod(z, 146097);
    lemma_era_day(doe as u64);
    let yoe = (doe - doe / 1460 + doe / 36524 - doe / 146096) / 365;
    let doy = doe - year_start(yoe);
    assert(0 <= yoe <= 399);
    assert(0 <= doy <= 365);
    lemma_year_day(doy as u64);
    let mp = (5 * doy + 2) / 153;
    let d = doy - (153 * mp + 2) / 5 + 1;
    let m = if mp < 10 { mp + 3 } else { mp - 9 };
    let y1 = yoe + era * 400;
    let y = if m <= 2 { y1 + 1 } else { y1 };
    assert(civil_from_days(days) == (y, m, d));
    // Back to the day number.
    assert((if m <= 2 { y - 1 } else { y }) == y1);
    lemma_fundamental_div_mod_converse(y1, 400, era, yoe);
    assert(march_month(m) == mp);
    assert(day_of_year(m, d) == doy);
    assert(days_from_civil(y, m, d) == era * 146097 + doe - 719468);
    // A real date: February 29 only in leap years.
    if m == 2 && d == 29 {
        assert(mp == 11);
        lemma_era_leap_day(doe as u64);
        let k = yoe + 1;
        assert(y == 400 * era + k);
        lemma_mod_multiples_vanish(100 * era, k, 4);
        lemma_mod_multiples_vanish(4 * era, k, 100);
        lemma_mod_multiples_vanish(era, k, 400);
        assert(400 * era == 4 * (100 * era));
        assert(400 * era == 100 * (4 * era));
        assert(y % 4 == k % 4);
        assert(y % 100 == k % 100);
        assert(y % 400 == k % 400);
        if yoe == 399 {
            assert(k % 400 == 0);
        }
        assert(is_leap(y));
    }
}


/// The calendar day after `y-m-d`.
pub open spec fn next_date(y: int, m: int, d: int) -> (int, int, int) {
    if d < days_in_month(y, m) {
        (y, m, d + 1)
    } else if m < 12 {
        (y, m + 1, 1)
    } else {
        (y + 1, 1, 1)
    }
}

/// The February of March-based year `yoe` of an era falls in a leap year
/// exactly when the cycle says so.
proof fn lemma_cycle_leap(era: int, yoe: int)
    requires
        0 <= yoe <= 399,
    ensures
        is_leap(era * 400 + yoe + 1) == ((yoe + 1) % 4 == 0 && ((yoe + 1) % 100 != 0 || yoe == 399)),
{
    let k = yoe + 1;
    let y = era * 400 + k;
    lemma_mod_multiples_vanish(100 * era, k, 4);
    lemma_mod_multiples_vanish(4 * era, k, 100);
    lemma_mod_multiples_vanish(era, k, 400);
    assert(400 * era == 4 * (100 * era));
    assert(400 * era == 100 * (4 * era));
    assert(y % 4 == k % 4);
    assert(y % 100 == k % 100);
    assert(y % 400 == k % 400);
}

/// Consecutive day numbers are consecutive calendar days: the date of the
/// day after is the calendar day after the date.
pub proof fn lemma_next_day(days: int)
    ensures
        ({
            let (y, m, d) = civil_from_days(days);
            civil_from_days(days + 1) == next_date(y, m, d)
        }),
{
    let z = days + 719468;
    let era = z / 146097;
    let doe = z % 146097;
    lemma_mod_bound(z, 146097);
    lemma_fundamental_div_mod(z, 146097);
    lemma_era_day(doe as u64);
    let yoe = (doe - doe / 1460 + doe / 36524 - doe / 146096) / 365;
    let doy = doe - year_start(yoe);
    lemma_year_day(doy as u64);
    let mp = (5 * doy + 2) / 153;
    let d = doy - (153 * mp + 2) / 5 + 1;
    let m = if mp < 10 { mp + 3 } else { mp - 9 };
    let y1 = yoe + era * 400;
    let y = if m <= 2 { y1 + 1 } else { y1 };
    assert(civil_from_days(days) == (y, m, d));
    lemma_cycle_leap(era, yoe);
    let leap: int = if (yoe + 1) % 4 == 0 && ((yoe + 1) % 100 != 0 || yoe == 399) { 1 } else { 0 };
    if doe == 146096 {
        // The last day of an era, February 29; the next era starts on March 1.
        lemma_fundamental_div_mod_converse(z + 1, 146097, era + 1, 0);
        assert(yoe == 399 && doy == 365 && mp == 11 && d == 29);
        assert(civil_from_days(days + 1) == (0 + (era + 1) * 400, 3int, 1int));
    } else {
        lemma_fundamental_div_mod_converse(z + 1, 146097, era, doe + 1);
        lemma_era_next_day(doe as u64);
        let n = doe + 1;
        let yoe2 = (n - n / 1460 + n / 36524 - n / 146096) / 365;
        let doy2 = n - year_start(yoe2);
        let mp2 = (5 * doy2 + 2) / 153;
        let d2 = doy2 - (153 * mp2 + 2) / 5 + 1;
        let m2 = if mp2 < 10 { mp2 + 3 } else { mp2 - 9 };
        let y2 = if m2 <= 2 { yoe2 + era * 400 + 1 } else { yoe2 + era * 400 };
        assert(civil_from_days(days + 1) == (y2, m2, d2));
        if yoe2 == yoe + 1 {
            // The last day of February starts a new March-based year.
            assert(doy == 364 + leap && doy2 == 0);
            assert(mp == 11 && d == 28 + leap && mp2 == 0 && d2 == 1);
        } else {
            assert(doy2 == doy + 1);
            lemma_year_next_day(doy as u64);
            if mp == 11 {
                assert(d < 28 + leap);
            }
        }
    }
}


// ── Day numbers ────────────────────────────────────────────────────────

/// Day number of the date `y-m-d`.
pub fn ymd_to_days(y: i64, m: i64, d: i64) -> (r: i64)
    requires
        civil_fits(y as int, m as int, d as int),
    ensures
        r == days_from_civil(y as int, m as int, d as int),
{
    let y1 = if m <= 2 { y - 1 } else { y };
    let era = match y1.checked_div_euclid(400) {
        Some(e) => e,
        None => 0,
    };
    let yoe = match y1.checked_rem_euclid(400) {
        Some(r) => r,
        None => 0,
    };
    proof {
        lemma_mod_bound(y1 as int, 400);
    }
    let mp = if m > 2 { m - 3 } else { m + 9 };
    let doy = (153 * mp + 2) / 5 + d - 1;
    let doe = yoe * 365 + yoe / 4 - yoe / 100 + doy;
    era * 146097 + doe - 719468
}

/// The date of day number `days`, as `(year, month, day)`.
pub fn days_to_ymd(days: i64) -> (r: (i64, i64, i64))
    requires
        days <= i64::MAX - 719468,
    ensures
        (r.0 as int, r.1 as int, r.2 as int) == civil_from_days(days as int),
{
    let z = days + 719468;
    let era = match z.checked_div_euclid(146097) {
        Some(e) => e,
        None => 0,
    };
    let doe = match z.checked_rem_euclid(146097) {
        Some(r) => r,
        None => 0,
    };
    proof {
        lemma_mod_bound(z as int, 146097);
        lemma_era_day(doe as u64);
        assert(era * 146097 <= z + 146097) by {
            lemma_fundamental_div_mod(z as int, 146097);
        }
        assert(era * 146097 >= z - 146097) by {
            lemma_fundamental_div_mod(z as int, 146097);
        }
    }
    let yoe = (doe - doe / 1460 + doe / 36524 - doe / 146096) / 365;
    let y = yoe + era * 400;
    let doy = doe - (365 * yoe + yoe / 4 - yoe / 100);
    proof {
        lemma_year_day(doy as u64);
    }
    let mp = (5 * doy + 2) / 153;
    let d = doy - (153 * mp + 2) / 5 + 1;
    let m = if mp < 10 { mp + 3 } else { mp - 9 };
    let y = if m <= 2 { y + 1 } else { y };
    (y, m, d)
}

/// Day numbers whose date computations stay far from the limits of `i64`.
pub open spec fn moderate_days(days: int) -> bool {
    -0x1_0000_0000_0000 <= days <= 0x1_0000_0000_0000
}

/// The date of a moderate day number can be turned back into a day number
/// without overflow.
pub proof fn lemma_civil_fits(days: int)
    requires
        moderate_days(days),
    ensures
        ({
            let (y, m, d) = civil_from_days(days);
            civil_fits(y, m, d)
        }),
{
    lemma_civil_roundtrip(days);
    let z = days + 719468;
    let era = z / 146097;
    let doe = z % 146097;
    lemma_mod_bound(z, 146097);
    lemma_fundamental_div_mod(z, 146097);
    lemma_era_day(doe as u64);
    let yoe = (doe - doe / 1460 + doe / 36524 - doe / 146096) / 365;
    let doy = doe - year_start(yoe);
    lemma_year_day(doy as u64);
    let (y, m, d) = civil_from_days(days);
    let y1 = yoe + era * 400;
    lemma_fundamental_div_mod_converse(y1, 400, era, yoe);
    assert(-0x1_0000_0000 <= era <= 0x1_0000_0000);
}

// ── Date strings ───────────────────────────────────────────────────────

/// `format!("{y:04}-{m:02}-{d:02}")`.
pub open spec fn date_string(y: int, m: int, d: int) -> Seq<char> {
    zero_pad(y, 4) + seq!['-'] + zero_pad(m, 2) + seq!['-'] + zero_pad(d, 2)
}

/// The `YYYY-MM-DD` string of a date.
pub fn fmt_date(y: i64, m: i64, d: i64) -> (s: String)
    ensures
        s@ == date_string(y as int, m as int, d as int),
{
    let mut s = fmt_i64_zero_pad(y, 4);
    string_push(&mut s, '-');
    let ms = fmt_i64_zero_pad(m, 2);
    push_str(&mut s, ms.as_str());
    string_push(&mut s, '-');
    let ds = fmt_i64_zero_pad(d, 2);
    push_str(&mut s, ds.as_str());
    assert(s@ =~= date_string(y as int, m as int, d as int));
    s
}

/// The date string of day number `days`.
pub open spec fn day_string(days: int) -> Seq<char> {
    let (y, m, d) = civil_from_days(days);
    date_string(y, m, d)
}

/// `date_str_from_epoch`: the date (UTC) containing `epoch_secs`.
pub open spec fn epoch_date_string(epoch_secs: int) -> Seq<char> {
    day_string(epoch_secs / 86400)
}

/// The `YYYY-MM-DD` date (UTC) of a moment given in seconds since the epoch.
pub fn date_str_from_epoch(epoch_secs: u64) -> (s: String)
    ensures
        s@ == epoch_date_string(epoch_secs as int),
{
    let days = (epoch_secs / 86400) as i64;
    let (y, m, d) = days_to_ymd(days);
    fmt_date(y, m, d)
}

/// `date_to_days` reads `y-m-d`: exactly three `-`-separated parts, each an `i64`.
pub open spec fn parse_date(s: Seq<char>) -> Option<(i64, i64, i64)> {
    let p = split_on(s, '-');
    if p.len() != 3 {
        None
    } else {
        match (parse_i64(p[0]), parse_i64(p[1]), parse_i64(p[2])) {
            (Some(y), Some(m), Some(d)) => Some((y, m, d)),
            _ => None,
        }
    }
}

/// The day number of a date string, when it reads as a date.
pub open spec fn date_days(s: Seq<char>) -> Option<int> {
    match parse_date(s) {
        Some((y, m, d)) => Some(days_from_civil(y as int, m as int, d as int)),
        None => None,
    }
}

/// Reading `s` as a date does not overflow `i64` on the way to its day number.
pub open spec fn date_fits(s: Seq<char>) -> bool {
    match parse_date(s) {
        Some((y, m, d)) => civil_fits(y as int, m as int, d as int),
        None => true,
    }
}

/// Day number of a `YYYY-MM-DD` string; `None` when it does not read as one.
pub fn date_to_days(date_str: &str) -> (r: Option<i64>)
    requires
        date_fits(date_str@),
    ensures
        match r {
            Some(v) => date_days(date_str@) == Some(v as int),
            None => date_days(date_str@) is None,
        },
{
    let cs = chars_of(date_str);
    let parts = split_chars(cs.as_slice(), '-');
    if parts.len() != 3 {
        return None;
    }
    let y = match parse_i64_chars(parts[0].as_slice()) {
        Some(v) => v,
        None => return None,
    };
    let m = match parse_i64_chars(parts[1].as_slice()) {
        Some(v) => v,
        None => return None,
    };
    let d = match parse_i64_chars(parts[2].as_slice()) {
        Some(v) => v,
        None => return None,
    };
    Some(ymd_to_days(y, m, d))
}


/// A date written as `YYYY-MM-DD` (year not negative) reads back as the same date.
pub proof fn lemma_parse_date_string(y: int, m: int, d: int)
    requires
        0 <= y <= i64::MAX,
        0 <= m <= i64::MAX,
        0 <= d <= i64::MAX,
    ensures
        parse_date(date_string(y, m, d)) == Some((y as i64, m as i64, d as i64)),
{
    let a = zero_pad(y, 4);
    let b = zero_pad(m, 2);
    let c = zero_pad(d, 2);
    lemma_parse_zero_pad(y, 4);
    lemma_parse_zero_pad(m, 2);
    lemma_parse_zero_pad(d, 2);
    lemma_split_single(a, '-');
    lemma_split_single(b, '-');
    lemma_split_single(c, '-');
    lemma_split_concat(b, c, '-');
    assert(date_string(y, m, d) =~= a + seq!['-'] + (b + seq!['-'] + c));
    lemma_split_concat(a, b + seq!['-'] + c, '-');
    assert(split_on(date_string(y, m, d), '-') =~= seq![a, b, c]);
}

/// The date string of a day number (from 1970 on) reads back as that day number.
pub proof fn lemma_day_string_roundtrip(days: int)
    requires
        0 <= days,
        moderate_days(days),
    ensures
        date_fits(day_string(days)),
        date_days(day_string(days)) == Some(days),
{
    lemma_civil_roundtrip(days);
    lemma_civil_fits(days);
    lemma_days_year_nonneg(days);
    let (y, m, d) = civil_from_days(days);
    lemma_parse_date_string(y, m, d);
}

/// The date string of a moment reads back as the day number of that moment.
pub proof fn lemma_epoch_date_roundtrip(epoch_secs: int)
    requires
        0 <= epoch_secs <= u64::MAX,
    ensures
        date_fits(epoch_date_string(epoch_secs)),
        date_days(epoch_date_string(epoch_secs)) == Some(epoch_secs / 86400),
{
    lemma_day_string_roundtrip(epoch_secs / 86400);
}

/// Nonnegative day numbers fall in years from 1970 on.
proof fn lemma_days_year_nonneg(days: int)
    requires
        0 <= days,
        moderate_days(days),
    ensures
        ({
            let (y, m, d) = civil_from_days(days);
            0 <= y <= i64::MAX && 1 <= m <= 12 && 1 <= d <= 31
        }),
{
    lemma_civil_roundtrip(days);
    let z = days + 719468;
    lemma_mod_bound(z, 146097);
    lemma_fundamental_div_mod(z, 146097);
    let era = z / 146097;
    assert(era >= 0);
    assert(era <= 0x1_0000_0000);
}


fn fits_i64_exec(x: i128) -> (b: bool)
    ensures
        b == fits_i64(x as int),
{
    -9223372036854775808i128 <= x && x <= 9223372036854775807i128
}

/// Whether `ymd_to_days(y, m, d)` computes without overflow.
pub fn civil_fits_check(y: i64, m: i64, d: i64) -> (b: bool)
    ensures
        b == civil_fits(y as int, m as int, d as int),
{
    let y = y as i128;
    let m = m as i128;
    let d = d as i128;
    let y1: i128 = if m <= 2 { y - 1 } else { y };
    let mp: i128 = if m > 2 { m - 3 } else { m + 9 };
    let t: i128 = 153 * mp + 2;
    let q: i128 = if t >= 0 { t / 5 } else { -((-t) / 5) };
    let era: i128 = match y1.checked_div_euclid(400) {
        Some(e) => e,
        None => 0,
    };
    let yoe: i128 = match y1.checked_rem_euclid(400) {
        Some(r) => r,
        None => 0,
    };
    proof {
        lemma_mod_bound(y1 as int, 400);
        lemma_fundamental_div_mod(y1 as int, 400);
        assert(era == (y1 as int) / 400 && yoe == (y1 as int) % 400);
        assert(-0x1_0000_0000_0000_0000 <= era <= 0x1_0000_0000_0000_0000);
    }
    let doe: i128 = yoe * 365 + yoe / 4 - yoe / 100 + (q + d - 1);
    let e: i128 = era * 146097;
    assert(q == tdiv(153 * march_month(m as int) + 2, 5));
    assert(doe == year_start(yoe as int) + day_of_year(m as int, d as int));
    fits_i64_exec(y1) && fits_i64_exec(153 * mp) && fits_i64_exec(t) && fits_i64_exec(q + d) && fits_i64_exec(q + d - 1)
        && fits_i64_exec(doe) && fits_i64_exec(e) && fits_i64_exec(e + doe) && fits_i64_exec(e + doe - 719468)
}

/// Whether `date_to_days(s)` computes without overflow (`date_fits`).
pub fn date_fits_check(date_str: &str) -> (b: bool)
    ensures
        b == date_fits(date_str@),
{
    let cs = chars_of(date_str);
    let parts = split_chars(cs.as_slice(), '-');
    if parts.len() != 3 {
        return true;
    }
    let y = match parse_i64_chars(parts[0].as_slice()) {
        Some(v) => v,
        None => return true,
    };
    let m = match parse_i64_chars(parts[1].as_slice()) {
        Some(v) => v,
        None => return true,
    };
    let d = match parse_i64_chars(parts[2].as_slice()) {
        Some(v) => v,
        None => return true,
    };
    civil_fits_check(y, m, d)
}

/// Whether `days_since(s, now_secs)` computes without overflow (`date_since_fits`).
pub fn date_since_fits_check(date_str: &str, now_secs: u64) -> (b: bool)
    ensures
        b == date_since_fits(date_str@, now_secs as int),
{
    if !date_fits_check(date_str) {
        return false;
    }
    match date_to_days(date_str) {
        Some(t) => fits_i64_exec((now_secs / 86400) as i128 - t as i128),
        None => true,
    }
}


// ── Relative to today ──────────────────────────────────────────────────

/// Today's date string, for the clock reading `now_secs` (seconds since the epoch).
pub fn today_str(now_secs: u64) -> (s: String)
    ensures
        s@ == epoch_date_string(now_secs as int),
{
    date_str_from_epoch(now_secs)
}

/// `days_since` can subtract the day number of `s` from today's without overflow.
pub open spec fn date_since_fits(s: Seq<char>, now_secs: int) -> bool {
    &&& date_fits(s)
    &&& match date_days(s) {
        Some(t) => fits_i64(now_secs / 86400 - t),
        None => true,
    }
}

/// Days from the date `s` to today (negative for dates in the future).
pub open spec fn days_since_spec(s: Seq<char>, now_secs: int) -> Option<int> {
    match date_days(s) {
        Some(t) => Some(now_secs / 86400 - t),
        None => None,
    }
}

/// Number of days from `date_str` to today; `None` when it does not read as a date.
pub fn days_since(date_str: &str, now_secs: u64) -> (r: Option<i64>)
    requires
        date_since_fits(date_str@, now_secs as int),
    ensures
        match r {
            Some(v) => days_since_spec(date_str@, now_secs as int) == Some(v as int),
            None => days_since_spec(date_str@, now_secs as int) is None,
        },
{
    let today = today_str(now_secs);
    proof {
        lemma_epoch_date_roundtrip(now_secs as int);
    }
    let today_days = match date_to_days(today.as_str()) {
        Some(v) => v,
        None => return None,
    };
    let target_days = match date_to_days(date_str) {
        Some(v) => v,
        None => return None,
    };
    Some(today_days - target_days)
}

/// `days_ago_str(n)`: the date `n` days (of 86400 seconds) before now, not
/// before the epoch.
pub open spec fn days_ago_string(n: int, now_secs: int) -> Seq<char> {
    let k = (n * 86400) as u64;
    let past = if now_secs >= k { now_secs - k } else { 0 };
    epoch_date_string(past)
}

pub fn days_ago_str(n: i64, now_secs: u64) -> (s: String)
    requires
        fits_i64(n * 86400),
    ensures
        s@ == days_ago_string(n as int, now_secs as int),
{
    let k = #[verifier::truncate] ((n * 86400) as u64);
    let past = now_secs.saturating_sub(k);
    date_str_from_epoch(past)
}

/// `days_ago_from` can step back `n` days from `reference` without overflow.
pub open spec fn days_ago_fits(reference: Seq<char>, n: int) -> bool {
    &&& date_fits(reference)
    &&& match date_days(reference) {
        Some(t) => fits_i64(t - n) && t - n <= i64::MAX - 719468,
        None => true,
    }
}

/// The date string `n` days before the date `reference`.
pub open spec fn days_ago_from_spec(reference: Seq<char>, n: int) -> Option<Seq<char>> {
    match date_days(reference) {
        Some(t) => Some(day_string(t - n)),
        None => None,
    }
}

/// The date `n` days before `reference`; `None` when `reference` does not read as a date.
pub fn days_ago_from(reference: &str, n: i64) -> (r: Option<String>)
    requires
        days_ago_fits(reference@, n as int),
    ensures
        match r {
            Some(s) => days_ago_from_spec(reference@, n as int) == Some(s@),
            None => days_ago_from_spec(reference@, n as int) is None,
        },
{
    let ref_days = match date_to_days(reference) {
        Some(v) => v,
        None => return None,
    };
    let target_days = ref_days - n;
    let (y, m, d) = days_to_ymd(target_days);
    Some(fmt_date(y, m, d))
}

/// Stepping back `n` days from today and counting the days since gives `n`
/// again (for dates from 1970 on).
pub proof fn lemma_days_ago_since(now_secs: int, n: int)
    requires
        0 <= now_secs <= u64::MAX,
        0 <= now_secs / 86400 - n,
        n >= 0,
    ensures
        days_ago_fits(epoch_date_string(now_secs), n),
        days_ago_from_spec(epoch_date_string(now_secs), n) is Some,
        date_since_fits(days_ago_from_spec(epoch_date_string(now_secs), n).unwrap(), now_secs),
        days_since_spec(days_ago_from_spec(epoch_date_string(now_secs), n).unwrap(), now_secs) == Some(n),
{
    lemma_epoch_date_roundtrip(now_secs);
    lemma_day_string_roundtrip(now_secs / 86400 - n);
}


/// Stepping back `a` days and then `b` days is stepping back `a + b` days
/// (when the first step lands on a date of year 0 or later).
pub proof fn lemma_days_ago_compose(reference: Seq<char>, a: int, b: int)
    requires
        date_days(reference) is Some,
        0 <= date_days(reference).unwrap() - a,
        moderate_days(date_days(reference).unwrap() - a),
    ensures
        days_ago_from_spec(reference, a) is Some,
        days_ago_from_spec(days_ago_from_spec(reference, a).unwrap(), b) == days_ago_from_spec(reference, a + b),
{
    let t = date_days(reference).unwrap();
    lemma_day_string_roundtrip(t - a);
    assert(t - a - b == t - (a + b));
}


/// Dates of the years 0 to 9999 in calendar order have their strings in
/// the same order.
proof fn lemma_date_string_lt(y: int, m: int, d: int, y2: int, m2: int, d2: int)
    requires
        0 <= y <= 9999,
        0 <= y2 <= 9999,
        1 <= m <= 12,
        1 <= m2 <= 12,
        1 <= d <= 31,
        1 <= d2 <= 31,
        y < y2 || (y == y2 && (m < m2 || (m == m2 && d < d2))),
    ensures
        lex_lt(date_string(y, m, d), date_string(y2, m2, d2)),
{
    reveal_with_fuel(pow10, 5);
    lemma_dec_width(y as nat, 4);
    lemma_dec_width(y2 as nat, 4);
    lemma_dec_width(m as nat, 2);
    lemma_dec_width(m2 as nat, 2);
    lemma_dec_width(d as nat, 2);
    lemma_dec_width(d2 as nat, 2);
    let (ya, ma, da) = (zero_pad(y, 4), zero_pad(m, 2), zero_pad(d, 2));
    let (yb, mb, db) = (zero_pad(y2, 4), zero_pad(m2, 2), zero_pad(d2, 2));
    let dash = seq!['-'];
    if y < y2 {
        lemma_zero_pad_lt(y, y2, 4);
        assert(date_string(y, m, d) =~= ya + (dash + ma + dash + da));
        assert(date_string(y2, m2, d2) =~= yb + (dash + mb + dash + db));
        lemma_lex_lt_append(ya, yb, dash + ma + dash + da, dash + mb + dash + db);
    } else if m < m2 {
        lemma_zero_pad_lt(m, m2, 2);
        assert(date_string(y, m, d) =~= (ya + dash) + (ma + (dash + da)));
        assert(date_string(y2, m2, d2) =~= (ya + dash) + (mb + (dash + db)));
        lemma_lex_lt_append(ma, mb, dash + da, dash + db);
        lemma_lex_lt_common_prefix(ya + dash, ma + (dash + da), mb + (dash + db));
    } else {
        lemma_zero_pad_lt(d, d2, 2);
        assert(date_string(y, m, d) =~= (ya + dash + ma + dash) + da);
        assert(date_string(y2, m2, d2) =~= (ya + dash + ma + dash) + db);
        lemma_lex_lt_common_prefix(ya + dash + ma + dash, da, db);
    }
}

/// Day numbers up to 2932896 (9999-12-31) have four-digit years.
proof fn lemma_four_digit_year(n: int)
    requires
        0 <= n <= 2932896,
    ensures
        ({
            let (y, m, d) = civil_from_days(n);
            0 <= y <= 9999 && valid_date(y, m, d)
        }),
{
    lemma_civil_roundtrip(n);
    let z = n + 719468;
    let era = z / 146097;
    let doe = z % 146097;
    lemma_mod_bound(z, 146097);
    lemma_fundamental_div_mod(z, 146097);
    lemma_era_day(doe as u64);
    let yoe = (doe - doe / 1460 + doe / 36524 - doe / 146096) / 365;
    let doy = doe - year_start(yoe);
    lemma_year_day(doy as u64);
    assert(4 <= era <= 24);
    if era == 24 && yoe == 399 {
        assert(doy <= 305);
    }
}

/// The date string of a day comes before that of the next day.
proof fn lemma_day_string_step(n: int)
    requires
        0 <= n < 2932896,
    ensures
        lex_lt(day_string(n), day_string(n + 1)),
{
    lemma_four_digit_year(n);
    lemma_four_digit_year(n + 1);
    lemma_next_day(n);
    let (y, m, d) = civil_from_days(n);
    let (y2, m2, d2) = civil_from_days(n + 1);
    lemma_date_string_lt(y, m, d, y2, m2, d2);
}

/// Date strings sort in time order: from 1970-01-01 to 9999-12-31, a later
/// day never has an earlier date string.
pub proof fn lemma_day_strings_ordered(a: int, b: int)
    requires
        0 <= a <= b <= 2932896,
    ensures
        lex_le(day_string(a), day_string(b)),
    decreases b - a,
{
    if a < b {
        lemma_day_strings_ordered(a + 1, b);
        lemma_day_string_step(a);
        lemma_lex_le_transitive(day_string(a), day_string(a + 1), day_string(b));
    }
}

/// Of two clock readings before the year 10000, the later one never has
/// the earlier date string (`date_str_from_epoch`).
pub proof fn lemma_epoch_dates_ordered(s1: int, s2: int)
    requires
        0 <= s1 <= s2 < 253402300800,
    ensures
        lex_le(epoch_date_string(s1), epoch_date_string(s2)),
{
    vstd::arithmetic::div_mod::lemma_div_is_ordered(s1, s2, 86400);
    lemma_day_strings_ordered(s1 / 86400, s2 / 86400);
}


/// From 1970-01-01 to 9999-12-31 a date string has the form `YYYY-MM-DD`:
/// ten characters, the dashes at places 4 and 7.
pub proof fn lemma_day_string_form(n: int)
    requires
        0 <= n <= 2932896,
    ensures
        day_string(n).len() == 10,
        day_string(n)[4] == '-',
        day_string(n)[7] == '-',
{
    lemma_four_digit_year(n);
    let (y, m, d) = civil_from_days(n);
    reveal_with_fuel(pow10, 5);
    lemma_dec_width(y as nat, 4);
    lemma_dec_width(m as nat, 2);
    lemma_dec_width(d as nat, 2);
    let (ya, ma, da) = (zero_pad(y, 4), zero_pad(m, 2), zero_pad(d, 2));
    assert(ya.len() == 4 && ma.len() == 2 && da.len() == 2);
    assert(day_string(n) == ya + seq!['-'] + ma + seq!['-'] + da);
}

} // verus!
