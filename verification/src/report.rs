//! Timestamps for the diagnostic report.

use vstd::prelude::*;

use vstd::utf8::{encode_utf8, is_ascii_chars};

use crate::events::xml::{
    ASCII_ZERO, all_digits, days_in_month, digits_value, epoch_of, field_value, is_digit, is_leap_year, pow10_int,
    valid_date,
};
use vstd::arithmetic::div_mod::lemma_mod_multiples_vanish;
use crate::text::{decimal, decimal_padded, hex_char, push_decimal_padded};
pub use crate::diagnostic::{markdown, markdown_at};

verus! {

proof fn lemma_era_year(doe: u64, yoe: u64)
    by (bit_vector)
    requires
        doe <= 146096,
        yoe == ((((doe - doe / 1460) as u64 + doe / 36524) as u64 - doe / 146096) as u64) / 365,
    ensures
        yoe <= 399,
        ((365 * yoe) as u64 + yoe / 4) as u64 - yoe / 100 <= doe,
        doe - (((365 * yoe) as u64 + yoe / 4) as u64 - yoe / 100) <= 365,
{
}

proof fn lemma_year_day(doy: u64, mp: u64)
    by (bit_vector)
    requires
        doy <= 365,
        mp == ((5 * doy) as u64 + 2) as u64 / 153,
    ensures
        mp <= 11,
        ((153 * mp) as u64 + 2) as u64 / 5 <= doy,
        doy - ((153 * mp) as u64 + 2) as u64 / 5 <= 30,
{
}

proof fn lemma_month_length(doy: u64, mp: u64)
    by (bit_vector)
    requires
        doy <= 365,
        mp == ((5 * doy) as u64 + 2) as u64 / 153,
    ensures
        (mp == 0 || mp == 2 || mp == 4 || mp == 5 || mp == 7 || mp == 9 || mp == 10)
            ==> doy - ((153 * mp) as u64 + 2) as u64 / 5 <= 30,
        (mp == 1 || mp == 3 || mp == 6 || mp == 8) ==> doy - ((153 * mp) as u64 + 2) as u64 / 5 <= 29,
        mp == 11 ==> (doy - ((153 * mp) as u64 + 2) as u64 / 5 <= 27 || doy == 365),
        mp == 11 ==> doy - ((153 * mp) as u64 + 2) as u64 / 5 <= 28,
{
}

proof fn lemma_leap_day(doe: u64, yoe: u64)
    by (bit_vector)
    requires
        doe <= 146096,
        yoe == ((((doe - doe / 1460) as u64 + doe / 36524) as u64 - doe / 146096) as u64) / 365,
    ensures
        (doe - (((365 * yoe) as u64 + yoe / 4) as u64 - yoe / 100)) as u64 == 365u64
            ==> (((yoe + 1) as u64) % 4 == 0 && (((yoe + 1) as u64) % 100 != 0 || yoe == 399)),
{
}

proof fn lemma_year_of_era_inverse(yoe: u32, doy: u32, doe: u32)
    by (bit_vector)
    requires
        yoe <= 399,
        doy <= 365,
        doy == 365 ==> (((yoe + 1) as u32) % 4 == 0 && (((yoe + 1) as u32) % 100 != 0 || yoe == 399)),
        doe == ((((365 * yoe) as u32 + yoe / 4) as u32 - yoe / 100) as u32 + doy) as u32,
    ensures
        doe <= 146096,
        ((((doe - doe / 1460) as u32 + doe / 36524) as u32 - doe / 146096) as u32) / 365 == yoe,
{
}

proof fn lemma_year_length(yoe: u32)
    by (bit_vector)
    requires
        yoe < 399,
    ensures
        ((((365 * (yoe + 1)) as u32 + ((yoe + 1) as u32) / 4) as u32 - ((yoe + 1) as u32) / 100) as u32) as int
            == ((((365 * yoe) as u32 + yoe / 4) as u32 - yoe / 100) as u32) as int + 365 + (if ((yoe + 1) as u32) % 4
            == 0 && ((yoe + 1) as u32) % 100 != 0 {
            1int
        } else {
            0int
        }),
{
}

proof fn lemma_month_inverse(mp: u64, d: u64, doy: u64)
    by (bit_vector)
    requires
        mp <= 11,
        1 <= d <= 31,
        (mp == 1 || mp == 3 || mp == 6 || mp == 8) ==> d <= 30,
        mp == 11 ==> d <= 29,
        doy == ((((153 * mp) as u64 + 2) as u64 / 5) as u64 + d - 1) as u64,
    ensures
        ((5 * doy) as u64 + 2) as u64 / 153 == mp,
        doy - ((153 * mp) as u64 + 2) as u64 / 5 + 1 == d,
        doy <= 365,
        doy == 365 ==> mp == 11 && d == 29,
{
}

} // verus!

verus! {

/// Proleptic Gregorian `(year, month, day)` of the day `days` after
/// 1970-01-01 (Howard Hinnant's civil-from-days: 400-year eras starting in
/// March, so that leap days fall at the end of a cycle).
pub open spec fn civil_from_days_spec(days: int) -> (int, int, int) {
    let z = days + 719468;
    let era = z / 146097;
    let doe = z - era * 146097;
    let yoe = (doe - doe / 1460 + doe / 36524 - doe / 146096) / 365;
    let y = yoe + era * 400;
    let doy = doe - (365 * yoe + yoe / 4 - yoe / 100);
    let mp = (5 * doy + 2) / 153;
    let d = doy - (153 * mp + 2) / 5 + 1;
    let m = if mp < 10 { mp + 3 } else { mp - 9 };
    (if m <= 2 { y + 1 } else { y }, m, d)
}

proof fn lemma_floor_div(z: int, q: int, d: int)
    requires
        d > 0,
        q * d <= z < q * d + d,
    ensures
        z / d == q,
        z - q * d == z % d,
{
    assert(z / d == q && z % d == z - q * d) by (nonlinear_arith)
        requires
            d > 0,
            q * d <= z < q * d + d,
    ;
}

/// Day of the era and the facts about it that the calendar arithmetic needs.
proof fn lemma_day_of_era(z: int)
    ensures
        0 <= z - (z / 146097) * 146097 < 146097,
{
    let q = z / 146097;
    assert(0 <= z - q * 146097 < 146097) by (nonlinear_arith)
        requires
            q == z / 146097,
    ;
}

/// Ranges of the year of era, day of year and March-based month of a day of era.
proof fn lemma_civil_ranges(doe: int)
    requires
        0 <= doe <= 146096,
    ensures
        ({
            let yoe = (doe - doe / 1460 + doe / 36524 - doe / 146096) / 365;
            let doy = doe - (365 * yoe + yoe / 4 - yoe / 100);
            let mp = (5 * doy + 2) / 153;
            &&& 0 <= yoe <= 399
            &&& 0 <= doy <= 365
            &&& 0 <= mp <= 11
            &&& 0 <= doy - (153 * mp + 2) / 5 <= 30
        }),
{
    let e = doe as u64;
    let yoe = ((((e - e / 1460) as u64 + e / 36524) as u64 - e / 146096) as u64) / 365;
    lemma_era_year(e, yoe);
    let doy = (e - (((365 * yoe) as u64 + yoe / 4) as u64 - yoe / 100)) as u64;
    let mp = ((5 * doy) as u64 + 2) as u64 / 153;
    lemma_year_day(doy, mp);
}

/// Days from 1970-01-01 to its `(year, month, day)` and back give the same
/// day: the parser of event timestamps inverts the formatter's calendar.
pub proof fn lemma_civil_round_trip(days: int)
    ensures
        ({
            let (y, m, d) = civil_from_days_spec(days);
            crate::events::xml::days_from_civil_spec(y, m, d) == days
        }),
{
    let z = days + 719468;
    let era = z / 146097;
    lemma_day_of_era(z);
    let doe = z - era * 146097;
    lemma_civil_ranges(doe);
    let yoe = (doe - doe / 1460 + doe / 36524 - doe / 146096) / 365;
    let y = yoe + era * 400;
    lemma_floor_div(y, era, 400);
}

/// The date of every day is on the calendar: a month from 1 to 12 and a day
/// within that month, the 29th of February only in leap years.
pub proof fn lemma_civil_valid(days: int)
    ensures
        ({
            let (y, m, d) = civil_from_days_spec(days);
            valid_date(y, m, d)
        }),
{
    let z = days + 719468;
    let era = z / 146097;
    lemma_day_of_era(z);
    let doe = z - era * 146097;
    lemma_civil_ranges(doe);
    let yoe = (doe - doe / 1460 + doe / 36524 - doe / 146096) / 365;
    let doy = doe - (365 * yoe + yoe / 4 - yoe / 100);
    let mp = (5 * doy + 2) / 153;
    let e = doe as u64;
    let yoe64 = ((((e - e / 1460) as u64 + e / 36524) as u64 - e / 146096) as u64) / 365;
    assert(yoe64 == yoe);
    lemma_leap_day(e, yoe64);
    let doy64 = (e - (((365 * yoe64) as u64 + yoe64 / 4) as u64 - yoe64 / 100)) as u64;
    assert(doy64 == doy);
    let mp64 = ((5 * doy64) as u64 + 2) as u64 / 153;
    assert(mp64 == mp);
    lemma_month_length(doy64, mp64);
    if mp == 11 && doy == 365 {
        let big = yoe + 1 + era * 400;
        assert((yoe + 1) % 4 == 0 && ((yoe + 1) % 100 != 0 || yoe == 399));
        lemma_mod_multiples_vanish(100 * era, yoe + 1, 4);
        lemma_mod_multiples_vanish(4 * era, yoe + 1, 100);
        lemma_mod_multiples_vanish(era, yoe + 1, 400);
        assert(4 * (100 * era) + (yoe + 1) == big);
        assert(100 * (4 * era) + (yoe + 1) == big);
        assert(400 * era + (yoe + 1) == big);
        assert(is_leap_year(big));
    }
}

/// A calendar date turned into days since 1970-01-01 and back gives the
/// same date: on calendar dates the two conversions are inverse.
pub proof fn lemma_days_round_trip(y: int, m: int, d: int)
    requires
        valid_date(y, m, d),
    ensures
        civil_from_days_spec(crate::events::xml::days_from_civil_spec(y, m, d)) == (y, m, d),
{
    let ya = if m <= 2 { y - 1 } else { y };
    let era = ya / 400;
    let yoe = ya - era * 400;
    assert(0 <= yoe < 400 && ya == era * 400 + yoe) by (nonlinear_arith)
        requires
            era == ya / 400,
            yoe == ya - era * 400,
    ;
    let mp = if m > 2 { m - 3 } else { m + 9 };
    let doy = (153 * mp + 2) / 5 + d - 1;
    lemma_month_inverse(mp as u64, d as u64, doy as u64);
    if doy == 365 {
        assert(m == 2 && d == 29);
        assert(is_leap_year(y));
        let big = yoe + 1 + era * 400;
        assert(big == y);
        lemma_mod_multiples_vanish(100 * era, yoe + 1, 4);
        lemma_mod_multiples_vanish(4 * era, yoe + 1, 100);
        lemma_mod_multiples_vanish(era, yoe + 1, 400);
        assert(4 * (100 * era) + (yoe + 1) == big);
        assert(100 * (4 * era) + (yoe + 1) == big);
        assert(400 * era + (yoe + 1) == big);
        assert((yoe + 1) % 4 == 0);
        if (yoe + 1) % 100 == 0 {
            assert((yoe + 1) % 400 == 0);
            assert(yoe == 399);
        }
    }
    let doe = yoe * 365 + yoe / 4 - yoe / 100 + doy;
    lemma_year_of_era_inverse(yoe as u32, doy as u32, doe as u32);
    let days = crate::events::xml::days_from_civil_spec(y, m, d);
    assert(days == era * 146097 + doe - 719468);
    let z = days + 719468;
    lemma_floor_div(z, era, 146097);
}

/// The calendar day after a date.
pub open spec fn next_day(y: int, m: int, d: int) -> (int, int, int) {
    if d < days_in_month(y, m) {
        (y, m, d + 1)
    } else if m < 12 {
        (y, m + 1, 1)
    } else {
        (y + 1, 1, 1)
    }
}

/// The leap years as seen from the year of an era: the year `yoe + 1` of
/// the era that starts in year `400 * era` is a leap year exactly when
/// `yoe + 1` is a multiple of four but not of a hundred, or ends the era.
proof fn lemma_leap_in_era(era: int, yoe: int)
    requires
        0 <= yoe < 400,
    ensures
        is_leap_year(yoe + 1 + era * 400) <==> ((yoe + 1) % 4 == 0 && ((yoe + 1) % 100 != 0 || yoe == 399)),
{
    let big = yoe + 1 + era * 400;
    lemma_mod_multiples_vanish(100 * era, yoe + 1, 4);
    lemma_mod_multiples_vanish(4 * era, yoe + 1, 100);
    lemma_mod_multiples_vanish(era, yoe + 1, 400);
    assert(4 * (100 * era) + (yoe + 1) == big);
    assert(100 * (4 * era) + (yoe + 1) == big);
    assert(400 * era + (yoe + 1) == big);
}

/// The day after a calendar date is one day later.
proof fn lemma_days_next(y: int, m: int, d: int)
    requires
        valid_date(y, m, d),
    ensures
        ({
            let (y2, m2, d2) = next_day(y, m, d);
            &&& valid_date(y2, m2, d2)
            &&& crate::events::xml::days_from_civil_spec(y2, m2, d2) == crate::events::xml::days_from_civil_spec(y, m, d) + 1
        }),
{
    let ya = if m <= 2 { y - 1 } else { y };
    let era = ya / 400;
    let yoe = ya - era * 400;
    assert(0 <= yoe < 400 && ya == era * 400 + yoe) by (nonlinear_arith)
        requires
            era == ya / 400,
            yoe == ya - era * 400,
    ;
    if d < days_in_month(y, m) {
    } else if m == 2 {
        lemma_leap_in_era(era, yoe);
        assert(y == yoe + 1 + era * 400);
        if yoe < 399 {
            lemma_floor_div(y, era, 400);
            lemma_year_length(yoe as u32);
        } else {
            lemma_floor_div(y, era + 1, 400);
        }
    } else if m < 12 {
        assert(m == 1 || 3 <= m <= 11);
    } else {
        lemma_floor_div(y, era, 400);
    }
}

/// Day `n + 1` is the calendar day after day `n`.
pub proof fn lemma_civil_successor(n: int)
    ensures
        civil_from_days_spec(n + 1) == ({
            let (y, m, d) = civil_from_days_spec(n);
            next_day(y, m, d)
        }),
{
    let (y, m, d) = civil_from_days_spec(n);
    lemma_civil_valid(n);
    lemma_civil_round_trip(n);
    lemma_days_next(y, m, d);
    let (y2, m2, d2) = next_day(y, m, d);
    lemma_days_round_trip(y2, m2, d2);
}

} // verus!

verus! {

/// `YYYY-MM-DDTHH:MM:SSZ` for a time `secs` seconds after the Unix epoch
/// (the year takes more than four digits after 9999).
pub open spec fn iso8601_of(secs: nat) -> Seq<char> {
    let (y, m, d) = civil_from_days_spec((secs / 86400) as int);
    let t = secs % 86400;
    decimal_padded(y as nat, 4) + "-"@ + decimal_padded(m as nat, 2) + "-"@
        + decimal_padded(d as nat, 2) + "T"@ + decimal_padded(t / 3600, 2) + ":"@
        + decimal_padded((t % 3600) / 60, 2) + ":"@ + decimal_padded(t % 60, 2) + "Z"@
}

/// Proleptic Gregorian `(year, month, day)` of the day `days_since_epoch`
/// after 1970-01-01.
pub fn civil_from_days(days_since_epoch: i64) -> (r: (i64, u32, u32))
    requires
        days_since_epoch <= i64::MAX - 719_468,
        days_since_epoch + 719_468 >= i64::MIN + 146_096,
    ensures
        (r.0 as int, r.1 as int, r.2 as int) == civil_from_days_spec(days_since_epoch as int),
        1 <= r.1 <= 12,
        1 <= r.2 <= 31,
{
    // Shift the epoch to 0000-03-01 so leap days land at the end of the cycle.
    let z = days_since_epoch + 719_468;
    let era = if z >= 0 { z / 146_097 } else { -((146_096 - z) / 146_097) };
    proof {
        if z >= 0 {
            lemma_floor_div(z as int, era as int, 146097);
        } else {
            let q = (146_096 - z) / 146_097;
            assert(q * 146097 <= 146096 - z < q * 146097 + 146097) by (nonlinear_arith)
                requires
                    q == (146_096 - z) / 146_097,
                    146_096 - z > 0,
            ;
            lemma_floor_div(z as int, era as int, 146097);
        }
    }
    let day_of_era = (z - era * 146_097) as u64;
    proof { lemma_civil_ranges(day_of_era as int); }
    let year_of_era = (day_of_era - day_of_era / 1460 + day_of_era / 36_524 - day_of_era / 146_096) / 365;
    let year = year_of_era as i64 + era * 400;
    let day_of_year = day_of_era - (365 * year_of_era + year_of_era / 4 - year_of_era / 100);
    let mp = (5 * day_of_year + 2) / 153;
    let day = (day_of_year - (153 * mp + 2) / 5 + 1) as u32;
    let month = if mp < 10 { mp + 3 } else { mp - 9 } as u32;
    (if month <= 2 { year + 1 } else { year }, month, day)
}

/// Time elapsed since the Unix epoch by the system clock
/// (`UNIX_EPOCH.elapsed()`); `None` when the clock reads before the epoch.
/// Nothing is stated of the value: it is the machine's clock.
#[verifier::external_body]
fn since_unix_epoch() -> Option<std::time::Duration> {
    std::time::UNIX_EPOCH.elapsed().ok()
}

/// The whole seconds of a duration (`Duration::as_secs`). The duration is
/// opaque here, so nothing is stated of the result.
#[verifier::external_body]
fn whole_seconds(d: std::time::Duration) -> u64 {
    d.as_secs()
}

/// The current time, in whole seconds since the Unix epoch (zero if the
/// clock reads before the epoch).
fn unix_seconds_now() -> u64 {
    match since_unix_epoch() {
        Some(d) => whole_seconds(d),
        None => 0,
    }
}

/// Formats a time, in seconds since the Unix epoch, as RFC 3339 UTC:
/// `YYYY-MM-DDTHH:MM:SSZ`.
pub fn iso8601_from_unix_seconds(secs: u64) -> (r: String)
    ensures
        r@ == iso8601_of(secs as nat),
{
    let days = (secs / 86_400) as i64;
    let time_of_day = secs % 86_400;
    let (year, month, day) = civil_from_days(days);
    proof {
        let z = days + 719468;
        assert(z / 146097 >= 4) by (nonlinear_arith)
            requires
                z >= 719468,
        ;
        lemma_day_of_era(z as int);
        lemma_civil_ranges(z - (z / 146097) * 146097);
        assert(year >= 0);
    }
    let mut out = String::new();
    push_decimal_padded(&mut out, year as u64, 4);
    out.append("-");
    push_decimal_padded(&mut out, month as u64, 2);
    out.append("-");
    push_decimal_padded(&mut out, day as u64, 2);
    out.append("T");
    push_decimal_padded(&mut out, time_of_day / 3600, 2);
    out.append(":");
    push_decimal_padded(&mut out, (time_of_day % 3600) / 60, 2);
    out.append(":");
    push_decimal_padded(&mut out, time_of_day % 60, 2);
    out.append("Z");
    out
}

/// Current UTC time as RFC 3339, without a date library.
pub fn now_iso8601() -> (r: String)
    ensures
        exists|secs: u64| r@ == iso8601_of(secs as nat),
{
    let secs = unix_seconds_now();
    iso8601_from_unix_seconds(secs)
}

} // verus!

verus! {

/// The bytes of ASCII characters.
pub open spec fn ascii_bytes(cs: Seq<char>) -> Seq<u8> {
    cs.map_values(|c: char| c as u8)
}

proof fn lemma_hex_digit(d: nat)
    requires
        d < 10,
    ensures
        hex_char(d) as u32 == 48 + d,
        hex_char(d) as u8 == 48 + d,
{
    if d == 0 {} else if d == 1 {} else if d == 2 {} else if d == 3 {} else if d == 4 {}
    else if d == 5 {} else if d == 6 {} else if d == 7 {} else if d == 8 {} else {}
}

proof fn lemma_digits_concat(a: Seq<u8>, b: Seq<u8>)
    ensures
        digits_value(a + b) == digits_value(a) * pow10_int(b.len()) + digits_value(b),
    decreases b.len(),
{
    if b.len() == 0 {
        assert(a + b =~= a);
        assert(pow10_int(0) == 1);
        assert(digits_value(b) == 0);
    } else {
        let b0 = b.drop_last();
        assert((a + b).drop_last() =~= a + b0);
        assert((a + b).last() == b.last());
        assert(digits_value(a + b) == digits_value(a + b0) * 10 + (b.last() - ASCII_ZERO));
        assert(digits_value(b) == digits_value(b0) * 10 + (b.last() - ASCII_ZERO));
        lemma_digits_concat(a, b0);
        let va = digits_value(a);
        let p = pow10_int(b0.len());
        assert(pow10_int(b.len()) == 10 * p);
        assert((va * p + digits_value(b0)) * 10 == va * (10 * p) + digits_value(b0) * 10) by (nonlinear_arith);
    }
}

/// Decimal digits are ASCII digits whose value is the number.
proof fn lemma_decimal_value(n: nat)
    ensures
        decimal(n).len() >= 1,
        is_ascii_chars(decimal(n)),
        all_digits(ascii_bytes(decimal(n))),
        digits_value(ascii_bytes(decimal(n))) == n,
    decreases n,
{
    if n < 10 {
        lemma_hex_digit(n);
        assert(ascii_bytes(decimal(n)) =~= seq![(48 + n) as u8]);
        let x = ascii_bytes(decimal(n));
        assert(x.drop_last() =~= Seq::<u8>::empty());
        assert(x.last() == 48 + n);
        assert(digits_value(x) == digits_value(x.drop_last()) * 10 + (x.last() - ASCII_ZERO));
    } else {
        lemma_decimal_value(n / 10);
        lemma_hex_digit(n % 10);
        let prev = decimal(n / 10);
        let x = ascii_bytes(decimal(n));
        assert(x =~= ascii_bytes(prev).push((48 + n % 10) as u8));
        assert(x.drop_last() =~= ascii_bytes(prev));
        assert(x.last() == 48 + n % 10);
        assert(digits_value(x) == digits_value(x.drop_last()) * 10 + (x.last() - ASCII_ZERO));
        assert((n / 10) * 10 + n % 10 == n);
    }
}

proof fn lemma_decimal_len(n: nat, w: nat)
    requires
        w >= 1,
        n < pow10_int(w),
    ensures
        decimal(n).len() <= w,
    decreases n,
{
    if n >= 10 {
        assert(w >= 2) by {
            if w == 1 {
                assert(pow10_int(1) == 10 * pow10_int(0));
            }
        }
        assert(pow10_int(w) == 10 * pow10_int((w - 1) as nat));
        lemma_decimal_len(n / 10, (w - 1) as nat);
    }
}

proof fn lemma_zeros_value(k: nat)
    ensures
        ascii_bytes(Seq::new(k, |i: int| '0')) == Seq::new(k, |i: int| 48u8),
        digits_value(Seq::new(k, |i: int| 48u8)) == 0,
    decreases k,
{
    assert(ascii_bytes(Seq::new(k, |i: int| '0')) =~= Seq::new(k, |i: int| 48u8));
    if k > 0 {
        lemma_zeros_value((k - 1) as nat);
        assert(Seq::new(k, |i: int| 48u8).drop_last() =~= Seq::new((k - 1) as nat, |i: int| 48u8));
    }
}

/// A number below `10^w`, zero-padded to `w` digits, is `w` ASCII digits
/// that read back as the number.
proof fn lemma_padded_value(n: nat, w: nat)
    requires
        w >= 1,
        n < pow10_int(w),
    ensures
        decimal_padded(n, w).len() == w,
        is_ascii_chars(decimal_padded(n, w)),
        all_digits(ascii_bytes(decimal_padded(n, w))),
        digits_value(ascii_bytes(decimal_padded(n, w))) == n,
{
    lemma_decimal_value(n);
    lemma_decimal_len(n, w);
    let d = decimal(n);
    if d.len() < w {
        let k = (w - d.len()) as nat;
        let z = Seq::new(k, |i: int| '0');
        lemma_zeros_value(k);
        assert(ascii_bytes(z + d) =~= ascii_bytes(z) + ascii_bytes(d));
        lemma_digits_concat(ascii_bytes(z), ascii_bytes(d));
        assert(is_ascii_chars(z + d)) by {
            assert forall|i: int| 0 <= i < (z + d).len() implies '\0' <= #[trigger] (z + d)[i] <= '\u{7f}' by {
                if i >= k {
                    assert((z + d)[i] == d[i - k]);
                }
            }
        }
        assert(all_digits(ascii_bytes(z + d))) by {
            assert forall|i: int| 0 <= i < ascii_bytes(z + d).len() implies is_digit(#[trigger] ascii_bytes(z + d)[i]) by {
                if i >= k {
                    assert(ascii_bytes(z + d)[i] == ascii_bytes(d)[i - k]);
                } else {
                    assert(ascii_bytes(z + d)[i] == ascii_bytes(z)[i]);
                }
            }
        }
    }
}

} // verus!

verus! {

/// Formatting a time and reading the text back gives the same time, for
/// every time before the year 10000 (from then on the year takes five
/// digits and no longer fits the fixed layout that the reader expects).
#[verifier::rlimit(40)]
pub proof fn lemma_iso8601_round_trip(secs: nat)
    requires
        civil_from_days_spec((secs / 86400) as int).0 <= 9999,
    ensures
        epoch_of(encode_utf8(iso8601_of(secs))) == Some(secs as int),
{
    let days = (secs / 86400) as int;
    let (y, m, d) = civil_from_days_spec(days);
    let z = days + 719468;
    assert(z / 146097 >= 4) by (nonlinear_arith)
        requires
            z >= 719468,
    ;
    lemma_day_of_era(z);
    lemma_civil_ranges(z - (z / 146097) * 146097);
    lemma_civil_round_trip(days);
    lemma_civil_valid(days);
    assert(0 <= y <= 9999);
    assert(1 <= m <= 12);
    assert(1 <= d <= 31);
    let t = secs % 86400;
    let h = t / 3600;
    let mi = (t % 3600) / 60;
    let s = t % 60;
    reveal_with_fuel(pow10_int, 5);
    lemma_padded_value(y as nat, 4);
    lemma_padded_value(m as nat, 2);
    lemma_padded_value(d as nat, 2);
    lemma_padded_value(h, 2);
    lemma_padded_value(mi, 2);
    lemma_padded_value(s, 2);
    reveal_strlit("-");
    reveal_strlit("T");
    reveal_strlit(":");
    reveal_strlit("Z");
    let py = decimal_padded(y as nat, 4);
    let pm = decimal_padded(m as nat, 2);
    let pd = decimal_padded(d as nat, 2);
    let ph = decimal_padded(h, 2);
    let pmi = decimal_padded(mi, 2);
    let ps = decimal_padded(s, 2);
    let text = iso8601_of(secs);
    assert(text =~= py + seq!['-'] + pm + seq!['-'] + pd + seq!['T'] + ph + seq![':'] + pmi + seq![':'] + ps
        + seq!['Z']);
    assert(text.len() == 20);
    assert(is_ascii_chars(text)) by {
        assert forall|i: int| 0 <= i < text.len() implies '\0' <= #[trigger] text[i] <= '\u{7f}' by {
            if i < 4 {
                assert(text[i] == py[i]);
            } else if 5 <= i < 7 {
                assert(text[i] == pm[i - 5]);
            } else if 8 <= i < 10 {
                assert(text[i] == pd[i - 8]);
            } else if 11 <= i < 13 {
                assert(text[i] == ph[i - 11]);
            } else if 14 <= i < 16 {
                assert(text[i] == pmi[i - 14]);
            } else if 17 <= i < 19 {
                assert(text[i] == ps[i - 17]);
            }
        }
    }
    vstd::utf8::is_ascii_chars_encode_utf8(text);
    let b = encode_utf8(text);
    assert(b =~= ascii_bytes(text));
    assert(b.subrange(0, 4) =~= ascii_bytes(py));
    assert(b.subrange(5, 7) =~= ascii_bytes(pm));
    assert(b.subrange(8, 10) =~= ascii_bytes(pd));
    assert(b.subrange(11, 13) =~= ascii_bytes(ph));
    assert(b.subrange(14, 16) =~= ascii_bytes(pmi));
    assert(b.subrange(17, 19) =~= ascii_bytes(ps));
    assert(b[4] == 45u8);
    assert(b[10] == 84u8);
    assert(b[7] == 45u8);
    assert(b[13] == 58u8);
    assert(b[16] == 58u8);
    assert(field_value(b, 0, 4) == Some(y));
    assert(field_value(b, 5, 7) == Some(m));
    assert(field_value(b, 8, 10) == Some(d));
    assert(field_value(b, 11, 13) == Some(h as int));
    assert(field_value(b, 14, 16) == Some(mi as int));
    assert(field_value(b, 17, 19) == Some(s as int));
    assert(days * 86400 + h * 3600 + mi * 60 + s == secs);
}

} // verus!
