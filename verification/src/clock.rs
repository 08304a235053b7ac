//! Time: the two facts of the machine the library reads (the clock, and a
//! fresh random number), of which nothing is promised beyond their type,
//! and the calendar arithmetic that turns a moment into a readable stamp.
use vstd::prelude::*;
use std::hash::BuildHasher;
use crate::text::{dec_fixed, dec_int, to_decimal_fixed, concat_str};

verus! {

#[verifier::external_type_specification]
#[verifier::external_body]
pub struct ExSystemTime(std::time::SystemTime);

/// `std::time::SystemTime::now`. Nothing is stated of the moment: it is
/// the machine's clock.
#[verifier::external_body]
fn system_now() -> std::time::SystemTime {
    std::time::SystemTime::now()
}

/// `SystemTime::duration_since(UNIX_EPOCH)`, with its error (a moment
/// before the epoch) turned into `None`. Nothing is stated of the value:
/// the moment is the machine's.
#[verifier::external_body]
fn since_epoch(t: &std::time::SystemTime) -> Option<std::time::Duration> {
    match t.duration_since(std::time::UNIX_EPOCH) {
        Ok(d) => Some(d),
        Err(_) => None,
    }
}

/// `Duration::as_secs`. Nothing is stated: `Duration` is opaque here.
#[verifier::external_body]
fn whole_secs(d: &std::time::Duration) -> u64 {
    d.as_secs()
}

/// Seconds since the Unix epoch; zero if the clock reads before the epoch.
/// What the clock reads is the machine's, so nothing more is promised.
pub(crate) fn now_secs() -> i64 {
    let now = system_now();
    match since_epoch(&now) {
        Some(d) => whole_secs(&d) as i64,
        None => 0,
    }
}

/// `RandomState::new`: a newly seeded hasher builder. Nothing is stated:
/// the seed is random per process.
#[verifier::external_body]
fn fresh_random_state() -> std::collections::hash_map::RandomState {
    std::collections::hash_map::RandomState::new()
}

/// `BuildHasher::hash_one` of the byte 0 under `state`. Nothing is stated:
/// it depends on the state's random seed.
#[verifier::external_body]
fn hash_zero(state: &std::collections::hash_map::RandomState) -> u64 {
    state.hash_one(0u8)
}

/// A fresh per-process random number: one hash of a constant under a newly
/// seeded hasher. Nothing is promised of its value.
pub(crate) fn random_u64() -> u64 {
    let state = fresh_random_state();
    hash_zero(&state)
}

// ---------------------------------------------------------------------------
// The calendar
// ---------------------------------------------------------------------------

/// The first moment (epoch seconds) a four-digit year cannot show:
/// 10000-01-01 00:00.
pub const STAMP_LIMIT: i128 = 253402300800;

pub open spec fn is_leap(y: int) -> bool {
    (y % 4 == 0 && y % 100 != 0) || y % 400 == 0
}

pub open spec fn year_len(y: int) -> int {
    if is_leap(y) { 366 } else { 365 }
}

/// Days in month `m` (1 to 12) of year `y`.
pub open spec fn month_len(y: int, m: int) -> int {
    if m == 2 {
        if is_leap(y) { 29 } else { 28 }
    } else if m == 4 || m == 6 || m == 9 || m == 11 {
        30
    } else {
        31
    }
}

/// Month and day of the `doy`-th day (from 0) of year `y`, counting months
/// from `m`.
pub open spec fn date_in_year(y: int, doy: int, m: int) -> (int, int)
    decreases 12 - m,
{
    if m >= 12 || doy < month_len(y, m) {
        (m, doy + 1)
    } else {
        date_in_year(y, doy - month_len(y, m), m + 1)
    }
}

/// Year, month and day `days` days after the first of January of `y`.
pub open spec fn date_from(y: int, days: int) -> (int, int, int)
    decreases days,
{
    if days < year_len(y) {
        let md = date_in_year(y, days, 1);
        (y, md.0, md.1)
    } else {
        date_from(y + 1, days - year_len(y))
    }
}

/// A moment as `YYYY-MM-DD HH:MM` on the Gregorian calendar, for moments
/// from 1970 to the end of year 9999; other moments as their plain number
/// of seconds.
pub open spec fn spec_stamp(t: int) -> Seq<char> {
    if 0 <= t < STAMP_LIMIT {
        let ymd = date_from(1970, t / 86400);
        let sod = t % 86400;
        dec_fixed(ymd.0 as nat, 4) + seq!['-'] + dec_fixed(ymd.1 as nat, 2) + seq!['-']
            + dec_fixed(ymd.2 as nat, 2) + seq![' '] + dec_fixed((sod / 3600) as nat, 2) + seq![':']
            + dec_fixed((sod % 3600 / 60) as nat, 2)
    } else {
        dec_int(t)
    }
}

fn year_days(y: u64) -> (n: u64)
    ensures
        n == year_len(y as int),
{
    if (y % 4 == 0 && y % 100 != 0) || y % 400 == 0 { 366 } else { 365 }
}

fn month_days(y: u64, m: u64) -> (n: u64)
    ensures
        n == month_len(y as int, m as int),
{
    if m == 2 {
        if (y % 4 == 0 && y % 100 != 0) || y % 400 == 0 { 29 } else { 28 }
    } else if m == 4 || m == 6 || m == 9 || m == 11 {
        30
    } else {
        31
    }
}

/// Year, month and day of the `days`-th day after 1970-01-01.
fn civil_date(days: u64) -> (r: (u64, u64, u64))
    requires
        days < 3000000,
    ensures
        r.0 as int == date_from(1970, days as int).0,
        r.1 as int == date_from(1970, days as int).1,
        r.2 as int == date_from(1970, days as int).2,
{
    let mut y: u64 = 1970;
    let mut rest: u64 = days;
    while rest >= year_days(y)
        invariant
            1970 <= y,
            (y - 1970) * 365 + rest <= days,
            rest <= days < 3000000,
            date_from(1970, days as int) == date_from(y as int, rest as int),
        decreases rest,
    {
        let n = year_days(y);
        rest = rest - n;
        y = y + 1;
    }
    let mut m: u64 = 1;
    let mut doy: u64 = rest;
    while m < 12 && doy >= month_days(y, m)
        invariant
            1 <= m <= 12,
            doy <= rest,
            rest < year_len(y as int),
            date_in_year(y as int, rest as int, 1) == date_in_year(y as int, doy as int, m as int),
        decreases 12 - m,
    {
        doy = doy - month_days(y, m);
        m = m + 1;
    }
    (y, m, doy + 1)
}

/// The moment `secs` (epoch seconds) shifted by `utc_offset` seconds, as a
/// readable stamp: `YYYY-MM-DD HH:MM`, or the plain number of seconds for
/// a moment before 1970 or after year 9999.
pub fn format_stamp(secs: i64, utc_offset: i64) -> (s: String)
    ensures
        s@ == spec_stamp(secs as int + utc_offset as int),
{
    let t: i128 = secs as i128 + utc_offset as i128;
    if t < 0 || t >= STAMP_LIMIT {
        proof {
            assert(!(0 <= t < STAMP_LIMIT));
        }
        let r = if t < 0 {
            let neg: u128 = (0i128 - t) as u128;
            let d = crate::text::to_decimal(neg);
            proof {
                reveal_strlit("-");
            }
            concat_str("-", d.as_str())
        } else {
            crate::text::to_decimal(t as u128)
        };
        return r;
    }
    let tt: u64 = t as u64;
    let days = tt / 86400;
    let sod = tt % 86400;
    let ymd = civil_date(days);
    let mut out = to_decimal_fixed(ymd.0, 4);
    out.append("-");
    out.append(to_decimal_fixed(ymd.1, 2).as_str());
    out.append("-");
    out.append(to_decimal_fixed(ymd.2, 2).as_str());
    out.append(" ");
    out.append(to_decimal_fixed(sod / 3600, 2).as_str());
    out.append(":");
    out.append(to_decimal_fixed(sod % 3600 / 60, 2).as_str());
    proof {
        reveal_strlit("-");
        reveal_strlit(" ");
        reveal_strlit(":");
    }
    out
}

} // verus!
