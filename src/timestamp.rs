//! Catalog timestamps: a date written as the six decimal digits `YYMMDD`.

use vstd::prelude::*;
use chrono::Datelike;

verus! {

/// The timestamp of a date: two-digit year, month and day as `YYMMDD`.
pub open spec fn date_stamp(year: int, month: nat, day: nat) -> nat {
    ((year % 100) * 10000 + month * 100 + day) as nat
}

/// A calendar month and day of month in their ranges.
pub open spec fn valid_month_day(month: nat, day: nat) -> bool {
    1 <= month <= 12 && 1 <= day <= 31
}

/// Relies on chrono's `Utc::now` and `Datelike::{year, month, day}`: the
/// current UTC date, whose month lies in 1..=12 and day in 1..=31.
#[verifier::external_body]
fn today_utc() -> (r: (i32, u32, u32))
    ensures
        valid_month_day(r.1 as nat, r.2 as nat),
{
    let now = chrono::Utc::now();
    (now.year(), now.month(), now.day())
}

/// The `YYMMDD` timestamp of the given date.
pub fn timestamp_from_date(year: i32, month: u32, day: u32) -> (r: u32)
    requires
        valid_month_day(month as nat, day as nat),
    ensures
        r == date_stamp(year as int, month as nat, day as nat),
        r <= 991231,
{
    let rem = year % 100;
    let yy: i32 = if rem < 0 {
        rem + 100
    } else {
        rem
    };
    assert(yy == year as int % 100);
    (yy as u32) * 10000 + month * 100 + day
}

/// Today's timestamp (UTC).
pub fn create_timestamp() -> (r: u32)
    ensures
        exists|y: int, m: nat, d: nat| valid_month_day(m, d) && r == date_stamp(y, m, d),
{
    let (year, month, day) = today_utc();
    timestamp_from_date(year, month, day)
}

} // verus!
