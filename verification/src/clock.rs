//! Calendar arithmetic and clock readings, taken from the `time` crate and
//! from `std::time`. Everything else in the crate reads dates through these
//! functions only.
use vstd::prelude::*;

verus! {

/// Rust's `/` on signed integers: the quotient rounded toward zero.
pub open spec fn trunc_div(a: int, b: int) -> int {
    if a >= 0 {
        a / b
    } else {
        -((-a) / b)
    }
}

/// Division rounding toward zero: for a positive divisor the quotient
/// times the divisor lies within one divisor of `a`, on the side of zero.
pub proof fn lemma_trunc_div_bounds(a: int, b: int)
    requires
        b > 0,
    ensures
        a >= 0 ==> 0 <= trunc_div(a, b) * b <= a < trunc_div(a, b) * b + b,
        a < 0 ==> trunc_div(a, b) * b - b < a <= trunc_div(a, b) * b <= 0,
{
    if a >= 0 {
        let q = a / b;
        assert(0 <= q * b <= a < q * b + b) by (nonlinear_arith)
            requires
                a >= 0,
                b > 0,
                q == a / b,
        ;
    } else {
        let q = (-a) / b;
        assert(0 <= q * b <= -a < q * b + b) by (nonlinear_arith)
            requires
                -a > 0,
                b > 0,
                q == (-a) / b,
        ;
        assert(trunc_div(a, b) == -q);
        assert((-q) * b == -(q * b)) by (nonlinear_arith);
    }
}

/// Rust's `%` on signed integers: the remainder takes the sign of `a`.
pub open spec fn trunc_rem(a: int, b: int) -> int {
    if a >= 0 {
        a % b
    } else {
        -((-a) % b)
    }
}

/// The largest absolute Unix timestamp that a `time::OffsetDateTime` can
/// hold (its years stay within ±999 999 even with the `large-dates` feature).
pub const TIMESTAMP_BOUND: i64 = 32_000_000_000_000;

/// The UTC calendar fields of a Unix timestamp, as `time` computes them:
/// `(year, month 1..=12, weekday counted from Monday = 0, hour)`, or `None`
/// where the timestamp lies outside the range of `time::OffsetDateTime`.
pub uninterp spec fn spec_utc_fields(ts: i64) -> Option<(i32, u8, u8, u8)>;

/// The Unix timestamp of midnight UTC at the start of the given calendar
/// date, as `time` computes it, or `None` where the date does not exist or
/// lies outside the range of `time::Date`.
pub uninterp spec fn spec_date_timestamp(year: i32, month: u8, day: u8) -> Option<i64>;

/// `time::OffsetDateTime::from_unix_timestamp`, read back through `year`,
/// `month`, `weekday().number_days_from_monday()` and `hour`.
/// Trusted: the result is named `spec_utc_fields`; the month lies in
/// `1..=12`, the weekday and hour follow from the timestamp by floor division
/// (1970-01-01 was a Thursday), the first day of the month is itself a valid
/// date, and the epoch is in range. Which timestamps are in range, and the
/// year and month of each, are not written out.
#[verifier::external_body]
pub(crate) fn utc_fields(ts: i64) -> (r: Option<(i32, u8, u8, u8)>)
    ensures
        r == spec_utc_fields(ts),
        r matches Some(f) ==> {
            &&& 1 <= f.1 <= 12
            &&& f.2 as int == (ts as int / 86_400 + 3) % 7
            &&& f.3 as int == (ts as int % 86_400) / 3600
            &&& spec_date_timestamp(f.0, f.1, 1) is Some
        },
        ts == 0 ==> r == Some((1970i32, 1u8, 3u8, 0u8)),
{
    match time::OffsetDateTime::from_unix_timestamp(ts) {
        Ok(dt) => Some((dt.year(), u8::from(dt.month()), dt.weekday().number_days_from_monday(), dt.hour())),
        Err(_) => None,
    }
}

/// `time::Month::try_from` followed by `time::Date::from_calendar_date` and
/// the Unix timestamp of that date at midnight UTC.
/// Trusted: the result is named `spec_date_timestamp`; a month outside
/// `1..=12` or a day 0 gives `None`, and 1970-01-01 gives 0.
#[verifier::external_body]
pub(crate) fn date_timestamp(year: i32, month: u8, day: u8) -> (r: Option<i64>)
    ensures
        r == spec_date_timestamp(year, month, day),
        month == 0 || month > 12 || day == 0 ==> r is None,
        year == 1970 && month == 1 && day == 1 ==> r == Some(0i64),
{
    let m = match time::Month::try_from(month) {
        Ok(m) => m,
        Err(_) => return None,
    };
    match time::Date::from_calendar_date(year, m, day) {
        Ok(d) => Some(time::PrimitiveDateTime::new(d, time::Time::MIDNIGHT).assume_utc().unix_timestamp()),
        Err(_) => None,
    }
}

/// `time::OffsetDateTime::now_utc().unix_timestamp()`.
/// Trusted: the reading depends on the clock, so only its range is stated:
/// it is the timestamp of a valid `OffsetDateTime`.
#[verifier::external_body]
pub(crate) fn now_unix() -> (r: i64)
    ensures
        -TIMESTAMP_BOUND <= r <= TIMESTAMP_BOUND,
{
    time::OffsetDateTime::now_utc().unix_timestamp()
}

/// Whole seconds from the Unix epoch to `std::time::SystemTime::now()`, or
/// `None` where the clock reads earlier than the epoch.
/// Trusted: the reading depends on the clock; where it is given it is not
/// negative (a `SystemTime` holds at most `i64::MAX` seconds).
#[verifier::external_body]
pub(crate) fn system_unix_secs() -> (r: Option<i64>)
    ensures
        r matches Some(s) ==> s >= 0,
{
    match std::time::SystemTime::now().duration_since(std::time::UNIX_EPOCH) {
        Ok(d) => Some(d.as_secs() as i64),
        Err(_) => None,
    }
}

} // verus!
