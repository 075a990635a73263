//! The time now and the start of the local day.
use vstd::prelude::*;

verus! {

/// Milliseconds in a day.
pub const DAY_MS: i64 = 86_400_000;

/// Relies on `chrono::Utc::now` and `DateTime::timestamp_millis`: the time now,
/// in milliseconds since the epoch. Nothing is known of its value.
#[verifier::external_body]
fn utc_now_millis() -> (r: i64) {
    chrono::Utc::now().timestamp_millis()
}

/// Relies on `chrono::Local::now` and `FixedOffset::local_minus_utc`: the
/// seconds that the machine's time zone adds to UTC now. chrono builds a
/// `FixedOffset` only through `east_opt`/`west_opt`, which keep it strictly
/// within a day.
#[verifier::external_body]
fn local_offset_seconds() -> (r: i32)
    ensures
        -86_400 < r < 86_400,
{
    chrono::Local::now().offset().local_minus_utc()
}

/// When the local day that holds `now` began, for a zone `offset_s` seconds
/// ahead of UTC; all times in milliseconds since the epoch.
pub open spec fn day_start_of(now: int, offset_s: int) -> int {
    let local = now + offset_s * 1000;
    local - local % (DAY_MS as int) - offset_s * 1000
}

/// Whether `now` is far enough from the ends of `i64` for a day's arithmetic.
pub open spec fn in_clock_range(now: int) -> bool {
    i64::MIN + 2 * DAY_MS <= now <= i64::MAX - 2 * DAY_MS
}

/// When the local day that holds `now` began, for a zone `offset_s` seconds
/// ahead of UTC.
pub fn day_start(now: i64, offset_s: i32) -> (r: i64)
    requires
        in_clock_range(now as int),
        -86_400 < offset_s < 86_400,
    ensures
        r == day_start_of(now as int, offset_s as int),
        r <= now < r + DAY_MS,
{
    let shift: i64 = offset_s as i64 * 1000;
    let local: i64 = now + shift;
    let rem: i64 = if local >= 0 {
        local % DAY_MS
    } else {
        let m: i64 = -(local + 1);
        let back: i64 = m % DAY_MS;
        assert((DAY_MS - 1 - back) as int == (local as int) % 86_400_000int) by (nonlinear_arith)
            requires
                m as int == -(local + 1),
                back as int == (m as int) % 86_400_000int,
                local < 0,
                DAY_MS == 86_400_000,
        ;
        DAY_MS - 1 - back
    };
    assert(0 <= (local as int) % 86_400_000int < 86_400_000int);
    local - rem - shift
}

/// The time now and when the local day began, in milliseconds since the
/// epoch. Where the clock reads a time too near the ends of `i64` for a day's
/// arithmetic, the day is taken to begin now.
pub fn today_window() -> (r: (i64, i64))
    ensures
        in_clock_range(r.0 as int) ==> exists|offset_s: int|
            -86_400 < offset_s < 86_400 && r.1 == day_start_of(r.0 as int, offset_s),
        in_clock_range(r.0 as int) ==> r.1 <= r.0 < r.1 + DAY_MS,
        !in_clock_range(r.0 as int) ==> r.1 == r.0,
{
    let now = utc_now_millis();
    if now < i64::MIN + 2 * DAY_MS || now > i64::MAX - 2 * DAY_MS {
        return (now, now);
    }
    let offset_s = local_offset_seconds();
    let start = day_start(now, offset_s);
    assert(-86_400 < offset_s as int && (offset_s as int) < 86_400 && start == day_start_of(now as int, offset_s as int));
    (now, start)
}

} // verus!
