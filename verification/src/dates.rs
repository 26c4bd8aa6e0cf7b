use vstd::prelude::*;

verus! {

/// Why a requested date window could not be built.
#[derive(Clone, Copy, Debug, PartialEq, Eq, Structural)]
pub enum DateError {
    /// One of the two date strings is not a valid `YYYY-MM-DD` date.
    Parse,
    /// Rolling the end date forward by one day left the timestamp range.
    Overflow,
}

/// What the date parser computes for a string: the timestamp in whole
/// seconds of the UTC midnight beginning the named day, when the string is a
/// valid `YYYY-MM-DD` date. The result depends on the string alone.
pub uninterp spec fn date_parse_of(s: Seq<char>) -> Option<i64>;

/// Relies on chrono::NaiveDateTime::parse_from_str with a fixed
/// `YYYY-MM-DD HH:MM:SS` format, at midnight, read as UTC; the result is a
/// function of the string alone.
#[verifier::external_body]
fn parse_day_start(s: &str) -> (r: Option<i64>)
    ensures
        r == date_parse_of(s@),
{
    let full = format!("{s} 00:00:00");
    match chrono::NaiveDateTime::parse_from_str(&full, "%Y-%m-%d %H:%M:%S") {
        Ok(dt) => Some(dt.and_utc().timestamp()),
        Err(_) => None,
    }
}

/// Relies on chrono::Utc::now for the current time; nothing is assumed of
/// the value returned.
#[verifier::external_body]
fn now_timestamp() -> i64 {
    chrono::Utc::now().timestamp()
}

/// Normalizes a window given by the first seconds of its two days: the start
/// is kept, and the end is rolled one day forward, so that the named end day
/// is included whole, then clamped to the present so it never lies in the
/// future.
pub fn normalize_window(from_ts: i64, to_ts: i64, now: i64) -> (r: Option<(i64, i64)>)
    ensures
        to_ts + 86400 <= i64::MAX ==> r == Some(
            (from_ts, if to_ts + 86400 > now { now } else { (to_ts + 86400) as i64 }),
        ),
        to_ts + 86400 > i64::MAX ==> r is None,
{
    if to_ts > i64::MAX - 86400 {
        return None;
    }
    let rolled = to_ts + 86400;
    let clamped = if rolled > now {
        now
    } else {
        rolled
    };
    Some((from_ts, clamped))
}

/// Builds the reporting window for two `YYYY-MM-DD` date strings, both
/// inclusive: the window runs from the first second of the `from` day
/// through the last second of the `to` day, clamped so it never ends in the
/// future.
pub fn parse_from_date_and_to_date(from: &str, to: &str) -> (r: Result<(i64, i64), DateError>)
    ensures
        r matches Ok(w) ==> {
            &&& date_parse_of(from@) == Some(w.0)
            &&& date_parse_of(to@) matches Some(t0) && w.1 <= t0 + 86400
        },
        r == Err::<(i64, i64), DateError>(DateError::Parse) <==> date_parse_of(from@) is None || date_parse_of(to@) is None,
        r == Err::<(i64, i64), DateError>(DateError::Overflow) <==> date_parse_of(from@) is Some && (date_parse_of(to@)
            matches Some(t0) && t0 + 86400 > i64::MAX),
{
    let f = match parse_day_start(from) {
        Option::Some(f) => f,
        Option::None => {
            return Err(DateError::Parse);
        },
    };
    let t0 = match parse_day_start(to) {
        Option::Some(t) => t,
        Option::None => {
            return Err(DateError::Parse);
        },
    };
    let now = now_timestamp();
    match normalize_window(f, t0, now) {
        Option::Some(w) => Ok(w),
        Option::None => Err(DateError::Overflow),
    }
}

} // verus!
