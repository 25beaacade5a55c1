//! Absolute-timestamp parsing and time ranges.
//!
//! Calendar arithmetic is delegated to the `chrono` crate behind trusted
//! wrappers; what each call returns is a function of its arguments alone and
//! is given a name here.  The fallback chains (which format is tried when)
//! are this crate's own verified logic.

use vstd::prelude::*;

use crate::chars::chars_of;
use crate::chars::string_from_chars;
use crate::chars::copy_range;
use crate::duration::parse_duration;
use crate::duration::scan_comps;
use crate::duration::spec_duration_secs;
use crate::duration::DurationError;

verus! {

// --- named results of chrono calls ---------------------------------------

/// Epoch milliseconds of an RFC 3339 timestamp string, if it is one.
pub uninterp spec fn rfc3339_epoch_ms(s: Seq<char>) -> Option<i64>;

/// Epoch milliseconds of a date-time string read with a strftime-style
/// format, taken as UTC, if it parses.
pub uninterp spec fn datetime_fmt_epoch_ms(s: Seq<char>, fmt: Seq<char>) -> Option<i64>;

/// Epoch milliseconds of the midnight opening a date string read with a
/// strftime-style format, taken as UTC, if it parses.
pub uninterp spec fn date_fmt_epoch_ms(s: Seq<char>, fmt: Seq<char>) -> Option<i64>;

/// Relies on chrono's `DateTime::parse_from_rfc3339` and
/// `DateTime::timestamp_millis`: the parse outcome and the epoch value
/// depend on the input characters alone.
#[verifier::external_body]
pub(crate) fn parse_rfc3339_ms(s: &str) -> (r: Option<i64>)
    ensures
        r == rfc3339_epoch_ms(s@),
{
    chrono::DateTime::parse_from_rfc3339(s).ok().map(|dt| dt.timestamp_millis())
}

/// Relies on chrono's `NaiveDateTime::parse_from_str`, `NaiveDateTime::and_utc`
/// and `DateTime::timestamp_millis`: the outcome depends on the two argument
/// strings alone.
#[verifier::external_body]
pub(crate) fn parse_datetime_fmt_ms(s: &str, fmt: &str) -> (r: Option<i64>)
    ensures
        r == datetime_fmt_epoch_ms(s@, fmt@),
{
    chrono::NaiveDateTime::parse_from_str(s, fmt).ok().map(|dt| dt.and_utc().timestamp_millis())
}

/// Relies on chrono's `NaiveDate::parse_from_str` and `NaiveDate::and_hms_opt`:
/// the outcome depends on the two argument strings alone; midnight is always
/// a valid time of day.
#[verifier::external_body]
pub(crate) fn parse_date_fmt_ms(s: &str, fmt: &str) -> (r: Option<i64>)
    ensures
        r == date_fmt_epoch_ms(s@, fmt@),
{
    chrono::NaiveDate::parse_from_str(s, fmt)
        .ok()
        .and_then(|d| d.and_hms_opt(0, 0, 0))
        .map(|dt| dt.and_utc().timestamp_millis())
}

/// Relies on chrono's `Utc::now`: the wall clock, about which nothing can
/// be promised.  (chrono itself panics here if the system clock reads
/// before the Unix epoch; that is ambient state no `requires` can exclude.)
#[verifier::external_body]
pub(crate) fn now_epoch_ms() -> (r: i64) {
    chrono::Utc::now().timestamp_millis()
}

// --- the caller-supplied datetime formats --------------------------------

/// One `parse_datetime` attempt: date-time first, then date-only.
pub open spec fn try_fmt(s: Seq<char>, fmt: Seq<char>) -> Option<i64> {
    match datetime_fmt_epoch_ms(s, fmt) {
        Some(t) => Some(t),
        None => date_fmt_epoch_ms(s, fmt),
    }
}

/// What `parse_datetime` returns: RFC 3339 first, then a short list of
/// `date[ time]` formats, midnight when only a date is given.
pub open spec fn spec_parse_datetime(s: Seq<char>) -> Option<i64> {
    match rfc3339_epoch_ms(s) {
        Some(t) => Some(t),
        None => match try_fmt(s, "%Y-%m-%d %H:%M:%S"@) {
            Some(t) => Some(t),
            None => match try_fmt(s, "%Y-%m-%d %H:%M"@) {
                Some(t) => Some(t),
                None => try_fmt(s, "%Y-%m-%d"@),
            },
        },
    }
}

fn try_fmt_exec(s: &str, fmt: &str) -> (r: Option<i64>)
    ensures
        r == try_fmt(s@, fmt@),
{
    match parse_datetime_fmt_ms(s, fmt) {
        Some(t) => Some(t),
        None => parse_date_fmt_ms(s, fmt),
    }
}

/// Parse an absolute timestamp string into epoch milliseconds (UTC).
pub fn parse_datetime(s: &str) -> (r: Option<i64>)
    ensures
        r == spec_parse_datetime(s@),
{
    match parse_rfc3339_ms(s) {
        Some(t) => Some(t),
        None => match try_fmt_exec(s, "%Y-%m-%d %H:%M:%S") {
            Some(t) => Some(t),
            None => match try_fmt_exec(s, "%Y-%m-%d %H:%M") {
                Some(t) => Some(t),
                None => try_fmt_exec(s, "%Y-%m-%d"),
            },
        },
    }
}

// --- the poll-based backend's native timestamp ----------------------------

/// What `parse_cloudwatch_timestamp` returns: RFC 3339 first, then the
/// backend's native `YYYY-MM-DD HH:MM:SS[.fff]` family.
pub open spec fn spec_parse_cloudwatch_timestamp(s: Seq<char>) -> Option<i64> {
    match rfc3339_epoch_ms(s) {
        Some(t) => Some(t),
        None => match datetime_fmt_epoch_ms(s, "%Y-%m-%d %H:%M:%S%.3f"@) {
            Some(t) => Some(t),
            None => match datetime_fmt_epoch_ms(s, "%Y-%m-%d %H:%M:%S%.f"@) {
                Some(t) => Some(t),
                None => datetime_fmt_epoch_ms(s, "%Y-%m-%d %H:%M:%S"@),
            },
        },
    }
}

/// Parse the poll-based backend's result timestamp into epoch milliseconds.
pub fn parse_cloudwatch_timestamp(s: &str) -> (r: Option<i64>)
    ensures
        r == spec_parse_cloudwatch_timestamp(s@),
{
    match parse_rfc3339_ms(s) {
        Some(t) => Some(t),
        None => match parse_datetime_fmt_ms(s, "%Y-%m-%d %H:%M:%S%.3f") {
            Some(t) => Some(t),
            None => match parse_datetime_fmt_ms(s, "%Y-%m-%d %H:%M:%S%.f") {
                Some(t) => Some(t),
                None => parse_datetime_fmt_ms(s, "%Y-%m-%d %H:%M:%S"),
            },
        },
    }
}

// --- the container runtime's timestamp -----------------------------------

/// Index of the last occurrence of `c` in `s`, if any.
pub open spec fn last_index_of(s: Seq<char>, c: char) -> Option<int>
    decreases s.len(),
{
    if s.len() == 0 {
        None
    } else if s.last() == c {
        Some(s.len() - 1)
    } else {
        last_index_of(s.drop_last(), c)
    }
}

fn last_index_of_exec(v: &Vec<char>, c: char) -> (r: Option<usize>)
    ensures
        match r {
            Some(i) => last_index_of(v@, c) == Some(i as int),
            None => last_index_of(v@, c) == None::<int>,
        },
{
    let mut j = v.len();
    proof {
        assert(v@.take(v@.len() as int) =~= v@);
    }
    while j > 0
        invariant
            j <= v@.len(),
            last_index_of(v@, c) == last_index_of(v@.take(j as int), c),
        decreases j,
    {
        j = j - 1;
        proof {
            assert(v@.take(j + 1 as int).last() == v@[j as int]);
            assert(v@.take(j + 1 as int).drop_last() =~= v@.take(j as int));
        }
        if v[j] == c {
            return Some(j);
        }
    }
    proof {
        assert(v@.take(0) =~= Seq::<char>::empty());
    }
    None
}

/// `s` with every trailing `Z` removed.
pub open spec fn trim_z(s: Seq<char>) -> Seq<char>
    decreases s.len(),
{
    if s.len() > 0 && s.last() == 'Z' {
        trim_z(s.drop_last())
    } else {
        s
    }
}

fn trim_z_exec(v: &Vec<char>) -> (r: Vec<char>)
    ensures
        r@ == trim_z(v@),
{
    let mut j = v.len();
    proof {
        assert(v@.take(v@.len() as int) =~= v@);
    }
    while j > 0 && v[j - 1] == 'Z'
        invariant
            j <= v@.len(),
            trim_z(v@) == trim_z(v@.take(j as int)),
        decreases j,
    {
        proof {
            assert(v@.take(j as int).last() == v@[j - 1]);
            assert(v@.take(j as int).drop_last() =~= v@.take(j - 1));
        }
        j = j - 1;
    }
    proof {
        if j > 0 {
            assert(v@.take(j as int).last() == v@[j - 1]);
        }
        assert(trim_z(v@.take(j as int)) == v@.take(j as int));
    }
    copy_range(v, 0, j)
}

/// What `parse_docker_timestamp` returns: RFC 3339 as written; failing that,
/// the fractional seconds truncated to six digits and tried again; failing
/// that, a short list of formats on the string with trailing `Z`s removed.
pub open spec fn spec_parse_docker_timestamp(s: Seq<char>) -> Option<i64> {
    match rfc3339_epoch_ms(s) {
        Some(t) => Some(t),
        None => {
            let truncated = docker_truncated(s);
            match truncated {
                Some(ts) => match rfc3339_epoch_ms(ts) {
                    Some(t) => Some(t),
                    None => docker_fallback(s),
                },
                None => docker_fallback(s),
            }
        },
    }
}

/// The input with over-long fractional seconds cut to six digits, when a
/// `.` is followed by a `Z` more than seven places later.
pub open spec fn docker_truncated(s: Seq<char>) -> Option<Seq<char>> {
    match last_index_of(s, '.') {
        Some(dot) => match last_index_of(s, 'Z') {
            Some(z) => {
                if z > dot + 7 {
                    Some(s.take(dot + 7).push('Z'))
                } else {
                    None
                }
            },
            None => None,
        },
        None => None,
    }
}

/// The format fallbacks, on the string with trailing `Z`s removed.
pub open spec fn docker_fallback(s: Seq<char>) -> Option<i64> {
    let st = trim_z(s);
    match datetime_fmt_epoch_ms(st, "%Y-%m-%dT%H:%M:%S"@) {
        Some(t) => Some(t),
        None => match datetime_fmt_epoch_ms(st, "%Y-%m-%dT%H:%M:%S%.f"@) {
            Some(t) => Some(t),
            None => datetime_fmt_epoch_ms(st, "%Y-%m-%d %H:%M:%S"@),
        },
    }
}

/// Parse the container runtime's log timestamp (RFC 3339, possibly with
/// nine-digit nanoseconds) into epoch milliseconds.
pub fn parse_docker_timestamp(s: &str) -> (r: Option<i64>)
    ensures
        r == spec_parse_docker_timestamp(s@),
{
    match parse_rfc3339_ms(s) {
        Some(t) => Some(t),
        None => {
            let v = chars_of(s);
            let dot = last_index_of_exec(&v, '.');
            let z = last_index_of_exec(&v, 'Z');
            let mut tr: Option<i64> = None;
            let mut truncated_failed = false;
            if let Some(d) = dot {
                if let Some(zp) = z {
                    proof {
                        crate::timefmt::lemma_last_index_bounds(v@, '.');
                        crate::timefmt::lemma_last_index_bounds(v@, 'Z');
                    }
                    if zp > d && zp - d > 7 {
                        let mut tv = copy_range(&v, 0, d + 7);
                        tv.push('Z');
                        let ts = string_from_chars(tv.as_slice());
                        tr = parse_rfc3339_ms(ts.as_str());
                        truncated_failed = true;
                    }
                }
            }
            match tr {
                Some(t) => Some(t),
                None => {
                    let st = string_from_chars(trim_z_exec(&v).as_slice());
                    match parse_datetime_fmt_ms(st.as_str(), "%Y-%m-%dT%H:%M:%S") {
                        Some(t) => Some(t),
                        None => match parse_datetime_fmt_ms(st.as_str(), "%Y-%m-%dT%H:%M:%S%.f") {
                            Some(t) => Some(t),
                            None => parse_datetime_fmt_ms(st.as_str(), "%Y-%m-%d %H:%M:%S"),
                        },
                    }
                },
            }
        },
    }
}

pub proof fn lemma_last_index_bounds(s: Seq<char>, c: char)
    ensures
        match last_index_of(s, c) {
            Some(i) => 0 <= i < s.len(),
            None => true,
        },
    decreases s.len(),
{
    if s.len() > 0 && s.last() != c {
        lemma_last_index_bounds(s.drop_last(), c);
    }
}

// --- time ranges ----------------------------------------------------------

/// Why a time specification was rejected.
#[derive(Debug, Clone, PartialEq, Eq, Structural)]
pub enum TimeError {
    /// A duration string was empty (or only whitespace).
    EmptyDuration,
    /// A duration string held no recognizable component.
    UnrecognizedDuration,
    /// An absolute timestamp matched none of the accepted formats.
    UnparsableDateTime,
    /// An explicit time window would end before it starts.
    EndBeforeStart,
}

impl TimeError {
    /// Human-readable description, with format examples.
    pub fn message(&self) -> (r: String)
        ensures
            self is EmptyDuration ==> r@ == "Empty duration string"@,
            self is UnrecognizedDuration ==> r@
                == "Invalid duration format. Examples: 1h, 30m, 2d, 1h30m, 1.5h"@,
            self is UnparsableDateTime ==> r@
                == "Unable to parse datetime. Expected formats: RFC3339, YYYY-MM-DD HH:MM:SS, YYYY-MM-DD"@,
            self is EndBeforeStart ==> r@ == "Time range ends before it starts"@,
    {
        match self {
            TimeError::EmptyDuration => "Empty duration string".to_owned(),
            TimeError::UnrecognizedDuration => "Invalid duration format. Examples: 1h, 30m, 2d, 1h30m, 1.5h".to_owned(),
            TimeError::UnparsableDateTime => "Unable to parse datetime. Expected formats: RFC3339, YYYY-MM-DD HH:MM:SS, YYYY-MM-DD".to_owned(),
            TimeError::EndBeforeStart => "Time range ends before it starts".to_owned(),
        }
    }
}

/// A half-open query window in epoch milliseconds (UTC).
#[derive(Debug, Clone)]
pub struct TimeRange {
    pub start: i64,
    pub end: i64,
}

impl TimeRange {
    /// Create a time range from explicit start/end strings; a missing end
    /// means "now".  A window that would end before it starts is rejected,
    /// keeping the invariant `end >= start`.
    pub fn from_explicit(start: &str, end: Option<&str>) -> (r: Result<TimeRange, TimeError>)
        ensures
            match r {
                Ok(tr) => {
                    &&& spec_parse_datetime(start@) == Some(tr.start)
                    &&& tr.end >= tr.start
                    &&& match end {
                        Some(e) => spec_parse_datetime(e@) == Some(tr.end),
                        None => true,
                    }
                },
                Err(e) => match e {
                    TimeError::UnparsableDateTime => spec_parse_datetime(start@) is None || (
                    match end {
                        Some(ee) => spec_parse_datetime(ee@) is None,
                        None => false,
                    }),
                    TimeError::EndBeforeStart => {
                        &&& spec_parse_datetime(start@) is Some
                        &&& match end {
                            Some(ee) => spec_parse_datetime(start@) matches Some(s)
                                && spec_parse_datetime(ee@) matches Some(t) && t < s,
                            None => true,
                        }
                    },
                    _ => false,
                },
            },
    {
        let start_ms = match parse_datetime(start) {
            Some(t) => t,
            None => {
                return Err(TimeError::UnparsableDateTime);
            },
        };
        let end_ms = match end {
            Some(e) => match parse_datetime(e) {
                Some(t) => t,
                None => {
                    return Err(TimeError::UnparsableDateTime);
                },
            },
            None => now_epoch_ms(),
        };
        if end_ms < start_ms {
            return Err(TimeError::EndBeforeStart);
        }
        Ok(TimeRange { start: start_ms, end: end_ms })
    }

    /// Create a time range reaching from `duration` before now up to now.
    pub fn from_relative(duration: &str) -> (r: Result<TimeRange, TimeError>)
        ensures
            match r {
                Ok(tr) => {
                    &&& scan_comps(duration@, 0).len() > 0
                    &&& tr.start == clip_i64(tr.end - spec_duration_secs(duration@) * 1000)
                },
                Err(e) => {
                    &&& scan_comps(duration@, 0).len() == 0
                    &&& ((e is EmptyDuration) <==> crate::chars::spec_trim(duration@).len() == 0)
                },
            },
    {
        let secs = match parse_duration(duration) {
            Ok(s) => s,
            Err(DurationError::Empty) => {
                return Err(TimeError::EmptyDuration);
            },
            Err(DurationError::Unrecognized) => {
                return Err(TimeError::UnrecognizedDuration);
            },
        };
        let end = now_epoch_ms();
        let start = sub_ms_clipped(end, secs);
        proof {
            let cs = crate::duration::scan_comps(duration@, 0);
            let dd = crate::duration::max_frac_len(cs);
            crate::duration::lemma_pow10_pos(dd);
            let q: nat = crate::duration::total_scaled(cs, dd) / crate::duration::pow10(dd);
            let x: int = q as int;
            assert(q >= 0);
            assert(x == q);
            assert(0 <= crate::duration::sat64(x) <= u64::MAX);
            assert(spec_duration_secs(duration@) == crate::duration::sat64(x));
        }
        Ok(TimeRange { start, end })
    }
}

/// Clamp an unbounded instant into the `i64` range.
pub open spec fn clip_i64(x: int) -> int {
    if x < i64::MIN {
        i64::MIN as int
    } else if x > i64::MAX {
        i64::MAX as int
    } else {
        x
    }
}

/// `end` minus a duration in seconds, clipped at the representable minimum.
fn sub_ms_clipped(end: i64, secs: u64) -> (r: i64)
    ensures
        r as int == clip_i64(end - secs * 1000),
{
    let ms: u64 = if secs > u64::MAX / 1000 {
        u64::MAX
    } else {
        secs * 1000
    };
    proof {
        if secs > u64::MAX / 1000 {
            assert(secs * 1000 > u64::MAX) by (nonlinear_arith)
                requires
                    secs > u64::MAX / 1000,
            ;
        } else {
            assert(secs * 1000 <= u64::MAX) by (nonlinear_arith)
                requires
                    secs <= u64::MAX / 1000,
            ;
        }
    }
    if ms > i64::MAX as u64 {
        // even the clamped magnitude reaches past the whole i64 range
        if end >= 0 {
            let d = ms - end as u64;
            if d > i64::MAX as u64 {
                i64::MIN
            } else {
                0i64.wrapping_sub(d as i64)
            }
        } else {
            i64::MIN
        }
    } else {
        let d = ms as i64;
        if end >= i64::MIN + d {
            end - d
        } else {
            i64::MIN
        }
    }
}

/// Floor of `ms / 1000`: the whole seconds of an epoch-millisecond instant.
pub fn epoch_ms_to_secs(ms: i64) -> (r: i64)
    ensures
        r == ms as int / 1000,
{
    if ms >= 0 {
        ms / 1000
    } else {
        let a: i64 = -(ms + 1);
        // a = -ms - 1 >= 0; floor(ms/1000) = -1 - (a / 1000)
        let q = a / 1000;
        proof {
            let m = ms as int;
            let qa = a as int / 1000;
            vstd::arithmetic::div_mod::lemma_fundamental_div_mod(a as int, 1000);
            let ra = a as int % 1000;
            assert(m == 1000 * (-1 - qa) + (999 - ra));
            assert(0 <= 999 - ra < 1000);
            vstd::arithmetic::div_mod::lemma_fundamental_div_mod_converse(
                m,
                1000,
                -1 - qa,
                999 - ra,
            );
        }
        -1 - q
    }
}

} // verus!
