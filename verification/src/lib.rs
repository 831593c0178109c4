//! Sums human-entered time expressions and renders the total.
//!
//! A token is either a signed duration such as `1h` or `-30m`
//! (units `w`, `d`, `h`, `m`) or a clock interval such as `9-12:30`.
//! The parser turns one token into a signed number of minutes, the
//! aggregator folds a list of tokens into a total, and the formatter
//! renders a total as a compact string such as `1w 2d 3h 4m`.

pub mod formatter;
pub mod parser;

use vstd::prelude::*;

verus! {

/// Minutes in one hour.
pub const MINUTES_PER_HOUR: i64 = 60;

/// Minutes in one day.
pub const MINUTES_PER_DAY: i64 = 1440;

/// Minutes in one week.
pub const MINUTES_PER_WEEK: i64 = 10080;

/// A signed span of time, held as a count of minutes.
///
/// This is the only value the library computes with: parsed tokens,
/// running totals and formatted inputs are all `Duration`s.
#[derive(Clone, Copy, PartialEq, Eq, Structural, Debug)]
pub struct Duration {
    minutes: i64,
}

impl View for Duration {
    type V = int;

    closed spec fn view(&self) -> int {
        self.minutes as int
    }
}

impl Duration {
    /// The zero-length duration.
    pub fn zero() -> (d: Duration)
        ensures
            d@ == 0,
    {
        Duration { minutes: 0 }
    }

    /// A duration of `n` minutes.
    pub fn minutes(n: i64) -> (d: Duration)
        ensures
            d@ == n,
    {
        Duration { minutes: n }
    }

    /// A duration of `n` hours.
    pub fn hours(n: i64) -> (d: Duration)
        requires
            i64::MIN <= n * MINUTES_PER_HOUR <= i64::MAX,
        ensures
            d@ == n * MINUTES_PER_HOUR,
    {
        Duration { minutes: n * MINUTES_PER_HOUR }
    }

    /// A duration of `n` days.
    pub fn days(n: i64) -> (d: Duration)
        requires
            i64::MIN <= n * MINUTES_PER_DAY <= i64::MAX,
        ensures
            d@ == n * MINUTES_PER_DAY,
    {
        Duration { minutes: n * MINUTES_PER_DAY }
    }

    /// A duration of `n` weeks.
    pub fn weeks(n: i64) -> (d: Duration)
        requires
            i64::MIN <= n * MINUTES_PER_WEEK <= i64::MAX,
        ensures
            d@ == n * MINUTES_PER_WEEK,
    {
        Duration { minutes: n * MINUTES_PER_WEEK }
    }

    /// The whole count of minutes this duration spans.
    pub fn num_minutes(&self) -> (m: i64)
        ensures
            m == self@,
    {
        self.minutes
    }

    /// The sum of two durations.
    pub fn plus(self, other: Duration) -> (d: Duration)
        requires
            i64::MIN <= self@ + other@ <= i64::MAX,
        ensures
            d@ == self@ + other@,
    {
        Duration { minutes: self.minutes + other.minutes }
    }

    /// The difference of two durations.
    pub fn minus(self, other: Duration) -> (d: Duration)
        requires
            i64::MIN <= self@ - other@ <= i64::MAX,
        ensures
            d@ == self@ - other@,
    {
        Duration { minutes: self.minutes - other.minutes }
    }
}

/// The one failure the library reports: a token that matches neither
/// the signed-duration grammar nor the clock-interval grammar. It
/// carries the offending token verbatim.
#[derive(Debug)]
pub enum TimecalcError {
    ParseError(String),
}

impl PartialEq for TimecalcError {
    fn eq(&self, other: &TimecalcError) -> (r: bool) {
        match (self, other) {
            (TimecalcError::ParseError(a), TimecalcError::ParseError(b)) => a.eq(b),
        }
    }
}

impl vstd::std_specs::cmp::PartialEqSpecImpl for TimecalcError {
    open spec fn obeys_eq_spec() -> bool {
        true
    }

    open spec fn eq_spec(&self, other: &TimecalcError) -> bool {
        match (self, other) {
            (TimecalcError::ParseError(a), TimecalcError::ParseError(b)) => a@ == b@,
        }
    }
}

impl TimecalcError {
    /// The user-facing message for this error.
    pub fn message(&self) -> (m: String)
        ensures
            (match self {
                TimecalcError::ParseError(t) => m@ == "Failed to parse duration: "@ + t@,
            }),
    {
        match self {
            TimecalcError::ParseError(t) => {
                let mut m = String::new();
                m.append("Failed to parse duration: ");
                m.append(t.as_str());
                m
            },
        }
    }
}

} // verus!
