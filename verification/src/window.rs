//! Calendar dates: the requested range and the recent window.
//!
//! Dates are read by `chrono` and handled as day numbers, the count of days
//! since the last day of the year 1 BCE in the proleptic Gregorian
//! calendar. The recent window is the last 180 days up to the end date; a
//! period whose key is no `YYYY-MM-DD` date lies outside it.

use vstd::prelude::*;
use chrono::Datelike;
use crate::periods::{ascending, period_lt, texts};

verus! {

/// The length of the recent window in days.
pub const RECENT_WINDOW_DAYS: i64 = 180;

/// The longest span in days that may be asked for by the hour.
pub const HOURLY_SPAN_DAYS: i64 = 7;

/// The size of the buckets asked of the billing source.
#[derive(Clone, Copy, Debug)]
pub enum Granularity {
    Daily,
    Monthly,
    Hourly,
}

impl Granularity {
    /// Whether the buckets are months: what a month-over-month trend is made for.
    pub fn is_monthly(&self) -> (monthly: bool)
        ensures
            monthly == (*self is Monthly),
    {
        match self {
            Granularity::Monthly => true,
            _ => false,
        }
    }
}

/// Why a run cannot start.
#[derive(Clone, Copy, Debug)]
pub enum ConfigError {
    /// The start date is no calendar date.
    InvalidStartDate,
    /// The end date is no calendar date.
    InvalidEndDate,
    /// The mapping of profiles to accounts is no JSON object of strings.
    InvalidProfileMap,
}

/// A range of days, given by the day numbers of its two ends.
#[derive(Clone, Copy, Debug)]
pub struct DateRange {
    pub start_day: i32,
    pub end_day: i32,
}

/// Declares `chrono::ParseError`, the refusal of a date text, as a value
/// of which nothing is known.
#[verifier::external_type_specification]
#[verifier::external_body]
pub struct ExParseError(chrono::ParseError);

/// The day number of the date that `text` denotes in the format `%Y-%m-%d`
/// of `chrono`; `None` where `chrono` does not read `text` as such a date.
pub uninterp spec fn calendar_day(text: Seq<char>) -> Option<int>;

/// Reads `text` with `chrono::NaiveDate::parse_from_str` in the format
/// `%Y-%m-%d` and counts the days of the date with
/// `Datelike::num_days_from_ce`. The contract names the outcome
/// `calendar_day`: the same text always gives the same day number or the
/// same refusal.
#[verifier::external_body]
fn read_calendar_day(text: &str) -> (r: Result<i32, chrono::ParseError>)
    ensures
        r matches Ok(day) ==> calendar_day(text@) == Some(day as int),
        r is Err ==> calendar_day(text@) is None,
{
    match chrono::NaiveDate::parse_from_str(text, "%Y-%m-%d") {
        Ok(date) => Ok(date.num_days_from_ce()),
        Err(e) => Err(e),
    }
}

/// The day number of the date that `text` denotes, if it denotes one.
pub fn day_of(text: &String) -> (day: Option<i32>)
    ensures
        match day {
            Some(d) => calendar_day(text@) == Some(d as int),
            None => calendar_day(text@) is None,
        },
{
    match read_calendar_day(text.as_str()) {
        Ok(d) => Some(d),
        Err(_) => None,
    }
}

/// The range between two days that were read from the configuration; the
/// start is looked at first.
pub open spec fn range_of(start: Option<int>, end: Option<int>) -> Result<(int, int), ConfigError> {
    match (start, end) {
        (None, _) => Err(ConfigError::InvalidStartDate),
        (Some(_), None) => Err(ConfigError::InvalidEndDate),
        (Some(s), Some(e)) => Ok((s, e)),
    }
}

/// Builds the range from the two days as they were read.
pub fn checked_range(start: Option<i32>, end: Option<i32>) -> (r: Result<DateRange, ConfigError>)
    ensures
        match r {
            Ok(range) => start == Some(range.start_day) && end == Some(range.end_day),
            Err(ConfigError::InvalidStartDate) => start is None,
            Err(ConfigError::InvalidEndDate) => start is Some && end is None,
            Err(ConfigError::InvalidProfileMap) => false,
        },
{
    match start {
        None => Err(ConfigError::InvalidStartDate),
        Some(start_day) => match end {
            None => Err(ConfigError::InvalidEndDate),
            Some(end_day) => Ok(DateRange { start_day, end_day }),
        },
    }
}

/// Reads the start and end dates of a run.
pub fn date_range(start: &String, end: &String) -> (r: Result<DateRange, ConfigError>)
    ensures
        match r {
            Ok(range) => calendar_day(start@) == Some(range.start_day as int) && calendar_day(end@)
                == Some(range.end_day as int),
            Err(ConfigError::InvalidStartDate) => calendar_day(start@) is None,
            Err(ConfigError::InvalidEndDate) => calendar_day(start@) is Some && calendar_day(end@)
                is None,
            Err(ConfigError::InvalidProfileMap) => false,
        },
{
    checked_range(day_of(start), day_of(end))
}

impl DateRange {
    /// The number of days from the start to the end.
    pub open spec fn span(&self) -> int {
        self.end_day - self.start_day
    }

    /// The first day of the recent window.
    pub open spec fn window_start(&self) -> int {
        self.end_day - RECENT_WINDOW_DAYS
    }

    /// Whether the range may be asked for at `granularity`: by the hour
    /// only up to seven days.
    pub fn allows(&self, granularity: Granularity) -> (ok: bool)
        ensures
            ok == !(granularity is Hourly && self.span() > HOURLY_SPAN_DAYS),
    {
        match granularity {
            Granularity::Hourly => self.end_day as i64 - self.start_day as i64 <= HOURLY_SPAN_DAYS,
            _ => true,
        }
    }

    /// Whether the range starts before the recent window does.
    pub fn starts_before_window(&self) -> (early: bool)
        ensures
            early == (self.start_day < self.window_start()),
    {
        (self.start_day as i64) < self.end_day as i64 - RECENT_WINDOW_DAYS
    }
}

/// Whether a period read as `day` lies in the recent window that ends on `end_day`.
pub open spec fn within_window(day: Option<int>, end_day: int) -> bool {
    match day {
        Some(d) => d >= end_day - RECENT_WINDOW_DAYS,
        None => false,
    }
}

/// The test for lying in the recent window that ends on `end_day`.
pub open spec fn in_window(end_day: int) -> spec_fn(Seq<char>) -> bool {
    |period: Seq<char>| within_window(calendar_day(period), end_day)
}

/// The recent window of ascending periods is ascending, and holds none
/// but periods of the run.
pub proof fn lemma_window_ascending(periods: Seq<Seq<char>>, end_day: int)
    requires
        ascending(periods),
    ensures
        ascending(periods.filter(in_window(end_day))),
        forall|i: int|
            0 <= i < periods.filter(in_window(end_day)).len() ==> periods.contains(
                #[trigger] periods.filter(in_window(end_day))[i],
            ),
    decreases periods.len(),
{
    reveal(Seq::filter);
    let f = in_window(end_day);
    if periods.len() > 0 {
        let front = periods.drop_last();
        let last = periods.last();
        assert(ascending(front)) by {
            assert forall|i: int, j: int| 0 <= i < j < front.len() implies period_lt(
                #[trigger] front[i],
                #[trigger] front[j],
            ) by {
                assert(period_lt(periods[i], periods[j]));
            }
        }
        lemma_window_ascending(front, end_day);
        let kept = front.filter(f);
        let all = periods.filter(f);
        assert forall|i: int| 0 <= i < all.len() implies periods.contains(#[trigger] all[i]) by {
            if i < kept.len() {
                assert(all[i] == kept[i]);
                let m = choose|m: int| 0 <= m < front.len() && front[m] == kept[i];
                assert(periods[m] == kept[i]);
            } else {
                assert(periods[periods.len() - 1] == last);
            }
        }
        assert forall|i: int, j: int| 0 <= i < j < all.len() implies period_lt(
            #[trigger] all[i],
            #[trigger] all[j],
        ) by {
            if j < kept.len() {
                assert(period_lt(kept[i], kept[j]));
            } else {
                assert(all[i] == kept[i]);
                let m = choose|m: int| 0 <= m < front.len() && front[m] == kept[i];
                assert(period_lt(periods[m], periods[periods.len() - 1]));
            }
        }
    }
}

/// Decides `within_window` for a day as it was read.
pub fn day_in_window(day: Option<i32>, end_day: i32) -> (inside: bool)
    ensures
        inside == within_window(
            match day {
                Some(d) => Some(d as int),
                None => None,
            },
            end_day as int,
        ),
{
    match day {
        Some(d) => d as i64 >= end_day as i64 - RECENT_WINDOW_DAYS,
        None => false,
    }
}

/// The periods of `periods` that lie in the recent window, in their order.
pub fn recent_window(periods: &Vec<String>, end_day: i32) -> (window: Vec<String>)
    ensures
        texts(window@) == texts(periods@).filter(in_window(end_day as int)),
{
    let mut window: Vec<String> = Vec::new();
    let mut i: usize = 0;
    proof {
        reveal(Seq::filter);
        assert(texts(periods@.take(0)) =~= Seq::<Seq<char>>::empty());
        assert(texts(window@) =~= Seq::<Seq<char>>::empty());
    }
    while i < periods.len()
        invariant
            i <= periods@.len(),
            texts(window@) == texts(periods@.take(i as int)).filter(in_window(end_day as int)),
        decreases periods@.len() - i,
    {
        let period = &periods[i];
        let ghost before = texts(window@);
        proof {
            reveal(Seq::filter);
            assert(texts(periods@.take(i + 1)).drop_last() =~= texts(periods@.take(i as int)));
            assert(texts(periods@.take(i + 1)).last() == period@);
        }
        if day_in_window(day_of(period), end_day) {
            window.push(period.clone());
            proof {
                assert(texts(window@) =~= before.push(period@));
            }
        }
        i += 1;
    }
    proof {
        assert(periods@.take(i as int) =~= periods@);
    }
    window
}

} // verus!
