use vstd::prelude::*;

use crate::roommate::Roommate;

verus! {

/// The day number that chrono gives a calendar date, counted from the common
/// era (0001-01-01 is day 1), or `None` where the date does not exist.
pub uninterp spec fn ce_day_of(year: int, month: int, day: int) -> Option<int>;

/// The day number of the date that chrono reads from `text` with `format`,
/// or `None` where the text does not match.
pub uninterp spec fn parsed_ce_day(text: Seq<char>, format: Seq<char>) -> Option<int>;

/// An optional day number, widened to `int`.
pub open spec fn day_opt(d: Option<i32>) -> Option<int> {
    match d {
        Some(v) => Some(v as int),
        None => None,
    }
}

/// Relies on chrono's `NaiveDate::from_ymd_opt`, which is `None` for a date
/// that does not exist; the date it builds is handed back as its
/// `Datelike::num_days_from_ce`.
#[verifier::external_body]
fn ce_day_from_ymd(year: i32, month: u32, day: u32) -> (r: Option<i32>)
    ensures
        day_opt(r) == ce_day_of(year as int, month as int, day as int),
{
    match chrono::NaiveDate::from_ymd_opt(year, month, day) {
        Some(date) => Some(chrono::Datelike::num_days_from_ce(&date)),
        None => None,
    }
}

/// Relies on chrono's `NaiveDate::parse_from_str`, which fails on text that
/// does not match the format; the date it reads is handed back as its
/// `Datelike::num_days_from_ce`.
#[verifier::external_body]
fn ce_day_from_str(text: &str, format: &str) -> (r: Option<i32>)
    ensures
        day_opt(r) == parsed_ce_day(text@, format@),
{
    match chrono::NaiveDate::parse_from_str(text, format) {
        Ok(date) => Some(chrono::Datelike::num_days_from_ce(&date)),
        Err(_) => None,
    }
}

/// The format of the dates that [`DateInterval::from_strs`] reads.
pub const DATE_FORMAT: &'static str = "%m/%d/%Y";

/// A calendar date, held as its day number from the common era.
#[derive(Debug, Clone, Copy, PartialEq, Eq, Structural)]
pub struct Date {
    day: i32,
}

impl View for Date {
    type V = int;

    closed spec fn view(&self) -> int {
        self.day as int
    }
}

impl Date {
    /// The date with the given day number (0001-01-01 is day 1).
    pub fn from_day_number(day: i32) -> (r: Date)
        ensures
            r@ == day,
    {
        Date { day }
    }

    /// The date with the given year, month and day, if it exists.
    pub fn from_ymd(year: i32, month: u32, day: u32) -> (r: Option<Date>)
        ensures
            match r {
                Some(d) => ce_day_of(year as int, month as int, day as int) == Some(d@),
                None => ce_day_of(year as int, month as int, day as int) is None,
            },
    {
        match ce_day_from_ymd(year, month, day) {
            Some(n) => Some(Date { day: n }),
            None => None,
        }
    }

    /// Reads a date written `month/day/year`.
    pub fn parse_mdy(text: &str) -> (r: Option<Date>)
        ensures
            match r {
                Some(d) => parsed_ce_day(text@, DATE_FORMAT@) == Some(d@),
                None => parsed_ce_day(text@, DATE_FORMAT@) is None,
            },
    {
        match ce_day_from_str(text, DATE_FORMAT) {
            Some(n) => Some(Date { day: n }),
            None => None,
        }
    }

    /// The day number of the date.
    pub fn day_number(self) -> (r: i32)
        ensures
            r == self@,
    {
        self.day
    }
}

/// Why an interval could not be built.
#[derive(Debug, Clone, Copy, PartialEq, Eq, Structural)]
pub enum IntervalError {
    /// The end of the interval is before its start.
    NegativeLengthInterval,
    /// A date does not exist or could not be read.
    InvalidDate,
}

impl IntervalError {
    /// A sentence that describes the error.
    pub fn message(&self) -> (r: &'static str) {
        match self {
            IntervalError::NegativeLengthInterval => "The end of an interval cannot be before the start",
            IntervalError::InvalidDate => "Error parsing date",
        }
    }
}

/// The days from a start date to an end date, both included.
#[derive(Debug, Clone, Copy, PartialEq, Eq, Structural)]
pub struct DateInterval {
    start: Date,
    end: Date,
}

impl View for DateInterval {
    type V = (int, int);

    closed spec fn view(&self) -> (int, int) {
        (self.start@, self.end@)
    }
}

/// The number of days that two inclusive day ranges share.
pub open spec fn overlap_days(a: (int, int), b: (int, int)) -> int {
    let lo = if a.0 >= b.0 { a.0 } else { b.0 };
    let hi = if a.1 <= b.1 { a.1 } else { b.1 };
    if hi >= lo { hi - lo + 1 } else { 0 }
}

impl DateInterval {
    #[verifier::type_invariant]
    spec fn inv(&self) -> bool {
        self.start@ <= self.end@
    }

    /// Builds the interval from its first and last day.
    pub fn from_dates(start: Date, end: Date) -> (r: Result<DateInterval, IntervalError>)
        ensures
            start@ <= end@ <==> r is Ok,
            r is Ok ==> r.unwrap()@ == (start@, end@),
            r is Err ==> r.unwrap_err() == IntervalError::NegativeLengthInterval,
    {
        if start.day > end.day {
            Err(IntervalError::NegativeLengthInterval)
        } else {
            Ok(DateInterval { start, end })
        }
    }

    /// Builds the interval from `(year, month, day)` triples.
    ///
    /// A date that does not exist gives `InvalidDate`; an end before the
    /// start gives `NegativeLengthInterval`.
    pub fn new(start: (i32, u32, u32), end: (i32, u32, u32)) -> (r: Result<DateInterval, IntervalError>)
        ensures
            ({
                let s = ce_day_of(start.0 as int, start.1 as int, start.2 as int);
                let e = ce_day_of(end.0 as int, end.1 as int, end.2 as int);
                match r {
                    Ok(i) => s == Some(i@.0) && e == Some(i@.1),
                    Err(IntervalError::InvalidDate) => s is None || e is None,
                    Err(IntervalError::NegativeLengthInterval) => s is Some && e is Some
                        && s.unwrap() > e.unwrap(),
                }
            }),
    {
        let first = match Date::from_ymd(start.0, start.1, start.2) {
            Some(d) => d,
            None => return Err(IntervalError::InvalidDate),
        };
        let last = match Date::from_ymd(end.0, end.1, end.2) {
            Some(d) => d,
            None => return Err(IntervalError::InvalidDate),
        };
        DateInterval::from_dates(first, last)
    }

    /// Builds the interval from two `month/day/year` strings.
    ///
    /// Text that is not such a date gives `InvalidDate`; an end before the
    /// start gives `NegativeLengthInterval`.
    pub fn from_strs(start: &str, end: &str) -> (r: Result<DateInterval, IntervalError>)
        ensures
            ({
                let s = parsed_ce_day(start@, DATE_FORMAT@);
                let e = parsed_ce_day(end@, DATE_FORMAT@);
                match r {
                    Ok(i) => s == Some(i@.0) && e == Some(i@.1),
                    Err(IntervalError::InvalidDate) => s is None || e is None,
                    Err(IntervalError::NegativeLengthInterval) => s is Some && e is Some
                        && s.unwrap() > e.unwrap(),
                }
            }),
    {
        let first = match Date::parse_mdy(start) {
            Some(d) => d,
            None => return Err(IntervalError::InvalidDate),
        };
        let last = match Date::parse_mdy(end) {
            Some(d) => d,
            None => return Err(IntervalError::InvalidDate),
        };
        DateInterval::from_dates(first, last)
    }

    /// The first day of the interval.
    pub fn start(self) -> (r: Date)
        ensures
            r@ == self@.0,
    {
        self.start
    }

    /// The last day of the interval.
    pub fn end(self) -> (r: Date)
        ensures
            r@ == self@.1,
    {
        self.end
    }

    /// The first day is never after the last.
    pub fn is_ordered(self) -> (r: bool)
        ensures
            r,
            self@.0 <= self@.1,
    {
        proof {
            use_type_invariant(&self);
        }
        true
    }

    /// The number of days of this interval that lie within `bounds`.
    pub fn num_days_bounded_by(self, bounds: DateInterval) -> (r: u64)
        ensures
            r == overlap_days(self@, bounds@),
            r <= 0x1_0000_0000,
    {
        let lo: i64 = if self.start.day >= bounds.start.day {
            self.start.day as i64
        } else {
            bounds.start.day as i64
        };
        let hi: i64 = if self.end.day <= bounds.end.day {
            self.end.day as i64
        } else {
            bounds.end.day as i64
        };
        if hi >= lo {
            (hi - lo + 1) as u64
        } else {
            0
        }
    }
}

/// What a [`ResponsibilityInterval`] says: whose it is, the days it covers,
/// and how many people it stands for.
pub type IntervalView = (Seq<char>, (int, int), int);

/// Person-days of one interval that fall within `window`.
pub open spec fn weighted_days(i: IntervalView, window: (int, int)) -> int {
    i.2 * overlap_days(i.1, window)
}

/// Person-days of all `intervals` that fall within `window`.
pub open spec fn occupancy_of(intervals: Seq<IntervalView>, window: (int, int)) -> int
    decreases intervals.len(),
{
    if intervals.len() == 0 {
        0
    } else {
        occupancy_of(intervals.drop_last(), window) + weighted_days(intervals.last(), window)
    }
}

/// Person-days within `window` of the intervals that belong to `who`.
pub open spec fn roommate_occupancy_of(
    intervals: Seq<IntervalView>,
    window: (int, int),
    who: Seq<char>,
) -> int
    decreases intervals.len(),
{
    if intervals.len() == 0 {
        0
    } else {
        roommate_occupancy_of(intervals.drop_last(), window, who) + if intervals.last().0 == who {
            weighted_days(intervals.last(), window)
        } else {
            0
        }
    }
}

/// A stretch of time during which one roommate, and possibly some guests
/// that roommate answers for, stayed in the house.
#[derive(Debug)]
pub struct ResponsibilityInterval {
    roommate: Roommate,
    interval: DateInterval,
    additional_people: u32,
}

impl View for ResponsibilityInterval {
    type V = IntervalView;

    closed spec fn view(&self) -> IntervalView {
        (self.roommate@, self.interval@, self.additional_people + 1)
    }
}

impl ResponsibilityInterval {
    /// Creates an interval for `roommate` and `additional_people` others.
    pub fn new(roommate: &Roommate, interval: DateInterval, additional_people: u32) -> (r: ResponsibilityInterval)
        ensures
            r@ == (roommate@, interval@, additional_people + 1),
    {
        ResponsibilityInterval { roommate: roommate.copy(), interval, additional_people }
    }

    /// The roommate who answers for the interval.
    pub fn roommate(&self) -> (r: &Roommate)
        ensures
            r@ == self@.0,
    {
        &self.roommate
    }

    /// The days the interval covers.
    pub fn interval(&self) -> (r: DateInterval)
        ensures
            r@ == self@.1,
    {
        self.interval
    }

    /// The first day of the interval.
    pub fn start(&self) -> (r: Date)
        ensures
            r@ == self@.1.0,
    {
        self.interval.start()
    }

    /// The last day of the interval.
    pub fn end(&self) -> (r: Date)
        ensures
            r@ == self@.1.1,
    {
        self.interval.end()
    }

    /// The number of people the roommate answers for, the roommate included.
    pub fn responsible_for_count(&self) -> (r: u64)
        ensures
            r == self@.2,
    {
        self.num_people()
    }

    /// The number of people the interval stands for: the roommate and the
    /// additional people.
    pub fn num_people(&self) -> (r: u64)
        ensures
            r == self@.2,
            1 <= r <= 0x1_0000_0000,
    {
        1 + self.additional_people as u64
    }

    /// A second interval equal to this one.
    pub fn copy(&self) -> (r: ResponsibilityInterval)
        ensures
            r@ == self@,
    {
        ResponsibilityInterval {
            roommate: self.roommate.copy(),
            interval: self.interval,
            additional_people: self.additional_people,
        }
    }

    /// Person-days of this interval within `window`.
    fn weighted_days_within(&self, window: DateInterval) -> (r: u128)
        ensures
            r == weighted_days(self@, window@),
            r <= 0x1_0000_0000_0000_0000,
    {
        let people = self.num_people();
        let days = self.interval.num_days_bounded_by(window);
        proof {
            assert(people * days <= 0x1_0000_0000_0000_0000) by (nonlinear_arith)
                requires
                    people <= 0x1_0000_0000,
                    days <= 0x1_0000_0000,
            ;
        }
        people as u128 * days as u128
    }
}

/// A running sum of at most `i` terms below 2^64 can take one more such
/// term and still fit in a `u128`.
pub(crate) proof fn lemma_next_multiple_fits(i: int)
    requires
        0 <= i < 0x1_0000_0000_0000_0000,
    ensures
        (i + 1) * 0x1_0000_0000_0000_0000 == i * 0x1_0000_0000_0000_0000 + 0x1_0000_0000_0000_0000,
        (i + 1) * 0x1_0000_0000_0000_0000 <= u128::MAX + 1,
{
    assert((i + 1) * 0x1_0000_0000_0000_0000 == i * 0x1_0000_0000_0000_0000 + 0x1_0000_0000_0000_0000) by (nonlinear_arith);
    assert((i + 1) * 0x1_0000_0000_0000_0000 <= 0x1_0000_0000_0000_0000 * 0x1_0000_0000_0000_0000) by (nonlinear_arith)
        requires
            i < 0x1_0000_0000_0000_0000,
    ;
}

/// The views of a sequence of intervals.
pub open spec fn interval_views(s: Seq<ResponsibilityInterval>) -> Seq<IntervalView> {
    s.map_values(|i: ResponsibilityInterval| i@)
}

/// The complete occupancy history of a house, as a list of intervals.
pub struct ResponsibilityRecord {
    intervals: Vec<ResponsibilityInterval>,
}

impl View for ResponsibilityRecord {
    type V = Seq<IntervalView>;

    closed spec fn view(&self) -> Seq<IntervalView> {
        interval_views(self.intervals@)
    }
}

impl ResponsibilityRecord {
    /// Creates a record from its intervals, kept in the given order.
    pub fn new(intervals: Vec<ResponsibilityInterval>) -> (r: ResponsibilityRecord)
        ensures
            r@ == interval_views(intervals@),
    {
        ResponsibilityRecord { intervals }
    }

    /// The intervals of the record, in order.
    pub fn iter(&self) -> (r: &Vec<ResponsibilityInterval>)
        ensures
            interval_views(r@) == self@,
    {
        &self.intervals
    }

    /// Each interval stands for at least one person.
    pub proof fn lemma_people_positive(&self, i: int)
        requires
            0 <= i < self@.len(),
        ensures
            self@[i].2 >= 1,
    {
    }

    /// Occupancy over `period`, in person-days.
    pub fn occupancy_over(&self, period: DateInterval) -> (r: u128)
        ensures
            r == occupancy_of(self@, period@),
    {
        let mut total: u128 = 0;
        let mut i: usize = 0;
        while i < self.intervals.len()
            invariant
                i <= self.intervals.len(),
                total == occupancy_of(self@.take(i as int), period@),
                total <= i * 0x1_0000_0000_0000_0000,
            decreases self.intervals.len() - i,
        {
            let w = self.intervals[i].weighted_days_within(period);
            proof {
                let s = self@.take(i as int + 1);
                assert(s.drop_last() =~= self@.take(i as int));
                assert(s.last() == self.intervals[i as int]@);
                crate::interval::lemma_next_multiple_fits(i as int);
            }
            total = total + w;
            i += 1;
        }
        assert(self@.take(i as int) =~= self@);
        total
    }

    /// Occupancy over `period` of the intervals that belong to `roommate`.
    pub fn roommate_occupancy(&self, roommate: &Roommate, period: DateInterval) -> (r: u128)
        ensures
            r == roommate_occupancy_of(self@, period@, roommate@),
    {
        let mut total: u128 = 0;
        let mut i: usize = 0;
        while i < self.intervals.len()
            invariant
                i <= self.intervals.len(),
                total == roommate_occupancy_of(self@.take(i as int), period@, roommate@),
                total <= i * 0x1_0000_0000_0000_0000,
            decreases self.intervals.len() - i,
        {
            let w = self.intervals[i].weighted_days_within(period);
            proof {
                let s = self@.take(i as int + 1);
                assert(s.drop_last() =~= self@.take(i as int));
                assert(s.last() == self.intervals[i as int]@);
                crate::interval::lemma_next_multiple_fits(i as int);
            }
            if *self.intervals[i].roommate() == *roommate {
                total = total + w;
            }
            i += 1;
        }
        assert(self@.take(i as int) =~= self@);
        total
    }
}

impl DateInterval {
    /// The occupancy of `record` within this interval, in person-days.
    pub fn occupancy(&self, record: &ResponsibilityRecord) -> (r: u128)
        ensures
            r == occupancy_of(record@, self@),
    {
        record.occupancy_over(*self)
    }
}

} // verus!
