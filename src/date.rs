use vstd::prelude::*;

verus! {

/// Earliest year a [`Date`] may carry.
pub const MIN_YEAR: i32 = -262143;

/// Latest year a [`Date`] may carry.
pub const MAX_YEAR: i32 = 262142;

/// A calendar date of the proleptic Gregorian calendar, without time of day.
///
/// The derived ordering compares year, then month, then day, which is chronological order.
#[derive(Clone, Copy, Debug, PartialEq, Eq, Structural, PartialOrd, Ord, Hash)]
pub struct Date {
    pub year: i32,
    pub month: u32,
    pub day: u32,
}

pub open spec fn is_leap_year(year: int) -> bool {
    (year % 4 == 0 && year % 100 != 0) || year % 400 == 0
}

pub open spec fn days_in_month(year: int, month: int) -> int {
    if month == 2 {
        if is_leap_year(year) { 29 } else { 28 }
    } else if month == 4 || month == 6 || month == 9 || month == 11 {
        30
    } else {
        31
    }
}

/// Number of days in the given month.
pub fn month_length(year: i32, month: u32) -> (r: u32)
    requires
        1 <= month <= 12,
    ensures
        r == days_in_month(year as int, month as int),
{
    if month == 2 {
        if (year % 4 == 0 && year % 100 != 0) || year % 400 == 0 {
            29
        } else {
            28
        }
    } else if month == 4 || month == 6 || month == 9 || month == 11 {
        30
    } else {
        31
    }
}

/// What `%Y-%m-%d` parsing makes of a text: year, month and day, or nothing.
pub uninterp spec fn parsed_ymd(s: Seq<char>) -> Option<(int, int, int)>;

impl Date {
    /// An existing day within the supported range of years.
    pub open spec fn wf(&self) -> bool {
        MIN_YEAR <= self.year <= MAX_YEAR && 1 <= self.month <= 12 && 1 <= self.day
            <= days_in_month(self.year as int, self.month as int)
    }

    pub open spec fn ymd(&self) -> (int, int, int) {
        (self.year as int, self.month as int, self.day as int)
    }

    /// Strict chronological order.
    pub open spec fn lt(&self, other: Date) -> bool {
        self.year < other.year || (self.year == other.year && (self.month < other.month || (
        self.month == other.month && self.day < other.day)))
    }

    pub open spec fn same_month(&self, other: Date) -> bool {
        self.year == other.year && self.month == other.month
    }

    /// The date with the given year, month and day, if it exists within the supported years.
    pub fn from_ymd(year: i32, month: u32, day: u32) -> (r: Option<Date>)
        ensures
            r matches Some(d) ==> d == (Date { year, month, day }),
            r is Some <==> (Date { year, month, day }).wf(),
    {
        if year < MIN_YEAR || year > MAX_YEAR || month < 1 || month > 12 || day < 1 || day
            > month_length(year, month) {
            None
        } else {
            Some(Date { year, month, day })
        }
    }

    /// Whether `self` lies strictly before `other`.
    pub fn is_before(&self, other: &Date) -> (r: bool)
        ensures
            r == self.lt(*other),
    {
        self.year < other.year || (self.year == other.year && (self.month < other.month || (
        self.month == other.month && self.day < other.day)))
    }

    /// Whether both dates fall in the same month of the same year.
    pub fn in_same_month(&self, other: &Date) -> (r: bool)
        ensures
            r == self.same_month(*other),
    {
        self.year == other.year && self.month == other.month
    }

    /// Parses a date written as `YYYY-M-D` (month and day may be zero-padded).
    pub fn parse(s: &str) -> (r: Option<Date>)
        ensures
            match r {
                Some(d) => d.wf() && parsed_ymd(s@) == Some(d.ymd()),
                None => parsed_ymd(s@) is None,
            },
    {
        parse_ymd(s)
    }
}

/// Relies on `chrono::NaiveDate::parse_from_str` with the format `%Y-%m-%d`: it either fails
/// or yields a valid `NaiveDate`, whose year lies within chrono's supported range.
#[verifier::external_body]
fn parse_ymd(s: &str) -> (r: Option<Date>)
    ensures
        match r {
            Some(d) => d.wf() && parsed_ymd(s@) == Some(d.ymd()),
            None => parsed_ymd(s@) is None,
        },
{
    match chrono::NaiveDate::parse_from_str(s, "%Y-%m-%d") {
        Ok(d) => Some(
            Date {
                year: chrono::Datelike::year(&d),
                month: chrono::Datelike::month(&d),
                day: chrono::Datelike::day(&d),
            },
        ),
        Err(_) => None,
    }
}

} // verus!
