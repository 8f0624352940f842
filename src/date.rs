//! Calendar dates at day granularity, in one fixed reference zone.

use chrono::Datelike;
use vstd::prelude::*;

verus! {

/// The earliest year that a date can have.
pub const MIN_YEAR: i32 = -262143;

/// The latest year that a date can have.
pub const MAX_YEAR: i32 = 262142;

pub open spec fn is_leap_year(y: int) -> bool {
    (y % 4 == 0 && y % 100 != 0) || y % 400 == 0
}

pub open spec fn days_in_month(y: int, m: int) -> int {
    if m == 2 {
        if is_leap_year(y) { 29 } else { 28 }
    } else if m == 4 || m == 6 || m == 9 || m == 11 {
        30
    } else {
        31
    }
}

/// A day of the proleptic Gregorian calendar within the supported years.
pub open spec fn valid_ymd(y: int, m: int, d: int) -> bool {
    &&& MIN_YEAR <= y <= MAX_YEAR
    &&& 1 <= m <= 12
    &&& 1 <= d <= days_in_month(y, m)
}

/// The number of a day counted from the first of January of year 1 (day 1).
pub uninterp spec fn day_number(y: int, m: int, d: int) -> int;

/// Relies on chrono's `NaiveDate::from_ymd_opt`, which gives `None` exactly
/// for an out-of-range year or an invalid month or day, and on
/// `Datelike::num_days_from_ce` for the day's number.
#[verifier::external_body]
fn day_number_of(year: i32, month: u32, day: u32) -> (r: Option<i32>)
    ensures
        r is Some <==> valid_ymd(year as int, month as int, day as int),
        r matches Some(n) ==> n == day_number(year as int, month as int, day as int),
{
    match chrono::NaiveDate::from_ymd_opt(year, month, day) {
        Some(date) => Some(date.num_days_from_ce()),
        None => None,
    }
}

/// Relies on chrono's `Utc::now` and `DateTime::date_naive`: the current day
/// in UTC, which is always a valid calendar day.
#[verifier::external_body]
fn utc_today() -> (r: (i32, u32, u32))
    ensures
        valid_ymd(r.0 as int, r.1 as int, r.2 as int),
{
    let today = chrono::Utc::now().date_naive();
    (today.year(), today.month(), today.day())
}

pub open spec fn digit_char(d: int) -> char {
    seq!['0', '1', '2', '3', '4', '5', '6', '7', '8', '9'][d]
}

/// The decimal digits of `n`, without leading zeros.
pub open spec fn decimal(n: nat) -> Seq<char>
    decreases n,
{
    if n < 10 {
        seq![digit_char(n as int)]
    } else {
        decimal(n / 10).push(digit_char((n % 10) as int))
    }
}

/// The decimal digits of `n`, with zeros in front up to `width` characters.
pub open spec fn zero_padded(n: nat, width: nat) -> Seq<char> {
    let ds = decimal(n);
    if ds.len() >= width {
        ds
    } else {
        Seq::new((width - ds.len()) as nat, |i: int| '0') + ds
    }
}

/// A year as ISO 8601 writes it: four digits, with a sign outside 0 to 9999.
pub open spec fn year_text(y: int) -> Seq<char> {
    if 0 <= y <= 9999 {
        zero_padded(y as nat, 4)
    } else if y < 0 {
        seq!['-'] + zero_padded((-y) as nat, 4)
    } else {
        seq!['+'] + zero_padded(y as nat, 4)
    }
}

/// A date written `YYYY-MM-DD`.
pub open spec fn date_text(y: int, m: int, d: int) -> Seq<char> {
    year_text(y) + seq!['-'] + zero_padded(m as nat, 2) + seq!['-'] + zero_padded(d as nat, 2)
}

/// Relies on the `Display` of chrono's `NaiveDate`, which writes the year with
/// four digits (signed outside 0 to 9999), then the month and the day with two.
#[verifier::external_body]
fn iso_text(year: i32, month: u32, day: u32) -> (r: String)
    requires
        valid_ymd(year as int, month as int, day as int),
    ensures
        r@ == date_text(year as int, month as int, day as int),
{
    match chrono::NaiveDate::from_ymd_opt(year, month, day) {
        Some(date) => date.to_string(),
        None => String::new(),
    }
}

/// A calendar day.
#[derive(Clone, Copy, Debug, PartialEq, Eq, Structural)]
pub struct Date {
    year: i32,
    month: u32,
    day: u32,
    ce_day: i32,
}

/// What a date stands for: its year, month and day.
pub struct DateView {
    pub year: int,
    pub month: int,
    pub day: int,
}

impl DateView {
    pub open spec fn valid(self) -> bool {
        valid_ymd(self.year, self.month, self.day)
    }

    /// The day's number, counted from the first of January of year 1.
    pub open spec fn ce_day(self) -> int {
        day_number(self.year, self.month, self.day)
    }
}

/// The whole days from `earlier` to `later`, negative when `later` comes first.
pub open spec fn days_between(later: DateView, earlier: DateView) -> int {
    later.ce_day() - earlier.ce_day()
}

impl View for Date {
    type V = DateView;

    closed spec fn view(&self) -> DateView {
        DateView { year: self.year as int, month: self.month as int, day: self.day as int }
    }
}

impl Date {
    #[verifier::type_invariant]
    spec fn inv(self) -> bool {
        &&& valid_ymd(self.year as int, self.month as int, self.day as int)
        &&& self.ce_day == day_number(self.year as int, self.month as int, self.day as int)
    }

    /// The date with the given year, month and day, or `None` where that is
    /// no calendar day.
    pub fn from_ymd(year: i32, month: u32, day: u32) -> (r: Option<Date>)
        ensures
            r is Some <==> valid_ymd(year as int, month as int, day as int),
            r matches Some(d) ==> d@ == (DateView {
                year: year as int,
                month: month as int,
                day: day as int,
            }),
    {
        match day_number_of(year, month, day) {
            Some(n) => Some(Date { year, month, day, ce_day: n }),
            None => None,
        }
    }

    /// Today's date in UTC.
    pub fn today() -> (r: Date)
        ensures
            r@.valid(),
    {
        let (year, month, day) = utc_today();
        let n = day_number_of(year, month, day);
        let ce_day = n.unwrap();
        Date { year, month, day, ce_day }
    }

    pub fn year(&self) -> (r: i32)
        ensures
            r == self@.year,
    {
        self.year
    }

    pub fn month(&self) -> (r: u32)
        ensures
            r == self@.month,
    {
        self.month
    }

    pub fn day(&self) -> (r: u32)
        ensures
            r == self@.day,
    {
        self.day
    }

    /// The whole days from `earlier` to this date.
    pub fn days_since(&self, earlier: &Date) -> (r: i64)
        ensures
            r == days_between(self@, earlier@),
    {
        proof {
            use_type_invariant(self);
            use_type_invariant(earlier);
        }
        self.ce_day as i64 - earlier.ce_day as i64
    }

    /// The date written `YYYY-MM-DD`.
    pub fn to_text(&self) -> (r: String)
        ensures
            r@ == date_text(self@.year, self@.month, self@.day),
    {
        proof {
            use_type_invariant(self);
        }
        iso_text(self.year, self.month, self.day)
    }
}

} // verus!
