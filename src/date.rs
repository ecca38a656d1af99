use vstd::prelude::*;

verus! {

/// The byte `0`.
pub const ZERO: u8 = 48;

/// The byte `-`.
pub const DASH: u8 = 45;

/// The byte `#`.
pub const HASH: u8 = 35;

/// The byte of a space.
pub const SPACE: u8 = 32;

/// A day of the proleptic Gregorian calendar. A well-formed one has a year
/// that four digits can write.
#[derive(Clone, Copy, Debug, PartialEq, Eq, Structural)]
pub struct Date {
    pub year: u32,
    pub month: u32,
    pub day: u32,
}

pub open spec fn is_leap_year(y: int) -> bool {
    (y % 4 == 0 && y % 100 != 0) || y % 400 == 0
}

pub open spec fn days_in_month(y: int, m: int) -> int {
    if m == 2 {
        if is_leap_year(y) { 29 } else { 28 }
    } else if m == 4 || m == 6 || m == 9 || m == 11 {
        30
    } else {
        31
    }
}

/// `y-m-d` names a day that exists.
pub open spec fn is_calendar_day(y: int, m: int, d: int) -> bool {
    1 <= m <= 12 && 1 <= d <= days_in_month(y, m)
}

impl Date {
    pub open spec fn wf(self) -> bool {
        self.year <= 9999 && is_calendar_day(self.year as int, self.month as int, self.day as int)
    }

    /// `self` is an earlier day than `other`.
    pub open spec fn spec_before(self, other: Date) -> bool {
        self.year < other.year || (self.year == other.year && (self.month < other.month || (
        self.month == other.month && self.day < other.day)))
    }

    /// The day `year-month-day`, where it exists and four digits write its year.
    pub fn new(year: u32, month: u32, day: u32) -> (r: Option<Date>)
        ensures
            r is Some <==> year <= 9999 && is_calendar_day(year as int, month as int, day as int),
            r matches Some(d) ==> d == (Date { year, month, day }),
    {
        if year <= 9999 && calendar_day_exists(year, month, day) {
            Some(Date { year, month, day })
        } else {
            None
        }
    }

    pub fn before(&self, other: &Date) -> (r: bool)
        ensures
            r == self.spec_before(*other),
    {
        self.year < other.year || (self.year == other.year && (self.month < other.month || (
        self.month == other.month && self.day < other.day)))
    }
}

/// Relies on chrono's `NaiveDate::from_ymd_opt`: it gives a date exactly when
/// the month and the day exist in that year of the proleptic Gregorian
/// calendar (its year range holds 0 to 9999).
#[verifier::external_body]
fn calendar_day_exists(year: u32, month: u32, day: u32) -> (r: bool)
    requires
        year <= 9999,
    ensures
        r == is_calendar_day(year as int, month as int, day as int),
{
    chrono::NaiveDate::from_ymd_opt(year as i32, month, day).is_some()
}

pub proof fn lemma_before_transitive(a: Date, b: Date, c: Date)
    requires
        a.spec_before(b),
        b.spec_before(c),
    ensures
        a.spec_before(c),
{
}

pub open spec fn is_digit(b: u8) -> bool {
    ZERO <= b <= ZERO + 9
}

pub open spec fn digit_value(b: u8) -> int {
    b - ZERO
}

pub open spec fn digit_byte(n: int) -> u8 {
    (ZERO + n) as u8
}

/// `s` has the shape `DDDD-DD-DD` with ASCII digits.
pub open spec fn has_iso_shape(s: Seq<u8>) -> bool {
    &&& s.len() == 10
    &&& s[4] == DASH
    &&& s[7] == DASH
    &&& forall|i: int| 0 <= i < 10 && i != 4 && i != 7 ==> is_digit(#[trigger] s[i])
}

pub open spec fn iso_year(s: Seq<u8>) -> int {
    1000 * digit_value(s[0]) + 100 * digit_value(s[1]) + 10 * digit_value(s[2]) + digit_value(
        s[3],
    )
}

pub open spec fn iso_month(s: Seq<u8>) -> int {
    10 * digit_value(s[5]) + digit_value(s[6])
}

pub open spec fn iso_day(s: Seq<u8>) -> int {
    10 * digit_value(s[8]) + digit_value(s[9])
}

/// The date that the ISO text `s` names, if it names one.
pub open spec fn parse_iso(s: Seq<u8>) -> Option<Date> {
    if has_iso_shape(s) && is_calendar_day(iso_year(s), iso_month(s), iso_day(s)) {
        Some(Date { year: iso_year(s) as u32, month: iso_month(s) as u32, day: iso_day(s) as u32 })
    } else {
        None
    }
}

/// `YYYY-MM-DD` for a well-formed date.
pub open spec fn iso_text(d: Date) -> Seq<u8> {
    let y = d.year as int;
    let m = d.month as int;
    let dd = d.day as int;
    seq![
        digit_byte(y / 1000),
        digit_byte(y / 100 % 10),
        digit_byte(y / 10 % 10),
        digit_byte(y % 10),
        DASH,
        digit_byte(m / 10),
        digit_byte(m % 10),
        DASH,
        digit_byte(dd / 10),
        digit_byte(dd % 10),
    ]
}

/// Formatting a well-formed date and reading it back gives the same date.
pub proof fn lemma_iso_round_trip(d: Date)
    requires
        d.wf(),
    ensures
        parse_iso(iso_text(d)) == Some(d),
{
    let s = iso_text(d);
    let y = d.year as int;
    let m = d.month as int;
    let dd = d.day as int;
    assert(digit_value(s[0]) == y / 1000);
    assert(digit_value(s[1]) == y / 100 % 10);
    assert(digit_value(s[2]) == y / 10 % 10);
    assert(digit_value(s[3]) == y % 10);
    assert(digit_value(s[5]) == m / 10);
    assert(digit_value(s[6]) == m % 10);
    assert(digit_value(s[8]) == dd / 10);
    assert(digit_value(s[9]) == dd % 10);
    assert(has_iso_shape(s));
    assert(iso_year(s) == y) by {
        lemma_four_digits(y);
    }
}

proof fn lemma_four_digits(y: int)
    requires
        0 <= y <= 9999,
    ensures
        1000 * (y / 1000) + 100 * (y / 100 % 10) + 10 * (y / 10 % 10) + y % 10 == y,
{
    assert(y / 100 % 10 == (y % 1000) / 100);
    assert(y / 10 % 10 == (y % 100) / 10);
}

/// Appends the ISO text of `d` to `out`.
pub fn push_iso(out: &mut Vec<u8>, d: Date)
    requires
        d.wf(),
    ensures
        final(out)@ == old(out)@ + iso_text(d),
{
    let y = d.year;
    out.push(ZERO + (y / 1000) as u8);
    out.push(ZERO + (y / 100 % 10) as u8);
    out.push(ZERO + (y / 10 % 10) as u8);
    out.push(ZERO + (y % 10) as u8);
    out.push(DASH);
    out.push(ZERO + (d.month / 10) as u8);
    out.push(ZERO + (d.month % 10) as u8);
    out.push(DASH);
    out.push(ZERO + (d.day / 10) as u8);
    out.push(ZERO + (d.day % 10) as u8);
    assert(final(out)@ =~= old(out)@ + iso_text(d));
}

} // verus!
