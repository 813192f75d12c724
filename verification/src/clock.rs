//! Points in time.

use vstd::prelude::*;

use crate::outside::{clock_text, format_clock, format_local};
use crate::text::opt_text;

verus! {

/// A point in time: seconds since 1970-01-01 00:00:00 UTC, and nanoseconds
/// behind them. A leap second is told by a count of nanoseconds of a full
/// second or more.
#[derive(Clone, Copy, Debug, PartialEq, Eq, Structural)]
pub struct Moment {
    pub secs: i64,
    pub nanos: u32,
}

/// A point in time with the offset, in seconds east of UTC, of the clock that
/// it was read from.
#[derive(Clone, Copy, Debug, PartialEq, Eq, Structural)]
pub struct Stamp {
    pub moment: Moment,
    pub offset: i32,
}

impl Moment {
    /// The moment comes before `other`.
    pub open spec fn before(self, other: Moment) -> bool {
        self.secs < other.secs || (self.secs == other.secs && self.nanos < other.nanos)
    }

    /// The moment, read from a clock `offset` seconds east of UTC.
    pub open spec fn on_clock(self, offset: i32) -> Stamp {
        Stamp { moment: self, offset }
    }

    /// `text` is what a local clock shows at the moment: a clock that is less
    /// than a day off UTC.
    pub open spec fn local_clock_shows(self, text: Seq<char>) -> bool {
        exists|offset: i32|
            -86400 < offset < 86400 && text == (#[trigger] self.on_clock(offset)).text()
    }

    /// Whether the moment comes before `other`.
    pub fn is_before(&self, other: &Moment) -> (r: bool)
        ensures
            r == self.before(*other),
    {
        self.secs < other.secs || (self.secs == other.secs && self.nanos < other.nanos)
    }
}

/// Half-open range of time: from `start` on, up to but without `end`.
#[derive(Clone, Copy, Debug, PartialEq, Eq, Structural)]
pub struct DateRange {
    pub start: Moment,
    pub end: Moment,
}

impl DateRange {
    /// The moment lies in the range.
    pub open spec fn holds(self, m: Moment) -> bool {
        !m.before(self.start) && m.before(self.end)
    }

    /// Whether the moment lies in the range.
    pub fn contains(&self, m: &Moment) -> (r: bool)
        ensures
            r == self.holds(*m),
    {
        !m.is_before(&self.start) && m.is_before(&self.end)
    }

    /// `text` is the range on a local clock, which may be off UTC by another
    /// amount at its start than at its end.
    pub open spec fn shown_as(self, text: Seq<char>) -> bool {
        exists|start: Seq<char>, end: Seq<char>|
            self.start.local_clock_shows(start) && self.end.local_clock_shows(end) && text
                == #[trigger] range_text(start, end)
    }

    /// The range on the local clock, as `start to end`. The two texts are what
    /// the local clock of the machine shows.
    pub fn label(&self) -> (r: String)
        ensures
            self.shown_as(r@),
    {
        let start = local_text(&self.start);
        let end = local_text(&self.end);
        join_range(start.as_str(), end.as_str())
    }
}

/// How dates are shown: year, month and day, then the time of day.
pub open spec fn clock_pattern() -> Seq<char> {
    "%Y/%m/%d %H:%M"@
}

/// What the local clock shows at a moment; a dash for a moment that no
/// calendar date stands for.
fn local_text(m: &Moment) -> (r: String)
    ensures
        m.local_clock_shows(r@),
{
    let text = format_local(m.secs, m.nanos, "%Y/%m/%d %H:%M");
    proof {
        let offset = choose|offset: i32|
            -86400 < offset < 86400 && opt_text(text) == #[trigger] clock_text(
                m.secs,
                m.nanos,
                offset,
                clock_pattern(),
            );
        assert(m.on_clock(offset).text() == match text {
            Some(t) => t@,
            None => "-"@,
        });
    }
    match text {
        Some(t) => t,
        None => "-".to_string(),
    }
}

/// The text of a range, from those of its ends.
pub open spec fn range_text(start: Seq<char>, end: Seq<char>) -> Seq<char> {
    start + " to "@ + end
}

/// The text of a range, from those of its ends.
pub fn join_range(start: &str, end: &str) -> (r: String)
    ensures
        r@ == range_text(start@, end@),
{
    let mut out = String::new();
    out.append(start);
    out.append(" to ");
    out.append(end);
    assert(out@ =~= range_text(start@, end@));
    out
}

impl Stamp {
    /// What the clock that the stamp was read from shows; a dash for a stamp
    /// that no calendar date stands for.
    pub open spec fn text(self) -> Seq<char> {
        match clock_text(self.moment.secs, self.moment.nanos, self.offset, clock_pattern()) {
            Some(t) => t,
            None => "-"@,
        }
    }
}

/// How the date of a mail is shown; a dash for a mail without one.
pub open spec fn date_text(date: Option<Stamp>) -> Seq<char> {
    match date {
        Some(d) => d.text(),
        None => "-"@,
    }
}

/// How the date of a mail is shown.
pub fn show_date(date: &Option<Stamp>) -> (r: String)
    ensures
        r@ == date_text(*date),
{
    let text = match date {
        Some(d) => format_clock(d.moment.secs, d.moment.nanos, d.offset, "%Y/%m/%d %H:%M"),
        None => None,
    };
    match text {
        Some(t) => t,
        None => "-".to_string(),
    }
}

/// A leap year of the Gregorian calendar.
pub open spec fn leap_year(year: int) -> bool {
    year % 4 == 0 && (year % 100 != 0 || year % 400 == 0)
}

/// How many days a month of the Gregorian calendar has.
pub open spec fn month_days(year: int, month: int) -> int {
    if month == 2 {
        if leap_year(year) {
            29
        } else {
            28
        }
    } else if month == 4 || month == 6 || month == 9 || month == 11 {
        30
    } else {
        31
    }
}

/// The first and the last year that dates have.
pub const FIRST_YEAR: i32 = -262143;

pub const LAST_YEAR: i32 = 262142;

/// The numbers are a date of the Gregorian calendar.
pub open spec fn is_date(year: i32, month: u32, day: u32) -> bool {
    &&& FIRST_YEAR <= year <= LAST_YEAR
    &&& 1 <= month <= 12
    &&& 1 <= day <= month_days(year as int, month as int)
}

/// The numbers are a date of the Gregorian calendar and a time of day.
pub open spec fn is_clock_time(year: i32, month: u32, day: u32, hour: u32, minute: u32) -> bool {
    is_date(year, month, day) && hour < 24 && minute < 60
}

/// The day after a date of the Gregorian calendar.
pub open spec fn day_after(year: i32, month: u32, day: u32) -> Option<(i32, u32, u32)> {
    if !is_date(year, month, day) {
        None
    } else if day < month_days(year as int, month as int) {
        Some((year, month, (day + 1) as u32))
    } else if month < 12 {
        Some((year, (month + 1) as u32, 1))
    } else if year < LAST_YEAR {
        Some(((year + 1) as i32, 1, 1))
    } else {
        None
    }
}

/// The day before a date of the Gregorian calendar.
pub open spec fn day_before(year: i32, month: u32, day: u32) -> Option<(i32, u32, u32)> {
    if !is_date(year, month, day) {
        None
    } else if day > 1 {
        Some((year, month, (day - 1) as u32))
    } else if month > 1 {
        Some((year, (month - 1) as u32, month_days(year as int, month - 1) as u32))
    } else if year > FIRST_YEAR {
        Some(((year - 1) as i32, 12, 31))
    } else {
        None
    }
}

/// How many days a month of the Gregorian calendar has.
fn days_of_month(year: i32, month: u32) -> (r: u32)
    ensures
        r == month_days(year as int, month as int),
{
    if month == 2 {
        if year % 4 == 0 && (year % 100 != 0 || year % 400 == 0) {
            29
        } else {
            28
        }
    } else if month == 4 || month == 6 || month == 9 || month == 11 {
        30
    } else {
        31
    }
}

/// Whether the numbers are a date of the Gregorian calendar.
fn has_date(year: i32, month: u32, day: u32) -> (r: bool)
    ensures
        r == is_date(year, month, day),
{
    FIRST_YEAR <= year && year <= LAST_YEAR && 1 <= month && month <= 12 && 1 <= day && day
        <= days_of_month(year, month)
}

/// The day after a date of the Gregorian calendar.
pub fn next_day(year: i32, month: u32, day: u32) -> (r: Option<(i32, u32, u32)>)
    ensures
        r == day_after(year, month, day),
{
    if !has_date(year, month, day) {
        None
    } else if day < days_of_month(year, month) {
        Some((year, month, day + 1))
    } else if month < 12 {
        Some((year, month + 1, 1))
    } else if year < LAST_YEAR {
        Some((year + 1, 1, 1))
    } else {
        None
    }
}

/// The day before a date of the Gregorian calendar.
pub fn previous_day(year: i32, month: u32, day: u32) -> (r: Option<(i32, u32, u32)>)
    ensures
        r == day_before(year, month, day),
{
    if !has_date(year, month, day) {
        None
    } else if day > 1 {
        Some((year, month, day - 1))
    } else if month > 1 {
        Some((year, month - 1, days_of_month(year, month - 1)))
    } else if year > FIRST_YEAR {
        Some((year - 1, 12, 31))
    } else {
        None
    }
}

/// How many days of the Gregorian calendar come before a year, counted from
/// the first day of the year 1.
pub open spec fn days_before_year(year: int) -> int {
    365 * (year - 1) + (year - 1) / 4 - (year - 1) / 100 + (year - 1) / 400
}

/// How many days of a year come before a month.
pub open spec fn days_before_month(year: int, month: int) -> int
    decreases month,
{
    if month <= 1 {
        0
    } else {
        days_before_month(year, month - 1) + month_days(year, month - 1)
    }
}

/// The seconds since 1970-01-01 00:00:00 UTC at which a clock on UTC shows a
/// date and a time of day.
pub open spec fn civil_seconds(year: i32, month: u32, day: u32, hour: u32, minute: u32) -> int {
    let days = days_before_year(year as int) + days_before_month(year as int, month as int) + day
        - 1 - days_before_year(1970);
    days * 86400 + hour * 3600 + minute * 60
}

/// A clock that is less than a day off UTC shows the date and the time of day
/// `t` at the point in time `m`, on the second.
pub open spec fn some_clock_shows(m: (i64, u32), t: (i32, u32, u32, u32, u32)) -> bool {
    m.1 == 0 && -86400 < m.0 - civil_seconds(t.0, t.1, t.2, t.3, t.4) < 86400
}

/// On a clock on UTC the count of seconds starts with 1970, and each day is as
/// many seconds behind the day before as a day has.
pub proof fn law_days_are_counted_in_seconds(year: i32, month: u32, day: u32)
    ensures
        civil_seconds(1970, 1, 1, 0, 0) == 0,
        day_after(year, month, day) matches Some(d) ==> civil_seconds(d.0, d.1, d.2, 0, 0)
            == civil_seconds(year, month, day, 0, 0) + 86400,
{
    if is_date(year, month, day) && month == 12 {
        reveal_with_fuel(days_before_month, 13);
        assert(days_before_month(year as int, 12) == 334 + (if leap_year(year as int) {
            1int
        } else {
            0
        }));
    }
}

/// The day after the day before a date is the date itself, and so is the day
/// before the day after it.
pub proof fn law_days_follow_each_other(year: i32, month: u32, day: u32)
    requires
        is_date(year, month, day),
    ensures
        day_before(year, month, day) matches Some(d) ==> day_after(d.0, d.1, d.2) == Some(
            (year, month, day),
        ),
        day_after(year, month, day) matches Some(d) ==> day_before(d.0, d.1, d.2) == Some(
            (year, month, day),
        ),
{
}

/// A range holds its start, unless it is empty, and never its end. Two ranges
/// that meet share no moment, and between them leave none out.
pub proof fn law_ranges_are_half_open(a: Moment, b: Moment, c: Moment, m: Moment)
    requires
        !b.before(a),
        !c.before(b),
    ensures
        (DateRange { start: a, end: b }).holds(a) <==> a.before(b),
        !(DateRange { start: a, end: b }).holds(b),
        !((DateRange { start: a, end: b }).holds(m) && (DateRange { start: b, end: c }).holds(m)),
        (DateRange { start: a, end: c }).holds(m) <==> ((DateRange { start: a, end: b }).holds(m)
            || (DateRange { start: b, end: c }).holds(m)),
{
}

} // verus!
