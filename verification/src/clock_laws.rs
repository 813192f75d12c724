//! What the calendar and the clock of the library amount to.

use vstd::prelude::*;

use crate::clock::{
    civil_seconds, date_text, day_after, days_before_month, days_before_year, is_clock_time,
    is_date, month_days, range_text, DateRange, Moment,
};
use crate::filter_laws::{fits_places, law_written_ranges_read_back, written_time};
use crate::outside::clock_text;
use crate::parse::{is_possible, reads_as, stands_for, RangeSpec, WallTime};

verus! {

/// Long and short months take turns, once up to July and anew from August on;
/// only February is shorter, by a day less in the years that have one more.
pub proof fn law_months_take_turns(year: int, month: int)
    requires
        1 <= month <= 12,
    ensures
        month != 2 ==> month_days(year, month) == 30 + (month + month / 8) % 2,
        month == 2 ==> month_days(year, month) == days_before_year(year + 1) - days_before_year(
            year,
        ) - 337,
{
    lemma_year_length(year);
}

/// Every fourth year has a day more, but of the last years of the centuries
/// only every fourth: 400 years are 146097 days. The count starts with the
/// year 1.
pub proof fn law_the_calendar_comes_round(year: int)
    ensures
        days_before_year(1) == 0,
        days_before_year(year + 400) - days_before_year(year) == 146097,
        days_before_year(year + 1) - days_before_year(year) == 366 <==> year % 400 == 0 || year % 4
            == 0 && year % 100 != 0,
        days_before_year(year + 1) - days_before_year(year) == 365 || days_before_year(year + 1)
            - days_before_year(year) == 366,
{
    assert((year - 1 + 400) / 4 == (year - 1) / 4 + 100);
    assert((year - 1 + 400) / 100 == (year - 1) / 100 + 4);
    assert((year - 1 + 400) / 400 == (year - 1) / 400 + 1);
    lemma_year_length(year);
}

/// How much longer a year is than 365 days.
proof fn lemma_year_length(year: int)
    ensures
        days_before_year(year + 1) - days_before_year(year) == 365 + (if year % 4 == 0 {
            1int
        } else {
            0
        }) - (if year % 100 == 0 {
            1int
        } else {
            0
        }) + (if year % 400 == 0 {
            1int
        } else {
            0
        }),
        year % 400 == 0 ==> year % 100 == 0,
        year % 100 == 0 ==> year % 4 == 0,
{
    assert(year / 4 - (year - 1) / 4 == if year % 4 == 0 {
        1int
    } else {
        0
    });
    assert(year / 100 - (year - 1) / 100 == if year % 100 == 0 {
        1int
    } else {
        0
    });
    assert(year / 400 - (year - 1) / 400 == if year % 400 == 0 {
        1int
    } else {
        0
    });
}

/// The months of a year are all of its days.
pub proof fn law_a_year_is_its_months(year: int)
    ensures
        days_before_month(year, 1) == 0,
        days_before_month(year, 12) + month_days(year, 12) == days_before_year(year + 1)
            - days_before_year(year),
{
    lemma_year_length(year);
    lemma_days_before_december(year);
}

proof fn lemma_days_before_december(year: int)
    ensures
        days_before_month(year, 12) == 306 + month_days(year, 2),
{
    assert(days_before_month(year, 2) == 31) by {
        reveal_with_fuel(days_before_month, 2);
    }
    assert(days_before_month(year, 7) == 153 + month_days(year, 2)) by {
        reveal_with_fuel(days_before_month, 6);
    }
    reveal_with_fuel(days_before_month, 6);
}

/// A day goes from midnight to midnight in minutes of sixty seconds and hours
/// of sixty minutes, and a later time of the day is a later point in time.
pub proof fn law_a_day_goes_by_hours_and_minutes(
    year: i32,
    month: u32,
    day: u32,
    hour: u32,
    minute: u32,
)
    ensures
        civil_seconds(year, month, day, hour, minute) - civil_seconds(year, month, day, 0, 0) == (
        hour * 60 + minute) * 60,
        is_clock_time(year, month, day, hour, minute) ==> 0 <= civil_seconds(
            year,
            month,
            day,
            hour,
            minute,
        ) - civil_seconds(year, month, day, 0, 0) < 86400,
        is_clock_time(year, month, day, 23, 59) <==> is_date(year, month, day),
        !is_clock_time(year, month, day, 24, minute),
        !is_clock_time(year, month, day, hour, 60),
{
}

/// Every date but the last has a day after it, which is a date and begins a day
/// later.
pub proof fn law_there_is_a_day_after(year: i32, month: u32, day: u32)
    requires
        is_date(year, month, day),
    ensures
        year < 262142 ==> day_after(year, month, day) is Some,
        day_after(year, month, day) matches Some(d) ==> is_date(d.0, d.1, d.2),
{
}

/// A range of two written times stands for points in time at which some clock,
/// less than a day off UTC, shows them; hours and days that do not exist are
/// no part of any.
pub proof fn law_written_ranges_stand_for_their_times(a: WallTime, b: WallTime, read: DateRange)
    requires
        fits_places(a),
        fits_places(b),
        reads_as(written_time(a) + seq![' ', 't', 'o', ' '] + written_time(b), read),
    ensures
        read.start.nanos == 0 && read.end.nanos == 0,
        -86400 < read.start.secs - civil_seconds(
            a.year as i32,
            a.month,
            a.day,
            a.hour,
            a.minute,
        ) < 86400,
        -86400 < read.end.secs - civil_seconds(b.year as i32, b.month, b.day, b.hour, b.minute)
            < 86400,
        is_possible(RangeSpec::Between(a, b)) <==> is_clock_time(
            a.year as i32,
            a.month,
            a.day,
            a.hour,
            a.minute,
        ) && is_clock_time(b.year as i32, b.month, b.day, b.hour, b.minute),
{
    law_written_ranges_read_back(a, b, seq![]);
    let today = choose|today: (i32, u32, u32)|
        is_date(today.0, today.1, today.2) && #[trigger] stands_for(
            RangeSpec::Between(a, b),
            today,
            read,
        );
    assert(stands_for(RangeSpec::Between(a, b), today, read));
}

/// A date is shown as the clock of its sender showed it, to the minute, and as
/// a dash where there is none to show.
pub proof fn law_dates_are_shown_on_the_sender_clock(m: Moment, offset: i32)
    ensures
        match clock_text(m.secs, m.nanos, offset, "%Y/%m/%d %H:%M"@) {
            Some(t) => date_text(Some(m.on_clock(offset))) == t,
            None => date_text(Some(m.on_clock(offset))) == seq!['-'],
        },
        date_text(None) == seq!['-'],
{
    reveal_strlit("-");
    assert("-"@ =~= seq!['-']);
}

/// A range is shown with its start first.
pub proof fn law_a_range_is_shown_from_start_to_end(start: Seq<char>, end: Seq<char>)
    ensures
        range_text(start, end) == start + seq![' ', 't', 'o', ' '] + end,
{
    reveal_strlit(" to ");
    assert(" to "@ =~= seq![' ', 't', 'o', ' ']);
}

} // verus!
