//! What the constraints let through, and what a filtered scan finds and shows.

use vstd::prelude::*;

use crate::clock::{
    civil_seconds, day_before, is_date, law_days_are_counted_in_seconds, law_days_follow_each_other,
    DateRange, Moment, Stamp,
};
use crate::constraints::{question, scan_line, Constraint, FilterSet};
use crate::filter::{date_matches, needle_label, text_matches};
use crate::mail_source::{declined, follows, resumed, MailSource, PageAsk, Step};
use crate::message::Message;
use crate::outside::lowercase;
use crate::parse::{
    ascii_lowered, clock_ends, is_possible, range_spec, reads_as, wall_time, RangeSpec, WallTime,
};
use crate::scan::{
    admitted, found_from, moves_on, newest_first, other_than, stops, window, without, FilteredSource,
    Matches, ScanReply,
};
use crate::source::{Page, PageState, SourceStatus};
use crate::text::{
    all_digits, contains_text, decimal, digit, digits_value, find_text, is_digit, is_white,
    law_decimal_reads_back, lemma_find_text, occurs_at, repeated,
};
use crate::text_laws::{
    law_a_held_text_is_a_part, law_a_text_holds_its_parts, law_leading_zeros,
    law_trimming_takes_off_white_space,
};
use crate::ui::zero_padded;

verus! {

// ---------------------------------------------------------------------------
// Dates
// ---------------------------------------------------------------------------

/// A point in time as one number: the seconds, and behind them the nanoseconds
/// in places of their own.
pub open spec fn instant(m: Moment) -> int {
    m.secs * 0x1_0000_0000 + m.nanos
}

/// Whether a mail is within a range depends only on the point in time at which
/// it was sent: it is within where that is not before the start and before the
/// end. The clock that its sender read plays no part.
pub proof fn law_dates_match_by_their_moment(range: DateRange, d: Stamp, e: Stamp)
    ensures
        date_matches(Some(range), Some(d)) <==> instant(range.start) <= instant(d.moment)
            && instant(d.moment) < instant(range.end),
        d.moment == e.moment ==> date_matches(Some(range), Some(d)) == date_matches(
            Some(range),
            Some(e),
        ),
        !date_matches(Some(range), None),
        date_matches(None, Some(d)),
        date_matches(None, None),
{
}

/// The constraints let a mail through by its date alone, since the search has
/// seen to subject and author: without a range every mail, and with one the
/// mails that were sent within it.
pub proof fn law_mails_are_let_through_by_date(filters: FilterSet, mail: Message)
    ensures
        filters.date.date_range is None ==> filters.admits(mail),
        filters.date.date_range is Some && mail.date is None ==> !filters.admits(mail),
        filters.date.date_range matches Some(range) ==> (mail.date matches Some(d) ==> (
        filters.admits(mail) <==> instant(range.start) <= instant(d.moment) && instant(d.moment)
            < instant(range.end))),
{
}

// ---------------------------------------------------------------------------
// Needles
// ---------------------------------------------------------------------------

/// A text matches a needle exactly where the needle stands somewhere in it,
/// both in lowercase; without a needle every text does.
pub proof fn law_a_needle_is_found_anywhere(
    text: Seq<char>,
    needle: Seq<char>,
    before: Seq<char>,
    after: Seq<char>,
)
    ensures
        text_matches(None, text),
        lowercase(text) == before + lowercase(needle) + after ==> text_matches(Some(needle), text),
        text_matches(Some(needle), text) ==> exists|a: Seq<char>, b: Seq<char>|
            lowercase(text) == #[trigger] (a + lowercase(needle) + b),
{
    law_a_text_holds_its_parts(before, lowercase(needle), after);
    if text_matches(Some(needle), text) {
        law_a_held_text_is_a_part(lowercase(text), lowercase(needle));
    }
}

/// An ASCII text holds a needle whatever the case of either: wherever a part
/// of it differs from the needle in the case of letters alone.
pub proof fn law_the_case_of_a_needle_plays_no_part(
    before: Seq<char>,
    part: Seq<char>,
    after: Seq<char>,
    needle: Seq<char>,
)
    requires
        ascii_lowered(part) == ascii_lowered(needle),
    ensures
        contains_text(ascii_lowered(before + part + after), ascii_lowered(needle)),
        ascii_lowered(ascii_lowered(needle)) == ascii_lowered(needle),
{
    law_a_text_holds_its_parts(ascii_lowered(before), ascii_lowered(part), ascii_lowered(after));
    assert(ascii_lowered(before + part + after) =~= ascii_lowered(before) + ascii_lowered(part)
        + ascii_lowered(after));
    assert(ascii_lowered(ascii_lowered(needle)) =~= ascii_lowered(needle));
}

/// An answer sets the needle to what was typed, but for blanks around it; and
/// answering for one constraint leaves the others alone.
pub proof fn law_answers_set_one_needle(
    filters: FilterSet,
    lead: Seq<char>,
    typed: Seq<char>,
    tail: Seq<char>,
    after: FilterSet,
    refused: Option<Seq<char>>,
)
    requires
        forall|i: int| 0 <= i < lead.len() ==> is_white(#[trigger] lead[i]),
        forall|i: int| 0 <= i < tail.len() ==> is_white(#[trigger] tail[i]),
        typed.len() > 0 ==> !is_white(typed[0]) && !is_white(typed.last()),
    ensures
        filters.adopts(Constraint::Subject, lead + typed + tail, after, refused) ==> {
            &&& after.subject.sought() == if typed.len() > 0 {
                Some(typed)
            } else {
                None
            }
            &&& after.author == filters.author && after.date == filters.date
            &&& refused is None
        },
        filters.adopts(Constraint::Author, lead + typed + tail, after, refused) ==> {
            &&& after.author.sought() == if typed.len() > 0 {
                Some(typed)
            } else {
                None
            }
            &&& after.subject == filters.subject && after.date == filters.date
            &&& refused is None
        },
        filters.adopts(Constraint::Date, lead + typed + tail, after, refused) ==> {
            &&& after.subject == filters.subject && after.author == filters.author
            &&& typed.len() == 0 ==> refused is None && after.date.date_range is None
            &&& typed.len() > 0 && refused is None ==> after.date.date_range is Some
            &&& refused is Some ==> after.date == filters.date
        },
{
    law_trimming_takes_off_white_space(lead, typed, tail);
}

// ---------------------------------------------------------------------------
// Ranges as they are written
// ---------------------------------------------------------------------------

/// The numbers fit the places that a written date has for them.
pub open spec fn fits_places(w: WallTime) -> bool {
    w.year < 10000 && w.month < 100 && w.day < 100 && w.hour < 100 && w.minute < 100
}

/// A date and a time of day as they are written: `YYYY/MM/DD HH:MM`.
pub open spec fn written_time(w: WallTime) -> Seq<char> {
    zero_padded(w.year as nat, 4) + seq!['/'] + zero_padded(w.month as nat, 2) + seq!['/']
        + zero_padded(w.day as nat, 2) + seq![' '] + zero_padded(w.hour as nat, 2) + seq![':']
        + zero_padded(w.minute as nat, 2)
}

proof fn lemma_short(n: nat, k: nat)
    requires
        k == 2 && n < 100 || k == 4 && n < 10000,
    ensures
        decimal(n).len() <= k,
        zero_padded(n, k as int).len() == k,
        all_digits(zero_padded(n, k as int)),
        digits_value(zero_padded(n, k as int)) == n,
{
    reveal_with_fuel(decimal, 5);
    law_decimal_reads_back(n);
    let gap = k - decimal(n).len();
    law_leading_zeros(n, gap as nat);
    let s = zero_padded(n, k as int);
    assert forall|i: int| 0 <= i < s.len() implies is_digit(#[trigger] s[i]) by {
        if i >= gap {
            assert(s[i] == decimal(n)[i - gap]);
        }
    }
}

/// Digits are the number that they write, with zeros before it.
proof fn lemma_digits_are_padded(s: Seq<char>)
    requires
        all_digits(s),
        s.len() > 0,
    ensures
        zero_padded(digits_value(s), s.len() as int) == s,
    decreases s.len(),
{
    let n = digits_value(s);
    let d = (s.last() as nat - 48) as nat;
    let init = s.drop_last();
    assert(is_digit(s.last()));
    assert(digit(d) == s.last());
    let m = digits_value(init);
    assert(n == m * 10 + d);
    if init.len() == 0 {
        assert(n == d);
        assert(decimal(n) =~= seq![digit(d)]);
        assert(zero_padded(n, 1) =~= s);
    } else {
        assert forall|i: int| 0 <= i < init.len() implies is_digit(#[trigger] init[i]) by {
            assert(is_digit(s[i]));
        }
        lemma_digits_are_padded(init);
        if m > 0 {
            assert(n / 10 == m && n % 10 == d);
            assert(decimal(n) =~= decimal(m).push(digit(d)));
            lemma_padded_len(m, init.len() as int);
            assert(zero_padded(n, s.len() as int) =~= zero_padded(m, init.len() as int).push(
                digit(d),
            ));
        } else {
            assert(decimal(n) =~= seq![digit(d)]);
            assert(decimal(0) =~= seq![digit(0)]);
            assert(init =~= repeated('0', init.len() as int));
            assert(zero_padded(n, s.len() as int) =~= s);
        }
        assert(init.push(s.last()) =~= s);
    }
}

proof fn lemma_padded_len(n: nat, w: int)
    ensures
        zero_padded(n, w).len() == if decimal(n).len() < w {
            w
        } else {
            decimal(n).len() as int
        },
{
}

/// A written date and time of day reads as the numbers it is written with, and
/// nothing else reads as a date and time of day.
pub proof fn law_written_times_read_back(w: WallTime, s: Seq<char>)
    ensures
        fits_places(w) ==> wall_time(written_time(w)) == Some(w),
        wall_time(s) == Some(w) ==> fits_places(w) && s == written_time(w),
{
    if fits_places(w) {
        lemma_time_reads_back(w);
    }
    if wall_time(s) == Some(w) {
        lemma_time_is_written(w, s);
    }
}

proof fn lemma_time_reads_back(w: WallTime)
    requires
        fits_places(w),
    ensures
        wall_time(written_time(w)) == Some(w),
        written_time(w).len() == 16,
{
    let t = written_time(w);
    lemma_short(w.year as nat, 4);
    lemma_short(w.month as nat, 2);
    lemma_short(w.day as nat, 2);
    lemma_short(w.hour as nat, 2);
    lemma_short(w.minute as nat, 2);
    assert(t.subrange(0, 4) =~= zero_padded(w.year as nat, 4));
    assert(t.subrange(5, 7) =~= zero_padded(w.month as nat, 2));
    assert(t.subrange(8, 10) =~= zero_padded(w.day as nat, 2));
    assert(t.subrange(11, 13) =~= zero_padded(w.hour as nat, 2));
    assert(t.subrange(14, 16) =~= zero_padded(w.minute as nat, 2));
    assert(t[4] == '/' && t[7] == '/' && t[10] == ' ' && t[13] == ':');
}

proof fn lemma_two_digits(s: Seq<char>)
    requires
        all_digits(s),
        s.len() == 2 || s.len() == 4,
    ensures
        s.len() == 2 ==> digits_value(s) < 100,
        s.len() == 4 ==> digits_value(s) < 10000,
{
    reveal_with_fuel(digits_value, 5);
    assert forall|i: int| 0 <= i < s.len() implies 48 <= #[trigger] s[i] as nat <= 57 by {
        assert(is_digit(s[i]));
    }
}

#[verifier::spinoff_prover]
#[verifier::rlimit(40)]
proof fn lemma_time_is_written(w: WallTime, s: Seq<char>)
    requires
        wall_time(s) == Some(w),
    ensures
        fits_places(w),
        s == written_time(w),
{
    let a = s.subrange(0, 4);
    let b = s.subrange(5, 7);
    let c = s.subrange(8, 10);
    let d = s.subrange(11, 13);
    let e = s.subrange(14, 16);
    lemma_two_digits(a);
    lemma_two_digits(b);
    lemma_two_digits(c);
    lemma_two_digits(d);
    lemma_two_digits(e);
    lemma_digits_are_padded(a);
    lemma_digits_are_padded(b);
    lemma_digits_are_padded(c);
    lemma_digits_are_padded(d);
    lemma_digits_are_padded(e);
    let t = a + seq!['/'] + b + seq!['/'] + c + seq![' '] + d + seq![':'] + e;
    assert(written_time(w) == t);
    assert(s =~= t);
}

/// The only texts that write a range are `today`, `yesterday`, and two written
/// times with ` to ` between them, which stand for those two times.
#[verifier::spinoff_prover]
#[verifier::rlimit(40)]
pub proof fn law_written_ranges_read_back(a: WallTime, b: WallTime, s: Seq<char>)
    ensures
        fits_places(a) && fits_places(b) ==> range_spec(
            written_time(a) + seq![' ', 't', 'o', ' '] + written_time(b),
        ) == Some(RangeSpec::Between(a, b)),
        range_spec(s) == Some(RangeSpec::Between(a, b)) ==> s == written_time(a) + seq![
            ' ',
            't',
            'o',
            ' ',
        ] + written_time(b),
        range_spec(s) == Some(RangeSpec::Today) <==> s == seq!['t', 'o', 'd', 'a', 'y'],
        range_spec(s) == Some(RangeSpec::Yesterday) <==> s == seq![
            'y',
            'e',
            's',
            't',
            'e',
            'r',
            'd',
            'a',
            'y',
        ],
{
    lemma_range_words();
    if fits_places(a) && fits_places(b) {
        lemma_range_reads_back(a, b);
    }
    if range_spec(s) == Some(RangeSpec::Between(a, b)) {
        lemma_range_is_written(a, b, s);
    }
}

/// What stands between two written times.
spec fn to() -> Seq<char> {
    seq![' ', 't', 'o', ' ']
}

proof fn lemma_range_words()
    ensures
        " to "@ == to(),
        "today"@ == seq!['t', 'o', 'd', 'a', 'y'],
        "yesterday"@ == seq!['y', 'e', 's', 't', 'e', 'r', 'd', 'a', 'y'],
        "today"@.len() == 5,
        "yesterday"@.len() == 9,
{
    reveal_strlit("today");
    reveal_strlit("yesterday");
    reveal_strlit(" to ");
    assert(" to "@ =~= to());
    assert("today"@ =~= seq!['t', 'o', 'd', 'a', 'y']);
    assert("yesterday"@ =~= seq!['y', 'e', 's', 't', 'e', 'r', 'd', 'a', 'y']);
}

#[verifier::spinoff_prover]
#[verifier::rlimit(40)]
proof fn lemma_range_is_written(a: WallTime, b: WallTime, s: Seq<char>)
    requires
        range_spec(s) == Some(RangeSpec::Between(a, b)),
    ensures
        s == written_time(a) + to() + written_time(b),
{
    lemma_range_words();
    let i = find_text(s, to(), 0)->0;
    lemma_find_text(s, to(), 0);
    lemma_three_parts(s, i, 4);
    assert(s.take(i) == written_time(a)) by {
        lemma_time_is_written(a, s.take(i));
    }
    assert(s.skip(i + 4) == written_time(b)) by {
        lemma_time_is_written(b, s.skip(i + 4));
    }
}

proof fn lemma_three_parts(s: Seq<char>, i: int, n: int)
    requires
        0 <= i,
        0 <= n,
        i + n <= s.len(),
    ensures
        s == s.take(i) + s.subrange(i, i + n) + s.skip(i + n),
{
    assert(s =~= s.take(i) + s.subrange(i, i + n) + s.skip(i + n));
}

proof fn lemma_not_before(x: Seq<char>, t: Seq<char>, needle: Seq<char>, j: int)
    requires
        needle.len() == 4,
        needle[0] != needle[1],
        !x.contains(needle[1]),
        x.len() + 4 <= t.len(),
        t.take(x.len() as int) == x,
        t[x.len() as int] == needle[0],
        0 <= j < x.len(),
    ensures
        !occurs_at(t, needle, j),
{
    if occurs_at(t, needle, j) {
        assert(t.subrange(j, j + 4)[1] == t[j + 1]);
        if j + 1 < x.len() {
            assert(t.take(x.len() as int)[j + 1] == x[j + 1]);
            assert(x.contains(x[j + 1]));
        }
    }
}

proof fn lemma_first_place(t: Seq<char>, needle: Seq<char>, n: int, from: int)
    requires
        0 <= from <= n,
        occurs_at(t, needle, n),
        forall|j: int| from <= j < n ==> !occurs_at(t, needle, j),
    ensures
        find_text(t, needle, from) == Some(n),
    decreases n - from,
{
    if from < n {
        lemma_first_place(t, needle, n, from + 1);
    }
}

proof fn lemma_parts(x: Seq<char>, needle: Seq<char>, y: Seq<char>)
    requires
        x.len() == 16,
        needle.len() == 4,
        y.len() == 16,
    ensures
        (x + needle + y).len() == 36,
        (x + needle + y).take(16) == x,
        (x + needle + y).subrange(16, 20) == needle,
        (x + needle + y).skip(20) == y,
        (x + needle + y)[16] == needle[0],
{
    let t = x + needle + y;
    assert(t.take(16) =~= x);
    assert(t.subrange(16, 20) =~= needle);
    assert(t.skip(20) =~= y);
}

proof fn lemma_between(x: Seq<char>, y: Seq<char>, t: Seq<char>)
    requires
        x.len() == 16,
        y.len() == 16,
        !x.contains('t'),
        t == x + to() + y,
    ensures
        find_text(t, to(), 0) == Some(16int),
{
    lemma_parts(x, to(), y);
    assert forall|j: int| 0 <= j < 16 implies !occurs_at(t, to(), j) by {
        lemma_not_before(x, t, to(), j);
    }
    lemma_first_place(t, to(), 16, 0);
}

#[verifier::spinoff_prover]
#[verifier::rlimit(40)]
proof fn lemma_range_reads_back(a: WallTime, b: WallTime)
    requires
        fits_places(a),
        fits_places(b),
    ensures
        range_spec(written_time(a) + to() + written_time(b)) == Some(RangeSpec::Between(a, b)),
{
    let x = written_time(a);
    let y = written_time(b);
    let t = x + to() + y;
    assert(x.len() == 16 && wall_time(x) == Some(a)) by {
        lemma_time_reads_back(a);
    }
    assert(y.len() == 16 && wall_time(y) == Some(b)) by {
        lemma_time_reads_back(b);
    }
    assert(!x.contains('t')) by {
        if x.contains('t') {
            let j = choose|j: int| 0 <= j < x.len() && x[j] == 't';
            lemma_no_letter(a, j);
        }
    }
    lemma_two_times(x, y, t, a, b);
}

proof fn lemma_two_times(x: Seq<char>, y: Seq<char>, t: Seq<char>, a: WallTime, b: WallTime)
    requires
        x.len() == 16,
        y.len() == 16,
        !x.contains('t'),
        t == x + to() + y,
        wall_time(x) == Some(a),
        wall_time(y) == Some(b),
    ensures
        range_spec(t) == Some(RangeSpec::Between(a, b)),
{
    lemma_range_words();
    lemma_between(x, y, t);
    lemma_parts(x, to(), y);
}

/// No letter stands in a written time.
proof fn lemma_no_letter(w: WallTime, j: int)
    requires
        fits_places(w),
        0 <= j,
    ensures
        j < 16 ==> written_time(w)[j] != 't',
{
    let t = written_time(w);
    lemma_short(w.year as nat, 4);
    lemma_short(w.month as nat, 2);
    lemma_short(w.day as nat, 2);
    lemma_short(w.hour as nat, 2);
    lemma_short(w.minute as nat, 2);
    if j < 4 {
        assert(t[j] == zero_padded(w.year as nat, 4)[j]);
    } else if 5 <= j < 7 {
        assert(t[j] == zero_padded(w.month as nat, 2)[j - 5]);
    } else if 8 <= j < 10 {
        assert(t[j] == zero_padded(w.day as nat, 2)[j - 8]);
    } else if 11 <= j < 13 {
        assert(t[j] == zero_padded(w.hour as nat, 2)[j - 11]);
    } else if 14 <= j < 16 {
        assert(t[j] == zero_padded(w.minute as nat, 2)[j - 14]);
    }
}

/// The seconds at which a clock on UTC shows the time `t`.
pub open spec fn shown_at(t: (i32, u32, u32, u32, u32)) -> int {
    civil_seconds(t.0, t.1, t.2, t.3, t.4)
}

/// Today is the day that begins with the midnight of its date, and yesterday
/// the day that ends with it; both are a day long. A range between two times
/// has them as its ends.
pub proof fn law_days_begin_and_end_at_midnight(
    today: (i32, u32, u32),
    a: WallTime,
    b: WallTime,
)
    requires
        is_date(today.0, today.1, today.2),
    ensures
        clock_ends(RangeSpec::Today, today) matches Some((x, y)) ==> {
            &&& x == (today.0, today.1, today.2, 0u32, 0u32)
            &&& y.3 == 0 && y.4 == 0
            &&& shown_at(y) == shown_at(x) + 86400
        },
        clock_ends(RangeSpec::Yesterday, today) matches Some((x, y)) ==> {
            &&& y == (today.0, today.1, today.2, 0u32, 0u32)
            &&& x.3 == 0 && x.4 == 0
            &&& shown_at(y) == shown_at(x) + 86400
        },
        today.0 < 262142 ==> clock_ends(RangeSpec::Today, today) is Some,
        today.0 > -262143 ==> clock_ends(RangeSpec::Yesterday, today) is Some,
        clock_ends(RangeSpec::Between(a, b), today) == Some(
            (
                (a.year as i32, a.month, a.day, a.hour, a.minute),
                (b.year as i32, b.month, b.day, b.hour, b.minute),
            ),
        ),
{
    law_days_are_counted_in_seconds(today.0, today.1, today.2);
    law_days_follow_each_other(today.0, today.1, today.2);
    if let Some(d) = day_before(today.0, today.1, today.2) {
        law_days_are_counted_in_seconds(d.0, d.1, d.2);
    }
}

/// An answer for a date that is no range of time is refused with what is
/// expected, and one with days or hours that do not exist with that; a refusal
/// leaves all constraints as they were.
pub proof fn law_what_a_date_is_refused_for(
    filters: FilterSet,
    before: Seq<char>,
    s: Seq<char>,
    behind: Seq<char>,
    after: FilterSet,
    refused: Option<Seq<char>>,
)
    requires
        forall|i: int| 0 <= i < before.len() ==> is_white(#[trigger] before[i]),
        forall|i: int| 0 <= i < behind.len() ==> is_white(#[trigger] behind[i]),
        s.len() > 0 && !is_white(s[0]) && !is_white(s.last()),
        filters.adopts(Constraint::Date, before + s + behind, after, refused),
    ensures
        range_spec(s) is None ==> refused == Some(
            "Invalid date filter: "@
                + "expected today, yesterday or YYYY/MM/DD HH:MM to YYYY/MM/DD HH:MM"@,
        ),
        range_spec(s) matches Some(range) ==> !is_possible(range) ==> refused == Some(
            "Invalid date filter: "@ + "no such local time"@,
        ),
        refused is Some ==> after == filters,
        refused is None ==> (after.date.date_range matches Some(read) && reads_as(s, read)),
        after.subject == filters.subject && after.author == filters.author,
{
    law_trimming_takes_off_white_space(before, s, behind);
}

// ---------------------------------------------------------------------------
// Scans
// ---------------------------------------------------------------------------

/// A page of matches is the stretch of them that starts at its offset: all that
/// fit, in the order in which they came.
pub proof fn law_a_filtered_page_is_a_stretch(
    before: Seq<Message>,
    shown: Seq<Message>,
    after: Seq<Message>,
    size: nat,
)
    requires
        shown.len() == size || shown.len() < size && after.len() == 0,
    ensures
        window(before + shown + after, before.len() as int, size as int) == shown,
{
    assert(window(before + shown + after, before.len() as int, size as int) =~= shown);
}

/// A page of a scan is ready as soon as all its matches are there, or what
/// there is of them once the scan is done; until then it loads. A scan that is
/// done and has no match left for the page asks for the first epoch that is
/// not cloned, and is at its end where there is none.
pub proof fn law_a_page_is_ready_once_its_matches_are_there(
    scan: FilteredSource,
    status: SourceStatus,
    offset: usize,
    size: usize,
)
    requires
        scan.tells(status, offset, size),
    ensures
        offset + size <= scan.results@.len() ==> (status matches SourceStatus::Ready(page)
            && page.mails@ == scan.results@.subrange(offset as int, offset + size)
            && page.offset == offset),
        scan.done && offset < scan.results@.len() < offset + size ==> (
        status matches SourceStatus::Ready(page) && page.mails@ == scan.results@.subrange(
            offset as int,
            scan.results@.len() as int,
        ) && page.offset == offset),
        !scan.done && scan.results@.len() < offset + size ==> status is Loading,
        scan.done && scan.results@.len() <= offset && size > 0 && scan.uncloned@.len() > 0
            ==> status == SourceStatus::NeedsClone(scan.uncloned@[0]),
        scan.done && scan.results@.len() <= offset && size > 0 && scan.uncloned@.len() == 0
            ==> status is Exhausted,
{
    if let SourceStatus::Ready(page) = status {
        let n = scan.results@.len();
        if offset + size <= n {
            assert(page.mails@ =~= scan.results@.subrange(offset as int, offset + size));
        } else if offset < n {
            assert(page.mails@ =~= scan.results@.subrange(offset as int, n as int));
        }
    }
}

/// The epochs of a scan go from the newest to the oldest, and each list holds
/// exactly the epochs that are cloned, or exactly those that are not.
pub proof fn law_scans_go_from_newest_to_oldest(
    epochs: Seq<u32>,
    present: Seq<bool>,
    cloned: bool,
)
    requires
        epochs.len() == present.len(),
        forall|i: int, j: int| 0 <= i < j < epochs.len() ==> #[trigger] epochs[i] < #[trigger] epochs[j],
    ensures
        forall|i: int, j: int|
            0 <= i < j < newest_first(epochs, present, cloned).len() ==> #[trigger] newest_first(
                epochs,
                present,
                cloned,
            )[i] > #[trigger] newest_first(epochs, present, cloned)[j],
        forall|e: u32| #[trigger]
            newest_first(epochs, present, cloned).contains(e) <==> exists|i: int|
                0 <= i < epochs.len() && #[trigger] epochs[i] == e && present[i] == cloned,
    decreases epochs.len(),
{
    let all = newest_first(epochs, present, cloned);
    if epochs.len() > 0 {
        let less = epochs.drop_last();
        let flags = present.drop_last();
        let last = epochs.len() - 1;
        let older = newest_first(less, flags, cloned);
        assert forall|i: int, j: int| 0 <= i < j < less.len() implies #[trigger] less[i]
            < #[trigger] less[j] by {
            assert(epochs[i] < epochs[j]);
        }
        law_scans_go_from_newest_to_oldest(less, flags, cloned);
        assert forall|k: int| 0 <= k < older.len() implies #[trigger] older[k] < epochs[last] by {
            assert(older.contains(older[k]));
            let i = choose|i: int|
                0 <= i < less.len() && #[trigger] less[i] == older[k] && flags[i] == cloned;
            assert(epochs[i] < epochs[last]);
        }
        let shift: int = if present[last] == cloned {
            1
        } else {
            0
        };
        assert(all.len() == older.len() + shift);
        assert forall|k: int| shift <= k < all.len() implies #[trigger] all[k] == older[k - shift] by {}
        assert forall|i: int, j: int| 0 <= i < j < all.len() implies #[trigger] all[i]
            > #[trigger] all[j] by {
            if i >= shift {
                assert(older[i - shift] > older[j - shift]);
            } else {
                assert(older[j - shift] < epochs[last]);
            }
        }
        assert forall|e: u32| #[trigger] all.contains(e) <==> exists|i: int|
            0 <= i < epochs.len() && #[trigger] epochs[i] == e && present[i] == cloned by {
            if all.contains(e) {
                let k = choose|k: int| 0 <= k < all.len() && all[k] == e;
                if k < shift {
                    assert(epochs[last] == e);
                } else {
                    assert(older[k - shift] == e);
                    assert(older.contains(e));
                    let i = choose|i: int|
                        0 <= i < less.len() && #[trigger] less[i] == e && flags[i] == cloned;
                    assert(epochs[i] == e && present[i] == cloned);
                }
            }
            if exists|i: int|
                0 <= i < epochs.len() && #[trigger] epochs[i] == e && present[i] == cloned {
                let i = choose|i: int|
                    0 <= i < epochs.len() && #[trigger] epochs[i] == e && present[i] == cloned;
                if i == last {
                    assert(all[0] == e);
                } else {
                    assert(less[i] == e && flags[i] == cloned);
                    assert(older.contains(e));
                    let k = choose|k: int| 0 <= k < older.len() && older[k] == e;
                    assert(all[k + shift] == e);
                }
            }
        }
    }
}

/// Forgetting an epoch takes out that epoch and leaves the others in order.
pub proof fn law_forgetting_an_epoch_keeps_the_others(a: Seq<u32>, epoch: u32, b: Seq<u32>)
    requires
        !a.contains(epoch),
        !b.contains(epoch),
    ensures
        without(a + seq![epoch] + b, epoch) == a + b,
        without(a + b, epoch) == a + b,
{
    let p = other_than(epoch);
    Seq::filter_distributes_over_add(a + seq![epoch], b, p);
    Seq::filter_distributes_over_add(a, seq![epoch], p);
    Seq::filter_distributes_over_add(a, b, p);
    lemma_none_goes(a, epoch);
    lemma_none_goes(b, epoch);
    assert(seq![epoch].filter(p) =~= Seq::<u32>::empty()) by {
        reveal(Seq::filter);
        assert(seq![epoch].drop_last() =~= Seq::<u32>::empty());
        assert(Seq::<u32>::empty().filter(p) =~= Seq::<u32>::empty());
    }
    assert(a + Seq::<u32>::empty() + b =~= a + b);
}

proof fn lemma_none_goes(v: Seq<u32>, epoch: u32)
    requires
        !v.contains(epoch),
    ensures
        v.filter(other_than(epoch)) == v,
    decreases v.len(),
{
    reveal(Seq::filter);
    if v.len() > 0 {
        let init = v.drop_last();
        assert(!init.contains(epoch)) by {
            if init.contains(epoch) {
                let j = choose|j: int| 0 <= j < init.len() && init[j] == epoch;
                assert(v[j] == epoch);
            }
        }
        lemma_none_goes(init, epoch);
        assert(v.contains(v[v.len() - 1]));
        assert(init.push(v.last()) =~= v);
    }
}

/// A scan keeps exactly the mails that were sent within the range, all of them
/// where there is no range, and in the order in which it met them.
pub proof fn law_a_scan_keeps_what_was_sent_within_the_range(
    filters: FilterSet,
    a: Seq<Message>,
    m: Message,
    b: Seq<Message>,
)
    ensures
        filters.date.date_range is None ==> admitted(filters, a) == a,
        filters.date.date_range matches Some(range) ==> admitted(filters, a + seq![m] + b)
            == admitted(filters, a) + (if m.date matches Some(d) && instant(range.start)
            <= instant(d.moment) && instant(d.moment) < instant(range.end) {
            seq![m]
        } else {
            seq![]
        }) + admitted(filters, b),
{
    lemma_admitted_joined(filters, a + seq![m], b);
    lemma_admitted_joined(filters, a, seq![m]);
    assert(seq![m].skip(1) =~= Seq::<Message>::empty());
    assert(admitted(filters, Seq::<Message>::empty()) =~= seq![]);
    assert(admitted(filters, seq![m]) =~= if filters.admits(m) {
        seq![m]
    } else {
        seq![]
    });
    if filters.date.date_range is None {
        lemma_all_admitted(filters, a);
    }
}

proof fn lemma_admitted_joined(filters: FilterSet, a: Seq<Message>, b: Seq<Message>)
    ensures
        admitted(filters, a + b) == admitted(filters, a) + admitted(filters, b),
    decreases a.len(),
{
    if a.len() == 0 {
        assert(a + b =~= b);
        assert(admitted(filters, a) + admitted(filters, b) =~= admitted(filters, b));
    } else {
        assert((a + b).skip(1) =~= a.skip(1) + b);
        assert((a + b)[0] == a[0]);
        lemma_admitted_joined(filters, a.skip(1), b);
        assert(admitted(filters, a + b) =~= admitted(filters, a) + admitted(filters, b));
    }
}

proof fn lemma_all_admitted(filters: FilterSet, a: Seq<Message>)
    requires
        filters.date.date_range is None,
    ensures
        admitted(filters, a) == a,
    decreases a.len(),
{
    if a.len() > 0 {
        lemma_all_admitted(filters, a.skip(1));
        assert(seq![a[0]] + a.skip(1) =~= a);
    } else {
        assert(admitted(filters, a) =~= a);
    }
}

/// What a scan over some epochs finds is what it keeps of the first, where that
/// is cloned and can be searched, and behind it what it finds in the others.
pub proof fn law_a_scan_finds_epoch_after_epoch(
    w: Matches,
    filters: FilterSet,
    epochs: Seq<u32>,
    at: nat,
    hits: Seq<Message>,
)
    requires
        at < epochs.len(),
    ensures
        (w.present)(epochs[at as int]) && (w.hits)(epochs[at as int]) == Some(hits) ==> found_from(
            w,
            filters,
            epochs,
            at,
        ) == admitted(filters, hits) + found_from(w, filters, epochs, at + 1),
        filters.date.date_range is None ==> admitted(filters, hits) == hits,
        !(w.present)(epochs[at as int]) || (w.hits)(epochs[at as int]) is None ==> found_from(
            w,
            filters,
            epochs,
            at,
        ) == found_from(w, filters, epochs, at + 1),
        found_from(w, filters, epochs, epochs.len()).len() == 0,
{
    if filters.date.date_range is None {
        lemma_all_admitted(filters, hits);
    }
    let rest = found_from(w, filters, epochs, at + 1);
    assert(Seq::<Message>::empty() + rest =~= rest);
}

/// A scan stops where it is cancelled, before an epoch or before a mail, and
/// where nobody takes a match; nothing else stops it. It leaves an epoch that is
/// not cloned or cannot be searched, or that has no more mails.
pub proof fn law_what_stops_a_scan(cancelled: bool, cloned: bool, mail: Message, taken: bool)
    ensures
        stops(ScanReply::Probed { cancelled, cloned }) == cancelled,
        stops(ScanReply::Mail { cancelled, mail: Some(mail) }) == cancelled,
        stops(ScanReply::Sent(taken)) != taken,
        !stops(ScanReply::Mail { cancelled, mail: None }),
        moves_on(ScanReply::Mail { cancelled, mail: None }),
        !moves_on(ScanReply::Mail { cancelled, mail: Some(mail) }),
        moves_on(ScanReply::Probed { cancelled, cloned }) <==> !cancelled && !cloned,
        moves_on(ScanReply::Found(None)) && !stops(ScanReply::Found(None)),
        !moves_on(ScanReply::Sent(taken)),
{
}

// ---------------------------------------------------------------------------
// Missing epochs of a scan
// ---------------------------------------------------------------------------

/// A refused epoch is dropped from those that a scan could go on with, and an
/// epoch that was cloned is dropped too, for a worker goes over it now. What
/// the scan has found stays either way, and so do the other epochs, in order.
pub proof fn law_a_scan_goes_on_without_the_epoch(
    before: FilteredSource,
    after: FilteredSource,
    a: Seq<u32>,
    epoch: u32,
    b: Seq<u32>,
    cloned: bool,
)
    requires
        before.uncloned@ == a + seq![epoch] + b,
        !a.contains(epoch),
        !b.contains(epoch),
        if cloned {
            resumed(MailSource::Filtered(before), MailSource::Filtered(after), epoch)
        } else {
            declined(MailSource::Filtered(before), MailSource::Filtered(after), epoch)
        },
    ensures
        after.uncloned@ == a + b,
        after.results == before.results,
        after.filters == before.filters,
        cloned ==> !after.done,
        !cloned ==> after.done == before.done,
{
    law_forgetting_an_epoch_keeps_the_others(a, epoch, b);
}

/// What a source has decided becomes of a request: a page that is ready ends it
/// with that page, work that goes on ends it for now, a missing epoch is asked
/// for, and a list without more mails ends it.
pub proof fn law_a_request_follows_its_source(
    status: SourceStatus,
    ask: PageAsk,
    step: Step,
    page: Page,
    text: String,
    epoch: u32,
)
    requires
        follows(status, ask, step),
    ensures
        ask == PageAsk::Finished(PageState::Ready(page)) <==> status == SourceStatus::Ready(page),
        ask == PageAsk::Finished(PageState::Pending(text)) <==> status == SourceStatus::Loading(
            text,
        ),
        ask == PageAsk::Finished(PageState::End) <==> status is Exhausted,
        ask == PageAsk::Consent(epoch) <==> status == SourceStatus::NeedsClone(epoch),
        step == Step::Asking(epoch) <==> status == SourceStatus::NeedsClone(epoch),
        ask is Finished <==> step is Settled,
{
}

// ---------------------------------------------------------------------------
// Labels
// ---------------------------------------------------------------------------

/// A question ends with the current value in brackets, and names what it asks
/// for.
pub proof fn law_a_question_shows_the_current_value(which: Constraint, value: Seq<char>)
    ensures
        ({
            let q = question(which, value);
            let end = q.len() - 3;
            &&& q.skip(end) == seq![']', ':', ' ']
            &&& q.subrange(end - value.len(), end) == value
            &&& q[end - value.len() - 1] == '['
            &&& which == Constraint::Subject ==> occurs_at(q, "subject"@, 8)
            &&& which == Constraint::Author ==> occurs_at(q, "author"@, 8)
            &&& which == Constraint::Date ==> occurs_at(q, "date"@, 7)
        }),
{
    reveal_strlit("Filter (subject substring, empty=clear) [");
    reveal_strlit("Filter (author substring, empty=clear) [");
    reveal_strlit(
        "Filter date (today | yesterday | YYYY/MM/DD HH:MM to YYYY/MM/DD HH:MM, empty=clear) [",
    );
    reveal_strlit("]: ");
    reveal_strlit("subject");
    reveal_strlit("author");
    reveal_strlit("date");
    let q = question(which, value);
    let end = q.len() - 3;
    assert(q.skip(end) =~= seq![']', ':', ' ']);
    assert(q.subrange(end - value.len(), end) =~= value);
    match which {
        Constraint::Subject => {
            assert(q.subrange(8, 15) =~= "subject"@);
        },
        Constraint::Author => {
            assert(q.subrange(8, 14) =~= "author"@);
        },
        Constraint::Date => {
            assert(q.subrange(7, 11) =~= "date"@);
        },
    }
}

/// A scan tells its three constraints in order, and how many mails it has
/// found.
pub proof fn law_a_scan_tells_how_far_it_is(
    subject: Seq<char>,
    author: Seq<char>,
    date: Seq<char>,
    count: nat,
)
    ensures
        ({
            let line = scan_line(subject, author, date, count);
            let a = 29 + subject.len() as int;
            let d = a + author.len() as int + 8;
            let c = d + date.len() as int + 4;
            let end = c + decimal(count).len() as int;
            &&& line.subrange(19, 19 + subject.len() as int) == subject
            &&& line.subrange(a, a + author.len() as int) == author
            &&& line.subrange(d, d + date.len() as int) == date
            &&& line.subrange(c, end) == decimal(count)
            &&& count == 1 ==> line.skip(end) == " match so far)"@
            &&& count != 1 ==> line.skip(end) == " matches so far)"@
        }),
{
    reveal_strlit("Filtering subject='");
    reveal_strlit("' author='");
    reveal_strlit("' date='");
    reveal_strlit("'… (");
    reveal_strlit(" match so far)");
    reveal_strlit(" matches so far)");
    let line = scan_line(subject, author, date, count);
    let a = 29 + subject.len() as int;
    let d = a + author.len() as int + 8;
    let c = d + date.len() as int + 4;
    let end = c + decimal(count).len() as int;
    assert(line.subrange(19, 19 + subject.len() as int) =~= subject);
    assert(line.subrange(a, a + author.len() as int) =~= author);
    assert(line.subrange(d, d + date.len() as int) =~= date);
    assert(line.subrange(c, end) =~= decimal(count));
    if count == 1 {
        assert(line.skip(end) =~= " match so far)"@);
    } else {
        assert(line.skip(end) =~= " matches so far)"@);
    }
}

/// Without a constraint every mail is let through and nothing is shown for it;
/// a needle is shown as it was given.
pub proof fn law_no_constraint_lets_everything_through(
    filters: FilterSet,
    mail: Message,
    needle: Seq<char>,
)
    ensures
        !filters.active() ==> filters.admits(mail) && text_matches(
            filters.subject.sought(),
            mail.subject@,
        ) && text_matches(filters.author.sought(), mail.author@),
        needle_label(None) == seq!['(', 'n', 'o', 'n', 'e', ')'],
        needle_label(Some(needle)) == needle,
        filters.subject.needle is Some || filters.author.needle is Some
            || filters.date.date_range is Some <==> filters.active(),
        filters.date.date_range is None ==> filters.shows(Constraint::Date, needle_label(None)),
{
    reveal_strlit("(none)");
    assert("(none)"@ =~= seq!['(', 'n', 'o', 'n', 'e', ')']);
}

} // verus!
