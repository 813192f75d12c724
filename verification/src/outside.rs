//! What the library takes from outside: text functions of std, dates of
//! `chrono` and decompression of `flate2`. Every item here is believed, not
//! proved, and says in its comment what it claims.

use vstd::prelude::*;
use vstd::utf8::{decode_utf8, is_ascii_chars, valid_utf8};

use crate::clock::{is_clock_time, is_date, some_clock_shows};
use crate::text::{ascii_lower, opt_text};

verus! {

/// Std's `String::push`: the character goes to the end of the string.
pub assume_specification[ String::push ](s: &mut String, c: char)
    ensures
        final(s)@ == old(s)@.push(c),
;

/// What `str::to_lowercase` makes of a text: its Unicode lowercase form.
pub uninterp spec fn lowercase(s: Seq<char>) -> Seq<char>;

/// Std's `str::to_lowercase`. Its result is a function of the text; on a text
/// of ASCII characters it maps `A` to `Z` to `a` to `z` and keeps the others.
pub assume_specification[ str::to_lowercase ](s: &str) -> (r: String)
    ensures
        r@ == lowercase(s@),
        is_ascii_chars(s@) ==> r@ == s@.map_values(|c: char| ascii_lower(c)),
;

/// What `String::from_utf8_lossy` makes of bytes: their text as UTF-8, with
/// replacement characters where they are not UTF-8.
pub uninterp spec fn utf8_lossy(bytes: Seq<u8>) -> Seq<char>;

/// Std's `String::from_utf8_lossy`. Its result is a function of the bytes; of
/// valid UTF-8 it is the text that the bytes encode.
#[verifier::external_body]
pub(crate) fn from_utf8_lossy(bytes: &[u8]) -> (r: String)
    ensures
        r@ == utf8_lossy(bytes@),
        valid_utf8(bytes@) ==> r@ == decode_utf8(bytes@),
{
    String::from_utf8_lossy(bytes).into_owned()
}

/// The text of bytes: what they encode where they are UTF-8, and else what
/// `String::from_utf8_lossy` makes of them.
pub open spec fn utf8_text(bytes: Seq<u8>) -> Seq<char> {
    if valid_utf8(bytes) {
        decode_utf8(bytes)
    } else {
        utf8_lossy(bytes)
    }
}

// ---------------------------------------------------------------------------
// chrono
// ---------------------------------------------------------------------------

/// What `chrono::DateTime::parse_from_rfc2822` reads in a text: seconds since
/// 1970, nanoseconds behind them, and seconds east of UTC.
pub uninterp spec fn rfc2822_stamp(s: Seq<char>) -> Option<(i64, u32, i32)>;

/// `chrono::DateTime::parse_from_rfc2822`. Its result is a function of the
/// text.
#[verifier::external_body]
pub(crate) fn parse_rfc2822(s: &str) -> (r: Option<(i64, u32, i32)>)
    ensures
        r == rfc2822_stamp(s@),
{
    match chrono::DateTime::parse_from_rfc2822(s) {
        Ok(d) => Some((d.timestamp(), d.timestamp_subsec_nanos(), d.offset().local_minus_utc())),
        Err(_) => None,
    }
}

/// What `chrono::DateTime::parse_from_rfc3339` reads in a text: seconds since
/// 1970, nanoseconds behind them, and seconds east of UTC.
pub uninterp spec fn rfc3339_stamp(s: Seq<char>) -> Option<(i64, u32, i32)>;

/// `chrono::DateTime::parse_from_rfc3339`. Its result is a function of the
/// text.
#[verifier::external_body]
pub(crate) fn parse_rfc3339(s: &str) -> (r: Option<(i64, u32, i32)>)
    ensures
        r == rfc3339_stamp(s@),
{
    match chrono::DateTime::parse_from_rfc3339(s) {
        Ok(d) => Some((d.timestamp(), d.timestamp_subsec_nanos(), d.offset().local_minus_utc())),
        Err(_) => None,
    }
}

/// What `chrono::DateTime::format` writes for a point in time on a clock that
/// is `offset` seconds east of UTC; nothing where chrono has no such time.
pub uninterp spec fn clock_text(
    secs: i64,
    nanos: u32,
    offset: i32,
    pattern: Seq<char>,
) -> Option<Seq<char>>;

/// `chrono::DateTime::format`, for a time on a clock with a fixed offset. Its
/// result is a function of the time, the offset and the pattern. A pattern
/// that chrono does not know would make it panic, so only the one pattern that
/// is used is admitted.
#[verifier::external_body]
pub(crate) fn format_clock(secs: i64, nanos: u32, offset: i32, pattern: &str) -> (r: Option<String>)
    requires
        pattern@ == "%Y/%m/%d %H:%M"@,
    ensures
        opt_text(r) == clock_text(secs, nanos, offset, pattern@),
{
    let at = chrono::DateTime::from_timestamp(secs, nanos)?;
    let zone = chrono::FixedOffset::east_opt(offset)?;
    Some(at.with_timezone(&zone).format(pattern).to_string())
}

/// `shown` is what some clock that is less than a day off UTC shows.
pub open spec fn on_some_clock(
    secs: i64,
    nanos: u32,
    pattern: Seq<char>,
    shown: Option<Seq<char>>,
) -> bool {
    exists|offset: i32|
        -86400 < offset < 86400 && shown == #[trigger] clock_text(secs, nanos, offset, pattern)
}

/// `chrono::DateTime::format`, for a time on the local clock of the machine.
/// That clock is less than a day off UTC, and the result is what a clock with
/// its offset shows; how far it is off at a time is the machine's to say, and
/// nothing is claimed of it. The pattern is restricted as for a clock with a
/// fixed offset. A machine whose time zone is a day or more off UTC would make
/// chrono panic, which no argument decides.
#[verifier::external_body]
pub(crate) fn format_local(secs: i64, nanos: u32, pattern: &str) -> (r: Option<String>)
    requires
        pattern@ == "%Y/%m/%d %H:%M"@,
    ensures
        on_some_clock(secs, nanos, pattern@, opt_text(r)),
{
    let at = chrono::DateTime::from_timestamp(secs, nanos)?;
    Some(at.with_timezone(&chrono::Local).format(pattern).to_string())
}

/// `chrono::Local::now`: year, month and day on the local clock. They are a
/// date of the Gregorian calendar; which one is not claimed. As to time zones
/// that chrono has no use for, see [`format_local`].
#[verifier::external_body]
pub(crate) fn local_today() -> (r: (i32, u32, u32))
    ensures
        is_date(r.0, r.1, r.2),
{
    let day = chrono::Local::now().date_naive();
    (
        chrono::Datelike::year(&day),
        chrono::Datelike::month(&day),
        chrono::Datelike::day(&day),
    )
}

/// `chrono::TimeZone::with_ymd_and_hms` on `chrono::Local`: the point in time
/// at which the local clock shows a date and a time of day, one of the two
/// where a clock change repeats it; nothing where it never shows them, as
/// where they are no date and time of day at all. The point in time is a full
/// second, and less than a day off the one at which a clock on UTC shows the
/// same, since chrono takes an offset of less than a day from it. Which offset
/// that is, and whether there is one, depends on the machine's time zone, and
/// nothing more is claimed.
#[verifier::external_body]
pub(crate) fn local_moment(year: i32, month: u32, day: u32, hour: u32, minute: u32) -> (r: Option<
    (i64, u32),
>)
    ensures
        !is_clock_time(year, month, day, hour, minute) ==> r is None,
        r matches Some(m) ==> some_clock_shows(m, (year, month, day, hour, minute)),
{
    let local = chrono::Local;
    let at = chrono::TimeZone::with_ymd_and_hms(&local, year, month, day, hour, minute, 0);
    let d = at.earliest()?;
    Some((d.timestamp(), d.timestamp_subsec_nanos()))
}

// ---------------------------------------------------------------------------
// flate2
// ---------------------------------------------------------------------------

/// The text that `flate2::read::GzDecoder` unpacks from bytes; nothing where
/// they are not a gzip file or what they hold is not UTF-8.
pub uninterp spec fn gunzip_text(bytes: Seq<u8>) -> Option<Seq<char>>;

/// `flate2::read::GzDecoder`, read to the end as a string. Its result is a
/// function of the bytes.
#[verifier::external_body]
pub(crate) fn gunzip(bytes: &[u8]) -> (r: Option<String>)
    ensures
        opt_text(r) == gunzip_text(bytes@),
{
    let mut out = String::new();
    let mut decoder = flate2::read::GzDecoder::new(bytes);
    match std::io::Read::read_to_string(&mut decoder, &mut out) {
        Ok(_) => Some(out),
        Err(_) => None,
    }
}

} // verus!
