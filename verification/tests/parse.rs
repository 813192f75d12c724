use lkml_reader::clock::{next_day, previous_day};
use lkml_reader::parse::{
    bounds_of_day, decode_quoted_printable, ends_of, extract_header, format_raw_mail, parse_date_range,
    range_of, range_on, read_range, read_wall_time, split_header, DateError, RangeSpec, WallTime,
};
use lkml_reader::text::chars_of;

#[test]
fn headers_are_found_whatever_their_case() {
    let headers = "From: a\nSUBJECT:  Hello \nsubject: second";
    assert_eq!(extract_header(headers, "Subject").unwrap(), "Hello");
    assert_eq!(extract_header(headers, "suBJect").unwrap(), "Hello");
    assert_eq!(extract_header(headers, "from").unwrap(), "a");
    assert!(extract_header(headers, "To").is_none());
    assert!(extract_header("", "To").is_none());
    assert!(extract_header("no colon here", "no").is_none());
    // Lowercase is Unicode's.
    assert_eq!(extract_header("ÉTÉ: x", "été").unwrap(), "x");
}

#[test]
fn continuation_lines_are_unfolded() {
    let headers = "Subject: one\r\n two\r\n\tthree  \r\nTo: x\r\n y";
    assert_eq!(extract_header(headers, "subject").unwrap(), "one two three");
    assert_eq!(extract_header(headers, "to").unwrap(), "x y");
}

#[test]
fn quoted_printable_joins_breaks_and_decodes_escapes() {
    assert_eq!(decode_quoted_printable("a=\nb=\r\nc"), "abc");
    assert_eq!(decode_quoted_printable("=C3=A9=3d"), "é=");
    assert_eq!(decode_quoted_printable("a=zz=4"), "a=zz=4");
    assert_eq!(decode_quoted_printable("end="), "end=");
    assert_eq!(decode_quoted_printable("=ff"), "\u{fffd}");
    assert_eq!(decode_quoted_printable("plain é text"), "plain é text");
}

#[test]
fn quoted_text_reads_back() {
    for text in ["", "é", "a=b", "日本\n x", "tail="] {
        let escaped: String = text.bytes().map(|b| format!("={b:02X}")).collect();
        let broken: String = text.bytes().map(|b| format!("={b:02x}=\r\n")).collect();
        assert_eq!(decode_quoted_printable(&escaped), text);
        assert_eq!(decode_quoted_printable(&broken), text);
        assert_eq!(
            decode_quoted_printable(&format!("plain ü, {escaped}")),
            format!("plain ü, {text}")
        );
        assert_eq!(decode_quoted_printable(&format!("{escaped}=\nü")), format!("{text}ü"));
    }
}

#[test]
fn a_raw_mail_is_laid_out_for_reading() {
    let raw = "Message-ID: <1@x>\nFrom: =?UTF-8?Q?J=C3=B6rg?= <j@x>\nX-Other: no\nSubject: Hi\n\nbody =3D\n";
    assert_eq!(
        format_raw_mail(raw),
        "From: Jörg <j@x>\nSubject: Hi\nMessage-ID: <1@x>\n\n--\n\nbody =3D\n"
    );
    let quoted = "Subject: Hi\r\nContent-Transfer-Encoding:  Quoted-Printable \r\n\r\nbody =3D\r\n";
    assert_eq!(format_raw_mail(quoted), "Subject: Hi\n\n--\n\nbody =\r\n");
}

#[test]
fn a_mail_without_a_body_is_all_header() {
    assert_eq!(format_raw_mail("Subject: Hi"), "Subject: Hi\n\n--\n\n");
    assert_eq!(format_raw_mail(""), "\n--\n\n");
}

#[test]
fn carriage_returns_decide_where_the_header_ends() {
    // The empty line with carriage returns is looked for first.
    let raw = "Subject: a\n\nTo: b\r\n\r\nbody";
    assert_eq!(format_raw_mail(raw), "Subject: a\nTo: b\n\n--\n\nbody");
}

#[test]
fn wall_times_have_one_form() {
    assert_eq!(
        read_wall_time(&chars_of("2024/02/29 23:59")),
        Some(WallTime {
            year: 2024,
            month: 2,
            day: 29,
            hour: 23,
            minute: 59
        })
    );
    for text in ["2024/2/29 23:59", "2024-02-29 23:59", "2024/02/29 23:5x", "", "2024/02/29"] {
        assert_eq!(read_wall_time(&chars_of(text)), None);
    }
}

#[test]
fn ranges_are_days_or_two_times() {
    assert_eq!(read_range(&chars_of("today")), Some(RangeSpec::Today));
    assert_eq!(read_range(&chars_of("yesterday")), Some(RangeSpec::Yesterday));
    assert!(matches!(
        read_range(&chars_of("2024/01/01 00:00 to 2024/01/02 00:00")),
        Some(RangeSpec::Between(_, _))
    ));
    assert_eq!(read_range(&chars_of("tomorrow")), None);
    assert_eq!(read_range(&chars_of("2024/01/01 00:00 to ")), None);
}

#[test]
fn a_day_ends_where_the_next_begins() {
    assert_eq!(
        bounds_of_day((2024, 2, 28), false),
        Some(((2024, 2, 28), (2024, 2, 29)))
    );
    assert_eq!(
        bounds_of_day((2024, 3, 1), true),
        Some(((2024, 2, 29), (2024, 3, 1)))
    );
    assert_eq!(bounds_of_day((2023, 2, 30), false), None);
    assert_eq!(
        bounds_of_day((1900, 2, 28), false),
        Some(((1900, 2, 28), (1900, 3, 1)))
    );
    assert_eq!(
        bounds_of_day((2024, 1, 1), true),
        Some(((2023, 12, 31), (2024, 1, 1)))
    );
    // The ends of the calendar.
    assert_eq!(bounds_of_day((262142, 12, 31), false), None);
    assert_eq!(bounds_of_day((-262143, 1, 1), true), None);
    assert_eq!(bounds_of_day((262143, 1, 1), true), None);
    assert_eq!(
        bounds_of_day((262142, 12, 30), false),
        Some(((262142, 12, 30), (262142, 12, 31)))
    );
}

#[test]
fn a_range_needs_both_of_its_ends() {
    let range = range_of(Some((5, 0)), Some((9, 1))).unwrap();
    assert_eq!((range.start.secs, range.end.secs, range.end.nanos), (5, 9, 1));
    assert_eq!(range_of(None, Some((9, 0))), Err(DateError::NoSuchTime));
    assert_eq!(range_of(Some((9, 0)), None), Err(DateError::NoSuchTime));
}

#[test]
fn written_ranges_are_on_the_local_clock() {
    let range = parse_date_range("2024/06/01 10:30 to 2024/06/02 11:45").unwrap();
    let local = chrono::Local;
    let start = chrono::TimeZone::with_ymd_and_hms(&local, 2024, 6, 1, 10, 30, 0)
        .earliest()
        .unwrap();
    let end = chrono::TimeZone::with_ymd_and_hms(&local, 2024, 6, 2, 11, 45, 0)
        .earliest()
        .unwrap();
    assert_eq!((range.start.secs, range.start.nanos), (start.timestamp(), 0));
    assert_eq!((range.end.secs, range.end.nanos), (end.timestamp(), 0));
    assert_eq!(range.label(), "2024/06/01 10:30 to 2024/06/02 11:45");
}

#[test]
fn dates_that_do_not_exist_are_refused() {
    assert_eq!(
        parse_date_range("2024/13/01 00:00 to 2024/13/02 00:00"),
        Err(DateError::NoSuchTime)
    );
    assert_eq!(parse_date_range("someday"), Err(DateError::Malformed));
}

#[test]
fn today_lasts_until_tomorrow() {
    let today = parse_date_range("today").unwrap();
    let yesterday = parse_date_range("yesterday").unwrap();
    let now = chrono::Local::now().timestamp();
    assert!(today.start.secs <= now && now < today.end.secs + 86400);
    assert!(yesterday.start.secs < yesterday.end.secs);
    assert!(yesterday.end.secs <= today.end.secs);
    assert_eq!(today.start.nanos, 0);
}

/// Seconds since 1970 at which a clock on UTC shows a date at midnight.
fn midnight(year: i32, month: u32, day: u32) -> i64 {
    chrono::TimeZone::with_ymd_and_hms(&chrono::Utc, year, month, day, 0, 0, 0)
        .unwrap()
        .timestamp()
}

#[test]
fn the_local_clock_is_less_than_a_day_off() {
    let near = |a: i64, b: i64| -86400 < a - b && a - b < 86400;
    let days = [(1970, 1, 1), (1969, 12, 31), (2000, 2, 29), (1900, 3, 1), (1, 1, 1), (9998, 12, 31)];
    for day in days {
        let next = next_day(day.0, day.1, day.2).unwrap();
        assert_eq!(
            midnight(next.0, next.1, next.2),
            midnight(day.0, day.1, day.2) + 86400
        );
        let range = range_on(RangeSpec::Today, day).unwrap();
        assert!(near(range.start.secs, midnight(day.0, day.1, day.2)));
        assert!(near(range.end.secs, midnight(next.0, next.1, next.2)));
        assert_eq!((range.start.nanos, range.end.nanos), (0, 0));
        let before = range_on(RangeSpec::Yesterday, next).unwrap();
        assert_eq!(before, range);
    }
    assert_eq!(range_on(RangeSpec::Today, (2023, 2, 29)), Err(DateError::NoSuchTime));
    let range = parse_date_range("2024/06/01 10:30 to 2024/06/02 11:45").unwrap();
    assert!(near(range.start.secs, midnight(2024, 6, 1) + 10 * 3600 + 30 * 60));
    assert!(near(range.end.secs, midnight(2024, 6, 2) + 11 * 3600 + 45 * 60));
}

#[test]
fn neighbouring_days_are_those_of_the_calendar() {
    let mut day = chrono::NaiveDate::from_ymd_opt(1895, 12, 1).unwrap();
    for _ in 0..50_000 {
        let next = day.succ_opt().unwrap();
        let ymd = |d: chrono::NaiveDate| {
            (
                chrono::Datelike::year(&d),
                chrono::Datelike::month(&d),
                chrono::Datelike::day(&d),
            )
        };
        let (a, b) = (ymd(day), ymd(next));
        assert_eq!(next_day(a.0, a.1, a.2), Some(b));
        assert_eq!(previous_day(b.0, b.1, b.2), Some(a));
        day = next;
    }
    assert_eq!(next_day(2023, 2, 29), None);
    assert_eq!(previous_day(2023, 0, 1), None);
}

#[test]
fn a_range_has_two_ends_on_the_clock() {
    let today = (2024, 3, 1);
    assert_eq!(
        ends_of(RangeSpec::Today, today),
        Some(((2024, 3, 1, 0, 0), (2024, 3, 2, 0, 0)))
    );
    assert_eq!(
        ends_of(RangeSpec::Yesterday, today),
        Some(((2024, 2, 29, 0, 0), (2024, 3, 1, 0, 0)))
    );
    let range = read_range(&chars_of("1999/12/31 23:59 to 2000/01/02 03:04")).unwrap();
    assert_eq!(
        ends_of(range, today),
        Some(((1999, 12, 31, 23, 59), (2000, 1, 2, 3, 4)))
    );
    assert_eq!(ends_of(RangeSpec::Today, (2024, 2, 30)), None);
}

#[test]
fn header_and_body_are_the_mail() {
    for (raw, split) in [
        ("a: b\r\n\r\nbody", (4, 8)),
        ("a: b\n\nbody\n\nmore", (4, 6)),
        ("a: b", (4, 4)),
        ("\n\nbody", (0, 2)),
    ] {
        let all = chars_of(raw);
        assert_eq!(split_header(&all), split);
        let head: String = all[..split.0].iter().collect();
        let body: String = all[split.1..].iter().collect();
        let gap: String = all[split.0..split.1].iter().collect();
        assert_eq!(format!("{head}{gap}{body}"), raw);
        assert!(["", "\n\n", "\r\n\r\n"].contains(&gap.as_str()));
    }
}

#[test]
fn days_follow_each_other() {
    for day in [(2024, 2, 29), (2023, 12, 31), (2000, 3, 1), (1900, 2, 28)] {
        let (first, behind) = bounds_of_day(day, false).unwrap();
        assert_eq!(first, day);
        assert_eq!(bounds_of_day(behind, true), Some((day, behind)));
    }
}
