use lkml_reader::clock::{DateRange, Moment, Stamp};
use lkml_reader::constraints::{Constraint, FilterSet};
use lkml_reader::filter::{DateFilter, SubjectFilter};
use lkml_reader::message::Message;
use lkml_reader::parse::DateError;

fn moment(secs: i64) -> Moment {
    Moment { secs, nanos: 0 }
}

fn stamp(secs: i64) -> Stamp {
    Stamp {
        moment: moment(secs),
        offset: 0,
    }
}

#[test]
fn subject_matches_ignore_case() {
    let mut f = SubjectFilter::new();
    assert!(!f.is_active());
    assert!(f.matches("anything"));
    assert_eq!(f.label(), "(none)");
    f.set("  sched ");
    assert!(f.is_active());
    assert_eq!(f.label(), "sched");
    assert!(f.matches("[PATCH sched/core]"));
    assert!(f.matches("[SCHED]"));
    assert!(f.matches("[scheduler]"));
    assert!(!f.matches("[mm]"));
    f.set("ÉTÉ");
    assert!(f.matches("un été"));
    f.set(" \t ");
    assert!(!f.is_active());
}

#[test]
fn date_ranges_are_half_open() {
    let range = DateRange {
        start: moment(10),
        end: moment(20),
    };
    assert!(range.contains(&moment(10)));
    assert!(range.contains(&Moment {
        secs: 19,
        nanos: 999_999_999
    }));
    assert!(!range.contains(&moment(20)));
    assert!(!range.contains(&Moment {
        secs: 9,
        nanos: 999_999_999
    }));
}

#[test]
fn a_date_filter_needs_a_date() {
    let mut f = DateFilter::new();
    assert!(f.matches(None));
    assert!(f.matches(Some(&stamp(0))));
    assert_eq!(f.label(), "(none)");
    let range = DateRange {
        start: moment(10),
        end: moment(20),
    };
    assert!(f.adopt(Ok(range)).is_ok());
    assert!(f.is_active());
    assert!(!f.matches(None));
    assert!(f.matches(Some(&stamp(15))));
    assert!(!f.matches(Some(&stamp(20))));
}

#[test]
fn a_malformed_date_changes_nothing() {
    let mut f = DateFilter::new();
    f.set("2024/01/01 00:00 to 2024/02/01 00:00").unwrap();
    let before = f;
    assert_eq!(f.set("nonsense"), Err(DateError::Malformed));
    assert_eq!(f, before);
    assert_eq!(f.set("2024/02/30 00:00 to 2024/03/01 00:00"), Err(DateError::NoSuchTime));
    assert_eq!(f, before);
    assert_eq!(f.adopt(Err(DateError::NoSuchTime)), Err(DateError::NoSuchTime));
    assert_eq!(f.label(), "2024/01/01 00:00 to 2024/02/01 00:00");
    assert_eq!(f.set("  "), Ok(()));
    assert!(!f.is_active());
}

#[test]
fn prompts_show_the_current_value() {
    let mut set = FilterSet::new();
    assert_eq!(
        set.prompt_label(Constraint::Subject),
        "Filter (subject substring, empty=clear) [(none)]: "
    );
    set.set(Constraint::Author, "torvalds").unwrap();
    assert_eq!(
        set.prompt_label(Constraint::Author),
        "Filter (author substring, empty=clear) [torvalds]: "
    );
    assert_eq!(
        set.prompt_label(Constraint::Date),
        "Filter date (today | yesterday | YYYY/MM/DD HH:MM to YYYY/MM/DD HH:MM, empty=clear) [(none)]: "
    );
}

#[test]
fn each_constraint_is_set_alone() {
    let mut set = FilterSet::new();
    assert!(!set.is_active());
    set.set(Constraint::Subject, "mm").unwrap();
    assert!(set.is_active());
    assert_eq!(set.search_args(), (Some("mm"), None));
    set.set(Constraint::Author, " x ").unwrap();
    assert_eq!(set.search_args(), (Some("mm"), Some("x")));
    set.set(Constraint::Subject, "").unwrap();
    assert_eq!(set.search_args(), (None, Some("x")));
    assert_eq!(
        set.set(Constraint::Date, "soon").unwrap_err(),
        "Invalid date filter: expected today, yesterday or YYYY/MM/DD HH:MM to YYYY/MM/DD HH:MM"
    );
    assert_eq!(
        set.set(Constraint::Date, "2024/00/01 00:00 to 2024/02/01 00:00").unwrap_err(),
        "Invalid date filter: no such local time"
    );
    set.set(Constraint::Date, "2024/01/01 00:00 to 2024/02/01 00:00").unwrap();
    assert_eq!(
        set.labels(),
        ["(none)", "x", "2024/01/01 00:00 to 2024/02/01 00:00"]
    );
}

#[test]
fn only_the_date_is_left_to_the_predicate() {
    let mut set = FilterSet::new();
    set.set(Constraint::Subject, "never in there").unwrap();
    let mut mail = Message::default();
    assert!(set.matches(&mail));
    set.set(Constraint::Date, "1970/01/02 00:00 to 1970/01/05 00:00").unwrap();
    assert!(!set.matches(&mail));
    mail.date = Some(stamp(86400 * 3));
    assert!(set.matches(&mail));
}

#[test]
fn progress_counts_matches() {
    let mut set = FilterSet::new();
    set.set(Constraint::Subject, "mm").unwrap();
    assert_eq!(
        set.progress(1),
        "Filtering subject='mm' author='(none)' date='(none)'… (1 match so far)"
    );
    assert_eq!(
        set.progress(0),
        "Filtering subject='mm' author='(none)' date='(none)'… (0 matches so far)"
    );
}

#[test]
fn dates_are_shown_on_their_own_clock() {
    let mut mail = Message::default();
    assert_eq!(mail.date_str(), "-");
    mail.date = Some(Stamp {
        moment: moment(0),
        offset: 5 * 3600 + 1800,
    });
    assert_eq!(mail.date_str(), "1970/01/01 05:30");
    mail.date = Some(Stamp {
        moment: moment(i64::MAX),
        offset: 0,
    });
    assert_eq!(mail.date_str(), "-");
}

#[test]
fn a_moment_that_no_date_stands_for_is_a_dash() {
    let range = DateRange {
        start: moment(0),
        end: moment(i64::MAX),
    };
    let start = chrono::DateTime::from_timestamp(0, 0)
        .unwrap()
        .with_timezone(&chrono::Local)
        .format("%Y/%m/%d %H:%M")
        .to_string();
    assert_eq!(range.label(), format!("{start} to -"));
}
