use lkml_reader::message::{Message, PatchTag, SeriesTag};
use lkml_reader::series::{group_series, is_whole, page_done, SERIES_EXTEND_MAX};
use lkml_reader::source::Page;

/// Patch `number/total` (v1) of the series rooted at `<root>`; `number` 0
/// is the cover letter. A lone patch is no series.
fn patch(root: &str, number: u32, total: u32) -> Message {
    let mut mail = Message::default();
    mail.subject = format!("[{root} {number}/{total}]");
    mail.patch_tag = Some(PatchTag {
        version: 1,
        number,
        total,
    });
    if total > 1 {
        mail.series = Some(SeriesTag {
            id: root.bytes().next().unwrap() as usize,
            total,
        });
    }
    mail
}

fn plain(subject: &str) -> Message {
    let mut mail = Message::default();
    mail.subject = subject.to_string();
    mail
}

fn subjects(mails: &[Message]) -> Vec<&str> {
    mails.iter().map(|m| m.subject.as_str()).collect()
}

#[test]
fn series_forms_a_block_where_its_newest_mail_sat() {
    let mails = vec![
        patch("a", 2, 3),
        plain("x"),
        patch("a", 1, 3),
        patch("a", 3, 3),
    ];
    let (out, indent) = group_series(&mails);
    assert_eq!(subjects(&out), ["[a 1/3]", "[a 2/3]", "[a 3/3]", "x"]);
    assert_eq!(indent, [false, true, true, false]);
}

#[test]
fn cover_letter_heads_its_block() {
    let mails = vec![patch("a", 1, 2), patch("a", 0, 2), patch("a", 2, 2)];
    let (out, indent) = group_series(&mails);
    assert_eq!(subjects(&out), ["[a 0/2]", "[a 1/2]", "[a 2/2]"]);
    assert_eq!(indent, [false, true, true]);
}

#[test]
fn two_series_group_independently() {
    let mails = vec![
        patch("a", 2, 2),
        patch("b", 2, 2),
        patch("b", 1, 2),
        patch("a", 1, 2),
    ];
    let (out, _) = group_series(&mails);
    assert_eq!(subjects(&out), ["[a 1/2]", "[a 2/2]", "[b 1/2]", "[b 2/2]"]);
}

#[test]
fn stray_member_and_lone_patch_stay_put() {
    // Only 2/9 of its series is here, and a lone [PATCH 1/1] is no series:
    // nothing to pull together, nothing indented.
    let mails = vec![plain("x"), patch("s", 2, 9), patch("l", 1, 1)];
    let (out, indent) = group_series(&mails);
    assert_eq!(subjects(&out), ["x", "[s 2/9]", "[l 1/1]"]);
    assert_eq!(indent, [false, false, false]);
}

#[test]
fn is_whole_ignores_missing_cover_and_other_series() {
    let mails = vec![patch("a", 1, 2), patch("b", 2, 2), patch("a", 2, 2)];
    let tag_a = mails[0].series.unwrap();
    assert!(is_whole(&mails, &tag_a)); // 1..=2 present; no cover needed
    let tag_b = mails[1].series.unwrap();
    assert!(!is_whole(&mails, &tag_b)); // b is missing 1/2
}

#[test]
fn short_page_is_never_done() {
    let mut chasing = None;
    assert!(!page_done(&vec![plain("x")], 2, &mut chasing));
    assert!(chasing.is_none());
}

#[test]
fn only_the_boundary_mail_starts_a_chase() {
    // A half-present series further up the page does not: its siblings
    // live somewhere else entirely.
    let mails = vec![patch("a", 1, 2), plain("x")];
    let mut chasing = None;
    assert!(page_done(&mails, 2, &mut chasing));
    assert!(chasing.is_none());
}

#[test]
fn page_cutting_a_series_chases_until_it_is_whole() {
    let mut mails = vec![plain("x"), patch("a", 1, 3)];
    let mut chasing = None;
    assert!(!page_done(&mails, 2, &mut chasing));
    assert!(chasing.is_some());
    mails.push(patch("a", 2, 3));
    assert!(!page_done(&mails, 2, &mut chasing));
    mails.push(patch("a", 3, 3));
    assert!(page_done(&mails, 2, &mut chasing));
}

#[test]
fn chase_gives_up_at_the_extend_cap() {
    let mut mails = vec![patch("a", 1, 99)];
    let mut chasing = None;
    assert!(!page_done(&mails, 1, &mut chasing));
    mails.resize_with(1 + SERIES_EXTEND_MAX, || plain("x"));
    assert!(page_done(&mails, 1, &mut chasing));
}

#[test]
fn the_cap_itself_is_part_of_the_chase() {
    let mut mails = vec![patch("a", 1, 99)];
    let mut chasing = None;
    assert!(!page_done(&mails, 1, &mut chasing));
    mails.resize_with(SERIES_EXTEND_MAX, || plain("x"));
    assert!(!page_done(&mails, 1, &mut chasing));
}

#[test]
fn grouping_keeps_every_mail_once() {
    let mails = vec![
        plain("x"),
        patch("b", 3, 3),
        patch("a", 2, 2),
        plain("y"),
        patch("b", 1, 3),
        patch("a", 0, 2),
        patch("b", 2, 3),
    ];
    let (out, indent) = group_series(&mails);
    let mut before = subjects(&mails);
    let mut after = subjects(&out);
    assert_eq!(
        after,
        ["x", "[b 1/3]", "[b 2/3]", "[b 3/3]", "[a 0/2]", "[a 2/2]", "y"]
    );
    assert_eq!(indent, [false, false, true, true, false, true, false]);
    before.sort();
    after.sort();
    assert_eq!(before, after);
}

#[test]
fn grouping_twice_is_grouping_once() {
    let mails = vec![
        patch("b", 3, 3),
        plain("x"),
        patch("a", 2, 2),
        patch("b", 1, 3),
        patch("b", 1, 3),
        patch("a", 0, 2),
    ];
    let (once, indent) = group_series(&mails);
    let (twice, again) = group_series(&once);
    assert_eq!(subjects(&twice), subjects(&once));
    assert_eq!(again, indent);
    assert_eq!(indent, [false, true, true, false, false, true]);
}

#[test]
fn equal_numbers_keep_their_order() {
    let mut first = patch("a", 1, 2);
    first.subject = "first".to_string();
    let mut second = patch("a", 1, 2);
    second.subject = "second".to_string();
    let (out, _) = group_series(&vec![first, second]);
    assert_eq!(subjects(&out), ["first", "second"]);
}

#[test]
fn a_grouped_page_has_one_flag_per_row() {
    let page = Page::grouped(vec![patch("a", 2, 2), patch("a", 1, 2), plain("x")], 40);
    assert_eq!(subjects(&page.mails), ["[a 1/2]", "[a 2/2]", "x"]);
    assert_eq!(page.indent(), &vec![false, true, false]);
    assert_eq!(page.offset, 40);
    assert_eq!(page.len(), 3);
    assert!(!page.is_empty());
    assert!(page.indented(1));
    assert!(!page.indented(0));
    assert!(!page.indented(3)); // past the page's end
}

#[test]
fn a_flat_page_keeps_stream_order() {
    let page = Page::flat(vec![patch("a", 2, 2), patch("a", 1, 2)], 7);
    assert_eq!(subjects(&page.mails), ["[a 2/2]", "[a 1/2]"]);
    assert_eq!(page.indent(), &vec![false, false]);
    let empty = Page::default();
    assert!(empty.is_empty());
    assert_eq!((empty.len(), empty.offset), (0, 0));
}
