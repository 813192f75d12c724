use lkml_reader::clock::{Moment, Stamp};
use lkml_reader::message::Message;
use lkml_reader::ui::{
    content_rows, diff_line_color, draw_detail, draw_help, draw_list, draw_loading, draw_notice,
    index_width, pad_or_truncate, redraw_prompt, redraw_selected_row, subject_column_width,
    title_overflows, truncate, Color, HeaderInfo, ListView, Span, Style,
};

fn colors(text: &str) -> Vec<Option<Color>> {
    let mut in_hunk = false;
    text.lines()
        .map(|l| diff_line_color(l, &mut in_hunk))
        .collect()
}

#[test]
fn prose_bullets_are_not_diff() {
    // The reported bug: bullet lists outside a hunk must stay uncolored.
    let c = colors("Changes:\n- fixed a thing\n- added another\n+ optional note");
    assert_eq!(c, vec![None, None, None, None]);
}

#[test]
fn real_hunk_colors_signs() {
    let c = colors("@@ -1,3 +1,3 @@\n context\n-old\n+new");
    assert_eq!(
        c,
        vec![
            Some(Color::Cyan),
            None,
            Some(Color::Red),
            Some(Color::Green)
        ]
    );
}

#[test]
fn file_headers_open_the_region() {
    let c = colors("diff --git a/f b/f\n--- a/f\n+++ b/f\n@@ -1 +1 @@\n-x\n+y");
    assert_eq!(
        c,
        vec![
            None,
            Some(Color::Red),
            Some(Color::Green),
            Some(Color::Cyan),
            Some(Color::Red),
            Some(Color::Green),
        ]
    );
}

#[test]
fn a_file_header_leaves_the_region_open() {
    let mut in_hunk = false;
    assert_eq!(diff_line_color("diff --git a/f b/f", &mut in_hunk), None);
    assert!(in_hunk);
    assert_eq!(diff_line_color("-old", &mut in_hunk), Some(Color::Red));
    assert_eq!(diff_line_color("index 1..2", &mut in_hunk), None);
    assert!(!in_hunk);
    assert_eq!(diff_line_color("+++ b/f", &mut in_hunk), Some(Color::Green));
    assert!(in_hunk);
}

#[test]
fn prose_after_hunk_closes_it() {
    let c = colors("@@ -1 +1 @@\n-x\nThen a note:\n- bullet again");
    assert_eq!(c, vec![Some(Color::Cyan), Some(Color::Red), None, None]);
}

#[test]
fn diff_edge_lines() {
    // A bare `@@` heads nothing; an empty line closes the region; context and
    // the no-newline note keep it open.
    assert_eq!(colors("@@\n-x"), vec![None, None]);
    assert_eq!(colors("@@x\n-x"), vec![None, None]);
    assert_eq!(colors("@@-1 +1 @@\n\n-x"), vec![Some(Color::Cyan), None, None]);
    assert_eq!(
        colors("@@ -1 +1 @@\n\\ No newline at end of file\n-x"),
        vec![Some(Color::Cyan), None, Some(Color::Red)]
    );
}

fn header() -> HeaderInfo<'static> {
    HeaderInfo {
        list_name: "lkml",
        epoch_label: "19 (newest of 20)",
        page_label: "1",
        subject_filter: "(none)",
        author_filter: "(none)",
        date_filter: "(none)",
    }
}

fn mail(subject: &str, author: &str) -> Message {
    let mut m = Message::default();
    m.subject = subject.to_string();
    m.author = author.to_string();
    m.date = Some(Stamp {
        moment: Moment {
            secs: 86400,
            nanos: 0,
        },
        offset: 3600,
    });
    m
}

fn at(span: &Span) -> (u16, u16, &str, Style) {
    (span.x, span.y, span.text.as_str(), span.style)
}

#[test]
fn padding_counts_characters() {
    assert_eq!(pad_or_truncate("é↳", 4), "é↳  ");
    assert_eq!(pad_or_truncate("abcdef", 4), "abcd");
    assert_eq!(pad_or_truncate("", 0), "");
    assert_eq!(truncate("é↳x", 2), "é↳");
    assert_eq!(truncate("ab", 5), "ab");
}

#[test]
fn number_column_is_wide_enough_for_the_last_row() {
    assert_eq!(index_width(0, 0), 3);
    assert_eq!(index_width(900, 99), 3);
    assert_eq!(index_width(900, 100), 4);
    assert_eq!(index_width(0, usize::MAX), 20);
}

#[test]
fn subject_column_takes_what_the_row_leaves() {
    // 6 + 3 + 16 for the prefix, 24 + 1 for the author, 4 for an indent.
    assert_eq!(subject_column_width(80, 0, 10, false), 30);
    assert_eq!(subject_column_width(80, 0, 10, true), 26);
    assert_eq!(subject_column_width(80, 1000, 10, false), 29);
    assert_eq!(subject_column_width(50, 0, 10, false), 0);
    assert_eq!(subject_column_width(20, 0, 10, true), 0);
}

#[test]
fn only_wide_titles_overflow() {
    let fits = mail(&"x".repeat(30), "a");
    let wide = mail(&"x".repeat(31), "a");
    assert!(!title_overflows(80, &fits, 0, 10, false));
    assert!(title_overflows(80, &wide, 0, 10, false));
    assert!(title_overflows(80, &fits, 0, 10, true));
}

#[test]
fn content_area_is_between_the_bars() {
    assert_eq!(content_rows(24), 22);
    assert_eq!(content_rows(2), 0);
    assert_eq!(content_rows(0), 0);
}

#[test]
fn loading_screen_centers_its_message() {
    let spans = draw_loading(&header(), "Starting…", 40, 11);
    assert_eq!(spans.len(), 3);
    assert_eq!(spans[0].style, Style::Header);
    assert_eq!(spans[0].text.chars().count(), 40);
    assert_eq!(spans[0].text, " LKML Reader  —  list: lkml   epoch: 19 ");
    assert_eq!(at(&spans[1]), (14, 5, "⏳  Starting…", Style::Bold));
    assert_eq!((spans[2].x, spans[2].y, spans[2].style), (0, 10, Style::Bar));
    assert_eq!(spans[2].text, " ".repeat(40));
}

#[test]
fn a_short_window_has_no_body() {
    for rows in 0..3u16 {
        assert_eq!(draw_loading(&header(), "x", 40, rows).len(), 2);
        assert_eq!(draw_help(&header(), 40, rows).len(), 2);
        assert_eq!(draw_detail(&header(), "a\nb", 0, 40, rows).len(), 2);
    }
}

#[test]
fn list_rows_show_number_date_author_and_title() {
    let mails = vec![
        mail("[PATCH 0/1] cover", "Ann"),
        mail("[PATCH 1/1] fix", "A very long author name that is cut"),
        mail("later", "Bob"),
    ];
    let indent = vec![false, true, false];
    let empty = Vec::new();
    let view = ListView {
        header: header(),
        offset: 40,
        mails: &mails,
        indent: &indent,
        selected: 1,
        scroll: 0,
        selected_scroll: 0,
        empty_message: &empty,
    };
    let spans = draw_list(&view, 80, 5);
    assert_eq!(spans.len(), 5);
    assert_eq!(
        at(&spans[1]),
        (
            0,
            1,
            " [041] 1970/01/02 01:00  Ann                      [PATCH 0/1] cover             ",
            Style::Plain
        )
    );
    assert_eq!(
        at(&spans[2]),
        (
            0,
            2,
            " [042] 1970/01/02 01:00  A very long author name    ↳ [PATCH 1/1] fix           ",
            Style::Selected
        )
    );
    assert_eq!(spans[3].y, 3);
    assert!(spans[4].text.starts_with(" ↑/↓ select  ←/→ page  Enter view"));
    // A window of two lines shows the rows from the scroll position on.
    let scrolled = ListView { scroll: 1, ..view };
    let spans = draw_list(&scrolled, 80, 4);
    assert_eq!(spans.len(), 4);
    assert!(spans[1].text.starts_with(" [042]"));
    assert!(spans[2].text.starts_with(" [043]"));
}

#[test]
fn an_empty_page_says_why() {
    let mails = Vec::new();
    let indent = Vec::new();
    let empty = vec!["first".to_string(), "second".to_string()];
    let view = ListView {
        header: header(),
        offset: 0,
        mails: &mails,
        indent: &indent,
        selected: 0,
        scroll: 0,
        selected_scroll: 0,
        empty_message: &empty,
    };
    let spans = draw_list(&view, 80, 24);
    assert_eq!(spans.len(), 4);
    assert_eq!(at(&spans[1]), (2, 2, "first", Style::Plain));
    assert_eq!(at(&spans[2]), (2, 3, "second", Style::Plain));
    assert_eq!(draw_list(&view, 80, 4).len(), 3);
    assert_eq!(draw_list(&view, 80, 3).len(), 2);
    assert!(redraw_selected_row(&view, 80, 24).is_none());
}

#[test]
fn the_marquee_goes_round() {
    let title: String = ('a'..='z').chain('A'..='Z').collect(); // 52 characters
    let mails = vec![mail(&title, "Ann")];
    let indent = vec![false];
    let empty = Vec::new();
    let shown = |ticks: usize| -> String {
        let view = ListView {
            header: header(),
            offset: 0,
            mails: &mails,
            indent: &indent,
            selected: 0,
            scroll: 0,
            selected_scroll: ticks,
            empty_message: &empty,
        };
        let span = redraw_selected_row(&view, 60, 24).unwrap();
        assert_eq!((span.x, span.y, span.style), (0, 1, Style::Selected));
        span.text.chars().skip(50).collect()
    };
    assert_eq!(shown(0), "abcdefghij");
    assert_eq!(shown(1), "bcdefghijk");
    assert_eq!(shown(48), "WXYZ    ab");
    assert_eq!(shown(56), "abcdefghij");
    assert_eq!(shown(56 * 7 + 3), shown(3));
}

#[test]
fn a_painted_row_comes_round_with_the_marquee() {
    let title = "x".repeat(30) + &"y".repeat(16); // a turn of 50 ticks
    let mails = vec![mail(&title, "Ann"), mail("short", "Bob")];
    let indent = vec![false, true];
    let empty = Vec::new();
    let row = |selected: usize, ticks: usize, idx: usize| -> Span {
        let view = ListView {
            header: header(),
            offset: 0,
            mails: &mails,
            indent: &indent,
            selected,
            scroll: 0,
            selected_scroll: ticks,
            empty_message: &empty,
        };
        draw_list(&view, 70, 24).swap_remove(1 + idx)
    };
    for ticks in 0..60 {
        assert_eq!(at(&row(0, ticks, 0)), at(&row(0, ticks + 50, 0)));
        assert_eq!(at(&row(0, ticks, 1)), at(&row(0, 0, 1)));
        assert_eq!(at(&row(1, ticks, 1)), at(&row(1, 0, 1)));
        assert_eq!(row(0, ticks, 0).text.chars().count(), 70);
    }
    assert_ne!(row(0, 20, 0).text, row(0, 0, 0).text);
}

#[test]
fn an_unselected_title_is_cut() {
    let mails = vec![mail("s", "a"), mail(&"y".repeat(90), "b")];
    let indent = vec![false, false];
    let empty = Vec::new();
    let view = ListView {
        header: header(),
        offset: 0,
        mails: &mails,
        indent: &indent,
        selected: 0,
        scroll: 0,
        selected_scroll: 5,
        empty_message: &empty,
    };
    let spans = draw_list(&view, 60, 24);
    assert!(spans[2].text.ends_with(&"y".repeat(10)));
    assert_eq!(spans[2].text.chars().count(), 60);
}

#[test]
fn a_selection_above_the_window_is_not_redrawn() {
    let mails = vec![mail("s", "a"), mail("t", "b")];
    let indent = vec![false, false];
    let empty = Vec::new();
    let view = ListView {
        header: header(),
        offset: 0,
        mails: &mails,
        indent: &indent,
        selected: 0,
        scroll: 1,
        selected_scroll: 0,
        empty_message: &empty,
    };
    assert!(redraw_selected_row(&view, 60, 24).is_none());
    let below = ListView { selected: 1, ..view };
    assert!(redraw_selected_row(&below, 60, 2).is_none());
    assert_eq!(redraw_selected_row(&below, 60, 3).unwrap().y, 1);
}

#[test]
fn a_mail_scrolls_no_further_than_its_end() {
    let text: String = (0..10).map(|n| format!("line {n}\n")).collect();
    let spans = draw_detail(&header(), &text, usize::MAX, 40, 5);
    let body: Vec<&str> = spans[1..4].iter().map(|s| s.text.as_str()).collect();
    assert_eq!(body, ["line 7", "line 8", "line 9"]);
    let spans = draw_detail(&header(), &text, 2, 4, 5);
    assert_eq!(spans[1].text, "line");
    assert_eq!(spans[1].y, 1);
    // A mail that fits does not scroll.
    let spans = draw_detail(&header(), "a\nb", 9, 40, 24);
    assert_eq!(spans[1].text, "a");
}

#[test]
fn colors_are_tracked_from_the_top_of_the_mail() {
    let text = "note\n- bullet\n@@ -1 +1 @@\n-old\n+new\n";
    let spans = draw_detail(&header(), text, 3, 40, 4);
    assert_eq!(at(&spans[1]), (0, 1, "-old", Style::Tinted(Color::Red)));
    assert_eq!(at(&spans[2]), (0, 2, "+new", Style::Tinted(Color::Green)));
    let spans = draw_detail(&header(), text, 1, 40, 4);
    assert_eq!(at(&spans[1]), (0, 1, "- bullet", Style::Plain));
}

#[test]
fn help_is_cut_to_the_window() {
    let spans = draw_help(&header(), 120, 40);
    assert_eq!(spans.len(), 23);
    assert_eq!(at(&spans[1]), (2, 2, "LKML Reader — Keys", Style::Plain));
    assert_eq!(at(&spans[3]), (2, 4, "  q          quit", Style::Plain));
    assert_eq!(at(&spans[21]), (2, 22, "Press any key to return.", Style::Plain));
    assert!(spans[22].text.starts_with(" press any key to return"));
    let small = draw_help(&header(), 6, 5);
    assert_eq!(small.len(), 4);
    assert_eq!(small[1].text, "LKML");
}

#[test]
fn a_prompt_shows_its_end() {
    assert_eq!(at(&redraw_prompt(80, "ask: ", "xyz", 23)), (0, 23, "ask: xyz", Style::Plain));
    assert_eq!(redraw_prompt(6, "ask: ", "xyz", 0).text, ": xyz");
    assert_eq!(redraw_prompt(0, "ask", "", 0).text, "");
}

#[test]
fn a_notice_takes_the_bottom_line() {
    assert_eq!(at(&draw_notice(12, 24, "No more.")), (0, 23, " No more.   ", Style::Bar));
    assert_eq!(draw_notice(4, 0, "No more.").text, " No ");
}

#[test]
fn no_screen_paints_below_the_window() {
    let mails: Vec<Message> = (0..30).map(|_| mail("s", "a")).collect();
    let indent = vec![false; 30];
    let empty = Vec::new();
    for rows in 1..30u16 {
        let view = ListView {
            header: header(),
            offset: 0,
            mails: &mails,
            indent: &indent,
            selected: 3,
            scroll: 0,
            selected_scroll: 0,
            empty_message: &empty,
        };
        let text = "x\n".repeat(40);
        for spans in [
            draw_list(&view, 80, rows),
            draw_help(&header(), 80, rows),
            draw_detail(&header(), &text, 4, 80, rows),
            draw_loading(&header(), "x", 80, rows),
        ] {
            assert!(spans.iter().all(|s| s.y < rows));
        }
    }
}
