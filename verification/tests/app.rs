use lkml_reader::app::{expand_tilde, page_size_for_terminal, Action, App, Prompt, Reload, Screen};
use lkml_reader::constraints::Constraint;
use lkml_reader::mail_source::{MailSource, PageAsk};
use lkml_reader::message::{Message, PatchTag};
use lkml_reader::source::{Page, PageState};
use lkml_reader::stream::StreamAsk;
use lkml_reader::tui::{Key, KeyPress};
use lkml_reader::ui::Style;

#[test]
fn expand_tilde_covers_home_and_leaves_the_rest() {
    let home = "/home/someone".to_string();
    let expand = |path: &str| expand_tilde(path, Some(home.clone()));
    assert_eq!(expand("~"), home);
    assert_eq!(expand("~/x/y"), format!("{home}/x/y"));
    assert_eq!(expand("/abs/path"), "/abs/path");
    assert_eq!(expand("~user/x"), "~user/x"); // only the own-home forms
}

#[test]
fn without_a_home_the_tilde_stays() {
    assert_eq!(expand_tilde("~", None), "~");
    assert_eq!(expand_tilde("~/x", None), "~/x");
    assert_eq!(expand_tilde("~/", Some("/h".to_string())), "/h");
    assert_eq!(expand_tilde("", Some("/h".to_string())), "");
}

fn press(key: Key) -> KeyPress {
    KeyPress {
        key,
        control: false,
    }
}

fn ctrl(c: char) -> KeyPress {
    KeyPress {
        key: Key::Char(c),
        control: true,
    }
}

fn mail(id: usize, patch: bool) -> Message {
    let mut m = Message::default();
    m.id = id;
    m.subject = format!("mail {id}");
    if patch {
        m.patch_tag = Some(PatchTag {
            version: 1,
            number: 1,
            total: 1,
        });
    }
    m
}

/// A reader that shows a page of three mails, the last of them a patch.
fn reading() -> App {
    let mut app = App::new("lkml".to_string(), vec![0, 1, 2], 24, "/src".to_string());
    let mails = vec![mail(10, false), mail(11, false), mail(12, true)];
    app.refresh();
    app.resolved(0, PageState::Ready(Page::flat(mails, 0)));
    app
}

fn keys(app: &mut App, text: &str) {
    for c in text.chars() {
        assert!(matches!(app.handle_key(press(Key::Char(c))), Action::Stay));
    }
}

#[test]
fn a_degenerate_window_still_has_a_row() {
    assert_eq!(page_size_for_terminal(24), 22);
    assert_eq!(page_size_for_terminal(3), 1);
    assert_eq!(page_size_for_terminal(0), 1);
}

#[test]
fn a_new_reader_is_starting() {
    let app = App::new("lkml".to_string(), vec![3, 4], 24, "/src".to_string());
    assert!(matches!(&app.view, Screen::Loading(text) if text == "Starting…"));
    assert_eq!(app.cur_epoch(), 4);
    assert_eq!(app.epoch_label(), "4 (newest of 2)");
    assert!(!app.repo_ready);
    assert_eq!(
        app.empty_message(),
        [
            "No local mirror for list 'lkml'.",
            "The TUI clones the latest epoch automatically — check your network and try again."
        ]
    );
    let none = App::new("x".to_string(), Vec::new(), 24, String::new());
    assert_eq!((none.cur_epoch(), none.epoch_label().as_str()), (0, "-"));
}

#[test]
fn starting_up_tells_what_it_does() {
    let mut app = App::new("lkml".to_string(), Vec::new(), 24, String::new());
    app.fetching_manifest();
    assert!(matches!(&app.view, Screen::Loading(t) if t == "Fetching manifest for 'lkml'…"));
    app.adopt_epochs(None);
    assert!(app.epochs.is_empty());
    app.adopt_epochs(Some(vec![0, 7]));
    assert_eq!(app.preparing_mirror(true), 7);
    assert!(matches!(&app.view, Screen::Loading(t) if t == "Updating mirror lkml epoch 7…"));
    app.preparing_mirror(false);
    assert!(matches!(&app.view, Screen::Loading(t)
        if t == "Cloning mirror lkml epoch 7 (this may take a while)…"));
    app.loading_mails();
    assert!(matches!(&app.view, Screen::Loading(t) if t == "Loading mails…"));
    assert_eq!(app.refresh(), 0);
    assert!(app.repo_ready);
    let (_, ask) = app.resolve_page(0);
    assert!(matches!(ask, PageAsk::Archive(StreamAsk::RepoExists(7))));
    assert_eq!(app.empty_message(), ["No mails on this page."]);
}

#[test]
fn list_keys_move_the_selection() {
    let mut app = reading();
    app.handle_key(press(Key::Down));
    app.handle_key(press(Key::Down));
    app.handle_key(press(Key::Down));
    assert_eq!(app.pages.selected(), 2);
    app.handle_key(press(Key::Up));
    assert_eq!(app.pages.selected(), 1);
    app.handle_key(press(Key::End));
    assert_eq!(app.pages.selected(), 2);
    app.handle_key(press(Key::Home));
    assert_eq!(app.pages.selected(), 0);
}

#[test]
fn list_keys_turn_pages() {
    let mut app = reading();
    assert!(matches!(app.handle_key(press(Key::Left)), Action::Stay));
    assert!(matches!(app.handle_key(press(Key::Right)), Action::Serve(3)));
    app.resolved(3, PageState::Ready(Page::flat(vec![mail(20, false)], 3)));
    assert!(matches!(app.handle_key(press(Key::Left)), Action::Serve(0)));
    assert_eq!(app.pages.label(), "2");
}

#[test]
fn list_keys_open_and_reply() {
    let mut app = reading();
    app.handle_key(press(Key::Down));
    assert!(matches!(app.handle_key(press(Key::Enter)), Action::Open(11)));
    assert!(matches!(app.handle_key(press(Key::Char('r'))), Action::Reply(11)));
    app.opened("text".to_string());
    assert!(matches!(app.view, Screen::Detail));
    assert_eq!((app.detail_text.as_str(), app.detail_scroll), ("text", 0));
    app.reply_failed("no editor");
    assert_eq!(app.notice.as_deref(), Some("Reply not sent: no editor"));
    let mut empty = App::new("l".to_string(), Vec::new(), 24, String::new());
    empty.show_list();
    for key in [Key::Enter, Key::Char('r'), Key::Char('p'), Key::Right, Key::Left] {
        assert!(matches!(empty.handle_key(press(key)), Action::Stay));
    }
    assert!(empty.prompt.is_none());
}

#[test]
fn quitting_works_from_list_and_loading() {
    assert!(matches!(reading().handle_key(press(Key::Char('q'))), Action::Quit));
    assert!(matches!(reading().handle_key(ctrl('c')), Action::Quit));
    let mut app = reading();
    app.loading_mails();
    assert!(matches!(app.handle_key(press(Key::Esc)), Action::Stay));
    assert!(matches!(app.view, Screen::Loading(_)));
    assert!(matches!(app.handle_key(press(Key::Char('q'))), Action::Quit));
    app.opened(String::new());
    assert!(matches!(app.handle_key(ctrl('c')), Action::Quit));
}

#[test]
fn help_is_left_with_any_key() {
    let mut app = reading();
    app.handle_key(press(Key::Char('?')));
    assert!(matches!(app.view, Screen::Help));
    assert!(matches!(app.handle_key(press(Key::Char('q'))), Action::Stay));
    assert!(matches!(app.view, Screen::List));
}

#[test]
fn detail_keys_scroll() {
    let mut app = reading();
    app.opened("x".to_string());
    let steps = [
        (Key::Down, 1),
        (Key::PageDown, 21),
        (Key::Char(' '), 41),
        (Key::Up, 40),
        (Key::PageUp, 20),
        (Key::Home, 0),
        (Key::Up, 0),
        (Key::PageUp, 0),
        (Key::End, usize::MAX),
        (Key::Down, usize::MAX),
        (Key::Char('g'), 0),
        (Key::Char('G'), usize::MAX),
        (Key::Other, usize::MAX),
    ];
    for (key, line) in steps {
        assert!(matches!(app.handle_key(press(key)), Action::Stay));
        assert_eq!(app.detail_scroll, line);
    }
    for key in [Key::Esc, Key::Char('q'), Key::Backspace] {
        app.opened("x".to_string());
        app.handle_key(press(key));
        assert!(matches!(app.view, Screen::List));
    }
}

#[test]
fn a_notice_goes_with_the_next_key_which_still_acts() {
    let mut app = reading();
    app.apply_failed("boom");
    assert_eq!(app.notice.as_deref(), Some("Not applied: boom"));
    app.handle_key(press(Key::Down));
    assert!(app.notice.is_none());
    assert_eq!(app.pages.selected(), 1);
}

#[test]
fn only_patches_are_applied() {
    let mut app = reading();
    app.handle_key(press(Key::Char('p')));
    assert_eq!(app.notice.as_deref(), Some("Not a patch mail."));
    assert!(app.prompt.is_none());
    app.handle_key(press(Key::End));
    app.handle_key(press(Key::Char('p')));
    let (kind, _) = app.prompt.as_ref().unwrap();
    assert_eq!(app.prompt_label(kind), "Apply series to git repo [/src]: ");
    keys(&mut app, " ~/linux ");
    match app.handle_key(press(Key::Enter)) {
        Action::Apply(m, answer) => {
            assert_eq!((m.id, answer.as_str()), (12, "~/linux"));
            let target = app.apply_target(&answer, Some("/h".to_string()));
            assert_eq!(target, "/h/linux");
            app.adopt_repo(&target, false);
            assert_eq!(app.repo_path, "/src");
            app.adopt_repo(&target, true);
            assert_eq!(app.repo_path, "/h/linux");
        }
        other => panic!("{other:?}"),
    }
    assert!(app.prompt.is_none());
    assert_eq!(app.apply_target("", None), "/h/linux");
}

#[test]
fn filters_are_asked_for() {
    for (key, which) in [
        ('/', Constraint::Subject),
        ('f', Constraint::Subject),
        ('a', Constraint::Author),
        ('d', Constraint::Date),
    ] {
        let mut app = reading();
        app.handle_key(press(Key::Char(key)));
        match app.prompt.as_ref().unwrap() {
            (Prompt::Filter(w), input) => assert_eq!((*w, input.as_str()), (which, "")),
            other => panic!("{other:?}"),
        }
    }
}

#[test]
fn an_answered_filter_starts_over() {
    let mut app = reading();
    keys(&mut app, "/mm");
    assert!(matches!(app.handle_key(press(Key::Enter)), Action::Refilter));
    assert_eq!(app.apply_filter(&vec![true, false, true]), [2, 0]);
    assert!(matches!(&app.source, MailSource::Filtered(f) if f.uncloned == [1]));
    assert!(app.pages.current().is_empty());
    assert_eq!(
        app.empty_message(),
        ["No mails match filter. Press '/', 'a' or 'd' to change it."]
    );
    // The scan has nothing yet: a loading screen, and the page stays pending.
    let (_, ask) = app.resolve_page(0);
    let state = match ask {
        PageAsk::Finished(state) => state,
        other => panic!("{other:?}"),
    };
    app.resolved(0, state);
    assert!(matches!(&app.view, Screen::Loading(t) if t.ends_with("(0 matches so far)")));
    assert_eq!(app.poll_source(vec![mail(1, false)], false), Some(0));
    assert_eq!(app.poll_source(Vec::new(), true), Some(0));
    let (_, ask) = app.resolve_page(0);
    let state = match ask {
        PageAsk::Finished(state) => state,
        other => panic!("{other:?}"),
    };
    app.resolved(0, state);
    assert!(matches!(app.view, Screen::List));
    assert_eq!(app.pages.current().len(), 1);
    // Served, so that nothing serves it again.
    assert_eq!(app.poll_source(Vec::new(), false), None);
    // An empty answer clears the filter and falls back to the stream.
    app.handle_key(press(Key::Char('/')));
    assert!(matches!(app.handle_key(press(Key::Enter)), Action::Refilter));
    assert!(app.apply_filter(&vec![true, false, true]).is_empty());
    assert!(matches!(app.source, MailSource::Stream(_)));
}

#[test]
fn a_bad_date_is_told_and_changes_nothing() {
    let mut app = reading();
    keys(&mut app, "dsoon");
    assert!(matches!(app.handle_key(press(Key::Enter)), Action::Stay));
    assert!(app.notice.as_deref().unwrap().starts_with("Invalid date filter: "));
    assert!(!app.filters.is_active());
    assert!(app.prompt.is_none());
}

#[test]
fn a_prompt_owns_the_keyboard() {
    let mut app = reading();
    keys(&mut app, "/q");
    assert_eq!(app.prompt.as_ref().unwrap().1, "q");
    assert!(matches!(app.handle_key(press(Key::Down)), Action::Stay));
    assert!(matches!(app.handle_key(ctrl('x')), Action::Stay));
    assert_eq!(app.prompt.as_ref().unwrap().1, "q");
    assert_eq!(app.pages.selected(), 0);
    keys(&mut app, "é");
    app.handle_key(press(Key::Backspace));
    assert_eq!(app.prompt.as_ref().unwrap().1, "q");
    app.handle_key(press(Key::Backspace));
    app.handle_key(press(Key::Backspace));
    assert_eq!(app.prompt.as_ref().unwrap().1, "");
    assert!(matches!(app.handle_key(ctrl('c')), Action::Stay));
    assert!(app.prompt.is_none());
    keys(&mut app, "/x");
    app.handle_key(press(Key::Esc));
    assert!(app.prompt.is_none());
    assert!(!app.filters.is_active());
}

#[test]
fn the_end_of_the_stream_is_told_past_the_first_page() {
    let mut app = reading();
    app.resolved(0, PageState::End);
    assert!(app.notice.is_none());
    app.resolved(3, PageState::End);
    assert_eq!(app.notice.as_deref(), Some("No more mails."));
    assert_eq!(app.pages.current().len(), 3);
    assert!(matches!(app.view, Screen::List));
}

#[test]
fn an_update_reloads() {
    let mut app = reading();
    assert!(matches!(app.handle_key(press(Key::Char('u'))), Action::Update(2)));
    assert!(matches!(&app.view, Screen::Loading(t) if t == "Updating mirror lkml epoch 2…"));
    assert_eq!(app.mirror_updated(true), Reload::Anew);
    assert!(matches!(&app.view, Screen::Loading(t) if t == "Reloading mails…"));
    app.filters.set(Constraint::Subject, "mm").unwrap();
    assert_eq!(app.mirror_updated(true), Reload::Refiltered);
    assert_eq!(app.mirror_updated(false), Reload::Nothing);
    assert!(matches!(app.view, Screen::List));
}

#[test]
fn a_resize_serves_the_page_again() {
    let mut app = reading();
    app.handle_key(press(Key::Right));
    app.resolved(3, PageState::Ready(Page::flat(vec![mail(20, false)], 3)));
    assert_eq!(app.resize(10), 3);
    assert_eq!(app.pages.page_size(), 8);
}

#[test]
fn questions_name_list_and_epoch() {
    let app = reading();
    assert_eq!(app.clone_question(1), "Clone lkml epoch 1? [y/N]: ");
    assert_eq!(
        app.clone_progress(1),
        "Cloning lkml epoch 1 (this may take a while)…"
    );
    assert_eq!(
        app.series_progress(),
        "Finding the rest of the series in the lkml mirror…"
    );
}

#[test]
fn everything_up_is_painted() {
    let mut app = reading();
    let spans = app.render(120, 24);
    assert_eq!(spans.len(), 5);
    assert!(spans[0].text.starts_with(
        " LKML Reader  —  list: lkml   epoch: 2 (newest of 3)   page: 1   subject: (none) "
    ));
    assert_eq!(spans[1].style, Style::Selected);
    app.apply_failed("x");
    app.handle_key(press(Key::Other));
    app.reply_failed("y");
    let spans = app.render(80, 24);
    assert_eq!(spans.len(), 6);
    assert!(spans[5].text.starts_with(" Reply not sent: y "));
    keys(&mut app, "/ab");
    let spans = app.render(80, 24);
    assert_eq!(
        spans[5].text,
        "Filter (subject substring, empty=clear) [(none)]: ab"
    );
    assert_eq!((spans[5].x, spans[5].y), (0, 23));
    app.loading_mails();
    assert_eq!(app.render(80, 24)[1].text, "⏳  Loading mails…");
    app.opened("one\ntwo".to_string());
    assert_eq!(app.render(80, 24)[2].text, "two");
}

#[test]
fn the_title_of_the_selected_row_scrolls() {
    let mut app = reading();
    assert!(!app.tick_title_scroll(80));
    let mut wide = mail(1, false);
    wide.subject = "abcdefghijklmnopqrstuvwxyz0123456789".to_string();
    app.resolved(0, PageState::Ready(Page::flat(vec![wide, mail(2, false)], 0)));
    assert!(app.tick_title_scroll(80));
    assert!(app.tick_title_scroll(80));
    assert_eq!(app.title_scroll, 2);
    keys(&mut app, "/");
    assert!(!app.tick_title_scroll(80)); // the marquee pauses under a prompt
    assert_eq!(app.title_scroll, 2);
    app.handle_key(press(Key::Esc));
    let span = app.render_selected_title(80, 24).unwrap();
    assert_eq!(span.y, 1);
    assert!(span.text.ends_with(" cdefghijklmnopqrstuvwxyz012345"));
    app.handle_key(press(Key::Down));
    assert_eq!(app.title_scroll, 0);
    assert!(!app.tick_title_scroll(80));
    assert_eq!(app.render_selected_title(80, 24).unwrap().y, 2);
    assert!(app.render_selected_title(80, 2).is_none());
    app.handle_key(press(Key::Char('?')));
    assert!(app.render_selected_title(80, 24).is_none());
    assert!(!app.tick_title_scroll(80));
}

#[test]
fn the_highest_epoch_is_the_newest() {
    let json = "\"/l/git/2.git\" \"/l/git/0.git\" \"/l/git/11.git\"";
    let epochs = lkml_reader::archive::manifest_epochs(json, "l");
    let app = App::new("l".to_string(), epochs, 24, String::new());
    assert_eq!(app.cur_epoch(), 11);
}
