use lkml_reader::message::{Message, PatchTag};
use lkml_reader::patch::{
    am_args, am_outcome, incomplete_answer, patch_file, plan_apply, probe_args,
};
use lkml_reader::reply::{choose_editor, draft_file, edit_outcome, send_args, send_outcome};
use lkml_reader::tui::{confirm_line, screen_size, Key, KeyPress};

fn patch(number: u32, total: Option<u32>) -> Message {
    let mut m = Message::default();
    m.subject = format!("[PATCH {number}]");
    m.patch_tag = total.map(|total| PatchTag {
        version: 1,
        number,
        total,
    });
    m
}

#[test]
fn a_series_needs_patches_and_a_repository() {
    assert_eq!(
        plan_apply("/r", true, &Vec::new()).unwrap_err(),
        "no patch mails found in this thread"
    );
    assert_eq!(
        plan_apply("/r", false, &Vec::new()).unwrap_err(),
        "no patch mails found in this thread"
    );
    assert_eq!(
        plan_apply("/r", false, &vec![patch(1, Some(1))]).unwrap_err(),
        "not a git repository: /r"
    );
}

#[test]
fn a_whole_series_is_applied_without_a_question() {
    let plan = plan_apply("/r", true, &vec![patch(1, Some(2)), patch(2, Some(2))]).unwrap();
    assert_eq!(plan.intro, "\nApplying to /r:\n\n  [PATCH 1]\n  [PATCH 2]\n");
    assert_eq!(plan.expected, 2);
    assert!(plan.warning.is_none());
    // A mail that says nothing counts as a series of one.
    let plan = plan_apply("/r", true, &vec![patch(1, None)]).unwrap();
    assert_eq!(plan.expected, 1);
    assert!(plan.warning.is_none());
}

#[test]
fn an_incomplete_series_is_warned_of() {
    let plan = plan_apply("/r", true, &vec![patch(1, Some(2)), patch(2, Some(5))]).unwrap();
    assert_eq!(plan.expected, 5);
    assert_eq!(
        plan.warning.unwrap(),
        "\nWarning: the series says 5 patches, but only 2 were found in the mirror.\n"
    );
    let none = plan_apply("/r", true, &vec![patch(1, Some(0))]).unwrap();
    assert_eq!(none.expected, 0);
    assert!(none.warning.is_some());
    assert_eq!(incomplete_answer(" y\n"), Ok(()));
    assert_eq!(incomplete_answer("yes"), Err("aborted".to_string()));
}

#[test]
fn patches_are_handed_to_git() {
    assert_eq!(patch_file(0), "0001.patch");
    assert_eq!(patch_file(9999), "10000.patch");
    assert_eq!(
        am_args("/r", &vec!["a".to_string(), "b".to_string()]),
        ["-C", "/r", "am", "a", "b"]
    );
    assert_eq!(am_args("/r", &Vec::new()), ["-C", "/r", "am"]);
    assert_eq!(probe_args("/r"), ["-C", "/r", "rev-parse", "--git-dir"]);
    assert_eq!(am_outcome("/r", true), Ok(()));
    assert_eq!(
        am_outcome("/r", false).unwrap_err(),
        "git am failed; the tree is mid-apply (git -C /r am --abort to undo)"
    );
}

#[test]
fn a_reply_goes_through_the_editor() {
    let some = |s: &str| Some(s.to_string());
    assert_eq!(choose_editor(some("ed"), some("vim")), "ed");
    assert_eq!(choose_editor(None, some("vim")), "vim");
    assert_eq!(choose_editor(None, None), "vi");
    assert_eq!(draft_file(42), "lkml-reply-42.mbox");
    assert_eq!(edit_outcome("ed", true, "exit status: 0"), Ok(()));
    assert_eq!(
        edit_outcome("ed", false, "exit status: 1").unwrap_err(),
        "ed exited with exit status: 1, reply discarded"
    );
    assert_eq!(send_args("/t/x"), ["send-email", "--confirm=always", "/t/x"]);
    assert_eq!(send_outcome(true), Ok(()));
    assert_eq!(send_outcome(false).unwrap_err(), "git send-email failed");
}

#[test]
fn only_y_agrees() {
    for (line, yes) in [("y", true), (" Y \n", true), ("", false), ("yes", false), ("n", false)] {
        assert_eq!(confirm_line(line), yes);
    }
    let press = |key: Key, control: bool| KeyPress { key, control };
    assert!(press(Key::Char('y'), false).agrees());
    assert!(press(Key::Char('Y'), false).agrees());
    assert!(!press(Key::Char('c'), true).agrees());
    assert!(!press(Key::Enter, false).agrees());
    assert!(press(Key::Char('c'), true).is_interrupt());
    assert!(!press(Key::Char('c'), false).is_interrupt());
}

#[test]
fn an_unknown_terminal_has_a_sane_size() {
    assert_eq!(screen_size(Some((120, 50))), (120, 50));
    assert_eq!(screen_size(None), (80, 24));
}
