use lkml_reader::message::Message;
use lkml_reader::pages::Pages;
use lkml_reader::source::Page;

fn mails(len: usize) -> Vec<Message> {
    (0..len).map(|_| Message::default()).collect()
}

fn page(offset: usize, len: usize) -> Page {
    Page::flat(mails(len), offset)
}

#[test]
fn boundaries_are_remembered_and_never_duplicated() {
    let mut p = Pages::new(5);
    p.accept(page(0, 5));
    assert_eq!(p.next_target(), Some(5));
    p.accept(page(5, 7)); // grew past page_size to finish a series
    assert_eq!(p.label(), "2");
    assert_eq!(p.next_target(), Some(12));
    p.accept(page(12, 5));
    assert_eq!(p.prev_target(), Some(5));
    p.accept(page(5, 7));
    // Crossing a known boundary again must not record it twice.
    assert_eq!(p.next_target(), Some(12));
    assert_eq!(p.prev_target(), Some(0));
    p.accept(page(0, 5));
    assert_eq!(p.prev_target(), None);
    assert_eq!(p.label(), "1");
}

#[test]
fn empty_page_has_no_next() {
    let mut p = Pages::new(5);
    assert_eq!(p.next_target(), None);
}

#[test]
fn reset_starts_over_at_page_zero() {
    let mut p = Pages::new(5);
    p.accept(page(0, 5));
    p.next_target();
    p.begin(5);
    assert_eq!(p.pending(), Some(5));
    assert_eq!(p.reset(), 0);
    assert_eq!(p.pending(), None);
    assert!(p.current().is_empty());
    assert_eq!(p.prev_target(), None);
}

#[test]
fn resize_forgets_boundaries_cut_for_the_old_height() {
    let mut p = Pages::new(5);
    p.accept(page(0, 5));
    p.next_target();
    p.accept(page(5, 5));
    p.next_target(); // boundary at 10, cut for the old height
    assert_eq!(p.resize(3), 5); // re-serve the current page…
    p.accept(page(5, 3));
    assert_eq!(p.prev_target(), Some(0)); // …the way back survives
    assert_eq!(p.next_target(), Some(8)); // …the way forward is recut
}

#[test]
fn selection_scrolls_the_window_along() {
    let mut p = Pages::new(2);
    p.accept(page(0, 4)); // page taller than the window
    assert!(!p.select_prev());
    assert!(p.select_next());
    assert_eq!((p.selected(), p.scroll()), (1, 0));
    assert!(p.select_next());
    assert_eq!((p.selected(), p.scroll()), (2, 1)); // window followed down
    assert!(p.select_next());
    assert!(!p.select_next()); // bottom row
    assert_eq!((p.selected(), p.scroll()), (3, 2));
    while p.select_prev() {}
    assert_eq!((p.selected(), p.scroll()), (0, 0)); // and back up
}

#[test]
fn accept_shows_the_new_page_from_the_top() {
    let mut p = Pages::new(2);
    p.accept(page(0, 4));
    p.select_next();
    p.select_next();
    p.accept(page(4, 4));
    assert_eq!((p.selected(), p.scroll()), (0, 0));
}

#[test]
fn going_on_from_a_recut_page_is_remembered() {
    let mut p = Pages::new(5);
    p.accept(page(0, 5));
    assert_eq!(p.next_target(), Some(5));
    p.accept(page(5, 5));
    assert_eq!(p.resize(3), 5);
    p.accept(page(5, 3));
    assert_eq!(p.prev_target(), Some(0));
    p.accept(page(0, 3)); // cut for the new height
    assert_eq!(p.next_target(), Some(3));
    p.accept(page(3, 3));
    assert_eq!(p.label(), "2");
    assert_eq!(p.prev_target(), Some(0));
    assert_eq!(p.next_target(), Some(6)); // the boundary at 5 is gone
    p.accept(page(6, 3));
    assert_eq!(p.label(), "3");
    assert_eq!(p.prev_target(), Some(3));
}

#[test]
fn every_page_that_a_step_leads_to_is_a_boundary() {
    let mut p = Pages::new(4);
    p.accept(page(0, 4));
    for size in [3, 7, 1, 4] {
        let next = p.next_target().unwrap();
        p.accept(page(next, size));
        let again = p.resize(size);
        assert_eq!(again, next);
        p.accept(page(again, size));
        assert_ne!(p.label(), "1");
        let back = p.prev_target().unwrap();
        p.accept(page(back, size));
        assert_eq!(p.next_target(), Some(back + size));
        p.accept(page(back + size, size));
        assert_eq!(p.prev_target(), Some(back));
    }
}

#[test]
fn a_page_that_no_step_leads_to_is_numbered_one() {
    let mut p = Pages::new(5);
    p.accept(page(3, 5));
    assert_eq!(p.label(), "1");
    assert_eq!(p.prev_target(), None);
}

#[test]
fn settling_leaves_nothing_pending() {
    let mut p = Pages::new(5);
    p.begin(7);
    p.settle();
    assert_eq!(p.pending(), None);
    assert_eq!(p.page_size(), 5);
}

#[test]
fn first_and_last_row_are_one_step_away() {
    let mut p = Pages::new(3);
    p.accept(page(0, 10));
    assert!(p.select_last());
    assert_eq!((p.selected(), p.scroll()), (9, 7));
    assert!(!p.select_last());
    assert!(p.select_first());
    assert_eq!((p.selected(), p.scroll()), (0, 0));
    assert!(!p.select_first());
}

#[test]
fn stepping_back_undoes_stepping_on() {
    let mut p = Pages::new(4);
    p.accept(page(0, 4));
    for n in 0..5usize {
        let here = p.current().offset;
        let label = p.label();
        let next = p.next_target().unwrap();
        p.accept(page(next, 4 + n));
        assert_eq!(p.prev_target(), Some(here));
        assert_eq!(p.label(), format!("{}", label.parse::<usize>().unwrap() + 1));
    }
}

#[test]
fn down_and_up_again_is_the_same_row() {
    let mut p = Pages::new(2);
    p.accept(page(0, 5));
    for row in 0..4usize {
        assert_eq!(p.selected(), row);
        p.select_next();
        p.select_prev();
        assert_eq!(p.selected(), row);
        p.select_next();
    }
}

#[test]
fn the_mail_under_the_cursor() {
    let mut p = Pages::new(2);
    assert!(p.selected_mail().is_none());
    let mut list = mails(2);
    list[1].subject = "second".to_string();
    p.accept(Page::flat(list, 0));
    p.select_next();
    assert_eq!(p.selected_mail().unwrap().subject, "second");
}

#[test]
fn a_window_without_rows_keeps_the_selection_moving() {
    let mut p = Pages::new(0);
    p.accept(page(0, 3));
    assert!(p.select_next());
    assert_eq!((p.selected(), p.scroll()), (1, 2));
    assert!(p.select_next());
    assert_eq!((p.selected(), p.scroll()), (2, 3));
    assert!(p.select_prev());
    assert_eq!((p.selected(), p.scroll()), (1, 1));
}
