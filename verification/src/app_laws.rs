//! What the reader's keys, pages and labels amount to.

use vstd::prelude::*;

use crate::app::{expanded, newest, of_epoch, page_rows, Action, App, Prompt, Screen};
use crate::constraints::Constraint;
use crate::message::Message;
use crate::pages::{ascend, lemma_index_of, lemma_up_to, up_to, Pages};
use crate::source::PageState;
use crate::text::{decimal, is_white};
use crate::text_laws::law_trimming_takes_off_white_space;
use crate::tui::{Key, KeyPress};
use crate::ui::{last_row, number_width, prompt_tail, HeaderInfo, ListView, Mark, Style};
use crate::ui_laws::law_a_bar_shows_its_text;

verus! {

// ---------------------------------------------------------------------------
// Rows
// ---------------------------------------------------------------------------

/// The two states show the same page, and came there the same way.
pub open spec fn same_page(a: Pages, b: Pages) -> bool {
    &&& a.page_size == b.page_size
    &&& a.current == b.current
    &&& a.offsets == b.offsets
    &&& a.pending == b.pending
}

/// A selection moves to the row next to it, stays on the page, and takes the
/// window no further than it must: the window stays where the row is in it
/// already, and has the row at its edge where it is not.
pub proof fn law_the_selection_moves_row_by_row(pages: Pages)
    requires
        pages.wf(),
        pages.page_size > 0,
        pages.selection_shows(),
        pages.current.mails@.len() > 0,
    ensures
        ({
            let last = pages.current.mails@.len() - 1;
            let down = pages.row_down();
            let up = pages.row_up();
            &&& same_page(pages, down) && same_page(pages, up)
            &&& pages.selected < last ==> down.selected - pages.selected == 1
            &&& pages.selected == last ==> down == pages
            &&& pages.selected > 0 ==> pages.selected - up.selected == 1
            &&& pages.selected == 0 ==> up == pages
            &&& down.selected - pages.scroll < pages.page_size ==> down.scroll == pages.scroll
            &&& down.selected - pages.scroll == pages.page_size ==> down.scroll - pages.scroll == 1
            &&& up.selected >= pages.scroll ==> up.scroll == pages.scroll
            &&& up.selected < pages.scroll ==> pages.scroll - up.scroll == 1
        }),
{
}

/// The first and the last row of a page are one key away, and the window that
/// shows the last row has no empty line below it, unless it shows all rows
/// from where it stood.
pub proof fn law_the_ends_of_a_page_are_in_reach(pages: Pages)
    requires
        pages.wf(),
        pages.page_size > 0,
        pages.selection_shows(),
        pages.current.mails@.len() > 0,
    ensures
        ({
            let n = pages.current.mails@.len();
            let top = pages.top_row();
            let bottom = pages.bottom_row();
            &&& same_page(pages, top) && same_page(pages, bottom)
            &&& top.selected == 0 && top.scroll == 0
            &&& bottom.selected == n - 1
            &&& bottom.scroll <= n - 1 < bottom.scroll + pages.page_size
            &&& bottom.scroll == pages.scroll || bottom.scroll + pages.page_size == n
            &&& bottom.scroll >= pages.scroll
        }),
{
}

// ---------------------------------------------------------------------------
// Pages
// ---------------------------------------------------------------------------

/// A page is numbered by how many boundaries stand before its own, and the
/// boundary right before its own is where the page before it starts.
pub proof fn law_pages_are_numbered_by_their_boundaries(
    pages: Pages,
    before: Seq<usize>,
    after: Seq<usize>,
)
    requires
        ascend(pages.offsets@),
        pages.offsets@ == before + seq![pages.current.offset] + after,
    ensures
        pages.number_text() == decimal(before.len() + 1),
        before.len() == 0 ==> pages.previous() is None,
        before.len() > 0 ==> pages.previous() == Some(before.last()),
{
    let v = pages.offsets@;
    let at = pages.current.offset;
    let n = before.len() as int;
    assert(v[n] == at);
    assert(v.contains(at));
    lemma_index_of(v, at);
    let i = pages.page_index().unwrap();
    if i < n {
        assert(v[i] < v[n]);
    }
    if n > 0 {
        assert(v[n - 1] == before[n - 1]);
    }
}

/// The next page starts where this one ends, and its start is the boundary
/// behind this page's own. The boundaries further on are kept only where the
/// next one was known already.
pub proof fn law_the_next_page_starts_where_this_one_ends(
    pages: Pages,
    before: Seq<usize>,
    further: Seq<usize>,
    crossing: Pages,
)
    requires
        pages.wf(),
        pages.end_fits(),
        pages.offsets@ == before + seq![pages.current.offset] + further,
        pages.current.mails@.len() > 0,
        pages.crossed(crossing),
    ensures
        ({
            let start = pages.current.offset;
            let end = (start + pages.current.mails@.len()) as usize;
            &&& pages.following() == Some(end)
            &&& end - start == pages.current.mails@.len()
            &&& further.len() > 0 && further[0] == end ==> crossing.offsets@ == pages.offsets@
            &&& further.len() == 0 || further[0] != end ==> crossing.offsets@ == before + seq![
                start,
                end,
            ]
            &&& crossing.current == pages.current && crossing.selected == pages.selected
                && crossing.scroll == pages.scroll && crossing.page_size == pages.page_size
                && crossing.pending == pages.pending
        }),
{
    let start = pages.current.offset;
    let end = (start + pages.current.mails@.len()) as usize;
    lemma_boundary(pages.offsets@, before, start, further);
    assert(before.push(start).push(end) =~= before + seq![start, end]);
}

proof fn lemma_boundary(all: Seq<usize>, before: Seq<usize>, at: usize, further: Seq<usize>)
    requires
        ascend(all),
        all == before + seq![at] + further,
    ensures
        up_to(all, at) == before.push(at),
        all.len() == before.len() + 1 + further.len(),
        further.len() > 0 ==> all[before.len() as int + 1] == further[0],
{
    let n = before.len() as int;
    assert(all[n] == at);
    if further.len() > 0 {
        assert(all[n + 1] == further[0]);
        assert(all[n] < all[n + 1]);
    }
    law_later_boundaries_are_forgotten(all, before.push(at), further, at);
}

/// Of ascending boundaries, those up to a limit are kept, and those past it
/// are forgotten.
pub proof fn law_later_boundaries_are_forgotten(
    all: Seq<usize>,
    kept: Seq<usize>,
    later: Seq<usize>,
    limit: usize,
)
    requires
        ascend(all),
        all =~= kept + later,
        kept.len() > 0 ==> kept.last() <= limit,
        later.len() > 0 ==> later[0] > limit,
    ensures
        up_to(all, limit) == kept,
{
    lemma_up_to(all, limit);
    let n = kept.len() as int;
    let m = up_to(all, limit).len() as int;
    if n > 0 {
        assert(all[n - 1] == kept[n - 1]);
    }
    if later.len() > 0 {
        assert(all[n] == later[0]);
    }
    assert(m == n);
    assert(all.take(n) =~= kept);
}

/// A window shows as many rows of a page as it has lines between its two bars,
/// and a page aims to fill them.
pub proof fn law_a_page_fills_the_window(rows: u16)
    ensures
        rows >= 3 ==> page_rows(rows) + 2 == rows,
        rows < 3 ==> page_rows(rows) == 1,
{
}

// ---------------------------------------------------------------------------
// Keys
// ---------------------------------------------------------------------------

/// Nothing but `c` with Control held interrupts.
pub proof fn law_only_ctrl_c_interrupts(key: Key, control: bool)
    ensures
        (KeyPress { key, control }).interrupts() <==> key == Key::Char('c') && control,
{
}

/// The two readers differ at most in their prompt and their notice.
pub open spec fn same_but_prompt(a: App, b: App) -> bool {
    b == (App { prompt: b.prompt, notice: b.notice, ..a })
}

/// In the list, Enter opens the selected mail and `r` replies to it, the arrows
/// turn the pages and move the selection, and nothing moves on a page without
/// mails.
pub proof fn law_keys_act_on_the_selected_mail(app: App, after: App, action: Action, key: Key)
    requires
        app.wf(),
        app.view == Screen::List,
        app.prompt is None,
        app.step(KeyPress { key, control: false }, after, action),
    ensures
        ({
            let n = app.pages.current.mails@.len();
            let id = app.pages.current.mails@[app.pages.selected as int].id;
            &&& key == Key::Enter && n > 0 ==> action == Action::Open(id)
            &&& key == Key::Char('r') && n > 0 ==> action == Action::Reply(id)
            &&& key == Key::Right && n > 0 ==> action == Action::Serve(
                (app.pages.current.offset + n) as usize,
            )
            &&& n == 0 ==> !(action is Open || action is Reply)
            &&& key == Key::Right && n == 0 ==> action == Action::Stay
            &&& key == Key::Enter || key == Key::Char('r') || key == Key::Left ==> after
                == app.quiet()
            &&& action is Open ==> key == Key::Enter
            &&& action is Reply ==> key == Key::Char('r')
            &&& action is Serve ==> key == Key::Left || key == Key::Right
            &&& action == Action::Quit <==> key == Key::Char('q')
        }),
{
}

/// In the list, the keys that move the selection do nothing else, and another
/// row shows its title from the start.
pub proof fn law_keys_that_move_the_selection_only_do_that(
    app: App,
    after: App,
    action: Action,
    key: Key,
)
    requires
        app.wf(),
        app.view == Screen::List,
        app.prompt is None,
        app.step(KeyPress { key, control: false }, after, action),
        key == Key::Down || key == Key::Up || key == Key::Home || key == Key::End,
        app.pages.current.mails@.len() > 0,
    ensures
        action == Action::Stay,
        after == (App { pages: after.pages, title_scroll: after.title_scroll, ..app.quiet() }),
        after.pages.selected != app.pages.selected ==> after.title_scroll == 0,
        after.pages.selected == app.pages.selected ==> after.title_scroll == app.title_scroll,
        key == Key::Down && app.pages.selected + 1 < app.pages.current.mails@.len()
            ==> after.pages.selected - app.pages.selected == 1,
        key == Key::Up && app.pages.selected > 0 ==> app.pages.selected - after.pages.selected == 1,
        key == Key::Home ==> after.pages.selected == 0,
        key == Key::End ==> after.pages.selected == app.pages.current.mails@.len() - 1,
        after.pages.current == app.pages.current,
{
}

/// In the list, `/` and `f` ask for the subject, `a` for the author and `d` for
/// the date, from an empty line; no other key opens one of these prompts.
pub proof fn law_each_filter_has_its_key(app: App, after: App, action: Action, key: Key)
    requires
        app.view == Screen::List,
        app.prompt is None,
        app.step(KeyPress { key, control: false }, after, action),
    ensures
        after.prompt matches Some((Prompt::Filter(which), input)) ==> {
            &&& input@.len() == 0
            &&& action == Action::Stay
            &&& same_but_prompt(app, after)
            &&& after.notice is None
        },
        key == Key::Char('/') || key == Key::Char('f') <==> (after.prompt matches Some(
            (Prompt::Filter(Constraint::Subject), _),
        )),
        key == Key::Char('a') <==> (after.prompt matches Some(
            (Prompt::Filter(Constraint::Author), _),
        )),
        key == Key::Char('d') <==> (after.prompt matches Some(
            (Prompt::Filter(Constraint::Date), _),
        )),
{
}

/// With `p` the series of the selected mail is to be applied where the mail is
/// a patch, from the list and from the open mail alike; any other mail is told
/// to be none. No other key asks for a repository.
pub proof fn law_only_patches_are_applied(app: App, after: App, action: Action, key: Key)
    requires
        app.wf(),
        app.view == Screen::List || app.view == Screen::Detail,
        app.prompt is None,
        app.step(KeyPress { key, control: false }, after, action),
    ensures
        ({
            let n = app.pages.current.mails@.len();
            let mail = app.pages.current.mails@[app.pages.selected as int];
            &&& (after.prompt matches Some((Prompt::ApplyRepo(m), input)) ==> m == mail
                && input@.len() == 0 && mail.patch_tag is Some && n > 0 && key == Key::Char('p'))
            &&& key == Key::Char('p') && n > 0 && mail.patch_tag is Some ==> (
            after.prompt matches Some((Prompt::ApplyRepo(_), _)))
            &&& key == Key::Char('p') && n > 0 && mail.patch_tag is None ==> after.prompt is None
                && after.notice is Some
            &&& key == Key::Char('p') ==> action == Action::Stay && same_but_prompt(app, after)
            &&& key != Key::Char('p') ==> after.notice is None
        }),
{
}

/// In the list, `u` updates the mirror of the highest epoch and `?` shows the
/// keys; no other key takes the list off the screen.
pub proof fn law_what_takes_the_list_away(app: App, after: App, action: Action, key: Key)
    requires
        app.view == Screen::List,
        app.prompt is None,
        app.step(KeyPress { key, control: false }, after, action),
    ensures
        key == Key::Char('u') ==> action == Action::Update(newest(app.epochs@)),
        action is Update <==> key == Key::Char('u'),
        after.view is Loading <==> key == Key::Char('u'),
        after.view == Screen::Help <==> key == Key::Char('?'),
        after.view != Screen::Detail,
        after.filters == app.filters,
        after.epochs == app.epochs,
        after.source == app.source,
        after.repo_path == app.repo_path,
        after.list_name == app.list_name,
{
}

/// While a mail is open, the arrows scroll by a line and the page keys by
/// twenty, a step up takes back a step down, `g` and Home go to its first line
/// and `G` and End past its last.
pub proof fn law_a_mail_scrolls_by_lines_and_pages(
    app: App,
    down: App,
    there: App,
    up: App,
    first: Action,
    second: Action,
    by_page: bool,
)
    requires
        app.view == Screen::Detail,
        app.prompt is None,
        app.detail_scroll + 20 <= usize::MAX,
        app.step(
            KeyPress {
                key: if by_page {
                    Key::PageDown
                } else {
                    Key::Down
                },
                control: false,
            },
            down,
            first,
        ),
        down.step(
            KeyPress {
                key: if by_page {
                    Key::PageUp
                } else {
                    Key::Up
                },
                control: false,
            },
            up,
            second,
        ),
        app.step(KeyPress { key: Key::Char(' '), control: false }, there, first),
    ensures
        down.detail_scroll - app.detail_scroll == if by_page {
            20int
        } else {
            1
        },
        up == app.quiet(),
        by_page ==> there == down,
        first == Action::Stay && second == Action::Stay,
{
}

/// An open mail is left with Esc, `q` or Backspace, for the list as it was, and
/// with nothing else.
pub proof fn law_what_leaves_a_mail(app: App, after: App, action: Action, key: Key)
    requires
        app.wf(),
        app.view == Screen::Detail,
        app.prompt is None,
        app.step(KeyPress { key, control: false }, after, action),
    ensures
        after.view == Screen::List <==> key == Key::Esc || key == Key::Char('q') || key
            == Key::Backspace,
        after.view == Screen::List ==> after == (App { view: Screen::List, ..app.quiet() }),
        after.view == Screen::List || after.view == Screen::Detail,
        key == Key::Home || key == Key::Char('g') ==> after.detail_scroll == 0,
        key == Key::End || key == Key::Char('G') ==> after.detail_scroll == usize::MAX,
        key == Key::Up ==> after.detail_scroll <= app.detail_scroll,
        key == Key::PageUp && app.detail_scroll < 20 ==> after.detail_scroll == 0,
        after.pages == app.pages,
        key == Key::Char('r') && app.pages.current.mails@.len() > 0 ==> action == Action::Reply(
            app.pages.current.mails@[app.pages.selected as int].id,
        ),
        action != Action::Stay ==> key == Key::Char('r') && action is Reply,
{
}

/// While a page loads, nothing but `q` does anything, and that leaves the
/// reader.
pub proof fn law_a_loading_screen_can_only_be_left(
    app: App,
    after: App,
    action: Action,
    press: KeyPress,
)
    requires
        app.view is Loading,
        app.prompt is None,
        !press.interrupts(),
        app.step(press, after, action),
    ensures
        after == app.quiet(),
        press.key == Key::Char('q') ==> action == Action::Quit,
        press.key != Key::Char('q') ==> action == Action::Stay,
{
}

/// What is typed at a prompt is put behind what was typed before, and a key
/// with Control held types nothing.
pub proof fn law_typing_goes_behind_the_input(
    app: App,
    after: App,
    action: Action,
    c: char,
    control: bool,
    typed: Seq<char>,
)
    requires
        app.prompt matches Some((_, input)) && input@ == typed,
        !(control && c == 'c'),
        app.step(KeyPress { key: Key::Char(c), control }, after, action),
    ensures
        action == Action::Stay,
        after.prompt matches Some((kind, input)) && kind == app.prompt.unwrap().0 && input@
            == typed + (if control {
            seq![]
        } else {
            seq![c]
        }),
        same_but_prompt(app, after),
{
    assert(typed.push(c) =~= typed + seq![c]);
    assert(typed =~= typed + Seq::<char>::empty());
}

/// Ctrl-C closes a prompt as Esc does, and leaves the reader where it was.
/// Backspace takes the last character of the input, if there is one; arrows and
/// the like change nothing of it.
pub proof fn law_keys_of_a_prompt(app: App, after: App, action: Action, press: KeyPress)
    requires
        app.prompt is Some,
        app.step(press, after, action),
    ensures
        press.key == Key::Esc || press.control && press.key == Key::Char('c') ==> action
            == Action::Stay && after == (App { prompt: None, ..app.quiet() }),
        after.prompt is None ==> press.key == Key::Esc || press.key == Key::Enter || press.control
            && press.key == Key::Char('c'),
        press.key == Key::Backspace ==> {
            let input = app.prompt.unwrap().1@;
            let left = after.prompt.unwrap().1@;
            &&& after.prompt is Some && action == Action::Stay
            &&& input.len() > 0 ==> input == left.push(input.last())
            &&& input.len() == 0 ==> left == input
        },
        press.key == Key::Up || press.key == Key::Down || press.key == Key::Left || press.key
            == Key::Right || press.key == Key::Home || press.key == Key::End || press.key
            == Key::PageUp || press.key == Key::PageDown || press.key == Key::Other ==> action
            == Action::Stay && after.prompt is Some && after.prompt.unwrap().1@
            == app.prompt.unwrap().1@,
        press.key != Key::Enter ==> after.filters == app.filters,
{
    let input = app.prompt.unwrap().1@;
    if input.len() > 0 {
        assert(input.drop_last().push(input.last()) =~= input);
    }
}

/// Enter closes a prompt. An answer for a subject or an author starts reading
/// anew, with nothing but that constraint changed; a date does so unless it is
/// refused, which is told and changes nothing. An answered repository is handed
/// on with the mail it was asked for, without the white space around it.
pub proof fn law_enter_answers_the_prompt(
    app: App,
    after: App,
    action: Action,
    a: Seq<char>,
    s: Seq<char>,
    b: Seq<char>,
)
    requires
        app.prompt matches Some((_, input)) && input@ == a + s + b,
        forall|i: int| 0 <= i < a.len() ==> is_white(#[trigger] a[i]),
        forall|i: int| 0 <= i < b.len() ==> is_white(#[trigger] b[i]),
        s.len() > 0 ==> !is_white(s[0]) && !is_white(s.last()),
        app.step(KeyPress { key: Key::Enter, control: false }, after, action),
    ensures
        after.prompt is None,
        after.pages == app.pages && after.source == app.source && after.view == app.view,
        after.repo_path == app.repo_path && after.detail_text == app.detail_text,
        match app.prompt.unwrap().0 {
            Prompt::ApplyRepo(mail) => {
                &&& action matches Action::Apply(m, text)
                &&& m == mail
                &&& text@ == s
                &&& after.filters == app.filters
            },
            Prompt::Filter(which) => {
                &&& which != Constraint::Date ==> action == Action::Refilter
                &&& which != Constraint::Subject ==> after.filters.subject == app.filters.subject
                &&& which != Constraint::Author ==> after.filters.author == app.filters.author
                &&& which != Constraint::Date ==> after.filters.date == app.filters.date
                &&& s.len() == 0 ==> action == Action::Refilter
                &&& action == Action::Refilter ==> after.notice is None
                &&& action != Action::Refilter ==> action == Action::Stay && after.notice is Some
                    && after.filters == app.filters
                &&& s.len() == 0 && which == Constraint::Date
                    ==> after.filters.date.date_range is None
            },
        },
{
    law_trimming_takes_off_white_space(a, s, b);
}

// ---------------------------------------------------------------------------
// Served pages
// ---------------------------------------------------------------------------

/// A served page is shown from its first row in the list. While the source
/// works, its message is up and the page before is kept. At the end of the
/// stream the page before stays, and past the first page that is told.
pub proof fn law_what_a_served_page_shows(app: App, target: usize, state: PageState, after: App)
    requires
        app.settled(target, state, after),
    ensures
        after.pages.offsets == app.pages.offsets && after.pages.page_size == app.pages.page_size,
        after.filters == app.filters && after.source == app.source && after.prompt == app.prompt,
        match state {
            PageState::Ready(page) => {
                &&& after.pages.current == page
                &&& after.pages.selected == 0 && after.pages.scroll == 0 && after.title_scroll == 0
                &&& after.view == Screen::List
                &&& after.notice == app.notice
            },
            PageState::Pending(message) => {
                &&& after.view == Screen::Loading(message)
                &&& after.pages.current == app.pages.current
                &&& after.pages.selected == app.pages.selected
                &&& after.notice == app.notice
            },
            PageState::End => {
                &&& after.view == Screen::List
                &&& after.pages.current == app.pages.current
                &&& after.pages.selected == app.pages.selected
                &&& after.pages.scroll == app.pages.scroll
                &&& target == 0 ==> after.notice == app.notice
                &&& target > 0 ==> after.notice is Some
            },
        },
{
}

// ---------------------------------------------------------------------------
// Texts
// ---------------------------------------------------------------------------

/// A tilde stands for the home directory where it is a whole path or the first
/// step of one, and for itself anywhere else and where there is no home.
pub proof fn law_a_tilde_is_the_home_directory(home: Seq<char>, rest: Seq<char>, path: Seq<char>)
    ensures
        expanded(seq!['~'], Some(home)) == home,
        expanded(seq!['~', '/'], Some(home)) == home,
        rest.len() > 0 ==> expanded(seq!['~', '/'] + rest, Some(home)) == home + seq!['/'] + rest,
        path.len() > 0 && path[0] != '~' ==> expanded(path, Some(home)) == path,
        path.len() > 1 && path[1] != '/' ==> expanded(path, Some(home)) == path,
        path.len() == 0 ==> expanded(path, Some(home)) == path,
        expanded(path, None) == path,
{
    reveal_strlit("~");
    reveal_strlit("~/");
    reveal_strlit("/");
    assert("~"@ =~= seq!['~']);
    assert("~/"@ =~= seq!['~', '/']);
    assert("/"@ =~= seq!['/']);
    let p = seq!['~', '/'] + rest;
    if rest.len() > 0 {
        assert(p.len() > 2);
        assert(p.skip(2) =~= rest);
        assert(expanded(p, Some(home)) == home + "/"@ + rest);
    }
}

/// What is told of an epoch names the list first and then the number of the
/// epoch.
pub proof fn law_an_epoch_is_told_with_its_list(
    head: Seq<char>,
    list: Seq<char>,
    epoch: u32,
    tail: Seq<char>,
)
    ensures
        ({
            let text = of_epoch(head, list, epoch, tail);
            let at = head.len() as int;
            let n = at + list.len() as int + 7;
            let end = n + decimal(epoch as nat).len() as int;
            &&& text.take(at) == head
            &&& text.subrange(at, n - 7) == list
            &&& text.subrange(n - 7, n) == " epoch "@
            &&& text.subrange(n, end) == decimal(epoch as nat)
            &&& text.skip(end) == tail
        }),
{
    reveal_strlit(" epoch ");
    let text = of_epoch(head, list, epoch, tail);
    let at = head.len() as int;
    let n = at + list.len() as int + 7;
    let end = n + decimal(epoch as nat).len() as int;
    assert(text.take(at) =~= head);
    assert(text.subrange(at, n - 7) =~= list);
    assert(text.subrange(n - 7, n) =~= " epoch "@);
    assert(text.subrange(n, end) =~= decimal(epoch as nat));
    assert(text.skip(end) =~= tail);
}

/// Whoever is asked for a repository sees the one that an empty answer means,
/// in brackets at the end of the question.
pub proof fn law_the_question_shows_the_repository(app: App, mail: Message, label: Seq<char>)
    requires
        app.asks_for(Prompt::ApplyRepo(mail), label),
    ensures
        ({
            let end = label.len() - 3;
            let start = end - app.repo_path@.len();
            &&& label.skip(end) == seq![']', ':', ' ']
            &&& label.subrange(start, end) == app.repo_path@
            &&& label[start - 1] == '['
        }),
{
    reveal_strlit("Apply series to git repo [");
    reveal_strlit("]: ");
    let end = label.len() - 3;
    let start = end - app.repo_path@.len();
    assert(label.skip(end) =~= seq![']', ':', ' ']);
    assert(label.subrange(start, end) =~= app.repo_path@);
}

/// The epochs are told by the newest of them and by how many there are; where
/// there is none, a dash stands in their place.
pub proof fn law_epochs_are_told_by_number(app: App, older: Seq<u32>, last: u32)
    ensures
        app.epochs@ == older.push(last) ==> app.epoch_text() == decimal(last as nat)
            + " (newest of "@ + decimal(older.len() + 1) + ")"@,
        app.epochs@.len() == 0 ==> app.epoch_text() == seq!['-'],
{
    reveal_strlit("-");
    assert("-"@ =~= seq!['-']);
    if app.epochs@ == older.push(last) {
        assert(app.epochs@.last() == last);
    }
}

/// A page with mails needs no words; one without has its reason told, which is
/// the missing mirror before anything else.
pub proof fn law_an_empty_page_gives_its_reason(app: App)
    ensures
        app.pages.current.mails@.len() > 0 <==> app.empty_text().len() == 0,
        app.pages.current.mails@.len() == 0 && !app.repo_ready ==> app.empty_text().len() == 2
            && app.empty_text()[0] == "No local mirror for list '"@ + app.list_name@ + "'."@,
        app.pages.current.mails@.len() == 0 && app.repo_ready && !app.filters.active()
            ==> app.empty_text() == seq!["No mails on this page."@],
        app.pages.current.mails@.len() == 0 && app.repo_ready && app.filters.active()
            ==> app.empty_text() == seq![
            "No mails match filter. Press '/', 'a' or 'd' to change it."@,
        ],
{
}

// ---------------------------------------------------------------------------
// What is painted of the state
// ---------------------------------------------------------------------------

/// The header tells the list that is read, the page by its number, and each
/// needle as it was set.
pub proof fn law_the_header_tells_the_state(app: App, h: HeaderInfo, n: Seq<char>)
    requires
        app.headed(h),
    ensures
        h.list_name@ == app.list_name@,
        h.page_label@ == app.pages.number_text(),
        h.epoch_label@ == app.epoch_text(),
        app.filters.subject.sought() == Some(n) ==> h.subject_filter@ == n,
        app.filters.author.sought() == Some(n) ==> h.author_filter@ == n,
        app.filters.subject.needle is None ==> h.subject_filter@ == "(none)"@,
        app.filters.author.needle is None ==> h.author_filter@ == "(none)"@,
        app.filters.date.date_range is None ==> h.date_filter@ == "(none)"@,
{
}

/// An open prompt is painted alone on the last line of the window, and what was
/// typed last stands at its end; no line is painted where none is open.
pub proof fn law_a_prompt_is_painted_on_the_last_line(
    app: App,
    shown: Seq<Mark>,
    cols: u16,
    rows: u16,
    typed: Seq<char>,
)
    requires
        app.prompted(shown, cols, rows),
        rows > 0,
        typed.len() < cols,
    ensures
        app.prompt is None ==> shown.len() == 0,
        app.prompt is Some ==> shown.len() == 1 && shown[0].x == 0 && shown[0].y + 1 == rows,
        app.prompt matches Some((_, input)) && input@ == typed ==> shown[0].text.len()
            >= typed.len() && shown[0].text.skip(shown[0].text.len() - typed.len()) == typed,
{
    if let Some((kind, input)) = app.prompt {
        let label = choose|label: Seq<char>| #[trigger]
            app.asks_for(kind, label) && shown == seq![
                Mark {
                    x: 0,
                    y: last_row(rows),
                    text: prompt_tail(label + input@, cols),
                    style: Style::Plain,
                },
            ];
        let text = shown[0].text;
        assert(text == prompt_tail(label + input@, cols));
        if input@ == typed {
            assert(text.skip(text.len() - typed.len()) =~= typed);
        }
    }
}

/// A notice is painted alone on the last line of the window.
pub proof fn law_a_notice_is_painted_on_the_last_line(
    app: App,
    shown: Seq<Mark>,
    cols: u16,
    rows: u16,
)
    requires
        app.noticed(shown, cols, rows),
        rows > 0,
    ensures
        app.notice is None ==> shown.len() == 0,
        app.notice matches Some(text) ==> shown.len() == 1 && shown[0].x == 0 && shown[0].y + 1
            == rows && (text@.len() < cols ==> shown[0].text.subrange(
            1,
            text@.len() as int + 1,
        ) == text@),
{
    if let Some(text) = app.notice {
        if text@.len() < cols {
            law_a_bar_shows_its_text(text@, cols, rows);
        }
    }
}

/// The list that is painted is the page that is showing, with its selection.
pub proof fn law_the_list_is_the_page_that_is_showing(app: App, h: HeaderInfo, v: ListView)
    requires
        app.wf(),
        app.listed(h, v),
    ensures
        v.wf(),
        v.mails@ == app.pages.current.mails@,
        v.indent@ == app.pages.current.indent@,
        v.offset == app.pages.current.offset,
        app.picked() matches Some(mail) ==> v.selected < v.mails@.len()
            && v.mails@[v.selected as int] == mail,
        v.scroll == app.pages.scroll,
{
}

/// The title under the cursor moves only where the list is up and the title has
/// no room for all of it.
pub proof fn law_only_long_titles_move(app: App, cols: u16)
    requires
        app.wf(),
        app.overflows(cols),
    ensures
        app.view == Screen::List,
        app.pages.selected < app.pages.current.mails@.len(),
        47 + number_width(app.pages.current.offset as nat, app.pages.current.mails@.len()) + (
        if app.pages.current.indent@[app.pages.selected as int] {
            4int
        } else {
            0
        }) + app.pages.current.mails@[app.pages.selected as int].subject@.len() > cols,
{
    reveal_strlit("  ↳ ");
}

} // verus!
