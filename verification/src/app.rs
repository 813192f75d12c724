//! The reader itself: what it shows, and what every key does.

use vstd::prelude::*;

use crate::archive::ascending;
use crate::constraints::{question, Constraint, FilterSet};
use crate::mail_source::{MailSource, PageAsk, PageRequest};
use crate::message::Message;
use crate::pages::{up_to, Pages};
use crate::scan::{newest_first, FilteredSource};
use crate::source::PageState;
use crate::stream::StreamSource;
use crate::text::{
    chars_of, decimal, opt_text, part, push_decimal, same, string_of, texts, trim, trimmed,
};
use crate::tui::{Key, KeyPress};
use crate::ui::{
    bar_mark, content_rows, detail_screen, draw_detail, draw_help, draw_list, draw_loading,
    draw_notice, help_screen, last_row, list_screen, loading_screen, marks, prompt_tail,
    redraw_prompt, redraw_selected_row, subject_width, title_overflows, HeaderInfo, ListView, Mark,
    Span, Style, CONTENT_TOP,
};

verus! {

/// What is up on the screen.
#[derive(Debug)]
pub enum Screen {
    Loading(String),
    List,
    Detail,
    Help,
}

/// What the open bottom-line prompt is asking for. A prompt is a mode of the
/// main loop, not a nested loop of its own: while one is up, the scan worker
/// keeps being drained, resizes keep re-laying-out, and repaints keep landing.
#[derive(Debug)]
pub enum Prompt {
    Filter(Constraint),
    /// Apply this mail's series once a target repo is answered.
    ApplyRepo(Message),
}

/// What a key leads to, beyond the state of the reader.
#[derive(Debug)]
pub enum Action {
    /// Nothing more.
    Stay,
    /// Leave the reader.
    Quit,
    /// Serve the page that starts here.
    Serve(usize),
    /// Open the mail under this number.
    Open(usize),
    /// Reply to the mail under this number.
    Reply(usize),
    /// Apply the series of this mail to the repository that was answered.
    Apply(Message, String),
    /// Start reading anew with the constraints as they are now.
    Refilter,
    /// Bring the mirror of this epoch up to date.
    Update(u32),
}

/// How the mails are loaded anew once the mirror was updated.
#[derive(Clone, Copy, Debug, PartialEq, Eq, Structural)]
pub enum Reload {
    /// Not at all.
    Nothing,
    /// From a fresh stream, after which the list is up.
    Anew,
    /// With the filter run again.
    Refiltered,
}

/// The state of the reader.
#[derive(Debug)]
pub struct App {
    pub list_name: String,
    pub filters: FilterSet,
    /// The epochs of the list, oldest first. Starts as whatever is cloned
    /// already; the manifest replaces it once fetched.
    pub epochs: Vec<u32>,
    /// Whether the newest epoch's mirror has been prepared; gates the
    /// "no local mirror" empty-state message.
    pub repo_ready: bool,
    /// Where mails come from.
    pub source: MailSource,
    /// Which page is showing, the visited-page history, the selection and the
    /// window scroll.
    pub pages: Pages,
    pub view: Screen,
    /// One-shot message drawn on the bottom line over whatever view is up:
    /// errors and end-of-stream notes. The next key clears it and still acts,
    /// so a notice never swallows input or changes the view.
    pub notice: Option<String>,
    /// The open bottom-line prompt, if any: what it asks plus the input so far.
    pub prompt: Option<(Prompt, String)>,
    pub detail_text: String,
    pub detail_scroll: usize,
    /// The tree `git am` applies to, remembered across applies so the prompt
    /// only has to be answered once per session.
    pub repo_path: String,
    /// How far the title of the selected row has scrolled.
    pub title_scroll: usize,
}

/// Rows a page fills: whatever the content area can show. Floored at 1 so a
/// degenerate window never asks the source for empty pages.
pub open spec fn page_rows(rows: u16) -> int {
    if rows > 3 {
        rows - 2
    } else {
        1
    }
}

/// Rows a page fills in a window of `rows` rows.
pub fn page_size_for_terminal(rows: u16) -> (r: usize)
    ensures
        r == page_rows(rows),
        r > 0,
{
    let n = content_rows(rows);
    if n < 1 {
        1
    } else {
        n
    }
}

/// `path` with a leading `~` or `~/` expanded to the home directory, where
/// there is one.
pub open spec fn expanded(path: Seq<char>, home: Option<Seq<char>>) -> Seq<char> {
    match home {
        None => path,
        Some(h) => if path == "~"@ || path == "~/"@ {
            h
        } else if path.len() >= 2 && path[0] == '~' && path[1] == '/' {
            h + "/"@ + path.skip(2)
        } else {
            path
        },
    }
}

/// Expand a leading `~`/`~/…` to the home directory, like a shell would. Git is
/// spawned directly (no shell), so the prompt has to do this itself or the
/// tilde reaches git verbatim and fails.
pub fn expand_tilde(path: &str, home: Option<String>) -> (r: String)
    ensures
        r@ == expanded(path@, opt_text(home)),
{
    let all = chars_of(path);
    proof {
        reveal_strlit("~");
        reveal_strlit("~/");
    }
    match home {
        None => path.to_string(),
        Some(h) => {
            if same(&all, &chars_of("~")) || same(&all, &chars_of("~/")) {
                h
            } else if all.len() >= 2 && all[0] == '~' && all[1] == '/' {
                let ghost dir = h@;
                let mut out = h;
                out.append("/");
                let rest = part(&all, 2, all.len());
                assert(rest@ =~= path@.skip(2));
                out.append(string_of(&rest).as_str());
                assert(out@ =~= expanded(path@, Some(dir)));
                out
            } else {
                path.to_string()
            }
        },
    }
}

/// The newest epoch: the one bootstrapped and refreshed on demand.
pub open spec fn newest(epochs: Seq<u32>) -> u32 {
    if epochs.len() > 0 {
        epochs.last()
    } else {
        0
    }
}

/// Text with a list and an epoch in it.
pub open spec fn of_epoch(
    head: Seq<char>,
    list: Seq<char>,
    epoch: u32,
    tail: Seq<char>,
) -> Seq<char> {
    head + list + " epoch "@ + decimal(epoch as nat) + tail
}

/// Text with a list and an epoch in it.
fn tell_epoch(head: &str, list: &str, epoch: u32, tail: &str) -> (r: String)
    ensures
        r@ == of_epoch(head@, list@, epoch, tail@),
{
    let mut out = head.to_string();
    out.append(list);
    out.append(" epoch ");
    push_decimal(&mut out, epoch as u64);
    out.append(tail);
    assert(out@ =~= of_epoch(head@, list@, epoch, tail@));
    out
}

/// Whether `view` is a loading screen with the message `text`.
pub open spec fn loads(view: Screen, text: Seq<char>) -> bool {
    view matches Screen::Loading(message) && message@ == text
}

impl App {
    /// The state is one that the reader can be in.
    pub open spec fn wf(self) -> bool {
        &&& self.pages.wf()
        &&& self.pages.end_fits()
        &&& self.pages.page_size > 0
    }

    /// The source is the unfiltered stream from its start, over all epochs.
    pub open spec fn reads_stream(self) -> bool {
        &&& self.source matches MailSource::Stream(s)
        &&& s.list_name@ == self.list_name@
        &&& s.available_epochs@ == self.epochs@
        &&& s.cache() == Map::<u32, Seq<String>>::empty()
    }

    pub fn new(list_name: String, epochs: Vec<u32>, rows: u16, repo_path: String) -> (r: Self)
        ensures
            r.wf(),
            r.list_name == list_name,
            !r.filters.active(),
            r.epochs == epochs,
            !r.repo_ready,
            r.reads_stream(),
            r.pages.fresh(page_rows(rows) as usize),
            loads(r.view, "Starting…"@),
            r.notice is None,
            r.prompt is None,
            r.detail_text@ == Seq::<char>::empty(),
            r.detail_scroll == 0,
            r.repo_path == repo_path,
            r.title_scroll == 0,
    {
        let source = MailSource::Stream(StreamSource::new(list_name.clone(), epochs.clone()));
        App {
            list_name,
            filters: FilterSet::new(),
            epochs,
            repo_ready: false,
            source,
            pages: Pages::new(page_size_for_terminal(rows)),
            view: Screen::Loading("Starting…".to_string()),
            notice: None,
            prompt: None,
            detail_text: String::new(),
            detail_scroll: 0,
            repo_path,
            title_scroll: 0,
        }
    }

    /// The newest epoch: the one bootstrapped and refreshed by `u`. Paging
    /// walks every epoch, so this only names the mirror the reader keeps
    /// current.
    pub fn cur_epoch(&self) -> (r: u32)
        ensures
            r == newest(self.epochs@),
    {
        if self.epochs.len() > 0 {
            self.epochs[self.epochs.len() - 1]
        } else {
            0
        }
    }
}

// ---------------------------------------------------------------------------
// Keys
// ---------------------------------------------------------------------------

/// The tick counter of the title once the selection went from `before` to
/// `after`: it starts over on another row.
pub open spec fn rewound(before: Pages, after: Pages, ticks: usize) -> usize {
    if after.selected == before.selected {
        ticks
    } else {
        0
    }
}

/// `n` less `step`, not below zero.
pub open spec fn lowered(n: usize, step: int) -> usize {
    if n < step {
        0
    } else {
        (n - step) as usize
    }
}

/// `n` and `step`, not above the largest number.
pub open spec fn raised(n: usize, step: int) -> usize {
    if n + step > usize::MAX {
        usize::MAX
    } else {
        (n + step) as usize
    }
}

impl App {
    /// The mail under the cursor, if the page has one.
    pub open spec fn picked(self) -> Option<Message> {
        if self.pages.selected < self.pages.current.mails@.len() {
            Some(self.pages.current.mails@[self.pages.selected as int])
        } else {
            None
        }
    }

    /// The reader with the notice taken away.
    pub open spec fn quiet(self) -> App {
        App { notice: None, ..self }
    }

    /// The reader after the selection moved.
    pub open spec fn moved(self, pages: Pages) -> App {
        App { pages, title_scroll: rewound(self.pages, pages, self.title_scroll), ..self }
    }

    /// `after` is the reader with a prompt opened for `kind`, no input yet.
    pub open spec fn asked(self, kind: Prompt, after: App) -> bool {
        &&& after.prompt matches Some((k, input))
        &&& k == kind
        &&& input@ == Seq::<char>::empty()
        &&& after == (App { prompt: after.prompt, ..self })
    }

    /// `after` is the reader once it was asked to apply the selected mail's
    /// series: a prompt for the repository, or the notice that the mail is no
    /// patch.
    pub open spec fn asked_to_apply(self, after: App) -> bool {
        match self.picked() {
            None => after == self,
            Some(mail) => if mail.patch_tag is None {
                &&& after.notice matches Some(text)
                &&& text@ == "Not a patch mail."@
                &&& after == (App { notice: after.notice, ..self })
            } else {
                self.asked(Prompt::ApplyRepo(mail), after)
            },
        }
    }

    /// What a key does in the list; `self` has no notice.
    pub open spec fn list_step(self, key: Key, after: App, action: Action) -> bool {
        match key {
            Key::Char('q') => action == Action::Quit && after == self,
            Key::Down => action == Action::Stay && after == self.moved(self.pages.row_down()),
            Key::Up => action == Action::Stay && after == self.moved(self.pages.row_up()),
            Key::Home => action == Action::Stay && after == self.moved(self.pages.top_row()),
            Key::End => action == Action::Stay && after == self.moved(self.pages.bottom_row()),
            Key::Right => {
                &&& action == match self.pages.following() {
                    Some(target) => Action::Serve(target),
                    None => Action::Stay,
                }
                &&& self.pages.crossed(after.pages)
                &&& after == (App { pages: after.pages, ..self })
            },
            Key::Left => {
                &&& action == match self.pages.previous() {
                    Some(target) => Action::Serve(target),
                    None => Action::Stay,
                }
                &&& after == self
            },
            Key::Enter => {
                &&& action == match self.picked() {
                    Some(mail) => Action::Open(mail.id),
                    None => Action::Stay,
                }
                &&& after == self
            },
            Key::Char('r') => {
                &&& action == match self.picked() {
                    Some(mail) => Action::Reply(mail.id),
                    None => Action::Stay,
                }
                &&& after == self
            },
            Key::Char('p') => action == Action::Stay && self.asked_to_apply(after),
            Key::Char('/') | Key::Char('f') => action == Action::Stay && self.asked(
                Prompt::Filter(Constraint::Subject),
                after,
            ),
            Key::Char('a') => action == Action::Stay && self.asked(
                Prompt::Filter(Constraint::Author),
                after,
            ),
            Key::Char('d') => action == Action::Stay && self.asked(
                Prompt::Filter(Constraint::Date),
                after,
            ),
            Key::Char('u') => {
                let epoch = newest(self.epochs@);
                &&& action == Action::Update(epoch)
                &&& loads(
                    after.view,
                    of_epoch("Updating mirror "@, self.list_name@, epoch, "…"@),
                )
                &&& after == (App { view: after.view, ..self })
            },
            Key::Char('?') => action == Action::Stay && after == (App {
                view: Screen::Help,
                ..self
            }),
            _ => action == Action::Stay && after == self,
        }
    }

    /// What a key does while a mail is open; `self` has no notice.
    pub open spec fn detail_step(self, key: Key, after: App, action: Action) -> bool {
        let at = self.detail_scroll;
        match key {
            Key::Esc | Key::Char('q') | Key::Backspace => action == Action::Stay && after == (App {
                view: Screen::List,
                ..self
            }),
            Key::Char('r') => {
                &&& action == match self.picked() {
                    Some(mail) => Action::Reply(mail.id),
                    None => Action::Stay,
                }
                &&& after == self
            },
            Key::Char('p') => action == Action::Stay && self.asked_to_apply(after),
            Key::Down => action == Action::Stay && after == self.scrolled(raised(at, 1)),
            Key::Up => action == Action::Stay && after == self.scrolled(lowered(at, 1)),
            Key::PageDown | Key::Char(' ') => action == Action::Stay && after == self.scrolled(
                raised(at, 20),
            ),
            Key::PageUp => action == Action::Stay && after == self.scrolled(lowered(at, 20)),
            Key::Home | Key::Char('g') => action == Action::Stay && after == self.scrolled(0),
            Key::End | Key::Char('G') => action == Action::Stay && after == self.scrolled(
                usize::MAX,
            ),
            _ => action == Action::Stay && after == self,
        }
    }

    /// The reader with the open mail scrolled to a line.
    pub open spec fn scrolled(self, line: usize) -> App {
        App { detail_scroll: line, ..self }
    }

    /// `after` is the reader with the input of its prompt changed to `input`.
    pub open spec fn typed(self, kind: Prompt, input: Seq<char>, after: App) -> bool {
        &&& after.prompt matches Some((k, text))
        &&& k == kind
        &&& text@ == input
        &&& after == (App { prompt: after.prompt, ..self })
    }

    /// What an answered prompt does; `self` has no notice.
    pub open spec fn answered(
        self,
        kind: Prompt,
        answer: Seq<char>,
        after: App,
        action: Action,
    ) -> bool {
        match kind {
            Prompt::Filter(which) => match action {
                Action::Refilter => {
                    &&& self.filters.adopts(which, answer, after.filters, None)
                    &&& after == (App { filters: after.filters, prompt: None, ..self })
                },
                Action::Stay => {
                    &&& after.notice matches Some(text)
                    &&& self.filters.adopts(which, answer, after.filters, Some(text@))
                    &&& after == (App {
                        filters: after.filters,
                        notice: after.notice,
                        prompt: None,
                        ..self
                    })
                },
                _ => false,
            },
            Prompt::ApplyRepo(mail) => {
                &&& action matches Action::Apply(m, text)
                &&& m == mail
                &&& text@ == trim(answer)
                &&& after == (App { prompt: None, ..self })
            },
        }
    }

    /// What a key does while a prompt is open; `self` has no notice. Enter
    /// answers, Esc or Ctrl-C cancels, Backspace and printable characters
    /// edit.
    pub open spec fn prompt_step(self, press: KeyPress, after: App, action: Action) -> bool {
        let kind = self.prompt.unwrap().0;
        let input = self.prompt.unwrap().1@;
        if press.key == Key::Esc || press.interrupts() {
            action == Action::Stay && after == (App { prompt: None, ..self })
        } else {
            match press.key {
                Key::Enter => self.answered(kind, input, after, action),
                Key::Backspace => action == Action::Stay && self.typed(
                    kind,
                    if input.len() > 0 {
                        input.drop_last()
                    } else {
                        input
                    },
                    after,
                ),
                Key::Char(c) => action == Action::Stay && self.typed(
                    kind,
                    if press.control {
                        input
                    } else {
                        input.push(c)
                    },
                    after,
                ),
                _ => action == Action::Stay && self.typed(kind, input, after),
            }
        }
    }

    /// What a key does. It takes a notice away first. An open prompt owns the
    /// keyboard, including Ctrl-C, which cancels the prompt rather than the
    /// reader.
    pub open spec fn step(self, press: KeyPress, after: App, action: Action) -> bool {
        let start = self.quiet();
        if self.prompt is Some {
            start.prompt_step(press, after, action)
        } else if press.interrupts() {
            action == Action::Quit && after == start
        } else {
            match self.view {
                Screen::List => start.list_step(press.key, after, action),
                Screen::Detail => start.detail_step(press.key, after, action),
                Screen::Help => action == Action::Stay && after == (App {
                    view: Screen::List,
                    ..start
                }),
                // A loading screen only stays up while a scan is pending:
                // dismissing it goes nowhere, but quitting must still work.
                Screen::Loading(_) => after == start && action == if press.key == Key::Char('q') {
                    Action::Quit
                } else {
                    Action::Stay
                },
            }
        }
    }

    /// Opens the bottom-line prompt.
    fn open_prompt(&mut self, kind: Prompt)
        ensures
            old(self).asked(kind, *final(self)),
    {
        self.prompt = Some((kind, String::new()));
    }

    /// Asks where the selected mail's patch series should apply.
    fn apply_patch(&mut self)
        requires
            old(self).wf(),
        ensures
            old(self).asked_to_apply(*final(self)),
            final(self).wf(),
    {
        let (is_patch, mail) = match self.pages.selected_mail() {
            None => return ,
            Some(mail) => (mail.patch_tag.is_some(), mail.clone()),
        };
        if !is_patch {
            self.notice = Some("Not a patch mail.".to_string());
            return;
        }
        self.open_prompt(Prompt::ApplyRepo(mail));
    }

    /// Acts on an answered prompt.
    fn finish_prompt(&mut self, kind: Prompt, answer: String) -> (action: Action)
        requires
            old(self).wf(),
            old(self).prompt is None,
        ensures
            old(self).answered(kind, answer@, *final(self), action),
            final(self).wf(),
    {
        match kind {
            Prompt::Filter(which) => match self.filters.set(which, answer.as_str()) {
                Ok(()) => Action::Refilter,
                Err(message) => {
                    self.notice = Some(message);
                    Action::Stay
                },
            },
            Prompt::ApplyRepo(mail) => {
                let text = string_of(&trimmed(&chars_of(answer.as_str())));
                Action::Apply(mail, text)
            },
        }
    }

    /// One key for the open prompt.
    fn handle_prompt_key(&mut self, press: KeyPress) -> (action: Action)
        requires
            old(self).wf(),
            old(self).prompt is Some,
        ensures
            old(self).prompt_step(press, *final(self), action),
            final(self).wf(),
    {
        let (kind, input) = match self.prompt.take() {
            Some(open) => open,
            None => return Action::Stay,
        };
        if press.key == Key::Esc || press.is_interrupt() {
            return Action::Stay;
        }
        match press.key {
            Key::Enter => self.finish_prompt(kind, input),
            Key::Backspace => {
                let all = chars_of(input.as_str());
                let mut left = input;
                if all.len() > 0 {
                    left = string_of(&part(&all, 0, all.len() - 1));
                    assert(left@ =~= all@.drop_last());
                }
                self.prompt = Some((kind, left));
                Action::Stay
            },
            Key::Char(c) => {
                let mut input = input;
                if !press.control {
                    input.push(c);
                }
                self.prompt = Some((kind, input));
                Action::Stay
            },
            _ => {
                self.prompt = Some((kind, input));
                Action::Stay
            },
        }
    }

    /// The number of the mail under the cursor, if the page has one.
    fn picked_id(&self) -> (r: Option<usize>)
        ensures
            r == match self.picked() {
                Some(mail) => Some(mail.id),
                None => None,
            },
    {
        match self.pages.selected_mail() {
            Some(mail) => Some(mail.id),
            None => None,
        }
    }

    /// Moves the selection with one of the moves of a page.
    fn select(&mut self, key: Key)
        requires
            old(self).wf(),
            key == Key::Down || key == Key::Up || key == Key::Home || key == Key::End,
        ensures
            *final(self) == old(self).moved(
                match key {
                    Key::Down => old(self).pages.row_down(),
                    Key::Up => old(self).pages.row_up(),
                    Key::Home => old(self).pages.top_row(),
                    _ => old(self).pages.bottom_row(),
                },
            ),
            final(self).wf(),
    {
        let moved = match key {
            Key::Down => self.pages.select_next(),
            Key::Up => self.pages.select_prev(),
            Key::Home => self.pages.select_first(),
            _ => self.pages.select_last(),
        };
        if moved {
            self.title_scroll = 0;
        }
    }

    /// One key in the list.
    fn handle_list_key(&mut self, key: Key) -> (action: Action)
        requires
            old(self).wf(),
        ensures
            old(self).list_step(key, *final(self), action),
            final(self).wf(),
    {
        match key {
            Key::Char('q') => Action::Quit,
            Key::Down | Key::Up | Key::Home | Key::End => {
                self.select(key);
                Action::Stay
            },
            Key::Right => match self.pages.next_target() {
                Some(target) => Action::Serve(target),
                None => Action::Stay,
            },
            Key::Left => match self.pages.prev_target() {
                Some(target) => Action::Serve(target),
                None => Action::Stay,
            },
            Key::Enter => match self.picked_id() {
                Some(id) => Action::Open(id),
                None => Action::Stay,
            },
            Key::Char('r') => match self.picked_id() {
                Some(id) => Action::Reply(id),
                None => Action::Stay,
            },
            Key::Char('p') => {
                self.apply_patch();
                Action::Stay
            },
            Key::Char('/') | Key::Char('f') => {
                self.open_prompt(Prompt::Filter(Constraint::Subject));
                Action::Stay
            },
            Key::Char('a') => {
                self.open_prompt(Prompt::Filter(Constraint::Author));
                Action::Stay
            },
            Key::Char('d') => {
                self.open_prompt(Prompt::Filter(Constraint::Date));
                Action::Stay
            },
            Key::Char('u') => {
                let epoch = self.cur_epoch();
                self.view = Screen::Loading(
                    tell_epoch("Updating mirror ", self.list_name.as_str(), epoch, "…"),
                );
                Action::Update(epoch)
            },
            Key::Char('?') => {
                self.view = Screen::Help;
                Action::Stay
            },
            _ => Action::Stay,
        }
    }

    /// One key while a mail is open.
    fn handle_detail_key(&mut self, key: Key) -> (action: Action)
        requires
            old(self).wf(),
        ensures
            old(self).detail_step(key, *final(self), action),
            final(self).wf(),
    {
        match key {
            Key::Esc | Key::Char('q') | Key::Backspace => {
                self.view = Screen::List;
            },
            Key::Char('r') => {
                if let Some(id) = self.picked_id() {
                    return Action::Reply(id);
                }
            },
            Key::Char('p') => self.apply_patch(),
            Key::Down => self.detail_scroll = self.detail_scroll.saturating_add(1),
            Key::Up => self.detail_scroll = self.detail_scroll.saturating_sub(1),
            Key::PageDown | Key::Char(' ') => {
                self.detail_scroll = self.detail_scroll.saturating_add(20);
            },
            Key::PageUp => self.detail_scroll = self.detail_scroll.saturating_sub(20),
            Key::Home | Key::Char('g') => self.detail_scroll = 0,
            Key::End | Key::Char('G') => self.detail_scroll = usize::MAX,
            _ => {},
        }
        Action::Stay
    }

    /// One key.
    pub fn handle_key(&mut self, press: KeyPress) -> (action: Action)
        requires
            old(self).wf(),
        ensures
            old(self).step(press, *final(self), action),
            final(self).wf(),
    {
        self.notice = None;
        if self.prompt.is_some() {
            return self.handle_prompt_key(press);
        }
        if press.is_interrupt() {
            return Action::Quit;
        }
        match self.view {
            Screen::List => self.handle_list_key(press.key),
            Screen::Detail => self.handle_detail_key(press.key),
            Screen::Help => {
                self.view = Screen::List;
                Action::Stay
            },
            Screen::Loading(_) => {
                if press.key == Key::Char('q') {
                    Action::Quit
                } else {
                    Action::Stay
                }
            },
        }
    }
}

// ---------------------------------------------------------------------------
// Reading
// ---------------------------------------------------------------------------

impl App {
    /// `after` is the reader once it reads from another source: page 0 is
    /// next, and nothing of the pages before is left.
    pub open spec fn starts_over(self, after: App) -> bool {
        &&& after.pages.fresh(self.pages.page_size)
        &&& after == (App {
            source: after.source,
            pages: after.pages,
            title_scroll: 0,
            repo_ready: after.repo_ready,
            ..self
        })
    }

    /// Read mails from `source` from now on, starting over at page 0, which is
    /// the page to serve.
    fn read_from(&mut self, source: MailSource) -> (r: usize)
        requires
            old(self).wf(),
        ensures
            r == 0,
            old(self).starts_over(*final(self)),
            final(self).source == source,
            final(self).repo_ready == old(self).repo_ready,
            final(self).wf(),
    {
        self.source = source;
        self.title_scroll = 0;
        self.pages.reset()
    }

    /// The unfiltered stream over every epoch we know of.
    fn stream(&self) -> (r: MailSource)
        ensures
            (App { source: r, ..*self }).reads_stream(),
    {
        MailSource::Stream(StreamSource::new(self.list_name.clone(), self.epochs.clone()))
    }

    /// Reload from scratch: drop to a fresh unfiltered stream, reset to page 0,
    /// which is the page to serve.
    pub fn refresh(&mut self) -> (r: usize)
        requires
            old(self).wf(),
        ensures
            r == 0,
            old(self).starts_over(*final(self)),
            final(self).reads_stream(),
            final(self).repo_ready,
            final(self).wf(),
    {
        self.repo_ready = true;
        let source = self.stream();
        self.read_from(source)
    }

    /// (Re)start filtering from the current constraints; `present` tells of
    /// each epoch whether it is cloned. When no constraint is active, fall back
    /// to the unfiltered stream. Page 0 is the page to serve, and the epochs
    /// given back are to be scanned.
    pub fn apply_filter(&mut self, present: &Vec<bool>) -> (scan: Vec<u32>)
        requires
            old(self).wf(),
            present.len() == old(self).epochs.len(),
        ensures
            old(self).starts_over(*final(self)),
            final(self).repo_ready == old(self).repo_ready,
            final(self).wf(),
            !old(self).filters.active() ==> final(self).reads_stream() && scan@.len() == 0,
            old(self).filters.active() ==> {
                &&& final(self).source matches MailSource::Filtered(f)
                &&& f.list_name@ == old(self).list_name@
                &&& f.filters == old(self).filters
                &&& f.results@.len() == 0
                &&& !f.done
                &&& f.uncloned@ == newest_first(old(self).epochs@, present@, false)
                &&& scan@ == newest_first(old(self).epochs@, present@, true)
            },
    {
        if !self.filters.is_active() {
            let source = self.stream();
            self.read_from(source);
            return Vec::new();
        }
        let (source, scan) = FilteredSource::start(
            self.list_name.clone(),
            self.filters.clone(),
            &self.epochs,
            present,
        );
        self.read_from(MailSource::Filtered(source));
        scan
    }

    /// Drives the active source toward serving the page starting at `target`.
    pub fn resolve_page(&self, target: usize) -> (r: (PageRequest, PageAsk))
        requires
            self.wf(),
        ensures
            r.0.offset == target,
            r.0.page_size == self.pages.page_size,
            self.source.on_track(r.0),
            self.source.waits(r.0, r.1),
            self.source.starts(r.0, r.1),
    {
        self.source.page(target, self.pages.page_size())
    }

    /// `after` is the reader once the source came to `state` for the page
    /// starting at `target`: the page is shown from the top when it is ready,
    /// a loading screen is up while work is pending, and past the first page
    /// the end is told. The page stays pending only while the source is still
    /// working on it.
    pub open spec fn settled(self, target: usize, state: PageState, after: App) -> bool {
        match state {
            PageState::Ready(page) => after == (App {
                pages: Pages {
                    current: page,
                    selected: 0,
                    scroll: 0,
                    pending: None,
                    ..self.pages
                },
                title_scroll: 0,
                view: Screen::List,
                ..self
            }),
            PageState::Pending(message) => after == (App {
                pages: Pages { pending: Some(target), ..self.pages },
                view: Screen::Loading(message),
                ..self
            }),
            PageState::End => {
                &&& after.notice == self.notice || target > 0
                &&& target > 0 ==> (after.notice matches Some(text) && text@ == "No more mails."@)
                &&& after == (App {
                    pages: Pages { pending: None, ..self.pages },
                    view: Screen::List,
                    notice: after.notice,
                    ..self
                })
            },
        }
    }

    /// Takes what the source came to for the page starting at `target`.
    pub fn resolved(&mut self, target: usize, state: PageState)
        requires
            old(self).wf(),
            state matches PageState::Ready(page) ==> page.wf() && page.offset + page.mails@.len()
                <= usize::MAX,
        ensures
            old(self).settled(target, state, *final(self)),
            final(self).wf(),
    {
        match state {
            PageState::Ready(page) => {
                self.pages.accept(page);
                self.pages.settle();
                self.title_scroll = 0;
            },
            PageState::Pending(message) => {
                self.pages.begin(target);
                self.view = Screen::Loading(message);
                return;
            },
            PageState::End => {
                self.pages.settle();
                // Page 0 empty is already explained by the list's empty
                // message; past it, say why nothing changed.
                if target > 0 {
                    self.notice = Some("No more mails.".to_string());
                }
            },
        }
        self.view = Screen::List;
    }

    /// Takes in what the scan worker has sent, and whether it has finished.
    /// Returns the page that is still pending, to be tried again.
    pub fn poll_source(&mut self, mails: Vec<Message>, finished: bool) -> (r: Option<usize>)
        requires
            old(self).wf(),
        ensures
            r == old(self).pages.pending,
            final(self).wf(),
            match old(self).source {
                MailSource::Stream(_) => *final(self) == *old(self),
                MailSource::Filtered(f) => {
                    &&& final(self).source matches MailSource::Filtered(g)
                    &&& g.results@ == f.results@ + mails@
                    &&& g.done == (f.done || finished)
                    &&& g == (FilteredSource { results: g.results, done: g.done, ..f })
                    &&& *final(self) == (App { source: final(self).source, ..*old(self) })
                },
            },
    {
        self.source.poll(mails, finished);
        self.pages.pending()
    }

    /// The window has another height. Returns the start of the current page,
    /// to be served again.
    pub fn resize(&mut self, rows: u16) -> (r: usize)
        requires
            old(self).wf(),
        ensures
            r == old(self).pages.current.offset,
            final(self).pages.page_size == page_rows(rows),
            final(self).pages.offsets@ == up_to(old(self).pages.offsets@, r),
            *final(self) == (App {
                pages: Pages {
                    page_size: final(self).pages.page_size,
                    offsets: final(self).pages.offsets,
                    ..old(self).pages
                },
                ..*old(self)
            }),
            final(self).wf(),
    {
        self.pages.resize(page_size_for_terminal(rows))
    }

    // -----------------------------------------------------------------------
    // What happened outside
    // -----------------------------------------------------------------------

    /// The manifest is being fetched.
    pub fn fetching_manifest(&mut self)
        ensures
            loads(
                final(self).view,
                "Fetching manifest for '"@ + old(self).list_name@ + "'…"@,
            ),
            *final(self) == (App { view: final(self).view, ..*old(self) }),
    {
        let mut text = "Fetching manifest for '".to_string();
        text.append(self.list_name.as_str());
        text.append("'…");
        self.view = Screen::Loading(text);
    }

    /// The manifest was fetched, or could not be: then whatever is cloned
    /// already has to do.
    pub fn adopt_epochs(&mut self, fetched: Option<Vec<u32>>)
        ensures
            *final(self) == (App {
                epochs: match fetched {
                    Some(epochs) => epochs,
                    None => old(self).epochs,
                },
                ..*old(self)
            }),
    {
        if let Some(epochs) = fetched {
            self.epochs = epochs;
        }
    }

    /// The newest epoch's mirror is being updated, or cloned where it is not
    /// there. Returns the epoch.
    pub fn preparing_mirror(&mut self, cloned: bool) -> (epoch: u32)
        ensures
            epoch == newest(old(self).epochs@),
            loads(
                final(self).view,
                if cloned {
                    of_epoch("Updating mirror "@, old(self).list_name@, epoch, "…"@)
                } else {
                    of_epoch(
                        "Cloning mirror "@,
                        old(self).list_name@,
                        epoch,
                        " (this may take a while)…"@,
                    )
                },
            ),
            *final(self) == (App { view: final(self).view, ..*old(self) }),
    {
        let epoch = self.cur_epoch();
        let list = self.list_name.as_str();
        let text = if cloned {
            tell_epoch("Updating mirror ", list, epoch, "…")
        } else {
            tell_epoch("Cloning mirror ", list, epoch, " (this may take a while)…")
        };
        self.view = Screen::Loading(text);
        epoch
    }

    /// The first page is being loaded.
    pub fn loading_mails(&mut self)
        ensures
            loads(final(self).view, "Loading mails…"@),
            *final(self) == (App { view: final(self).view, ..*old(self) }),
    {
        self.view = Screen::Loading("Loading mails…".to_string());
    }

    /// The mirror was updated, or could not be. Returns how the mails are to be
    /// loaded anew: from a fresh stream, or with the filter run again over the
    /// updated mirror.
    pub fn mirror_updated(&mut self, worked: bool) -> (r: Reload)
        ensures
            r == if !worked {
                Reload::Nothing
            } else if old(self).filters.active() {
                Reload::Refiltered
            } else {
                Reload::Anew
            },
            worked ==> loads(final(self).view, "Reloading mails…"@),
            !worked ==> final(self).view == Screen::List,
            *final(self) == (App { view: final(self).view, ..*old(self) }),
    {
        if !worked {
            self.view = Screen::List;
            return Reload::Nothing;
        }
        self.view = Screen::Loading("Reloading mails…".to_string());
        if self.filters.is_active() {
            Reload::Refiltered
        } else {
            Reload::Anew
        }
    }

    /// The list is up.
    pub fn show_list(&mut self)
        ensures
            *final(self) == (App { view: Screen::List, ..*old(self) }),
    {
        self.view = Screen::List;
    }

    /// The selected mail was rendered: show it from the top.
    pub fn opened(&mut self, text: String)
        ensures
            *final(self) == (App {
                detail_text: text,
                detail_scroll: 0,
                view: Screen::Detail,
                ..*old(self)
            }),
    {
        self.detail_text = text;
        self.detail_scroll = 0;
        self.view = Screen::Detail;
    }

    /// The reply was not sent.
    pub fn reply_failed(&mut self, error: &str)
        ensures
            final(self).notice matches Some(text) && text@ == "Reply not sent: "@ + error@,
            *final(self) == (App { notice: final(self).notice, ..*old(self) }),
    {
        self.notice = Some("Reply not sent: ".to_string().concat(error));
    }

    /// The series was not applied.
    pub fn apply_failed(&mut self, error: &str)
        ensures
            final(self).notice matches Some(text) && text@ == "Not applied: "@ + error@,
            *final(self) == (App { notice: final(self).notice, ..*old(self) }),
    {
        self.notice = Some("Not applied: ".to_string().concat(error));
    }

    /// The repository that an answer names: the one of the session where the
    /// answer is empty.
    pub fn apply_target(&self, answer: &str, home: Option<String>) -> (r: String)
        ensures
            r@ == if answer@.len() == 0 {
                self.repo_path@
            } else {
                expanded(answer@, opt_text(home))
            },
    {
        if chars_of(answer).len() == 0 {
            self.repo_path.clone()
        } else {
            expand_tilde(answer, home)
        }
    }

    /// Adopts a repository as the session's default, but only once it proves
    /// to be a real one.
    pub fn adopt_repo(&mut self, target: &str, is_repo: bool)
        ensures
            final(self).repo_path@ == if is_repo {
                target@
            } else {
                old(self).repo_path@
            },
            *final(self) == (App { repo_path: final(self).repo_path, ..*old(self) }),
    {
        if is_repo {
            self.repo_path = target.to_string();
        }
    }

    /// The question whether an epoch may be cloned.
    pub fn clone_question(&self, epoch: u32) -> (r: String)
        ensures
            r@ == of_epoch("Clone "@, self.list_name@, epoch, "? [y/N]: "@),
    {
        tell_epoch("Clone ", self.list_name.as_str(), epoch, "? [y/N]: ")
    }

    /// What is told while an epoch is cloned.
    pub fn clone_progress(&self, epoch: u32) -> (r: String)
        ensures
            r@ == of_epoch("Cloning "@, self.list_name@, epoch, " (this may take a while)…"@),
    {
        tell_epoch("Cloning ", self.list_name.as_str(), epoch, " (this may take a while)…")
    }

    /// What is told while the rest of a series is looked for.
    pub fn series_progress(&self) -> (r: String)
        ensures
            r@ == "Finding the rest of the series in the "@ + self.list_name@ + " mirror…"@,
    {
        let mut out = "Finding the rest of the series in the ".to_string();
        out.append(self.list_name.as_str());
        out.append(" mirror…");
        out
    }
}

// ---------------------------------------------------------------------------
// Painting
// ---------------------------------------------------------------------------

impl App {
    /// The label of the epochs: the newest of how many.
    pub open spec fn epoch_text(self) -> Seq<char> {
        if self.epochs@.len() == 0 {
            "-"@
        } else {
            decimal(newest(self.epochs@) as nat) + " (newest of "@ + decimal(self.epochs@.len())
                + ")"@
        }
    }

    /// The label of the epochs: the newest of how many.
    pub fn epoch_label(&self) -> (r: String)
        ensures
            r@ == self.epoch_text(),
    {
        if self.epochs.len() == 0 {
            return "-".to_string();
        }
        let mut out = String::new();
        push_decimal(&mut out, self.cur_epoch() as u64);
        out.append(" (newest of ");
        push_decimal(&mut out, self.epochs.len() as u64);
        out.append(")");
        assert(out@ =~= self.epoch_text());
        out
    }

    /// `label` asks what an open prompt asks, current defaults included.
    pub open spec fn asks_for(self, kind: Prompt, label: Seq<char>) -> bool {
        match kind {
            Prompt::Filter(which) => exists|value: Seq<char>|
                self.filters.shows(which, value) && label == question(which, value),
            Prompt::ApplyRepo(_) => label == "Apply series to git repo ["@ + self.repo_path@
                + "]: "@,
        }
    }

    /// The label for the open prompt, current defaults included.
    pub fn prompt_label(&self, kind: &Prompt) -> (r: String)
        ensures
            self.asks_for(*kind, r@),
    {
        match kind {
            Prompt::Filter(which) => self.filters.prompt_label(*which),
            Prompt::ApplyRepo(_) => {
                let mut out = "Apply series to git repo [".to_string();
                out.append(self.repo_path.as_str());
                out.append("]: ");
                out
            },
        }
    }

    /// What to say instead of rows when the page has none.
    pub open spec fn empty_text(self) -> Seq<Seq<char>> {
        if self.pages.current.mails@.len() > 0 {
            seq![]
        } else if !self.repo_ready {
            seq![
                "No local mirror for list '"@ + self.list_name@ + "'."@,
                "The TUI clones the latest epoch automatically — check your network and try again."@,
            ]
        } else if !self.filters.active() {
            seq!["No mails on this page."@]
        } else {
            seq!["No mails match filter. Press '/', 'a' or 'd' to change it."@]
        }
    }

    /// What to say instead of rows when the page has none.
    pub fn empty_message(&self) -> (r: Vec<String>)
        ensures
            texts(r@) == self.empty_text(),
    {
        let r: Vec<String> = if !self.pages.current().is_empty() {
            Vec::new()
        } else if !self.repo_ready {
            let mut first = "No local mirror for list '".to_string();
            first.append(self.list_name.as_str());
            first.append("'.");
            vec![
                first,
                "The TUI clones the latest epoch automatically — check your network and try again.".to_string(),
            ]
        } else if !self.filters.is_active() {
            vec!["No mails on this page.".to_string()]
        } else {
            vec!["No mails match filter. Press '/', 'a' or 'd' to change it.".to_string()]
        };
        assert(texts(r@) =~= self.empty_text());
        r
    }

    /// `h` is what the header bar tells of the reader.
    pub open spec fn headed(self, h: HeaderInfo) -> bool {
        &&& h.list_name@ == self.list_name@
        &&& h.epoch_label@ == self.epoch_text()
        &&& h.page_label@ == self.pages.number_text()
        &&& self.filters.shows(Constraint::Subject, h.subject_filter@)
        &&& self.filters.shows(Constraint::Author, h.author_filter@)
        &&& self.filters.shows(Constraint::Date, h.date_filter@)
    }

    /// `v` is the page that is showing, under the header `h`.
    pub open spec fn listed(self, h: HeaderInfo, v: ListView) -> bool {
        &&& v.header == h
        &&& v.offset == self.pages.current.offset
        &&& v.mails == self.pages.current.mails
        &&& v.indent == self.pages.current.indent
        &&& v.selected == self.pages.selected
        &&& v.scroll == self.pages.scroll
        &&& v.selected_scroll == self.title_scroll
    }

    /// `shown` is the screen that is up, under the header `h`.
    pub open spec fn screened(self, h: HeaderInfo, shown: Seq<Mark>, cols: u16, rows: u16) -> bool {
        match self.view {
            Screen::Loading(message) => shown == loading_screen(h, message@, cols, rows),
            Screen::List => exists|v: ListView| #[trigger]
                self.listed(h, v) && texts(v.empty_message@) == self.empty_text() && shown
                    == list_screen(v, cols, rows),
            Screen::Detail => shown == detail_screen(
                h,
                self.detail_text@,
                self.detail_scroll,
                cols,
                rows,
            ),
            Screen::Help => shown == help_screen(h, cols, rows),
        }
    }

    /// `shown` is the notice, where there is one.
    pub open spec fn noticed(self, shown: Seq<Mark>, cols: u16, rows: u16) -> bool {
        match self.notice {
            Some(text) => shown == seq![bar_mark(text@, cols, rows)],
            None => shown == Seq::<Mark>::empty(),
        }
    }

    /// `shown` is the line of the prompt, where one is open.
    pub open spec fn prompted(self, shown: Seq<Mark>, cols: u16, rows: u16) -> bool {
        match self.prompt {
            Some((kind, input)) => exists|label: Seq<char>| #[trigger]
                self.asks_for(kind, label) && shown == seq![
                    Mark {
                        x: 0,
                        y: last_row(rows),
                        text: prompt_tail(label + input@, cols),
                        style: Style::Plain,
                    },
                ],
            None => shown == Seq::<Mark>::empty(),
        }
    }

    /// Paints the screen that is up.
    fn draw_screen(&self, header: &HeaderInfo, cols: u16, rows: u16) -> (r: Vec<Span>)
        requires
            self.wf(),
        ensures
            self.screened(*header, marks(r@), cols, rows),
    {
        match &self.view {
            Screen::Loading(message) => draw_loading(header, message.as_str(), cols, rows),
            Screen::List => {
                let empty = self.empty_message();
                let view = self.list_view(*header, &empty);
                assert(self.listed(*header, view));
                draw_list(&view, cols, rows)
            },
            Screen::Detail => draw_detail(
                header,
                self.detail_text.as_str(),
                self.detail_scroll,
                cols,
                rows,
            ),
            Screen::Help => draw_help(header, cols, rows),
        }
    }

    /// The page that is showing, under a header, with what to say instead of
    /// rows when the page has none.
    fn list_view<'a>(&'a self, header: HeaderInfo<'a>, empty_message: &'a Vec<String>) -> (r:
        ListView<'a>)
        requires
            self.wf(),
        ensures
            self.listed(header, r),
            r.empty_message == empty_message,
            r.wf(),
    {
        let page = self.pages.current();
        ListView {
            header,
            offset: page.offset,
            mails: &page.mails,
            indent: page.indent(),
            selected: self.pages.selected(),
            scroll: self.pages.scroll(),
            selected_scroll: self.title_scroll,
            empty_message,
        }
    }

    /// Everything that is on the screen: the view that is up, the notice over
    /// it, and the line of an open prompt, each painted over what was before.
    pub fn render(&self, cols: u16, rows: u16) -> (r: Vec<Span>)
        requires
            self.wf(),
        ensures
            exists|h: HeaderInfo, screen: Seq<Mark>, notice: Seq<Mark>, prompt: Seq<Mark>|
                #![trigger
                    self.screened(h, screen, cols, rows),
                    self.noticed(notice, cols, rows),
                    self.prompted(prompt, cols, rows)
                ]
                self.headed(h) && self.screened(h, screen, cols, rows) && self.noticed(
                    notice,
                    cols,
                    rows,
                ) && self.prompted(prompt, cols, rows) && marks(r@) == screen + notice + prompt,
    {
        let epoch_label = self.epoch_label();
        let page_label = self.pages.label();
        let labels = self.filters.labels();
        let header = HeaderInfo {
            list_name: self.list_name.as_str(),
            epoch_label: epoch_label.as_str(),
            page_label: page_label.as_str(),
            subject_filter: labels[0].as_str(),
            author_filter: labels[1].as_str(),
            date_filter: labels[2].as_str(),
        };
        assert(self.headed(header));
        let mut out = self.draw_screen(&header, cols, rows);
        let ghost screen = marks(out@);
        let ghost mut notice: Seq<Mark> = seq![];
        if let Some(text) = &self.notice {
            let span = draw_notice(cols, rows, text.as_str());
            proof {
                notice = seq![span@];
            }
            out.push(span);
        }
        assert(self.noticed(notice, cols, rows));
        assert(marks(out@) =~= screen + notice);
        let ghost mut prompt: Seq<Mark> = seq![];
        if let Some((kind, input)) = &self.prompt {
            let label = self.prompt_label(kind);
            let span = redraw_prompt(cols, label.as_str(), input.as_str(), rows.saturating_sub(1));
            proof {
                prompt = seq![span@];
                assert(self.asks_for(*kind, label@));
            }
            out.push(span);
        }
        assert(self.prompted(prompt, cols, rows));
        assert(marks(out@) =~= screen + notice + prompt);
        out
    }

    /// Advance the marquee on the selected row when its title overflows the
    /// subject column. Returns whether a redraw is needed. The marquee pauses
    /// while a prompt is up: its row redraw would hide the cursor mid-typing.
    pub fn tick_title_scroll(&mut self, cols: u16) -> (r: bool)
        requires
            old(self).wf(),
        ensures
            r == (old(self).prompt is None && old(self).overflows(cols)),
            final(self).wf(),
            !r ==> *final(self) == *old(self),
            r ==> *final(self) == (App {
                title_scroll: if old(self).title_scroll < usize::MAX {
                    (old(self).title_scroll + 1) as usize
                } else {
                    0
                },
                ..*old(self)
            }),
    {
        if self.prompt.is_some() {
            return false;
        }
        match self.view {
            Screen::List => {},
            _ => return false,
        }
        let overflows = match self.pages.selected_mail() {
            None => return false,
            Some(mail) => {
                let page = self.pages.current();
                title_overflows(
                    cols,
                    mail,
                    page.offset,
                    page.len(),
                    page.indented(self.pages.selected()),
                )
            },
        };
        if overflows {
            self.title_scroll = self.title_scroll.wrapping_add(1);
        }
        overflows
    }

    /// The list is up, and the title of the selected row is wider than the
    /// subject column.
    pub open spec fn overflows(self, cols: u16) -> bool {
        &&& self.view == Screen::List
        &&& self.picked() matches Some(mail)
        &&& mail.subject@.len() > subject_width(
            cols as nat,
            self.pages.current.offset as nat,
            self.pages.current.mails@.len(),
            self.pages.current.indent@[self.pages.selected as int],
        )
    }

    /// The selected row alone, for marquee ticks. Avoids the full repaint that
    /// would otherwise flicker at the tick rate. Nothing where the list is not
    /// up, or its selected row is not on the screen.
    pub fn render_selected_title(&self, cols: u16, rows: u16) -> (r: Option<Span>)
        requires
            self.wf(),
        ensures
            match r {
                Some(span) => {
                    &&& self.row_shows(rows)
                    &&& exists|h: HeaderInfo, v: ListView| #[trigger]
                        self.listed(h, v) && span@ == v.row_mark(
                            self.pages.selected as int,
                            cols,
                            CONTENT_TOP + (self.pages.selected - self.pages.scroll),
                        )
                },
                None => !self.row_shows(rows),
            },
    {
        match self.view {
            Screen::List => {},
            _ => return None,
        }
        let selected = self.pages.selected();
        let scroll = self.pages.scroll();
        if self.pages.current().is_empty() || selected < scroll || selected - scroll >= 65535 {
            return None;
        }
        let header = HeaderInfo {
            list_name: "",
            epoch_label: "",
            page_label: "",
            subject_filter: "",
            author_filter: "",
            date_filter: "",
        };
        let empty: Vec<String> = Vec::new();
        let view = self.list_view(header, &empty);
        assert(self.listed(header, view));
        redraw_selected_row(&view, cols, rows)
    }

    /// The list is up with a selected row that has a line on the screen, at or
    /// below the first row shown.
    pub open spec fn row_shows(self, rows: u16) -> bool {
        &&& self.view == Screen::List
        &&& last_row(rows) > CONTENT_TOP
        &&& self.pages.scroll <= self.pages.selected < self.pages.current.mails@.len()
        &&& self.pages.selected - self.pages.scroll < u16::MAX
    }
}

// ---------------------------------------------------------------------------
// Laws
// ---------------------------------------------------------------------------

/// Of epochs in the order in which the catalog gives them, the newest is the
/// highest.
pub proof fn law_newest_is_the_highest(epochs: Seq<u32>, i: int)
    requires
        ascending(epochs),
        0 <= i < epochs.len(),
    ensures
        epochs[i] <= newest(epochs),
        epochs.contains(newest(epochs)),
{
    let last = epochs.len() - 1;
    if i < last {
        assert(epochs[i] < epochs[last]);
    }
    assert(epochs[last] == newest(epochs));
}

/// A notice never swallows a key: what a key does is the same with and without
/// one, and no notice outlives the key unless the key brings it.
pub proof fn law_a_notice_swallows_no_key(
    app: App,
    notice: Option<String>,
    press: KeyPress,
    after: App,
    action: Action,
)
    ensures
        app.step(press, after, action) <==> (App { notice, ..app }).step(press, after, action),
{
    assert((App { notice, ..app }).quiet() == app.quiet());
}

/// An open prompt owns the keyboard: no key leaves the reader, turns a page,
/// moves the selection or changes the view while one is up.
pub proof fn law_a_prompt_owns_the_keyboard(app: App, press: KeyPress, after: App, action: Action)
    requires
        app.prompt is Some,
        app.step(press, after, action),
    ensures
        action != Action::Quit,
        action is Stay || action is Refilter || action is Apply,
        after.pages == app.pages,
        after.view == app.view,
        after.source == app.source,
        after.detail_scroll == app.detail_scroll,
{
}

/// Without a prompt, Ctrl-C leaves the reader from any view, and changes
/// nothing but the notice.
pub proof fn law_ctrl_c_leaves(app: App, press: KeyPress, after: App, action: Action)
    requires
        app.prompt is None,
        press.interrupts(),
        app.step(press, after, action),
    ensures
        action == Action::Quit,
        after == app.quiet(),
{
}

/// Backspace takes back what was typed last: the prompt is as it was before,
/// and so is everything else.
pub proof fn law_backspace_undoes_typing(
    app: App,
    c: char,
    typed: App,
    first: Action,
    after: App,
    second: Action,
)
    requires
        app.prompt is Some,
        app.step(KeyPress { key: Key::Char(c), control: false }, typed, first),
        typed.step(KeyPress { key: Key::Backspace, control: false }, after, second),
    ensures
        after.prompt matches Some((kind, input)) && kind == app.prompt.unwrap().0 && input@
            == app.prompt.unwrap().1@,
        after == (App { prompt: after.prompt, ..app.quiet() }),
{
    let input = app.prompt.unwrap().1@;
    assert(input.push(c).drop_last() =~= input);
}

/// Esc closes a prompt without a trace of what was typed.
pub proof fn law_esc_closes_the_prompt(app: App, after: App, action: Action)
    requires
        app.prompt is Some,
        app.step(KeyPress { key: Key::Esc, control: false }, after, action),
    ensures
        action == Action::Stay,
        after == (App { prompt: None, ..app.quiet() }),
{
}

/// The help screen is left with any key, and leaves the list as it was.
pub proof fn law_help_leaves_no_trace(
    app: App,
    help: App,
    first: Action,
    press: KeyPress,
    after: App,
    second: Action,
)
    requires
        app.prompt is None,
        app.view == Screen::List,
        app.step(KeyPress { key: Key::Char('?'), control: false }, help, first),
        help.step(press, after, second),
        !press.interrupts(),
    ensures
        first == Action::Stay,
        second == Action::Stay,
        after == app.quiet(),
{
}

/// A page that was served is not pending any more, so that nothing serves it
/// again; while the source works on a page, that page stays pending.
pub proof fn law_pending_only_while_working(app: App, target: usize, state: PageState, after: App)
    requires
        app.settled(target, state, after),
    ensures
        after.pages.pending == if state is Pending {
            Some(target)
        } else {
            None
        },
        state is Ready ==> after.pages.selected == 0 && after.pages.scroll == 0,
        !(state is Ready) ==> after.pages.current == app.pages.current,
{
}

} // verus!
