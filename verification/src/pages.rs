//! Pagination state: which page of the stream is showing, where every visited
//! page starts, which row is selected and how far the window has scrolled.
//! Stream offsets never leave this module: callers navigate with
//! `next_target`, `prev_target` and `reset` and read the current page.

use vstd::prelude::*;

use crate::message::Message;
use crate::source::Page;
use crate::text::{decimal, position, push_decimal};

verus! {

/// The pagination state.
#[derive(Debug)]
pub struct Pages {
    /// Rows a page aims to fill. A page can outgrow it (a long series is never
    /// split), in which case the window scrolls inside the page.
    pub page_size: usize,
    pub current: Page,
    /// Where every page visited so far starts in the stream, ascending. Pages
    /// are variable-length, so stepping back is only possible because we
    /// remember where the earlier ones started.
    pub offsets: Vec<usize>,
    /// Where the page we are trying to show starts, while the source is still
    /// working on it. `None` once it has been served (or given up on).
    pub pending: Option<usize>,
    pub selected: usize,
    /// First row of the current page shown on screen. Non-zero only when the
    /// page is taller than the window.
    pub scroll: usize,
}

/// The offsets ascend, and none comes twice.
pub open spec fn ascend(v: Seq<usize>) -> bool {
    forall|i: int, j: int| 0 <= i < j < v.len() ==> #[trigger] v[i] < #[trigger] v[j]
}

/// The place of `x` in `v`.
pub open spec fn index_of(v: Seq<usize>, x: usize) -> Option<int>
    decreases v.len(),
{
    if v.len() == 0 {
        None
    } else if v.last() == x && index_of(v.drop_last(), x) is None {
        Some(v.len() - 1)
    } else {
        index_of(v.drop_last(), x)
    }
}

/// A found place holds what was sought, and no place before it does.
pub proof fn lemma_index_of(v: Seq<usize>, x: usize)
    ensures
        index_of(v, x) matches Some(i) ==> 0 <= i < v.len() && v[i] == x && forall|j: int|
            0 <= j < i ==> v[j] != x,
        index_of(v, x) is None <==> !v.contains(x),
    decreases v.len(),
{
    if v.len() > 0 {
        let init = v.drop_last();
        lemma_index_of(init, x);
        if init.contains(x) {
            let j = choose|j: int| 0 <= j < init.len() && init[j] == x;
            assert(v[j] == x);
        }
        if v.contains(x) && v.last() != x {
            let j = choose|j: int| 0 <= j < v.len() && v[j] == x;
            assert(init[j] == x);
        }
        if v.last() == x {
            assert(v[v.len() - 1] == x);
        }
        match index_of(v, x) {
            Some(i) => {
                assert forall|j: int| 0 <= j < i implies v[j] != x by {
                    assert(init[j] == v[j]);
                    if v[j] == x {
                        assert(init.contains(x));
                    }
                }
            },
            None => {},
        }
    }
}

/// The offsets that are kept when those past `limit` are forgotten.
pub open spec fn up_to(v: Seq<usize>, limit: usize) -> Seq<usize> {
    v.filter(|s: usize| s <= limit)
}

/// What stays of ascending offsets is what stood at their start.
pub proof fn lemma_up_to(v: Seq<usize>, limit: usize)
    requires
        ascend(v),
    ensures
        up_to(v, limit).len() <= v.len(),
        up_to(v, limit) == v.take(up_to(v, limit).len() as int),
        forall|i: int|
            0 <= i < v.len() ==> (#[trigger] v[i] <= limit <==> i < up_to(v, limit).len()),
    decreases v.len(),
{
    reveal(Seq::filter);
    if v.len() > 0 {
        let init = v.drop_last();
        assert(ascend(init)) by {
            assert forall|i: int, j: int| 0 <= i < j < init.len() implies #[trigger] init[i]
                < #[trigger] init[j] by {
                assert(v[i] < v[j]);
            }
        }
        lemma_up_to(init, limit);
        let kept = up_to(init, limit);
        if v.last() <= limit {
            assert forall|i: int| 0 <= i < init.len() implies #[trigger] init[i] <= limit by {
                assert(v[i] < v[v.len() - 1]);
            }
            assert(kept.len() == init.len()) by {
                if kept.len() < init.len() {
                    assert(init[kept.len() as int] <= limit);
                }
            }
            assert(up_to(v, limit) =~= v);
            assert(v.take(v.len() as int) =~= v);
        } else {
            assert(up_to(v, limit) == kept);
            assert(init.take(kept.len() as int) =~= v.take(kept.len() as int));
            assert forall|i: int| 0 <= i < v.len() implies (#[trigger] v[i] <= limit <==> i
                < kept.len()) by {
                if i < init.len() {
                    assert(v[i] == init[i]);
                }
            }
        }
    } else {
        assert(up_to(v, limit) =~= v);
        assert(v.take(0) =~= v);
    }
}

impl Pages {
    /// The boundaries ascend from 0, and the selection is on the page.
    pub open spec fn wf(self) -> bool {
        &&& self.current.wf()
        &&& self.offsets@.len() > 0
        &&& self.offsets@[0] == 0
        &&& ascend(self.offsets@)
        &&& self.selected < self.current.mails@.len() || self.selected == 0
    }

    /// The end of the current page has an offset.
    pub open spec fn end_fits(self) -> bool {
        self.current.offset + self.current.mails@.len() <= usize::MAX
    }

    /// The selected row is within the window.
    pub open spec fn selection_shows(self) -> bool {
        self.scroll <= self.selected < self.scroll + self.page_size
    }

    /// The boundary at which the current page starts, counted from 0.
    pub open spec fn page_index(self) -> Option<int> {
        index_of(self.offsets@, self.current.offset)
    }

    /// The 1-based page number.
    pub open spec fn number_text(self) -> Seq<char> {
        match self.page_index() {
            Some(i) => decimal((i + 1) as nat),
            None => decimal(1),
        }
    }

    /// Where the page before the current one starts.
    pub open spec fn previous(self) -> Option<usize> {
        match self.page_index() {
            Some(i) => if i > 0 {
                Some(self.offsets@[i - 1])
            } else {
                None
            },
            None => None,
        }
    }

    /// Where the page after the current one starts.
    pub open spec fn following(self) -> Option<usize> {
        if self.current.mails@.len() == 0 {
            None
        } else {
            Some((self.current.offset + self.current.mails@.len()) as usize)
        }
    }

    /// The first row of the window once row `row` is selected below the
    /// current selection.
    pub open spec fn scrolled_to(self, row: int) -> int {
        if row >= self.scroll + self.page_size {
            row + 1 - self.page_size
        } else {
            self.scroll as int
        }
    }

    /// The state with the selection one row down, or as it is on the last row.
    pub open spec fn row_down(self) -> Pages {
        let row = self.selected + 1;
        if row < self.current.mails@.len() {
            Pages { selected: row as usize, scroll: self.scrolled_to(row) as usize, ..self }
        } else {
            self
        }
    }

    /// The state with the selection one row up, or as it is on the first row.
    pub open spec fn row_up(self) -> Pages {
        let row = self.selected - 1;
        if row >= 0 {
            Pages {
                selected: row as usize,
                scroll: if self.scroll > row {
                    row as usize
                } else {
                    self.scroll
                },
                ..self
            }
        } else {
            self
        }
    }

    /// The state with the first row selected.
    pub open spec fn top_row(self) -> Pages {
        if self.selected > 0 {
            Pages { selected: 0, scroll: 0, ..self }
        } else {
            self
        }
    }

    /// The state with the last row selected.
    pub open spec fn bottom_row(self) -> Pages {
        let row = self.current.mails@.len() - 1;
        if self.selected < row {
            Pages { selected: row as usize, scroll: self.scrolled_to(row) as usize, ..self }
        } else {
            self
        }
    }

    /// `after` is the state once the end of the current page is remembered as
    /// a boundary. Where the first boundary known past the start of the page is
    /// another one, the page has been cut anew, and the boundaries past it are
    /// forgotten with it.
    pub open spec fn crossed(self, after: Pages) -> bool {
        match self.following() {
            Some(target) => {
                let kept = up_to(self.offsets@, self.current.offset);
                let n = kept.len() as int;
                &&& after.offsets@ == if n < self.offsets@.len() && self.offsets@[n] == target {
                    self.offsets@
                } else {
                    kept.push(target)
                }
                &&& after == (Pages { offsets: after.offsets, ..self })
            },
            None => after == self,
        }
    }

    /// The state of a reader that starts at the first page.
    pub open spec fn fresh(self, page_size: usize) -> bool {
        &&& self.page_size == page_size
        &&& self.current.mails@ == Seq::<Message>::empty()
        &&& self.current.wf()
        &&& self.current.offset == 0
        &&& self.offsets@ == seq![0usize]
        &&& self.pending is None
        &&& self.selected == 0
        &&& self.scroll == 0
    }

    pub fn new(page_size: usize) -> (r: Self)
        ensures
            r.fresh(page_size),
            r.wf(),
    {
        let offsets: Vec<usize> = vec![0];
        assert(offsets@ =~= seq![0usize]);
        Pages {
            page_size,
            current: Page::default(),
            offsets,
            pending: None,
            selected: 0,
            scroll: 0,
        }
    }

    pub fn current(&self) -> (r: &Page)
        ensures
            *r == self.current,
    {
        &self.current
    }

    pub fn selected(&self) -> (r: usize)
        ensures
            r == self.selected,
    {
        self.selected
    }

    pub fn scroll(&self) -> (r: usize)
        ensures
            r == self.scroll,
    {
        self.scroll
    }

    pub fn page_size(&self) -> (r: usize)
        ensures
            r == self.page_size,
    {
        self.page_size
    }

    pub fn pending(&self) -> (r: Option<usize>)
        ensures
            r == self.pending,
    {
        self.pending
    }

    /// The mail under the cursor, if the page has one.
    pub fn selected_mail(&self) -> (r: Option<&Message>)
        ensures
            match r {
                Some(m) => self.selected < self.current.mails@.len() && *m
                    == self.current.mails@[self.selected as int],
                None => self.selected >= self.current.mails@.len(),
            },
    {
        if self.selected < self.current.mails.len() {
            Some(&self.current.mails[self.selected])
        } else {
            None
        }
    }

    /// The place among the boundaries at which the current page starts.
    fn position(&self) -> (r: Option<usize>)
        ensures
            position(r) == self.page_index(),
            r matches Some(i) ==> i < self.offsets.len(),
    {
        let mut i: usize = 0;
        while i < self.offsets.len()
            invariant
                i <= self.offsets.len(),
                forall|j: int| 0 <= j < i ==> #[trigger] self.offsets@[j] != self.current.offset,
            decreases self.offsets.len() - i,
        {
            if self.offsets[i] == self.current.offset {
                proof {
                    lemma_index_of(self.offsets@, self.current.offset);
                    assert(self.offsets@.contains(self.current.offset));
                }
                return Some(i);
            }
            i += 1;
        }
        proof {
            lemma_index_of(self.offsets@, self.current.offset);
        }
        None
    }

    /// The 1-based page number: how many boundaries were crossed to get here.
    /// A page that no step leads to, away from all of them, is numbered 1.
    pub fn label(&self) -> (r: String)
        ensures
            r@ == self.number_text(),
    {
        let number: usize = match self.position() {
            Some(i) => i + 1,
            None => 1,
        };
        let mut out = String::new();
        push_decimal(&mut out, number as u64);
        assert(out@ =~= decimal(number as nat));
        out
    }

    /// Start over at page 0 (source swap). Everything resets, and 0 is the
    /// page to serve.
    pub fn reset(&mut self) -> (r: usize)
        ensures
            r == 0,
            final(self).fresh(old(self).page_size),
            final(self).wf(),
    {
        *self = Pages::new(self.page_size);
        0
    }

    /// Begin serving the page at `target`; it stays pending until `settle`.
    pub fn begin(&mut self, target: usize)
        ensures
            *final(self) == (Pages { pending: Some(target), ..*old(self) }),
    {
        self.pending = Some(target);
    }

    /// The source served a page: show it from the top.
    pub fn accept(&mut self, page: Page)
        requires
            page.wf(),
        ensures
            *final(self) == (Pages { current: page, selected: 0, scroll: 0, ..*old(self) }),
            old(self).wf() ==> final(self).wf(),
            old(self).page_size > 0 ==> final(self).selection_shows(),
    {
        self.current = page;
        self.selected = 0;
        self.scroll = 0;
    }

    /// Serving finished (or was given up on); nothing is pending anymore.
    pub fn settle(&mut self)
        ensures
            *final(self) == (Pages { pending: None, ..*old(self) }),
    {
        self.pending = None;
    }

    /// Where the next page starts, which is only known now that the current
    /// one has been served. The boundary is remembered for the way back.
    /// `None` while the current page is empty.
    pub fn next_target(&mut self) -> (r: Option<usize>)
        requires
            old(self).wf(),
            old(self).end_fits(),
        ensures
            r == old(self).following(),
            final(self).wf(),
            old(self).crossed(*final(self)),
            r matches Some(target) ==> final(self).offsets@.contains(target),
    {
        if self.current.is_empty() {
            return None;
        }
        let target = self.current.offset + self.current.len();
        let n = self.boundaries();
        let ghost all = self.offsets@;
        proof {
            lemma_up_to(all, self.current.offset);
            assert(all[0] <= self.current.offset);
        }
        // Offsets ascend, so a boundary we have already crossed is the first
        // one past the start of the page. Any other one there was cut for a
        // page that is gone, and so were those behind it.
        if n < self.offsets.len() && self.offsets[n] == target {
            return Some(target);
        }
        self.offsets.truncate(n);
        self.offsets.push(target);
        proof {
            let kept = up_to(all, self.current.offset);
            assert(self.offsets@ =~= kept.push(target));
            assert(self.offsets@[n as int] == target);
            assert forall|i: int, j: int| 0 <= i < j < self.offsets@.len() implies #[trigger]
                self.offsets@[i] < #[trigger] self.offsets@[j] by {
                assert(self.offsets@[i] == all[i] && all[i] <= self.current.offset);
                if j < n {
                    assert(self.offsets@[j] == all[j]);
                }
            }
        }
        Some(target)
    }

    /// How many boundaries stand at or before the start of the current page.
    fn boundaries(&self) -> (r: usize)
        requires
            self.wf(),
        ensures
            r == up_to(self.offsets@, self.current.offset).len(),
            r <= self.offsets.len(),
    {
        let offset = self.current.offset;
        let ghost all = self.offsets@;
        proof {
            lemma_up_to(all, offset);
        }
        let ghost kept = up_to(all, offset);
        let mut n: usize = 0;
        while n < self.offsets.len() && self.offsets[n] <= offset
            invariant
                n <= self.offsets@.len(),
                self.offsets@ == all,
                forall|i: int| 0 <= i < n ==> #[trigger] all[i] <= offset,
            decreases self.offsets@.len() - n,
        {
            n += 1;
        }
        proof {
            if n < kept.len() {
                assert(all[n as int] <= offset);
            }
            if kept.len() < n {
                assert(all[kept.len() as int] <= offset);
            }
        }
        n
    }

    /// Where the previous page starts; `None` on the first page.
    pub fn prev_target(&self) -> (r: Option<usize>)
        ensures
            r == self.previous(),
    {
        match self.position() {
            Some(i) => if i > 0 {
                Some(self.offsets[i - 1])
            } else {
                None
            },
            None => None,
        }
    }

    /// The window changed height: every boundary after the current page was
    /// cut for the old size and is now wrong, so forget them. Returns the
    /// current page's start, for the caller to re-serve.
    pub fn resize(&mut self, page_size: usize) -> (r: usize)
        requires
            old(self).wf(),
        ensures
            r == old(self).current.offset,
            final(self).offsets@ == up_to(old(self).offsets@, r),
            *final(self) == (Pages { page_size, offsets: final(self).offsets, ..*old(self) }),
            final(self).wf(),
    {
        let n = self.boundaries();
        self.page_size = page_size;
        let offset = self.current.offset;
        let ghost all = self.offsets@;
        proof {
            lemma_up_to(all, offset);
        }
        self.offsets.truncate(n);
        proof {
            assert(self.offsets@ =~= up_to(all, offset));
            assert(all[0] <= offset);
            assert forall|i: int, j: int| 0 <= i < j < self.offsets@.len() implies #[trigger]
                self.offsets@[i] < #[trigger] self.offsets@[j] by {
                assert(all[i] < all[j]);
            }
        }
        offset
    }

    /// Move the selection down one row, scrolling the window along when the
    /// page outgrows it. Returns whether the selection moved.
    pub fn select_next(&mut self) -> (r: bool)
        requires
            old(self).wf(),
        ensures
            r == (old(self).selected + 1 < old(self).current.mails@.len()),
            *final(self) == old(self).row_down(),
            final(self).wf(),
            old(self).selection_shows() ==> final(self).selection_shows(),
    {
        if self.selected >= self.current.len() || self.current.len() - self.selected <= 1 {
            return false;
        }
        self.selected += 1;
        if self.scroll <= self.selected && self.selected - self.scroll >= self.page_size {
            self.scroll = self.selected - self.page_size + 1;
        }
        true
    }

    /// Move the selection up one row, scrolling the window along when needed.
    /// Returns whether the selection moved.
    pub fn select_prev(&mut self) -> (r: bool)
        requires
            old(self).wf(),
        ensures
            r == (old(self).selected > 0),
            *final(self) == old(self).row_up(),
            final(self).wf(),
            old(self).selection_shows() ==> final(self).selection_shows(),
    {
        if self.selected == 0 {
            return false;
        }
        self.selected -= 1;
        if self.scroll > self.selected {
            self.scroll = self.selected;
        }
        true
    }

    /// Move the selection to the first row of the page. Returns whether the
    /// selection moved.
    pub fn select_first(&mut self) -> (r: bool)
        requires
            old(self).wf(),
        ensures
            r == (old(self).selected > 0),
            *final(self) == old(self).top_row(),
            final(self).wf(),
            old(self).selection_shows() ==> final(self).selection_shows(),
    {
        if self.selected == 0 {
            return false;
        }
        self.selected = 0;
        self.scroll = 0;
        true
    }

    /// Move the selection to the last row of the page, scrolling the window
    /// along. Returns whether the selection moved.
    pub fn select_last(&mut self) -> (r: bool)
        requires
            old(self).wf(),
        ensures
            r == (old(self).selected + 1 < old(self).current.mails@.len()),
            *final(self) == old(self).bottom_row(),
            final(self).wf(),
            old(self).selection_shows() ==> final(self).selection_shows(),
    {
        let n = self.current.len();
        if self.selected >= n || n - self.selected <= 1 {
            return false;
        }
        self.selected = n - 1;
        if self.scroll <= n - 1 && n - 1 - self.scroll >= self.page_size {
            self.scroll = n - 1 - self.page_size + 1;
        }
        true
    }
}

/// Every page that a step leads to starts at a boundary: the first one, the
/// next one, the previous one, and the one that is served again after a
/// resize. `page` is the state with that page showing.
pub proof fn law_steps_lead_to_boundaries(here: Pages, after: Pages, page: Pages)
    requires
        here.wf(),
        here.end_fits(),
        page.offsets@ == after.offsets@,
        ({
            ||| after.fresh(here.page_size) && page.current.offset == 0
            ||| here.crossed(after) && Some(page.current.offset) == here.following()
            ||| after == here && Some(page.current.offset) == here.previous()
            ||| {
                &&& here.page_index() is Some
                &&& after.offsets@ == up_to(here.offsets@, here.current.offset)
                &&& page.current.offset == here.current.offset
            }
        }),
    ensures
        page.page_index() is Some,
{
    let at = page.current.offset;
    let v = page.offsets@;
    lemma_index_of(v, at);
    lemma_index_of(here.offsets@, here.current.offset);
    lemma_up_to(here.offsets@, here.current.offset);
    let kept = up_to(here.offsets@, here.current.offset);
    if after.fresh(here.page_size) && at == 0 {
        assert(v[0] == 0);
    } else if here.crossed(after) && Some(at) == here.following() {
        assert(v[kept.len() as int] == at);
    } else if after == here && Some(at) == here.previous() {
        assert(v[here.page_index().unwrap() - 1] == at);
    } else {
        let i = here.page_index().unwrap();
        assert(here.offsets@[i] <= here.current.offset);
        assert(kept[i] == at);
    }
}

/// Stepping to the next page and back again comes back to the page it started
/// from, and the page number counts one up on the way. `here` is the state
/// before the step, on a page that starts at a boundary, and `there` the state
/// with the next page showing.
pub proof fn law_back_undoes_forward(here: Pages, there: Pages)
    requires
        here.wf(),
        here.end_fits(),
        here.page_index() is Some,
        here.current.mails@.len() > 0,
        exists|crossing: Pages| #[trigger]
            here.crossed(crossing) && there.offsets@ == crossing.offsets@,
        Some(there.current.offset) == here.following(),
    ensures
        there.previous() == Some(here.current.offset),
        there.page_index() == Some(here.page_index().unwrap() + 1),
{
    let i = here.page_index().unwrap();
    let target = here.following().unwrap();
    lemma_index_of(here.offsets@, here.current.offset);
    lemma_index_of(there.offsets@, target);
    lemma_up_to(here.offsets@, here.current.offset);
    let kept = up_to(here.offsets@, here.current.offset);
    assert(kept.len() == i + 1) by {
        assert(here.offsets@[i] <= here.current.offset);
        if i + 1 < here.offsets@.len() {
            assert(here.offsets@[i] < here.offsets@[i + 1]);
        }
    }
    assert(there.offsets@[i + 1] == target);
    assert(there.offsets@.contains(target));
    assert(there.offsets@[i] == here.offsets@[i]);
    let j = there.page_index().unwrap();
    assert(j == i + 1) by {
        if j <= i {
            assert(there.offsets@[j] == here.offsets@[j]);
            assert(here.offsets@[j] <= here.current.offset);
        }
    }
}

/// Stepping back from a page that is not the first goes one page number down.
/// `here` is the state before the step, `there` the state with the previous
/// page showing.
pub proof fn law_back_counts_down(here: Pages, there: Pages)
    requires
        here.wf(),
        here.previous() is Some,
        there.offsets@ == here.offsets@,
        Some(there.current.offset) == here.previous(),
    ensures
        there.page_index() == Some(here.page_index().unwrap() - 1),
{
    let i = here.page_index().unwrap();
    lemma_index_of(here.offsets@, here.current.offset);
    lemma_index_of(there.offsets@, there.current.offset);
    assert(here.offsets@[i - 1] == there.current.offset);
    assert(here.offsets@.contains(there.current.offset));
    let j = there.page_index().unwrap();
    if j < i - 1 {
        assert(here.offsets@[j] < here.offsets@[i - 1]);
    }
}

/// Moving the selection down and up again comes back to the row it started
/// from; the window may stay where it followed.
pub proof fn law_up_undoes_down(pages: Pages)
    requires
        pages.wf(),
        pages.selected + 1 < pages.current.mails@.len(),
    ensures
        pages.row_down().row_up().selected == pages.selected,
        pages.row_down().row_up().current == pages.current,
        pages.row_down().row_up().offsets == pages.offsets,
{
}

/// A resize keeps the page number and the way back, and forgets every boundary
/// after the current page.
pub proof fn law_resize_keeps_the_way_back(here: Pages, there: Pages)
    requires
        here.wf(),
        there.offsets@ == up_to(here.offsets@, here.current.offset),
        there.current.offset == here.current.offset,
    ensures
        there.page_index() == here.page_index(),
        there.previous() == here.previous(),
        forall|i: int|
            0 <= i < there.offsets@.len() ==> #[trigger] there.offsets@[i] <= here.current.offset,
{
    let at = here.current.offset;
    let kept = there.offsets@;
    lemma_up_to(here.offsets@, at);
    lemma_index_of(here.offsets@, at);
    lemma_index_of(kept, at);
    assert forall|i: int| 0 <= i < kept.len() implies #[trigger] kept[i] <= at by {
        assert(kept[i] == here.offsets@[i]);
    }
    match (here.page_index(), there.page_index()) {
        (Some(i), Some(j)) => {
            assert(kept[j] == here.offsets@[j]);
            assert(i == j);
        },
        (Some(i), None) => {
            assert(here.offsets@[i] <= at);
            assert(kept[i] == at);
            assert(kept.contains(at));
        },
        (None, Some(j)) => {
            assert(here.offsets@[j] == at);
            assert(here.offsets@.contains(at));
        },
        (None, None) => {},
    }
}

} // verus!
