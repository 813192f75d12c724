//! A filtered scan: what it has found, which page of it can be shown, and the
//! worker that goes through the epochs.

use vstd::prelude::*;

use crate::constraints::FilterSet;
use crate::message::Message;
use crate::source::{Page, SourceStatus};

verus! {

/// A filtered scan. A worker streams matching mails; the owner drains them
/// into `results` with `poll` and serves pages from there.
#[derive(Debug)]
pub struct FilteredSource {
    pub list_name: String,
    pub filters: FilterSet,
    pub results: Vec<Message>,
    /// The current worker has finished scanning its epochs.
    pub done: bool,
    /// Epochs not present locally, newest first, awaiting on-demand clone.
    pub uncloned: Vec<u32>,
}

/// The epochs that are cloned, or those that are not, newest first.
pub open spec fn newest_first(epochs: Seq<u32>, present: Seq<bool>, cloned: bool) -> Seq<u32>
    decreases epochs.len(),
{
    if epochs.len() == 0 {
        seq![]
    } else {
        let older = newest_first(epochs.drop_last(), present.drop_last(), cloned);
        if present.last() == cloned {
            seq![epochs.last()] + older
        } else {
            older
        }
    }
}

/// The results that a page shows.
pub open spec fn window(results: Seq<Message>, offset: int, size: int) -> Seq<Message> {
    if offset >= results.len() {
        seq![]
    } else if offset + size < results.len() {
        results.subrange(offset, offset + size)
    } else {
        results.skip(offset)
    }
}

/// The test for any epoch but `epoch`.
pub open spec fn other_than(epoch: u32) -> spec_fn(u32) -> bool {
    |e: u32| e != epoch
}

/// `epochs` without `epoch`.
pub open spec fn without(epochs: Seq<u32>, epoch: u32) -> Seq<u32> {
    epochs.filter(other_than(epoch))
}

impl FilteredSource {
    /// The page that starts at `offset`, in the order in which the matches
    /// came, nothing grouped.
    pub open spec fn shows(self, page: Page, offset: usize, page_size: usize) -> bool {
        let mails = window(self.results@, offset as int, page_size as int);
        &&& page.wf()
        &&& page.mails@ == mails
        &&& page.flags() == Seq::new(mails.len(), |i: int| false)
        &&& page.offset == offset
    }

    /// `status` says whether the page at `offset` can be served yet: ready once
    /// enough matches exist (or the worker is done), otherwise loading, or,
    /// when the scan is done and results run out, the next epoch to clone.
    pub open spec fn tells(self, status: SourceStatus, offset: usize, page_size: usize) -> bool {
        let found = self.results@.len();
        if found >= offset + page_size || (self.done && offset < found) {
            status matches SourceStatus::Ready(page) && self.shows(page, offset, page_size)
        } else if self.done {
            if self.uncloned@.len() > 0 {
                status == SourceStatus::NeedsClone(self.uncloned@[0])
            } else {
                status == SourceStatus::Exhausted
            }
        } else {
            status matches SourceStatus::Loading(text) && self.filters.reports(found, text@)
        }
    }

    /// Start a scan over `available_epochs` for mails matching `filters`;
    /// `present` tells of each epoch whether it is cloned. Epochs present
    /// locally are to be scanned right away, in the order given back; the rest
    /// are queued for on-demand cloning.
    pub fn start(
        list_name: String,
        filters: FilterSet,
        available_epochs: &Vec<u32>,
        present: &Vec<bool>,
    ) -> (r: (Self, Vec<u32>))
        requires
            present.len() == available_epochs.len(),
        ensures
            r.0.list_name == list_name,
            r.0.filters == filters,
            r.0.results@ == Seq::<Message>::empty(),
            !r.0.done,
            r.0.uncloned@ == newest_first(available_epochs@, present@, false),
            r.1@ == newest_first(available_epochs@, present@, true),
    {
        let mut scan: Vec<u32> = Vec::new();
        let mut uncloned: Vec<u32> = Vec::new();
        let mut i = available_epochs.len();
        let ghost all = available_epochs@;
        let ghost flags = present@;
        assert(all.take(i as int) =~= all);
        assert(flags.take(i as int) =~= flags);
        assert(scan@ + newest_first(all, flags, true) =~= newest_first(all, flags, true));
        assert(uncloned@ + newest_first(all, flags, false) =~= newest_first(all, flags, false));
        while i > 0
            invariant
                i <= available_epochs.len() == present.len(),
                all == available_epochs@,
                flags == present@,
                scan@ + newest_first(all.take(i as int), flags.take(i as int), true)
                    == newest_first(all, flags, true),
                uncloned@ + newest_first(all.take(i as int), flags.take(i as int), false)
                    == newest_first(all, flags, false),
            decreases i,
        {
            let ghost a = scan@;
            let ghost b = uncloned@;
            proof {
                assert(all.take(i as int).drop_last() =~= all.take(i - 1));
                assert(flags.take(i as int).drop_last() =~= flags.take(i - 1));
            }
            i -= 1;
            let ghost t = newest_first(all.take(i as int), flags.take(i as int), true);
            let ghost f = newest_first(all.take(i as int), flags.take(i as int), false);
            if present[i] {
                scan.push(available_epochs[i]);
                assert(a + (seq![all[i as int]] + t) =~= scan@ + t);
            } else {
                uncloned.push(available_epochs[i]);
                assert(b + (seq![all[i as int]] + f) =~= uncloned@ + f);
            }
        }
        assert(scan@ + Seq::<u32>::empty() =~= scan@);
        assert(uncloned@ + Seq::<u32>::empty() =~= uncloned@);
        (
            FilteredSource { list_name, filters, results: Vec::new(), done: false, uncloned },
            scan,
        )
    }

    /// Take in what the worker has sent, and whether it has finished.
    pub fn poll(&mut self, mails: Vec<Message>, finished: bool)
        ensures
            final(self).results@ == old(self).results@ + mails@,
            final(self).done == (old(self).done || finished),
            *final(self) == (FilteredSource {
                results: final(self).results,
                done: final(self).done,
                ..*old(self)
            }),
    {
        let mut mails = mails;
        self.results.append(&mut mails);
        if finished {
            self.done = true;
        }
    }

    /// The page that starts at `offset`.
    pub fn page(&self, offset: usize, page_size: usize) -> (r: Page)
        ensures
            self.shows(r, offset, page_size),
    {
        let n = self.results.len();
        let mut mails: Vec<Message> = Vec::new();
        let ghost goal = window(self.results@, offset as int, page_size as int);
        if offset < n {
            let end = if page_size < n - offset { offset + page_size } else { n };
            let mut i = offset;
            while i < end
                invariant
                    offset <= i <= end <= self.results.len(),
                    mails@ == self.results@.subrange(offset as int, i as int),
                decreases end - i,
            {
                mails.push(self.results[i].clone());
                i += 1;
                assert(self.results@.subrange(offset as int, i as int) =~= self.results@.subrange(
                    offset as int,
                    i - 1,
                ).push(self.results@[i - 1]));
            }
        }
        assert(mails@ =~= goal);
        Page::flat(mails, offset)
    }

    /// Decide whether the page at `offset` can be served yet.
    pub fn status(&self, offset: usize, page_size: usize) -> (r: SourceStatus)
        ensures
            self.tells(r, offset, page_size),
    {
        let len = self.results.len();
        let enough = offset <= len && page_size <= len - offset;
        if enough || (self.done && offset < len) {
            SourceStatus::Ready(self.page(offset, page_size))
        } else if self.done {
            if self.uncloned.len() > 0 {
                SourceStatus::NeedsClone(self.uncloned[0])
            } else {
                SourceStatus::Exhausted
            }
        } else {
            SourceStatus::Loading(self.filters.progress(len))
        }
    }

    /// Forget an epoch that was to be cloned.
    pub fn discard_uncloned(&mut self, epoch: u32)
        ensures
            final(self).uncloned@ == without(old(self).uncloned@, epoch),
            !final(self).uncloned@.contains(epoch),
            old(self).uncloned@.contains(epoch) ==> final(self).uncloned@.len() < old(
                self,
            ).uncloned@.len(),
            *final(self) == (FilteredSource { uncloned: final(self).uncloned, ..*old(self) }),
    {
        let ghost all = self.uncloned@;
        let ghost p = other_than(epoch);
        let mut kept: Vec<u32> = Vec::new();
        let mut i: usize = 0;
        reveal(Seq::filter);
        assert(kept@ =~= all.take(0).filter(p));
        while i < self.uncloned.len()
            invariant
                i <= self.uncloned.len(),
                self.uncloned@ == all,
                p == other_than(epoch),
                kept@ == all.take(i as int).filter(p),
                kept@.len() <= i,
                all.take(i as int).contains(epoch) ==> kept@.len() < i,
                !kept@.contains(epoch),
            decreases self.uncloned.len() - i,
        {
            let ghost before = kept@;
            proof {
                reveal(Seq::filter);
                assert(all.take(i + 1).drop_last() =~= all.take(i as int));
                assert(all.take(i + 1).last() == all[i as int]);
                if all.take(i + 1).contains(epoch) && all[i as int] != epoch {
                    let j = choose|j: int|
                        0 <= j < i + 1 && #[trigger] all.take(i + 1)[j] == epoch;
                    assert(all.take(i as int)[j] == epoch);
                }
            }
            if self.uncloned[i] != epoch {
                kept.push(self.uncloned[i]);
                proof {
                    if kept@.contains(epoch) {
                        let j = choose|j: int| 0 <= j < kept@.len() && #[trigger] kept@[j] == epoch;
                        assert(before[j] == epoch);
                    }
                }
            }
            i += 1;
        }
        assert(all.take(i as int) =~= all);
        self.uncloned = kept;
    }

    /// Resume over `epoch`, just cloned, so that its matches are appended to
    /// the existing results. The caller starts a worker over it.
    pub fn extend(&mut self, epoch: u32)
        ensures
            final(self).uncloned@ == without(old(self).uncloned@, epoch),
            !final(self).uncloned@.contains(epoch),
            !final(self).done,
            *final(self) == (FilteredSource {
                uncloned: final(self).uncloned,
                done: false,
                ..*old(self)
            }),
    {
        self.discard_uncloned(epoch);
        self.done = false;
    }
}

/// A page that is full of matches stays as it is while more matches come in.
pub proof fn law_full_pages_stay(
    results: Seq<Message>,
    more: Seq<Message>,
    offset: nat,
    page_size: nat,
)
    requires
        results.len() >= offset + page_size,
    ensures
        window(results + more, offset as int, page_size as int) == window(
            results,
            offset as int,
            page_size as int,
        ),
{
    assert(window(results + more, offset as int, page_size as int) =~= window(
        results,
        offset as int,
        page_size as int,
    ));
}

/// Paging on through the matches loses none and shows none twice: the page
/// that starts where another ends continues it.
pub proof fn law_filtered_pages_follow_each_other(
    results: Seq<Message>,
    offset: nat,
    size: nat,
    next_size: nat,
)
    ensures
        ({
            let first = window(results, offset as int, size as int);
            let second = window(results, (offset + first.len()) as int, next_size as int);
            first + second == window(results, offset as int, (first.len() + next_size) as int)
        }),
{
    let first = window(results, offset as int, size as int);
    let second = window(results, (offset + first.len()) as int, next_size as int);
    assert(first + second =~= window(results, offset as int, (first.len() + next_size) as int));
}

/// Every epoch of a list is either scanned right away or queued for cloning.
pub proof fn law_no_epoch_is_left_out(epochs: Seq<u32>, present: Seq<bool>, i: int)
    requires
        present.len() == epochs.len(),
        0 <= i < epochs.len(),
    ensures
        newest_first(epochs, present, present[i]).contains(epochs[i]),
        newest_first(epochs, present, true).len() + newest_first(epochs, present, false).len()
            == epochs.len(),
    decreases epochs.len(),
{
    reveal_with_fuel(newest_first, 2);
    let older = epochs.drop_last();
    let flags = present.drop_last();
    if older.len() > 0 {
        let j = if i < older.len() {
            i
        } else {
            0
        };
        law_no_epoch_is_left_out(older, flags, j);
    }
    let all = newest_first(epochs, present, present[i]);
    if i == epochs.len() - 1 {
        assert(all[0] == epochs[i]);
    } else {
        let rest = newest_first(older, flags, present[i]);
        let k = choose|k: int| 0 <= k < rest.len() && rest[k] == older[i];
        assert(rest[k] == epochs[i]);
        assert(all[k + (all.len() - rest.len())] == epochs[i]);
    }
}

// ---------------------------------------------------------------------------
// The worker
// ---------------------------------------------------------------------------

/// What a worker waits for.
#[derive(Clone, Copy, Debug, PartialEq, Eq, Structural)]
pub enum ScanStage {
    /// Whether the epoch is cloned.
    Probing,
    /// The commits of the epoch that match the needles.
    Searching,
    /// The next mail of those commits.
    Reading,
    /// Whether a match was delivered.
    Sending,
    /// Nothing: the scan is over.
    Over,
}

/// What a worker asks for.
#[derive(Debug)]
pub enum ScanAsk {
    /// Is the scan cancelled, and is this epoch cloned?
    Probe(u32),
    /// Which commits of this epoch match the needles?
    Search(u32),
    /// Begin to read the mails of these commits of this epoch, and give the
    /// first.
    Read(u32, Vec<String>),
    /// Give the next mail.
    Next,
    /// Deliver this match.
    Send(Message),
    /// The scan is over.
    Stopped,
}

/// The answer to a worker's question.
#[derive(Debug)]
pub enum ScanReply {
    Probed { cancelled: bool, cloned: bool },
    /// The commits that match, or nothing where searching failed.
    Found(Option<Vec<String>>),
    /// The next mail, or nothing where there is no more.
    Mail { cancelled: bool, mail: Option<Message> },
    /// Whether there was anyone to deliver to.
    Sent(bool),
}

/// A worker that scans epochs in the order given and sends every mail that
/// satisfies all filters. Subject and author are left to the search; only the
/// commits it finds are read, and the rest of the predicate runs on those.
/// Stops promptly when the scan is cancelled or nobody takes the matches.
#[derive(Debug)]
pub struct ScanWorker {
    pub filters: FilterSet,
    pub epochs: Vec<u32>,
    /// The epoch that the scan is at.
    pub at: usize,
    pub stage: ScanStage,
}

/// The archive as a scan meets it: which epochs are cloned, and the mails of
/// the commits that match the needles, where searching an epoch works.
pub struct Matches {
    pub present: spec_fn(u32) -> bool,
    pub hits: spec_fn(u32) -> Option<Seq<Message>>,
}

/// The mails that satisfy the filters, in their order.
pub open spec fn admitted(filters: FilterSet, mails: Seq<Message>) -> Seq<Message>
    decreases mails.len(),
{
    if mails.len() == 0 {
        seq![]
    } else if filters.admits(mails[0]) {
        seq![mails[0]] + admitted(filters, mails.skip(1))
    } else {
        admitted(filters, mails.skip(1))
    }
}

/// What scanning an epoch that is cloned finds.
pub open spec fn found_in(w: Matches, filters: FilterSet, epoch: u32) -> Seq<Message> {
    match (w.hits)(epoch) {
        Some(mails) => admitted(filters, mails),
        None => seq![],
    }
}

/// What a scan finds from the epoch `at` on.
pub open spec fn found_from(w: Matches, filters: FilterSet, epochs: Seq<u32>, at: nat) -> Seq<
    Message,
>
    decreases epochs.len() - at,
{
    if at >= epochs.len() {
        seq![]
    } else if (w.present)(epochs[at as int]) {
        found_in(w, filters, epochs[at as int]) + found_from(w, filters, epochs, at + 1)
    } else {
        found_from(w, filters, epochs, at + 1)
    }
}

impl ScanWorker {
    /// The worker is at a place that it can be at.
    pub open spec fn on_track(self) -> bool {
        self.stage != ScanStage::Over ==> self.at < self.epochs.len()
    }

    /// What the scan will still send if nothing stops it; `coming` are the
    /// mails still to be read of the epoch it is at.
    pub open spec fn rest(self, w: Matches, coming: Seq<Message>) -> Seq<Message> {
        let later = found_from(w, self.filters, self.epochs@, (self.at + 1) as nat);
        match self.stage {
            ScanStage::Probing => found_from(w, self.filters, self.epochs@, self.at as nat),
            ScanStage::Searching => found_in(w, self.filters, self.epochs@[self.at as int]) + later,
            ScanStage::Reading | ScanStage::Sending => admitted(self.filters, coming) + later,
            ScanStage::Over => seq![],
        }
    }

    /// `reply` is of the kind that the worker waits for.
    pub open spec fn fits(self, reply: ScanReply) -> bool {
        match self.stage {
            ScanStage::Probing => reply is Probed,
            ScanStage::Searching => reply is Found,
            ScanStage::Reading => reply is Mail,
            ScanStage::Sending => reply is Sent,
            ScanStage::Over => false,
        }
    }

    /// `reply` is what the archive `w` answers, where `coming` are the mails
    /// still to be read.
    pub open spec fn faithful(self, reply: ScanReply, w: Matches, coming: Seq<Message>) -> bool {
        let epoch = self.epochs@[self.at as int];
        match reply {
            ScanReply::Probed { cloned, .. } => cloned == (w.present)(epoch),
            ScanReply::Found(commits) => commits is Some == ((w.hits)(epoch) is Some),
            ScanReply::Mail { mail, .. } => match mail {
                Some(m) => coming.len() > 0 && coming[0] == m,
                None => coming.len() == 0,
            },
            ScanReply::Sent(_) => true,
        }
    }

    /// The mails still to be read once `reply` has come.
    pub open spec fn left_over(self, reply: ScanReply, w: Matches, coming: Seq<Message>) -> Seq<
        Message,
    > {
        match reply {
            ScanReply::Found(Some(_)) => (w.hits)(self.epochs@[self.at as int]).unwrap(),
            ScanReply::Mail { mail: Some(_), .. } => coming.skip(1),
            _ => coming,
        }
    }

    /// The worker waits on the question `ask`.
    pub open spec fn asks(self, ask: ScanAsk) -> bool {
        let epoch = self.epochs@[self.at as int];
        match ask {
            ScanAsk::Probe(e) => self.stage == ScanStage::Probing && e == epoch,
            ScanAsk::Search(e) => self.stage == ScanStage::Searching && e == epoch,
            ScanAsk::Read(e, _) => self.stage == ScanStage::Reading && e == epoch,
            ScanAsk::Next => self.stage == ScanStage::Reading,
            ScanAsk::Send(m) => self.stage == ScanStage::Sending && self.filters.admits(m),
            ScanAsk::Stopped => self.stage == ScanStage::Over,
        }
    }
}

/// The reply stops a scan: it is cancelled, or nobody takes the matches.
pub open spec fn stops(reply: ScanReply) -> bool {
    match reply {
        ScanReply::Probed { cancelled, .. } => cancelled,
        ScanReply::Found(_) => false,
        ScanReply::Mail { cancelled, mail } => cancelled && mail is Some,
        ScanReply::Sent(taken) => !taken,
    }
}

/// The reply ends the scan of an epoch.
pub open spec fn moves_on(reply: ScanReply) -> bool {
    match reply {
        ScanReply::Probed { cancelled, cloned } => !cancelled && !cloned,
        ScanReply::Found(commits) => commits is None,
        ScanReply::Mail { mail, .. } => mail is None,
        ScanReply::Sent(_) => false,
    }
}

/// What is delivered with a question.
pub open spec fn delivery(ask: ScanAsk) -> Seq<Message> {
    match ask {
        ScanAsk::Send(m) => seq![m],
        _ => seq![],
    }
}

impl ScanWorker {
    /// Starts a scan over `epochs`.
    pub fn begin(filters: FilterSet, epochs: Vec<u32>) -> (r: (Self, ScanAsk))
        ensures
            r.0.on_track(),
            r.0.asks(r.1),
            r.0.filters == filters,
            r.0.epochs == epochs,
            r.0.at == 0,
            r.1 is Stopped <==> epochs@.len() == 0,
            forall|w: Matches, coming: Seq<Message>| #[trigger]
                r.0.rest(w, coming) == found_from(w, filters, epochs@, 0),
    {
        let mut worker = ScanWorker { filters, epochs, at: 0, stage: ScanStage::Over };
        let ask = worker.probe();
        (worker, ask)
    }

    /// Asks about the epoch that the scan is at, or ends the scan behind the
    /// last one.
    fn probe(&mut self) -> (ask: ScanAsk)
        ensures
            final(self).on_track(),
            final(self).asks(ask),
            final(self).filters == old(self).filters,
            final(self).epochs == old(self).epochs,
            final(self).at == old(self).at,
            ask is Probe || ask is Stopped,
            ask is Stopped <==> old(self).at >= old(self).epochs.len(),
            forall|w: Matches, coming: Seq<Message>| #[trigger]
                final(self).rest(w, coming) == found_from(
                    w,
                    old(self).filters,
                    old(self).epochs@,
                    old(self).at as nat,
                ),
    {
        if self.at < self.epochs.len() {
            self.stage = ScanStage::Probing;
            ScanAsk::Probe(self.epochs[self.at])
        } else {
            self.stage = ScanStage::Over;
            ScanAsk::Stopped
        }
    }

    /// Takes the answer to the question that the worker waits on, and comes to
    /// the next. Nothing is sent that the filters do not admit. Whatever the
    /// archive, as long as it answers as it is and nothing stops the scan,
    /// what is sent with the next question and after it is what was still to
    /// be sent.
    pub fn answer(&mut self, reply: ScanReply) -> (ask: ScanAsk)
        requires
            old(self).on_track(),
            old(self).fits(reply),
        ensures
            final(self).on_track(),
            final(self).asks(ask),
            final(self).filters == old(self).filters,
            final(self).epochs == old(self).epochs,
            final(self).at == old(self).at + if moves_on(reply) {
                1int
            } else {
                0
            },
            ask is Stopped <==> stops(reply) || final(self).at >= old(self).epochs.len(),
            reply matches ScanReply::Probed { cancelled: false, cloned: true } ==> ask is Search,
            reply matches ScanReply::Found(Some(commits)) ==> ask == ScanAsk::Read(
                old(self).epochs@[old(self).at as int],
                commits,
            ),
            reply matches ScanReply::Mail { cancelled: false, mail: Some(m) } ==> ask == if old(
                self,
            ).filters.admits(m) {
                ScanAsk::Send(m)
            } else {
                ScanAsk::Next
            },
            reply == ScanReply::Sent(true) ==> ask is Next,
            moves_on(reply) ==> ask is Probe || ask is Stopped,
            forall|w: Matches, coming: Seq<Message>|
                old(self).faithful(reply, w, coming) && !stops(reply) ==> #[trigger] old(self).rest(
                    w,
                    coming,
                ) == delivery(ask) + final(self).rest(w, old(self).left_over(reply, w, coming)),
    {
        let ghost before = *self;
        let ask = match reply {
            ScanReply::Probed { cancelled, cloned } => {
                if cancelled {
                    self.stage = ScanStage::Over;
                    ScanAsk::Stopped
                } else if cloned {
                    self.stage = ScanStage::Searching;
                    ScanAsk::Search(self.epochs[self.at])
                } else {
                    self.at += 1;
                    self.probe()
                }
            },
            ScanReply::Found(found) => match found {
                Some(commits) => {
                    self.stage = ScanStage::Reading;
                    ScanAsk::Read(self.epochs[self.at], commits)
                },
                None => {
                    self.at += 1;
                    self.probe()
                },
            },
            ScanReply::Mail { cancelled, mail } => match mail {
                None => {
                    self.at += 1;
                    self.probe()
                },
                Some(m) => {
                    if cancelled {
                        self.stage = ScanStage::Over;
                        ScanAsk::Stopped
                    } else if self.filters.matches(&m) {
                        self.stage = ScanStage::Sending;
                        ScanAsk::Send(m)
                    } else {
                        ScanAsk::Next
                    }
                },
            },
            ScanReply::Sent(taken) => {
                if taken {
                    self.stage = ScanStage::Reading;
                    ScanAsk::Next
                } else {
                    self.stage = ScanStage::Over;
                    ScanAsk::Stopped
                }
            },
        };
        assert forall|w: Matches, coming: Seq<Message>|
            before.faithful(reply, w, coming) && !stops(reply) implies #[trigger] before.rest(
            w,
            coming,
        ) == delivery(ask) + self.rest(w, before.left_over(reply, w, coming)) by {
            assert(before.rest(w, coming) =~= delivery(ask) + self.rest(
                w,
                before.left_over(reply, w, coming),
            ));
        }
        ask
    }
}

} // verus!
