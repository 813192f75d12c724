//! Where the reader pulls mails from: the full unfiltered stream or an active
//! filtered scan, and the negotiation of missing epochs on the way to a page.

use vstd::prelude::*;

use crate::message::Message;
use crate::scan::{without, FilteredSource};
use crate::source::{PageState, SourceStatus};
use crate::stream::{
    leads_to, stream_page, tells, Archive, Served, StreamAsk, StreamReply, StreamSource, StreamWalk,
};

verus! {

/// Where mails come from: either the full unfiltered stream or an active
/// filtered scan. Both answer the same question for the page at an offset.
#[derive(Debug)]
pub enum MailSource {
    Stream(StreamSource),
    Filtered(FilteredSource),
}

/// What a request waits for.
#[derive(Debug)]
pub enum Step {
    /// The archive's answer to a walk over the stream.
    Walking(StreamWalk),
    /// Whether the user agrees to clone this epoch.
    Asking(u32),
    /// Whether cloning this epoch worked.
    Cloning(u32),
    /// A worker over this epoch.
    Resuming(u32),
    /// Nothing: the request is settled.
    Settled,
}

/// A request for a page, from one question to the next.
#[derive(Debug)]
pub struct PageRequest {
    pub offset: usize,
    pub page_size: usize,
    pub step: Step,
}

/// What a request asks for, or what it came to.
#[derive(Debug)]
pub enum PageAsk {
    /// A question to the archive.
    Archive(StreamAsk),
    /// May this epoch be cloned?
    Consent(u32),
    /// Clone this epoch.
    Clone(u32),
    /// Start a worker over this epoch.
    Scan(u32),
    /// The request is settled.
    Finished(PageState),
}

/// The answer to a request's question.
#[derive(Debug)]
pub enum PageReply {
    Archive(StreamReply),
    /// Whether the user agreed.
    Consent(bool),
    /// Whether the epoch is now cloned.
    Cloned(bool),
    /// The worker is started.
    Scanning,
}

/// What follows from the status of a source: a settled request, or the
/// question whether an epoch may be cloned.
pub open spec fn follows(status: SourceStatus, ask: PageAsk, step: Step) -> bool {
    match status {
        SourceStatus::Ready(page) => ask == PageAsk::Finished(PageState::Ready(page)) && step
            == Step::Settled,
        SourceStatus::Loading(text) => ask == PageAsk::Finished(PageState::Pending(text)) && step
            == Step::Settled,
        SourceStatus::NeedsClone(epoch) => ask == PageAsk::Consent(epoch) && step == Step::Asking(
            epoch,
        ),
        SourceStatus::Exhausted => ask == PageAsk::Finished(PageState::End) && step
            == Step::Settled,
    }
}

/// The step and the question that follow from the status of a source.
fn follow(status: SourceStatus) -> (r: (Step, PageAsk))
    ensures
        follows(status, r.1, r.0),
{
    match status {
        SourceStatus::Ready(page) => (Step::Settled, PageAsk::Finished(PageState::Ready(page))),
        SourceStatus::Loading(text) => (Step::Settled, PageAsk::Finished(PageState::Pending(text))),
        SourceStatus::NeedsClone(epoch) => (Step::Asking(epoch), PageAsk::Consent(epoch)),
        SourceStatus::Exhausted => (Step::Settled, PageAsk::Finished(PageState::End)),
    }
}

/// The step and the question that follow from where a walk over the stream
/// has come to.
fn follow_walk(walk: StreamWalk, ask: StreamAsk) -> (r: (Step, PageAsk))
    ensures
        match ask {
            StreamAsk::Finished(status) => follows(status, r.1, r.0),
            _ => r.0 == Step::Walking(walk) && r.1 == PageAsk::Archive(ask),
        },
{
    match ask {
        StreamAsk::Finished(status) => follow(status),
        _ => (Step::Walking(walk), PageAsk::Archive(ask)),
    }
}

/// A request over the stream, after the question `ask`, comes to `outcome` in
/// the archive `w`.
pub open spec fn comes_to(
    source: StreamSource,
    request: PageRequest,
    ask: PageAsk,
    w: Archive,
    outcome: Served,
) -> bool {
    match ask {
        PageAsk::Archive(a) => {
            &&& request.step matches Step::Walking(walk)
            &&& source.rest(walk, w) == outcome
        },
        PageAsk::Consent(epoch) => outcome == Served::NeedsClone(epoch),
        PageAsk::Finished(PageState::Ready(page)) => tells(
            SourceStatus::Ready(page),
            request.offset,
            outcome,
        ),
        PageAsk::Finished(PageState::End) => outcome == Served::Nothing,
        _ => false,
    }
}

impl MailSource {
    /// The request waits on the question `ask`, and is at a place that it can
    /// be at.
    pub open spec fn waits(self, request: PageRequest, ask: PageAsk) -> bool {
        match request.step {
            Step::Walking(walk) => {
                &&& self matches MailSource::Stream(s)
                &&& s.on_track(walk)
                &&& walk.offset == request.offset
                &&& walk.page_size == request.page_size
                &&& ask matches PageAsk::Archive(a)
                &&& s.asks(walk, a)
                &&& a !is Finished
            },
            Step::Asking(epoch) => ask == PageAsk::Consent(epoch),
            Step::Cloning(epoch) => ask == PageAsk::Clone(epoch),
            Step::Resuming(epoch) => self is Filtered && ask == PageAsk::Scan(epoch),
            Step::Settled => ask is Finished,
        }
    }

    /// `reply` is of the kind that the request waits for.
    pub open spec fn fits(request: PageRequest, reply: PageReply) -> bool {
        match request.step {
            Step::Walking(walk) => reply matches PageReply::Archive(r) && StreamSource::fits(
                walk,
                r,
            ),
            Step::Asking(_) => reply is Consent,
            Step::Cloning(_) => reply is Cloned,
            Step::Resuming(_) => reply is Scanning,
            Step::Settled => false,
        }
    }

    /// The request is at a place that it can be at.
    pub open spec fn on_track(self, request: PageRequest) -> bool {
        &&& self is Stream ==> request.page_size > 0
        &&& match request.step {
            Step::Walking(walk) => {
                &&& self matches MailSource::Stream(s)
                &&& s.on_track(walk)
                &&& walk.offset == request.offset
                &&& walk.page_size == request.page_size
            },
            Step::Resuming(_) => self is Filtered,
            _ => true,
        }
    }

    /// The request starts anew: over the stream it comes to the page of the
    /// stream, over a scan it follows the status of the scan.
    pub open spec fn starts(self, request: PageRequest, ask: PageAsk) -> bool {
        match self {
            MailSource::Stream(s) => forall|w: Archive| #[trigger]
                comes_to(
                    s,
                    request,
                    ask,
                    w,
                    stream_page(
                        w,
                        s.available_epochs@,
                        s.cache(),
                        request.page_size as nat,
                        request.offset as nat,
                    ),
                ),
            MailSource::Filtered(f) => exists|status: SourceStatus|
                f.tells(status, request.offset, request.page_size) && #[trigger] follows(
                    status,
                    ask,
                    request.step,
                ),
        }
    }

    /// The name of the list.
    pub open spec fn name(self) -> Seq<char> {
        match self {
            MailSource::Stream(s) => s.list_name@,
            MailSource::Filtered(f) => f.list_name@,
        }
    }

    /// The name of the list that the mails are of.
    pub fn list_name(&self) -> (r: &str)
        ensures
            r@ == self.name(),
    {
        match self {
            MailSource::Stream(s) => s.list_name.as_str(),
            MailSource::Filtered(f) => f.list_name.as_str(),
        }
    }

    /// Serve the page starting at `offset`, negotiating any missing epochs
    /// along the way: each question is answered with `answer` until the
    /// request is settled.
    pub fn page(&self, offset: usize, page_size: usize) -> (r: (PageRequest, PageAsk))
        requires
            self is Stream ==> page_size > 0,
        ensures
            r.0.offset == offset,
            r.0.page_size == page_size,
            self.on_track(r.0),
            self.waits(r.0, r.1),
            self.starts(r.0, r.1),
    {
        match self {
            MailSource::Stream(s) => {
                let (walk, walk_ask) = s.begin(offset, page_size);
                let ghost first = walk_ask;
                let ghost at = walk;
                let (step, ask) = follow_walk(walk, walk_ask);
                let request = PageRequest { offset, page_size, step };
                assert forall|w: Archive| #[trigger]
                    comes_to(
                        *s,
                        request,
                        ask,
                        w,
                        stream_page(
                            w,
                            s.available_epochs@,
                            s.cache(),
                            page_size as nat,
                            offset as nat,
                        ),
                    ) by {
                    assert(leads_to(
                        first,
                        *s,
                        at,
                        w,
                        stream_page(
                            w,
                            s.available_epochs@,
                            s.cache(),
                            page_size as nat,
                            offset as nat,
                        ),
                    ));
                }
                (request, ask)
            },
            MailSource::Filtered(f) => {
                let status = f.status(offset, page_size);
                let ghost told = status;
                let (step, ask) = follow(status);
                assert(f.tells(told, offset, page_size) && follows(told, ask, step));
                (PageRequest { offset, page_size, step }, ask)
            },
        }
    }

    /// Takes in what a worker has sent, and whether it has finished. Nothing
    /// changes for the stream, which has no worker.
    pub fn poll(&mut self, mails: Vec<Message>, finished: bool)
        ensures
            match *old(self) {
                MailSource::Stream(_) => *final(self) == *old(self),
                MailSource::Filtered(f) => {
                    &&& *final(self) matches MailSource::Filtered(g)
                    &&& g.results@ == f.results@ + mails@
                    &&& g.done == (f.done || finished)
                    &&& g == (FilteredSource { results: g.results, done: g.done, ..f })
                },
            },
    {
        match self {
            MailSource::Stream(_) => {},
            MailSource::Filtered(f) => f.poll(mails, finished),
        }
    }

    /// Resume after `epoch` was just cloned. The stream picks it up on the next
    /// walk; the scan goes on with a worker over the new epoch. Returns
    /// whether that worker is to be started.
    fn on_cloned(&mut self, epoch: u32) -> (r: bool)
        ensures
            r == (*old(self) is Filtered),
            resumed(*old(self), *final(self), epoch),
    {
        match self {
            MailSource::Stream(_) => false,
            MailSource::Filtered(f) => {
                f.extend(epoch);
                true
            },
        }
    }

    /// Handle the user declining to clone `epoch`. Returns whether the source
    /// can still make progress: the stream stops at the missing epoch, while
    /// the scan drops it and tries the next uncloned epoch.
    fn decline_clone(&mut self, epoch: u32) -> (r: bool)
        ensures
            r == (*old(self) is Filtered),
            declined(*old(self), *final(self), epoch),
    {
        match self {
            MailSource::Stream(_) => false,
            MailSource::Filtered(f) => {
                f.discard_uncloned(epoch);
                true
            },
        }
    }

    /// Takes the answer to the question that the request waits on, and comes
    /// to the next. A refusal to clone stops the stream, and only skips the
    /// epoch in a scan; a clone that failed ends the request.
    pub fn answer(&mut self, request: PageRequest, reply: PageReply) -> (r: (PageRequest, PageAsk))
        requires
            old(self).on_track(request),
            MailSource::fits(request, reply),
        ensures
            r.0.offset == request.offset,
            r.0.page_size == request.page_size,
            final(self).on_track(r.0),
            final(self).waits(r.0, r.1),
            final(self).name() == old(self).name(),
            (*final(self) is Stream) == (*old(self) is Stream),
            match (request.step, reply) {
                (Step::Walking(walk), PageReply::Archive(answer)) => {
                    &&& *old(self) matches MailSource::Stream(s)
                    &&& *final(self) matches MailSource::Stream(t)
                    &&& t.available_epochs == s.available_epochs
                    &&& t.cache() == match answer {
                        StreamReply::Commits(Some(commits)) => s.cache().insert(
                            s.available_epochs[walk.left - 1],
                            commits@,
                        ),
                        _ => s.cache(),
                    }
                    &&& forall|w: Archive|
                        s.faithful(walk, answer, w) ==> #[trigger] comes_to(
                            t,
                            r.0,
                            r.1,
                            w,
                            s.rest(walk, w),
                        )
                },
                (Step::Asking(epoch), PageReply::Consent(agreed)) => {
                    if agreed {
                        &&& *final(self) == *old(self)
                        &&& r.1 == PageAsk::Clone(epoch)
                    } else {
                        &&& declined(*old(self), *final(self), epoch)
                        &&& match *old(self) {
                            MailSource::Stream(_) => r.1 == PageAsk::Finished(PageState::End),
                            MailSource::Filtered(_) => final(self).starts(r.0, r.1),
                        }
                    }
                },
                (Step::Cloning(epoch), PageReply::Cloned(worked)) => {
                    if worked {
                        &&& resumed(*old(self), *final(self), epoch)
                        &&& match *old(self) {
                            MailSource::Stream(_) => final(self).starts(r.0, r.1),
                            MailSource::Filtered(_) => r.1 == PageAsk::Scan(epoch),
                        }
                    } else {
                        &&& *final(self) == *old(self)
                        &&& r.1 == PageAsk::Finished(PageState::End)
                    }
                },
                (Step::Resuming(_), PageReply::Scanning) => {
                    &&& *final(self) == *old(self)
                    &&& final(self).starts(r.0, r.1)
                },
                _ => false,
            },
    {
        let offset = request.offset;
        let page_size = request.page_size;
        match (request.step, reply) {
            (Step::Walking(walk), PageReply::Archive(answer)) => {
                self.walk_on(offset, page_size, walk, answer)
            },
            (Step::Asking(epoch), PageReply::Consent(agreed)) => {
                if agreed {
                    let step = Step::Cloning(epoch);
                    (PageRequest { offset, page_size, step }, PageAsk::Clone(epoch))
                } else if self.decline_clone(epoch) {
                    self.page(offset, page_size)
                } else {
                    ended(offset, page_size)
                }
            },
            (Step::Cloning(epoch), PageReply::Cloned(worked)) => {
                if !worked {
                    ended(offset, page_size)
                } else if self.on_cloned(epoch) {
                    let step = Step::Resuming(epoch);
                    (PageRequest { offset, page_size, step }, PageAsk::Scan(epoch))
                } else {
                    self.page(offset, page_size)
                }
            },
            _ => self.page(offset, page_size),
        }
    }

    /// Takes the archive's answer to a walk over the stream.
    fn walk_on(
        &mut self,
        offset: usize,
        page_size: usize,
        walk: StreamWalk,
        reply: StreamReply,
    ) -> (r: (PageRequest, PageAsk))
        requires
            old(self).on_track((PageRequest { offset, page_size, step: Step::Walking(walk) })),
            StreamSource::fits(walk, reply),
        ensures
            r.0.offset == offset,
            r.0.page_size == page_size,
            final(self).on_track(r.0),
            final(self).waits(r.0, r.1),
            final(self).name() == old(self).name(),
            *old(self) matches MailSource::Stream(s) && {
                &&& *final(self) matches MailSource::Stream(t)
                &&& t.available_epochs == s.available_epochs
                &&& t.cache() == match reply {
                    StreamReply::Commits(Some(commits)) => s.cache().insert(
                        s.available_epochs[walk.left - 1],
                        commits@,
                    ),
                    _ => s.cache(),
                }
                &&& forall|w: Archive|
                    s.faithful(walk, reply, w) ==> #[trigger] comes_to(
                        t,
                        r.0,
                        r.1,
                        w,
                        s.rest(walk, w),
                    )
            },
    {
        let ghost here = walk;
        let mut walk = walk;
        match self {
            MailSource::Stream(s) => {
                let ghost before = *s;
                let walk_ask = s.answer(&mut walk, reply);
                let ghost asked = walk_ask;
                let ghost there = walk;
                let (step, ask) = follow_walk(walk, walk_ask);
                let request = PageRequest { offset, page_size, step };
                assert forall|w: Archive|
                    before.faithful(here, reply, w) implies #[trigger] comes_to(
                    *s,
                    request,
                    ask,
                    w,
                    before.rest(here, w),
                ) by {
                    assert(leads_to(asked, *s, there, w, before.rest(here, w)));
                }
                (request, ask)
            },
            MailSource::Filtered(_) => ended(offset, page_size),
        }
    }
}

/// A source after the user declined to clone an epoch: the stream is as it
/// was, and a scan has forgotten the epoch.
pub open spec fn declined(before: MailSource, after: MailSource, epoch: u32) -> bool {
    match before {
        MailSource::Stream(_) => after == before,
        MailSource::Filtered(f) => {
            &&& after matches MailSource::Filtered(g)
            &&& g.uncloned@ == without(f.uncloned@, epoch)
            &&& !g.uncloned@.contains(epoch)
            &&& f.uncloned@.contains(epoch) ==> g.uncloned@.len() < f.uncloned@.len()
            &&& g == (FilteredSource { uncloned: g.uncloned, ..f })
        },
    }
}

/// A source after an epoch was cloned: the stream is as it was, and a scan
/// goes on with the epoch.
pub open spec fn resumed(before: MailSource, after: MailSource, epoch: u32) -> bool {
    match before {
        MailSource::Stream(_) => after == before,
        MailSource::Filtered(f) => {
            &&& after matches MailSource::Filtered(g)
            &&& g.uncloned@ == without(f.uncloned@, epoch)
            &&& !g.uncloned@.contains(epoch)
            &&& g == (FilteredSource { uncloned: g.uncloned, done: false, ..f })
        },
    }
}

/// An epoch that the user declined to clone is not asked for again, and while
/// a worker runs no epoch is asked for.
pub proof fn law_a_refusal_is_final(
    before: FilteredSource,
    after: FilteredSource,
    epoch: u32,
    status: SourceStatus,
    offset: usize,
    page_size: usize,
)
    requires
        declined(MailSource::Filtered(before), MailSource::Filtered(after), epoch),
        after.tells(status, offset, page_size),
    ensures
        status != SourceStatus::NeedsClone(epoch),
        status is NeedsClone ==> after.done,
{
    if status == SourceStatus::NeedsClone(epoch) {
        assert(after.uncloned@.contains(after.uncloned@[0]));
    }
}

/// A request that ends without a page.
fn ended(offset: usize, page_size: usize) -> (r: (PageRequest, PageAsk))
    ensures
        r.0 == (PageRequest { offset, page_size, step: Step::Settled }),
        r.1 == PageAsk::Finished(PageState::End),
{
    (
        PageRequest { offset, page_size, step: Step::Settled },
        PageAsk::Finished(PageState::End),
    )
}

} // verus!
