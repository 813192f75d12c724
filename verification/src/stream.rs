//! The unfiltered mail stream: every mail across all epochs, newest first.

use std::collections::HashMap;
use vstd::prelude::*;

use crate::message::{Message, SeriesTag};
use crate::series::{grouped_indent, grouped_mails, page_done, page_end};
use crate::source::{Page, SourceStatus};

verus! {

broadcast use vstd::std_specs::hash::group_hash_axioms;

/// How many mails to read ahead while chasing the tail of a series that the
/// page cut. The page can end on any one of them, so most of a batch may go
/// unused, but reading a batch costs about what reading a single mail does.
pub const CHASE_READAHEAD: usize = 16;

/// The archive as the walk meets it: which epochs are cloned, the commits that
/// each lists, newest first, and the mails that a commit holds (one, or none
/// where it cannot be read).
pub struct Archive {
    pub present: spec_fn(u32) -> bool,
    pub listing: spec_fn(u32) -> Option<Seq<String>>,
    pub mail: spec_fn(u32, String) -> Seq<Message>,
}

/// What a walk comes to: the mails of a page in stream order, an epoch that
/// has to be cloned first, or nothing.
pub enum Served {
    Mails(Seq<Message>),
    NeedsClone(u32),
    Nothing,
}

/// The mails of `commits`, in their order.
pub open spec fn mails_of(w: Archive, epoch: u32, commits: Seq<String>) -> Seq<Message>
    decreases commits.len(),
{
    if commits.len() == 0 {
        seq![]
    } else {
        (w.mail)(epoch, commits[0]) + mails_of(w, epoch, commits.skip(1))
    }
}

/// A walk that ends with these mails.
pub open spec fn served(mails: Seq<Message>) -> Served {
    if mails.len() == 0 {
        Served::Nothing
    } else {
        Served::Mails(mails)
    }
}

/// A page that takes in mails one by one until it has all it needs: its mails,
/// the series it chases, and whether it is complete.
pub open spec fn absorb(
    size: nat,
    mails: Seq<Message>,
    chasing: Option<SeriesTag>,
    incoming: Seq<Message>,
) -> (Seq<Message>, Option<SeriesTag>, bool)
    decreases incoming.len(),
{
    if incoming.len() == 0 {
        (mails, chasing, false)
    } else {
        let (done, next) = page_end(mails, size, chasing);
        if done {
            (mails, next, true)
        } else {
            absorb(size, mails.push(incoming[0]), next, incoming.skip(1))
        }
    }
}

/// The rest of a walk: the place it has come to is what the arguments say.
/// `left` epochs remain, the newest of them last in `epochs`; `skip` commits
/// are still to be passed over.
pub open spec fn walk(
    w: Archive,
    epochs: Seq<u32>,
    cache: Map<u32, Seq<String>>,
    size: nat,
    mails: Seq<Message>,
    chasing: Option<SeriesTag>,
    skip: nat,
    left: nat,
) -> Served
    decreases left, 2nat,
{
    if left == 0 {
        served(mails)
    } else {
        let epoch = epochs[left - 1];
        if cache.contains_key(epoch) {
            enter(w, epochs, cache, size, mails, chasing, skip, left)
        } else if mails.len() >= size {
            // Cloning or listing is only worth it while the page proper is
            // short; a page that chases a series stops at the epoch edge.
            served(mails)
        } else if !(w.present)(epoch) {
            Served::NeedsClone(epoch)
        } else {
            list(w, epochs, cache, size, mails, chasing, skip, left)
        }
    }
}

/// The rest of a walk that is about to list the commits of an epoch.
pub open spec fn list(
    w: Archive,
    epochs: Seq<u32>,
    cache: Map<u32, Seq<String>>,
    size: nat,
    mails: Seq<Message>,
    chasing: Option<SeriesTag>,
    skip: nat,
    left: nat,
) -> Served
    decreases left, 1nat,
{
    let epoch = epochs[left - 1];
    match (w.listing)(epoch) {
        None => served(mails),
        Some(commits) => enter(
            w,
            epochs,
            cache.insert(epoch, commits),
            size,
            mails,
            chasing,
            skip,
            left,
        ),
    }
}

/// The rest of a walk that has reached an epoch whose commits are known.
pub open spec fn enter(
    w: Archive,
    epochs: Seq<u32>,
    cache: Map<u32, Seq<String>>,
    size: nat,
    mails: Seq<Message>,
    chasing: Option<SeriesTag>,
    skip: nat,
    left: nat,
) -> Served
    decreases left, 0nat,
{
    if left == 0 {
        served(mails)
    } else {
        let epoch = epochs[left - 1];
        let commits = cache[epoch];
        if skip >= commits.len() {
            walk(
                w,
                epochs,
                cache,
                size,
                mails,
                chasing,
                (skip - commits.len()) as nat,
                (left - 1) as nat,
            )
        } else {
            let (m, c, stop) = absorb(
                size,
                mails,
                chasing,
                mails_of(w, epoch, commits.skip(skip as int)),
            );
            if stop {
                served(m)
            } else {
                walk(w, epochs, cache, size, m, c, 0, (left - 1) as nat)
            }
        }
    }
}

/// The page that starts at `offset`: the mails behind the first `offset`
/// commits, newest epoch first, until the page has all it needs.
pub open spec fn stream_page(
    w: Archive,
    epochs: Seq<u32>,
    cache: Map<u32, Seq<String>>,
    size: nat,
    offset: nat,
) -> Served {
    walk(w, epochs, cache, size, seq![], None, offset, epochs.len())
}

/// The rest of a walk inside an epoch, with `incoming` still to be taken in.
pub open spec fn absorbed(
    w: Archive,
    epochs: Seq<u32>,
    cache: Map<u32, Seq<String>>,
    size: nat,
    mails: Seq<Message>,
    chasing: Option<SeriesTag>,
    incoming: Seq<Message>,
    left: nat,
) -> Served
    recommends
        left > 0,
{
    let (m, c, stop) = absorb(size, mails, chasing, incoming);
    if stop {
        served(m)
    } else {
        walk(w, epochs, cache, size, m, c, 0, (left - 1) as nat)
    }
}

// ---------------------------------------------------------------------------
// The walk, step by step
// ---------------------------------------------------------------------------

/// What a walk waits for.
#[derive(Debug, PartialEq, Eq, Structural)]
pub enum Waiting {
    /// Whether the epoch is cloned.
    Repo,
    /// The commits of the epoch.
    Listing,
    /// The mails of these commits of the epoch.
    Mails { from: usize, to: usize },
    /// Nothing: the walk is over.
    Over,
}

/// What a walk asks of the archive, or what it came to.
#[derive(Debug)]
pub enum StreamAsk {
    /// Is this epoch cloned?
    RepoExists(u32),
    /// Which commits does this epoch have, newest first?
    ListCommits(u32),
    /// Read the mails of these commits of this epoch.
    Fetch(u32, Vec<String>),
    /// The page is decided.
    Finished(SourceStatus),
}

/// The archive's answer to a question.
#[derive(Debug)]
pub enum StreamReply {
    Repo(bool),
    /// The commits, or nothing where listing failed.
    Commits(Option<Vec<String>>),
    Mails(Vec<Message>),
}

/// The unfiltered mail stream. Pages are materialized lazily by walking epochs
/// only as far as needed, with per-epoch commit hashes cached on first visit.
#[derive(Debug)]
pub struct StreamSource {
    pub list_name: String,
    /// The epochs of the list, oldest first.
    pub available_epochs: Vec<u32>,
    /// Commit hashes per epoch, filled on first visit.
    pub epoch_commits: HashMap<u32, Vec<String>>,
}

/// One walk over the stream, from one question to the next.
#[derive(Debug)]
pub struct StreamWalk {
    pub offset: usize,
    pub page_size: usize,
    /// The mails of the page so far, in stream order.
    pub mails: Vec<Message>,
    /// Commits still to be passed over.
    pub to_skip: usize,
    /// The series the page ended in the middle of, once it is otherwise full.
    pub chasing: Option<SeriesTag>,
    /// Epochs not yet left behind; the walk is at the newest of them.
    pub left: usize,
    pub waiting: Waiting,
}

/// The commit lists of a cache.
pub open spec fn commit_lists(cache: Map<u32, Vec<String>>) -> Map<u32, Seq<String>> {
    cache.map_values(|v: Vec<String>| v@)
}

impl StreamSource {
    /// The commits that are known, by epoch.
    pub open spec fn cache(self) -> Map<u32, Seq<String>> {
        commit_lists(self.epoch_commits@)
    }

    /// The walk is at a place that this source can have.
    pub open spec fn on_track(self, walk: StreamWalk) -> bool {
        &&& walk.page_size > 0
        &&& walk.left <= self.available_epochs.len()
        &&& walk.chasing is None ==> walk.mails.len() <= walk.page_size
        &&& match walk.waiting {
            Waiting::Repo | Waiting::Listing => {
                &&& walk.left > 0
                &&& !self.cache().contains_key(self.available_epochs[walk.left - 1])
                &&& walk.mails.len() < walk.page_size
            },
            Waiting::Mails { from, to } => {
                &&& walk.left > 0
                &&& self.cache().contains_key(self.available_epochs[walk.left - 1])
                &&& from < to <= self.cache()[self.available_epochs[walk.left - 1]].len()
            },
            Waiting::Over => true,
        }
    }

    /// What the walk will come to in the archive `w`.
    pub open spec fn rest(self, walk: StreamWalk, w: Archive) -> Served {
        let epochs = self.available_epochs@;
        let size = walk.page_size as nat;
        let skip = walk.to_skip as nat;
        let left = walk.left as nat;
        match walk.waiting {
            Waiting::Repo => self::walk(
                w,
                epochs,
                self.cache(),
                size,
                walk.mails@,
                walk.chasing,
                skip,
                left,
            ),
            Waiting::Listing => list(
                w,
                epochs,
                self.cache(),
                size,
                walk.mails@,
                walk.chasing,
                skip,
                left,
            ),
            Waiting::Mails { from, to } => absorbed(
                w,
                epochs,
                self.cache(),
                size,
                walk.mails@,
                walk.chasing,
                mails_of(
                    w,
                    epochs[left - 1],
                    self.cache()[epochs[left - 1]].skip(from as int),
                ),
                left,
            ),
            Waiting::Over => served(walk.mails@),
        }
    }

    /// The question `ask` is the one that the walk waits on.
    pub open spec fn asks(self, walk: StreamWalk, ask: StreamAsk) -> bool {
        let epoch = self.available_epochs[walk.left - 1];
        match ask {
            StreamAsk::RepoExists(e) => walk.waiting == Waiting::Repo && e == epoch,
            StreamAsk::ListCommits(e) => walk.waiting == Waiting::Listing && e == epoch,
            StreamAsk::Fetch(e, batch) => {
                &&& walk.waiting matches Waiting::Mails { from, to }
                &&& e == epoch
                &&& batch@ == self.cache()[epoch].subrange(from as int, to as int)
                &&& to == read_ahead(walk, from as int, self.cache()[epoch].len() as int)
            },
            StreamAsk::Finished(_) => walk.waiting == Waiting::Over,
        }
    }

    /// `reply` is what the archive `w` answers to the question that the walk
    /// waits on.
    pub open spec fn faithful(self, walk: StreamWalk, reply: StreamReply, w: Archive) -> bool {
        let epoch = self.available_epochs[walk.left - 1];
        match (walk.waiting, reply) {
            (Waiting::Repo, StreamReply::Repo(present)) => present == (w.present)(epoch),
            (Waiting::Listing, StreamReply::Commits(Some(commits))) => (w.listing)(epoch) == Some(
                commits@,
            ),
            (Waiting::Listing, StreamReply::Commits(None)) => (w.listing)(epoch) is None,
            (Waiting::Mails { from, to }, StreamReply::Mails(batch)) => batch@ == mails_of(
                w,
                epoch,
                self.cache()[epoch].subrange(from as int, to as int),
            ),
            _ => false,
        }
    }

    /// `reply` is of the kind that the walk waits for.
    pub open spec fn fits(walk: StreamWalk, reply: StreamReply) -> bool {
        match walk.waiting {
            Waiting::Repo => reply is Repo,
            Waiting::Listing => reply is Commits,
            Waiting::Mails { .. } => reply is Mails,
            Waiting::Over => false,
        }
    }
}

/// Where the next batch ends: at the shortfall of a page that is short, or at
/// a look-ahead while chasing the tail of a series.
pub open spec fn read_ahead(walk: StreamWalk, from: int, n: int) -> int {
    let want = if walk.mails@.len() < walk.page_size {
        walk.page_size - walk.mails@.len()
    } else {
        CHASE_READAHEAD as int
    };
    if from + want < n {
        from + want
    } else {
        n
    }
}

/// `status` says what a walk for the page at `offset` came to.
pub open spec fn tells(status: SourceStatus, offset: usize, outcome: Served) -> bool {
    match (status, outcome) {
        (SourceStatus::Ready(page), Served::Mails(mails)) => {
            &&& page.wf()
            &&& page.mails@ == grouped_mails(mails)
            &&& page.flags() == grouped_indent(mails)
            &&& page.offset == offset
        },
        (SourceStatus::NeedsClone(e), Served::NeedsClone(epoch)) => e == epoch,
        (SourceStatus::Exhausted, Served::Nothing) => true,
        _ => false,
    }
}

/// After `ask`, the walk comes to `outcome` in the archive `w`.
pub open spec fn leads_to(
    ask: StreamAsk,
    source: StreamSource,
    walk: StreamWalk,
    w: Archive,
    outcome: Served,
) -> bool {
    match ask {
        StreamAsk::Finished(status) => tells(status, walk.offset, outcome),
        _ => source.rest(walk, w) == outcome,
    }
}

proof fn lemma_mails_of_split(w: Archive, epoch: u32, a: Seq<String>, b: Seq<String>)
    ensures
        mails_of(w, epoch, a + b) == mails_of(w, epoch, a) + mails_of(w, epoch, b),
    decreases a.len(),
{
    if a.len() == 0 {
        assert(a + b =~= b);
        assert(mails_of(w, epoch, a + b) =~= mails_of(w, epoch, a) + mails_of(w, epoch, b));
    } else {
        assert((a + b).skip(1) =~= a.skip(1) + b);
        lemma_mails_of_split(w, epoch, a.skip(1), b);
        assert(mails_of(w, epoch, a + b) =~= mails_of(w, epoch, a) + mails_of(w, epoch, b));
    }
}

/// A page that is complete stays as it is, however the walk would go on.
proof fn lemma_done_ends(
    w: Archive,
    epochs: Seq<u32>,
    cache: Map<u32, Seq<String>>,
    size: nat,
    mails: Seq<Message>,
    chasing: Option<SeriesTag>,
    skip: nat,
    left: nat,
)
    requires
        page_end(mails, size, chasing).0,
    ensures
        walk(w, epochs, cache, size, mails, chasing, skip, left) == served(mails),
    decreases left,
{
    if left > 0 {
        let epoch = epochs[left - 1];
        if cache.contains_key(epoch) {
            let commits = cache[epoch];
            if skip >= commits.len() {
                lemma_done_ends(
                    w,
                    epochs,
                    cache,
                    size,
                    mails,
                    chasing,
                    (skip - commits.len()) as nat,
                    (left - 1) as nat,
                );
            } else {
                lemma_done_ends(w, epochs, cache, size, mails, chasing, 0, (left - 1) as nat);
            }
        }
    }
}

/// Asking early whether a page is complete changes nothing but the series it
/// chases, and that in the way in which asking later would.
proof fn lemma_asked_early(
    w: Archive,
    epochs: Seq<u32>,
    cache: Map<u32, Seq<String>>,
    size: nat,
    mails: Seq<Message>,
    chasing: Option<SeriesTag>,
    skip: nat,
    left: nat,
)
    requires
        !page_end(mails, size, chasing).0,
        chasing is None ==> mails.len() <= size,
    ensures
        walk(w, epochs, cache, size, mails, chasing, skip, left) == walk(
            w,
            epochs,
            cache,
            size,
            mails,
            page_end(mails, size, chasing).1,
            skip,
            left,
        ),
    decreases left,
{
    if left > 0 {
        let epoch = epochs[left - 1];
        let less = (left - 1) as nat;
        let listed = if cache.contains_key(epoch) {
            Some(cache)
        } else {
            match (w.listing)(epoch) {
                Some(commits) => Some(cache.insert(epoch, commits)),
                None => None,
            }
        };
        if let Some(cache2) = listed {
            let commits = cache2[epoch];
            if skip >= commits.len() {
                lemma_asked_early(
                    w,
                    epochs,
                    cache2,
                    size,
                    mails,
                    chasing,
                    (skip - commits.len()) as nat,
                    less,
                );
            } else {
                lemma_asked_early(w, epochs, cache2, size, mails, chasing, 0, less);
            }
        }
    }
}

/// Copies the strings `lo..hi` of `v`.
fn batch_of(v: &Vec<String>, lo: usize, hi: usize) -> (r: Vec<String>)
    requires
        lo <= hi <= v.len(),
    ensures
        r@ == v@.subrange(lo as int, hi as int),
{
    let mut out: Vec<String> = Vec::new();
    let mut i = lo;
    while i < hi
        invariant
            lo <= i <= hi <= v.len(),
            out@ == v@.subrange(lo as int, i as int),
        decreases hi - i,
    {
        out.push(v[i].clone());
        i += 1;
        assert(out@ =~= v@.subrange(lo as int, i as int));
    }
    out
}

impl StreamWalk {
    /// How far the walk still has to go: epochs, then questions of the epoch,
    /// then commits of it.
    pub open spec fn distance(self, source: StreamSource) -> (nat, nat, nat) {
        let commits = source.cache()[source.available_epochs[self.left - 1]].len();
        match self.waiting {
            Waiting::Repo => (self.left as nat, 2, 0),
            Waiting::Listing => (self.left as nat, 1, 0),
            Waiting::Mails { from, to } => (self.left as nat, 0, (commits - from) as nat),
            Waiting::Over => (0, 0, 0),
        }
    }

    /// Ends the walk with the mails it has.
    fn finish(&mut self) -> (ask: StreamAsk)
        ensures
            ask is Finished,
            tells(ask->Finished_0, old(self).offset, served(old(self).mails@)),
            final(self).waiting == Waiting::Over,
            final(self).offset == old(self).offset,
            final(self).page_size == old(self).page_size,
            final(self).mails == old(self).mails,
            final(self).chasing == old(self).chasing,
            final(self).left == old(self).left,
    {
        self.waiting = Waiting::Over;
        if self.mails.len() == 0 {
            return StreamAsk::Finished(SourceStatus::Exhausted);
        }
        let mut mails: Vec<Message> = Vec::new();
        let mut i: usize = 0;
        while i < self.mails.len()
            invariant
                i <= self.mails.len(),
                mails@ == self.mails@.take(i as int),
            decreases self.mails.len() - i,
        {
            mails.push(self.mails[i].clone());
            i += 1;
            assert(mails@ =~= self.mails@.take(i as int));
        }
        assert(mails@ =~= self.mails@);
        StreamAsk::Finished(SourceStatus::Ready(Page::grouped(mails, self.offset)))
    }
}

/// One measure is below another, the first component counting most.
pub open spec fn below(a: (nat, nat, nat), b: (nat, nat, nat)) -> bool {
    ||| a.0 < b.0
    ||| a.0 == b.0 && a.1 < b.1
    ||| a.0 == b.0 && a.1 == b.1 && a.2 < b.2
}

impl StreamSource {
    /// The stream over the epochs of a list, nothing of it visited yet.
    pub fn new(list_name: String, available_epochs: Vec<u32>) -> (r: Self)
        ensures
            r.list_name == list_name,
            r.available_epochs == available_epochs,
            r.cache() == Map::<u32, Seq<String>>::empty(),
    {
        let r = StreamSource { list_name, available_epochs, epoch_commits: HashMap::new() };
        assert(r.cache() =~= Map::<u32, Seq<String>>::empty());
        r
    }

    /// Where the walk will come to from inside the newest epoch left, at the
    /// commit `at`, or from its edge.
    spec fn onward(self, walk: StreamWalk, at: Option<usize>, w: Archive) -> Served {
        let epochs = self.available_epochs@;
        let left = walk.left as nat;
        match at {
            Some(i) => absorbed(
                w,
                epochs,
                self.cache(),
                walk.page_size as nat,
                walk.mails@,
                walk.chasing,
                mails_of(w, epochs[left - 1], self.cache()[epochs[left - 1]].skip(i as int)),
                left,
            ),
            None => self::walk(
                w,
                epochs,
                self.cache(),
                walk.page_size as nat,
                walk.mails@,
                walk.chasing,
                walk.to_skip as nat,
                left,
            ),
        }
    }

    /// Walks on to the next question, or to the end.
    fn go_on(&self, walk: &mut StreamWalk, start: Option<usize>) -> (ask: StreamAsk)
        requires
            old(walk).page_size > 0,
            old(walk).left <= self.available_epochs.len(),
            old(walk).chasing is None ==> old(walk).mails.len() <= old(walk).page_size,
            start matches Some(i) ==> {
                &&& old(walk).left > 0
                &&& self.cache().contains_key(self.available_epochs[old(walk).left - 1])
                &&& i <= self.cache()[self.available_epochs[old(walk).left - 1]].len()
                &&& old(walk).to_skip == 0
            },
        ensures
            self.on_track(*final(walk)),
            self.asks(*final(walk), ask),
            final(walk).offset == old(walk).offset,
            final(walk).page_size == old(walk).page_size,
            final(walk).mails == old(walk).mails,
            forall|w: Archive| #[trigger]
                leads_to(ask, *self, *final(walk), w, self.onward(*old(walk), start, w)),
            ask is Finished || match start {
                Some(i) => below(
                    final(walk).distance(*self),
                    (
                        old(walk).left as nat,
                        0,
                        (self.cache()[self.available_epochs[old(walk).left - 1]].len() - i + 1) as nat,
                    ),
                ),
                None => below(final(walk).distance(*self), (old(walk).left as nat, 3, 0)),
            },
    {
        let ghost origin = *walk;
        let mut at = start;
        loop
            invariant
                origin == *old(walk),
                walk.page_size > 0,
                walk.left <= self.available_epochs.len(),
                walk.chasing is None ==> walk.mails.len() <= walk.page_size,
                walk.left <= origin.left,
                walk.offset == origin.offset,
                walk.page_size == origin.page_size,
                walk.mails == origin.mails,
                walk.chasing == origin.chasing,
                at matches Some(i) ==> {
                    &&& walk.left > 0
                    &&& self.cache().contains_key(self.available_epochs[walk.left - 1])
                    &&& i <= self.cache()[self.available_epochs[walk.left - 1]].len()
                    &&& walk.to_skip == 0
                },
                walk.left == origin.left ==> {
                    ||| at == start
                    ||| start is None && at is Some
                },
                forall|w: Archive| #[trigger]
                    self.onward(*walk, at, w) == self.onward(origin, start, w),
            decreases walk.left, (if at is None {
                1nat
            } else {
                0
            }),
        {
            let ghost here = *walk;
            match at {
                None => {
                    if walk.left == 0 {
                        let ask = walk.finish();
                        assert forall|w: Archive| #[trigger]
                            leads_to(ask, *self, *walk, w, self.onward(origin, start, w)) by {
                            assert(self.onward(here, at, w) == served(here.mails@));
                        }
                        return ask;
                    }
                    let epoch = self.available_epochs[walk.left - 1];
                    match self.epoch_commits.get(&epoch) {
                        None => {
                            assert(!self.cache().contains_key(epoch));
                            if walk.mails.len() >= walk.page_size {
                                let ask = walk.finish();
                                assert forall|w: Archive| #[trigger]
                                    leads_to(ask, *self, *walk, w, self.onward(origin, start, w)) by {
                                    assert(self.onward(here, at, w) == served(here.mails@));
                                }
                                return ask;
                            }
                            walk.waiting = Waiting::Repo;
                            let ask = StreamAsk::RepoExists(epoch);
                            assert forall|w: Archive| #[trigger]
                                leads_to(ask, *self, *walk, w, self.onward(origin, start, w)) by {
                                assert(self.rest(*walk, w) == self.onward(here, at, w));
                            }
                            return ask;
                        },
                        Some(commits) => {
                            assert(self.cache().contains_key(epoch));
                            assert(self.cache()[epoch] == commits@);
                            let n = commits.len();
                            if walk.to_skip >= n {
                                walk.to_skip = walk.to_skip - n;
                                walk.left = walk.left - 1;
                                assert forall|w: Archive| #[trigger]
                                    self.onward(*walk, at, w) == self.onward(origin, start, w) by {
                                    assert(self.onward(*walk, at, w) == self.onward(here, at, w));
                                }
                            } else {
                                let i = walk.to_skip;
                                walk.to_skip = 0;
                                at = Some(i);
                                assert forall|w: Archive| #[trigger]
                                    self.onward(*walk, at, w) == self.onward(origin, start, w) by {
                                    assert(self.onward(*walk, at, w) == self.onward(here, None, w));
                                }
                            }
                        },
                    }
                },
                Some(i) => {
                    let epoch = self.available_epochs[walk.left - 1];
                    match self.epoch_commits.get(&epoch) {
                        None => {
                            assert(false);
                            return walk.finish();
                        },
                        Some(commits) => {
                            assert(self.cache()[epoch] == commits@);
                            let n = commits.len();
                            if i >= n {
                                walk.left = walk.left - 1;
                                at = None;
                                assert forall|w: Archive| #[trigger]
                                    self.onward(*walk, at, w) == self.onward(origin, start, w) by {
                                    assert(commits@.skip(i as int).len() == 0);
                                    assert(self.onward(*walk, at, w) == self.onward(here, Some(i), w));
                                }
                            } else {
                                if page_done(&walk.mails, walk.page_size, &mut walk.chasing) {
                                    let ask = walk.finish();
                                    assert forall|w: Archive| #[trigger]
                                        leads_to(ask, *self, *walk, w, self.onward(origin, start, w)) by {
                                        lemma_done_ends(
                                            w,
                                            self.available_epochs@,
                                            self.cache(),
                                            here.page_size as nat,
                                            here.mails@,
                                            here.chasing,
                                            0,
                                            (here.left - 1) as nat,
                                        );
                                        assert(self.onward(here, at, w) == served(here.mails@));
                                    }
                                    return ask;
                                }
                                let want = if walk.mails.len() < walk.page_size {
                                    walk.page_size - walk.mails.len()
                                } else {
                                    CHASE_READAHEAD
                                };
                                let end = if want < n - i { i + want } else { n };
                                walk.waiting = Waiting::Mails { from: i, to: end };
                                let ask = StreamAsk::Fetch(epoch, batch_of(commits, i, end));
                                assert forall|w: Archive| #[trigger]
                                    leads_to(ask, *self, *walk, w, self.onward(origin, start, w)) by {
                                    lemma_asked_early(
                                        w,
                                        self.available_epochs@,
                                        self.cache(),
                                        here.page_size as nat,
                                        here.mails@,
                                        here.chasing,
                                        0,
                                        (here.left - 1) as nat,
                                    );
                                    assert(self.rest(*walk, w) == self.onward(here, at, w));
                                }
                                return ask;
                            }
                        },
                    }
                },
            }
        }
    }

    /// Takes in a batch of mails, one at a time: the page ends the moment the
    /// series it was cutting completes, and only a per-mail check finds that
    /// boundary. Whatever of the batch is past it goes unused.
    fn take_in(&self, walk: &mut StreamWalk, batch: Vec<Message>) -> (ask: StreamAsk)
        requires
            self.on_track(*old(walk)),
            old(walk).waiting is Mails,
        ensures
            self.on_track(*final(walk)),
            self.asks(*final(walk), ask),
            final(walk).offset == old(walk).offset,
            final(walk).page_size == old(walk).page_size,
            final(walk).mails@ == absorb(
                old(walk).page_size as nat,
                old(walk).mails@,
                old(walk).chasing,
                batch@,
            ).0,
            ask is Finished || below(final(walk).distance(*self), old(walk).distance(*self)),
            forall|w: Archive|
                self.faithful(*old(walk), StreamReply::Mails(batch), w) ==> #[trigger] leads_to(
                    ask,
                    *self,
                    *final(walk),
                    w,
                    self.rest(*old(walk), w),
                ),
    {
        let ghost here = *walk;
        let ghost all = batch@;
        let ghost epoch = self.available_epochs[walk.left - 1];
        let ghost commits = self.cache()[epoch];
        let ghost size = walk.page_size as nat;
        let (from, to) = match walk.waiting {
            Waiting::Mails { from, to } => (from, to),
            _ => (0, 0),
        };
        walk.to_skip = 0;
        assert forall|w: Archive| self.faithful(here, StreamReply::Mails(batch), w) implies self.rest(
            here,
            w,
        ) == #[trigger] absorbed(
            w,
            self.available_epochs@,
            self.cache(),
            size,
            walk.mails@,
            walk.chasing,
            all.skip(0) + mails_of(w, epoch, commits.skip(to as int)),
            here.left as nat,
        ) by {
            assert(commits.skip(from as int) =~= commits.subrange(from as int, to as int)
                + commits.skip(to as int));
            lemma_mails_of_split(
                w,
                epoch,
                commits.subrange(from as int, to as int),
                commits.skip(to as int),
            );
            assert(all.skip(0) =~= all);
        }
        assert(all.skip(0) =~= all);
        let mut k: usize = 0;
        while k < batch.len()
            invariant
                k <= batch.len(),
                batch@ == all,
                walk.page_size > 0,
                size == walk.page_size,
                walk.to_skip == 0,
                walk.offset == here.offset,
                walk.page_size == here.page_size,
                walk.left == here.left,
                walk.chasing is None ==> walk.mails.len() <= walk.page_size,
                here == *old(walk),
                self.on_track(here),
                here.waiting == (Waiting::Mails { from, to }),
                epoch == self.available_epochs[here.left - 1],
                commits == self.cache()[epoch],
                absorb(size, here.mails@, here.chasing, all).0 == absorb(
                    size,
                    walk.mails@,
                    walk.chasing,
                    all.skip(k as int),
                ).0,
                forall|w: Archive|
                    self.faithful(here, StreamReply::Mails(batch), w) ==> self.rest(here, w)
                        == #[trigger] absorbed(
                        w,
                        self.available_epochs@,
                        self.cache(),
                        size,
                        walk.mails@,
                        walk.chasing,
                        all.skip(k as int) + mails_of(w, epoch, commits.skip(to as int)),
                        here.left as nat,
                    ),
            decreases batch.len() - k,
        {
            let ghost mid = *walk;
            if page_done(&walk.mails, walk.page_size, &mut walk.chasing) {
                let ask = walk.finish();
                assert forall|w: Archive|
                    self.faithful(here, StreamReply::Mails(batch), w) implies #[trigger] leads_to(
                    ask,
                    *self,
                    *walk,
                    w,
                    self.rest(here, w),
                ) by {
                    let incoming = all.skip(k as int) + mails_of(w, epoch, commits.skip(to as int));
                    assert(incoming.len() > 0);
                    assert(absorbed(
                        w,
                        self.available_epochs@,
                        self.cache(),
                        size,
                        mid.mails@,
                        mid.chasing,
                        incoming,
                        here.left as nat,
                    ) == served(mid.mails@));
                }
                return ask;
            }
            walk.mails.push(batch[k].clone());
            k += 1;
            assert(all.skip(k - 1).skip(1) =~= all.skip(k as int));
            assert forall|w: Archive|
                self.faithful(here, StreamReply::Mails(batch), w) implies self.rest(here, w)
                == #[trigger] absorbed(
                w,
                self.available_epochs@,
                self.cache(),
                size,
                walk.mails@,
                walk.chasing,
                all.skip(k as int) + mails_of(w, epoch, commits.skip(to as int)),
                here.left as nat,
            ) by {
                let tail = mails_of(w, epoch, commits.skip(to as int));
                let incoming = all.skip(k - 1) + tail;
                assert(incoming.skip(1) =~= all.skip(k as int) + tail);
                assert(incoming[0] == all[k - 1]);
                assert(self.rest(here, w) == absorbed(
                    w,
                    self.available_epochs@,
                    self.cache(),
                    size,
                    mid.mails@,
                    mid.chasing,
                    incoming,
                    here.left as nat,
                ));
            }
        }
        let ghost mid = *walk;
        assert(all.skip(k as int) =~= seq![]);
        let ask = self.go_on(walk, Some(to));
        assert forall|w: Archive|
            self.faithful(here, StreamReply::Mails(batch), w) implies #[trigger] leads_to(
            ask,
            *self,
            *walk,
            w,
            self.rest(here, w),
        ) by {
            let tail = mails_of(w, epoch, commits.skip(to as int));
            assert(all.skip(k as int) + tail =~= tail);
            assert(self.onward(mid, Some(to), w) == self.rest(here, w));
        }
        ask
    }
}

impl StreamSource {
    /// Starts to materialize the page that begins at stream `offset`: the walk
    /// goes through the epochs newest first, collects `page_size` mails, then
    /// keeps going while the page still cuts a patch series in half.
    pub fn begin(&self, offset: usize, page_size: usize) -> (r: (StreamWalk, StreamAsk))
        requires
            page_size > 0,
        ensures
            self.on_track(r.0),
            self.asks(r.0, r.1),
            r.0.offset == offset,
            r.0.page_size == page_size,
            r.0.mails@.len() == 0,
            forall|w: Archive| #[trigger]
                leads_to(
                    r.1,
                    *self,
                    r.0,
                    w,
                    stream_page(
                        w,
                        self.available_epochs@,
                        self.cache(),
                        page_size as nat,
                        offset as nat,
                    ),
                ),
    {
        let mut walk = StreamWalk {
            offset,
            page_size,
            mails: Vec::new(),
            to_skip: offset,
            chasing: None,
            left: self.available_epochs.len(),
            waiting: Waiting::Over,
        };
        let ghost start = walk;
        let ask = self.go_on(&mut walk, None);
        assert forall|w: Archive| #[trigger]
            leads_to(
                ask,
                *self,
                walk,
                w,
                stream_page(
                    w,
                    self.available_epochs@,
                    self.cache(),
                    page_size as nat,
                    offset as nat,
                ),
            ) by {
            assert(start.mails@ =~= seq![]);
            assert(leads_to(ask, *self, walk, w, self.onward(start, None, w)));
        }
        (walk, ask)
    }

    /// Takes the archive's answer and walks on to the next question, or to the
    /// end. Whatever the archive, as long as it answers as it is, the walk
    /// comes to the page that was asked for.
    pub fn answer(&mut self, walk: &mut StreamWalk, reply: StreamReply) -> (ask: StreamAsk)
        requires
            old(self).on_track(*old(walk)),
            StreamSource::fits(*old(walk), reply),
        ensures
            final(self).on_track(*final(walk)),
            final(self).list_name == old(self).list_name,
            final(self).available_epochs == old(self).available_epochs,
            final(self).cache() == match reply {
                StreamReply::Commits(Some(commits)) => old(self).cache().insert(
                    old(self).available_epochs[old(walk).left - 1],
                    commits@,
                ),
                _ => old(self).cache(),
            },
            final(walk).offset == old(walk).offset,
            final(walk).page_size == old(walk).page_size,
            final(walk).mails@ == match reply {
                StreamReply::Mails(batch) => absorb(
                    old(walk).page_size as nat,
                    old(walk).mails@,
                    old(walk).chasing,
                    batch@,
                ).0,
                _ => old(walk).mails@,
            },
            reply == StreamReply::Repo(false) ==> ask == StreamAsk::Finished(
                SourceStatus::NeedsClone(old(self).available_epochs[old(walk).left - 1]),
            ),
            final(self).asks(*final(walk), ask),
            ask is Finished || below(
                final(walk).distance(*final(self)),
                old(walk).distance(*old(self)),
            ),
            forall|w: Archive|
                old(self).faithful(*old(walk), reply, w) ==> #[trigger] leads_to(
                    ask,
                    *final(self),
                    *final(walk),
                    w,
                    old(self).rest(*old(walk), w),
                ),
    {
        let ghost before = *self;
        let ghost here = *walk;
        let epoch = self.available_epochs[walk.left - 1];
        match reply {
            StreamReply::Repo(present) => {
                if present {
                    walk.waiting = Waiting::Listing;
                    StreamAsk::ListCommits(epoch)
                } else {
                    walk.waiting = Waiting::Over;
                    StreamAsk::Finished(SourceStatus::NeedsClone(epoch))
                }
            },
            StreamReply::Commits(None) => { walk.finish() },
            StreamReply::Commits(Some(commits)) => {
                self.epoch_commits.insert(epoch, commits);
                assert(self.cache() =~= before.cache().insert(epoch, commits@));
                let ask = self.go_on(walk, None);
                assert forall|w: Archive|
                    before.faithful(here, reply, w) implies #[trigger] leads_to(
                    ask,
                    *self,
                    *walk,
                    w,
                    before.rest(here, w),
                ) by {
                    assert(self.onward(here, None, w) == before.rest(here, w));
                }
                ask
            },
            StreamReply::Mails(batch) => { self.take_in(walk, batch) },
        }
    }
}

} // verus!
