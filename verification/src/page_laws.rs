//! How far a page of the stream reaches, and when an epoch is missing for it.

use vstd::prelude::*;

use crate::message::{Message, SeriesTag};
use crate::series::{
    grouped_mails, law_grouping_is_a_permutation, page_end, row_order,
};
use crate::series_laws::{holds_series, law_a_page_ends_with_the_series_it_chases};
use crate::source::SourceStatus;
use crate::stream::{
    absorb, enter, mails_of, read_ahead, stream_page, tells, walk, Archive, Served, StreamWalk,
};
use crate::stream_laws::{known, one_mail_per_commit, stream};

verus! {

// ---------------------------------------------------------------------------
// Where a page ends
// ---------------------------------------------------------------------------

/// `mails` is longer than `size` only for the sake of the series that the mail
/// at its boundary belongs to: no shorter stretch of `size` mails or more holds
/// all of that series.
pub open spec fn grown_for_a_series(size: nat, mails: Seq<Message>) -> bool {
    mails.len() > size ==> {
        &&& mails[size - 1].series matches Some(tag)
        &&& forall|k: int|
            size <= k < mails.len() ==> !holds_series(#[trigger] mails.take(k), tag)
    }
}

/// The page so far has grown for a series, and chases that series.
spec fn chases_for_a_series(
    size: nat,
    mails: Seq<Message>,
    chasing: Option<SeriesTag>,
) -> bool {
    &&& grown_for_a_series(size, mails)
    &&& match chasing {
        None => mails.len() <= size,
        Some(tag) => mails.len() >= size && mails[size - 1].series == Some(tag),
    }
}

proof fn lemma_absorb_grows(
    size: nat,
    mails: Seq<Message>,
    chasing: Option<SeriesTag>,
    incoming: Seq<Message>,
)
    requires
        size > 0,
        chases_for_a_series(size, mails, chasing),
    ensures
        ({
            let (m, c, stop) = absorb(size, mails, chasing, incoming);
            chases_for_a_series(size, m, c)
        }),
    decreases incoming.len(),
{
    let (done, next) = page_end(mails, size, chasing);
    if incoming.len() > 0 && done {
        if let Some(tag) = chasing {
            law_a_page_ends_with_the_series_it_chases(mails, size, tag);
        } else if mails.len() >= size {
            match mails.last().series {
                Some(tag) => law_a_page_ends_with_the_series_it_chases(mails, size, tag),
                None => {},
            }
        }
    }
    if incoming.len() > 0 && !done {
        let more = mails.push(incoming[0]);
        if mails.len() >= size {
            let tag = mails[size - 1].series->0;
            match chasing {
                Some(t) => law_a_page_ends_with_the_series_it_chases(mails, size, t),
                None => {
                    assert(mails.len() == size);
                    assert(mails.last() == mails[size - 1]);
                    match mails.last().series {
                        Some(t) => law_a_page_ends_with_the_series_it_chases(mails, size, t),
                        None => law_a_page_ends_with_the_series_it_chases(
                            mails,
                            size,
                            SeriesTag { id: 0, total: 0 },
                        ),
                    }
                },
            }
            assert(next == Some(tag) && !holds_series(mails, tag));
            assert forall|k: int| size <= k < more.len() implies !holds_series(
                #[trigger] more.take(k),
                tag,
            ) by {
                if k < mails.len() {
                    assert(more.take(k) =~= mails.take(k));
                } else {
                    assert(more.take(k) =~= mails);
                }
            }
        } else if let Some(t) = chasing {
            assert(false);
        }
        lemma_absorb_grows(size, more, next, incoming.skip(1));
    }
}

proof fn lemma_walk_grows(
    w: Archive,
    epochs: Seq<u32>,
    cache: Map<u32, Seq<String>>,
    size: nat,
    mails: Seq<Message>,
    chasing: Option<SeriesTag>,
    skip: nat,
    left: nat,
)
    requires
        size > 0,
        left <= epochs.len(),
        chases_for_a_series(size, mails, chasing),
    ensures
        walk(w, epochs, cache, size, mails, chasing, skip, left) matches Served::Mails(m)
            ==> grown_for_a_series(size, m),
    decreases left,
{
    if left > 0 {
        let epoch = epochs[left - 1];
        let less = (left - 1) as nat;
        if cache.contains_key(epoch) || (mails.len() < size && (w.present)(epoch) && (w.listing)(
            epoch,
        ) is Some) {
            let commits = if cache.contains_key(epoch) {
                cache[epoch]
            } else {
                (w.listing)(epoch)->0
            };
            let cache2 = if cache.contains_key(epoch) {
                cache
            } else {
                cache.insert(epoch, commits)
            };
            assert(walk(w, epochs, cache, size, mails, chasing, skip, left) == enter(
                w,
                epochs,
                cache2,
                size,
                mails,
                chasing,
                skip,
                left,
            ));
            if skip >= commits.len() {
                lemma_walk_grows(
                    w,
                    epochs,
                    cache2,
                    size,
                    mails,
                    chasing,
                    (skip - commits.len()) as nat,
                    less,
                );
            } else {
                let incoming = mails_of(w, epoch, commits.skip(skip as int));
                lemma_absorb_grows(size, mails, chasing, incoming);
                let (m1, c1, stop) = absorb(size, mails, chasing, incoming);
                if !stop {
                    lemma_walk_grows(w, epochs, cache2, size, m1, c1, 0, less);
                }
            }
        }
    }
}

/// A page grows past its size only to finish the patch series of the mail at
/// its boundary, and ends with the mail that makes that series whole: no
/// shorter stretch of it that fills the page holds every patch of the series.
/// A page whose boundary mail is of no series does not grow.
pub proof fn law_a_page_grows_only_to_finish_a_series(
    w: Archive,
    epochs: Seq<u32>,
    cache: Map<u32, Seq<String>>,
    size: nat,
    offset: nat,
)
    requires
        size > 0,
    ensures
        stream_page(w, epochs, cache, size, offset) matches Served::Mails(m) ==> m.len() > size
            ==> {
            &&& m[size - 1].series matches Some(tag)
            &&& forall|k: int| size <= k < m.len() ==> !holds_series(#[trigger] m.take(k), tag)
        },
{
    lemma_walk_grows(w, epochs, cache, size, seq![], None, offset, epochs.len());
}

/// Every epoch that is left is listed already.
pub open spec fn all_listed(
    epochs: Seq<u32>,
    cache: Map<u32, Seq<String>>,
    left: nat,
) -> bool {
    forall|i: int| 0 <= i < left ==> cache.contains_key(#[trigger] epochs[i])
}

/// A page that is full holds the series of its boundary mail, or has grown by
/// as much as it may.
spec fn finished(size: nat, m: Seq<Message>) -> bool {
    &&& m.len() >= size
    &&& m[size - 1].series matches Some(tag) ==> holds_series(m, tag) || m.len() >= size + 64
}

proof fn lemma_absorb_finishes(
    size: nat,
    mails: Seq<Message>,
    chasing: Option<SeriesTag>,
    incoming: Seq<Message>,
)
    requires
        size > 0,
        chases_for_a_series(size, mails, chasing),
    ensures
        ({
            let (m, c, stop) = absorb(size, mails, chasing, incoming);
            &&& chases_for_a_series(size, m, c)
            &&& stop ==> finished(size, m)
            &&& !stop ==> m == mails + incoming
        }),
    decreases incoming.len(),
{
    lemma_absorb_grows(size, mails, chasing, incoming);
    let (done, next) = page_end(mails, size, chasing);
    if incoming.len() == 0 {
        assert(mails + incoming =~= mails);
    } else if done {
        match chasing {
            Some(tag) => law_a_page_ends_with_the_series_it_chases(mails, size, tag),
            None => {
                assert(mails.len() == size);
                assert(mails.last() == mails[size - 1]);
                match mails.last().series {
                    Some(t) => law_a_page_ends_with_the_series_it_chases(mails, size, t),
                    None => {},
                }
            },
        }
    } else {
        let more = mails.push(incoming[0]);
        lemma_absorb_grows(size, mails, chasing, seq![incoming[0]]);
        assert(seq![incoming[0]].skip(1) =~= Seq::<Message>::empty());
        assert(absorb(size, more, next, Seq::<Message>::empty()) == (more, next, false));
        assert(absorb(size, mails, chasing, seq![incoming[0]]) == absorb(
            size,
            more,
            next,
            seq![incoming[0]].skip(1),
        ));
        lemma_absorb_finishes(size, more, next, incoming.skip(1));
        assert(more + incoming.skip(1) =~= mails + incoming);
    }
}

proof fn lemma_walk_finishes(
    w: Archive,
    epochs: Seq<u32>,
    cache: Map<u32, Seq<String>>,
    size: nat,
    mails: Seq<Message>,
    chasing: Option<SeriesTag>,
    skip: nat,
    left: nat,
)
    requires
        size > 0,
        one_mail_per_commit(w),
        left <= epochs.len(),
        all_listed(epochs, cache, left),
        chases_for_a_series(size, mails, chasing),
        mails.len() > 0 ==> skip == 0,
    ensures
        match walk(w, epochs, cache, size, mails, chasing, skip, left) {
            Served::Mails(m) => finished(size, m) || m.len() + skip == mails.len() + stream(
                w,
                epochs,
                cache,
                left,
            ).len(),
            Served::NeedsClone(_) => false,
            Served::Nothing => mails.len() == 0 && stream(w, epochs, cache, left).len() <= skip,
        },
    decreases left,
{
    if left > 0 {
        let epoch = epochs[left - 1];
        let less = (left - 1) as nat;
        let commits = cache[epoch];
        lemma_one_each(w, epoch, commits);
        assert(stream(w, epochs, cache, left).len() == commits.len() + stream(
            w,
            epochs,
            cache,
            less,
        ).len());
        if skip >= commits.len() {
            lemma_walk_finishes(
                w,
                epochs,
                cache,
                size,
                mails,
                chasing,
                (skip - commits.len()) as nat,
                less,
            );
        } else {
            let left_over = commits.skip(skip as int);
            lemma_one_each(w, epoch, left_over);
            let incoming = mails_of(w, epoch, left_over);
            lemma_absorb_finishes(size, mails, chasing, incoming);
            let (m1, c1, stop) = absorb(size, mails, chasing, incoming);
            if !stop {
                lemma_walk_finishes(w, epochs, cache, size, m1, c1, 0, less);
            }
        }
    }
}

proof fn lemma_one_each(w: Archive, epoch: u32, commits: Seq<String>)
    requires
        one_mail_per_commit(w),
    ensures
        mails_of(w, epoch, commits).len() == commits.len(),
    decreases commits.len(),
{
    if commits.len() > 0 {
        lemma_one_each(w, epoch, commits.skip(1));
        assert((w.mail)(epoch, commits[0]).len() == 1);
    }
}

/// Where the commits of all epochs are known, no epoch is asked for, a page
/// with mails in it is served wherever the stream has any, and a page that does
/// not reach the end of the stream is full and holds all of the series that its
/// boundary mail belongs to, across the edges of epochs, unless it has grown by
/// 64 mails.
pub proof fn law_a_page_finishes_its_series_across_epochs(
    w: Archive,
    epochs: Seq<u32>,
    cache: Map<u32, Seq<String>>,
    size: nat,
    offset: nat,
)
    requires
        size > 0,
        one_mail_per_commit(w),
        all_listed(epochs, cache, epochs.len()),
    ensures
        ({
            let all = stream(w, epochs, cache, epochs.len());
            match stream_page(w, epochs, cache, size, offset) {
                Served::Mails(m) => {
                    ||| offset + m.len() == all.len()
                    ||| {
                        &&& m.len() >= size
                        &&& m[size - 1].series matches Some(tag) ==> holds_series(m, tag) || m.len()
                            >= size + 64
                    }
                },
                Served::NeedsClone(_) => false,
                Served::Nothing => all.len() <= offset,
            }
        }),
{
    lemma_walk_finishes(w, epochs, cache, size, seq![], None, offset, epochs.len());
}

// ---------------------------------------------------------------------------
// Missing epochs
// ---------------------------------------------------------------------------

/// The commits of all epochs newer than the one at `k` can be had.
pub open spec fn newer_are_known(
    w: Archive,
    epochs: Seq<u32>,
    cache: Map<u32, Seq<String>>,
    k: int,
    left: nat,
) -> bool {
    forall|j: int| k < j < left ==> known(w, cache, #[trigger] epochs[j]) is Some
}

proof fn lemma_walk_asks(
    w: Archive,
    epochs: Seq<u32>,
    cache: Map<u32, Seq<String>>,
    size: nat,
    mails: Seq<Message>,
    chasing: Option<SeriesTag>,
    skip: nat,
    left: nat,
)
    requires
        left <= epochs.len(),
    ensures
        match walk(w, epochs, cache, size, mails, chasing, skip, left) {
            Served::NeedsClone(e) => exists|k: int|
                0 <= k < left && #[trigger] epochs[k] == e && !cache.contains_key(e)
                    && !(w.present)(e) && newer_are_known(w, epochs, cache, k, left),
            Served::Mails(m) => m.len() < size ==> forall|k: int|
                0 <= k < left && newer_are_known(w, epochs, cache, k, left)
                    && !cache.contains_key(#[trigger] epochs[k]) ==> (w.present)(epochs[k]),
            Served::Nothing => size > 0 ==> forall|k: int|
                0 <= k < left && newer_are_known(w, epochs, cache, k, left)
                    && !cache.contains_key(#[trigger] epochs[k]) ==> (w.present)(epochs[k]),
        },
    decreases left,
{
    if left > 0 {
        let epoch = epochs[left - 1];
        let less = (left - 1) as nat;
        let end = walk(w, epochs, cache, size, mails, chasing, skip, left);
        if cache.contains_key(epoch) || (mails.len() < size && (w.present)(epoch) && (w.listing)(
            epoch,
        ) is Some) {
            let commits = if cache.contains_key(epoch) {
                cache[epoch]
            } else {
                (w.listing)(epoch)->0
            };
            let cache2 = if cache.contains_key(epoch) {
                cache
            } else {
                cache.insert(epoch, commits)
            };
            assert(known(w, cache, epoch) is Some);
            assert(end == enter(w, epochs, cache2, size, mails, chasing, skip, left));
            if skip >= commits.len() {
                let skip2 = (skip - commits.len()) as nat;
                lemma_walk_asks(w, epochs, cache2, size, mails, chasing, skip2, less);
                lemma_asks_step(w, epochs, cache, cache2, size, left, end);
            } else {
                let incoming = mails_of(w, epoch, commits.skip(skip as int));
                let (m1, c1, stop) = absorb(size, mails, chasing, incoming);
                if stop {
                    lemma_absorb_full(size, mails, chasing, incoming);
                } else {
                    lemma_walk_asks(w, epochs, cache2, size, m1, c1, 0, less);
                    lemma_asks_step(w, epochs, cache, cache2, size, left, end);
                }
            }
        } else if mails.len() < size {
            if !(w.present)(epoch) {
                assert(newer_are_known(w, epochs, cache, left - 1, left));
                assert(epochs[left - 1] == epoch);
            } else {
                assert(known(w, cache, epoch) is None);
                assert forall|k: int|
                    0 <= k < left && newer_are_known(w, epochs, cache, k, left)
                        && !cache.contains_key(#[trigger] epochs[k]) implies (w.present)(
                    epochs[k],
                ) by {
                    if k < left - 1 {
                        assert(known(w, cache, epochs[left - 1]) is Some);
                    }
                }
            }
        }
    }
}

/// A page that stops taking in mails is full.
proof fn lemma_absorb_full(
    size: nat,
    mails: Seq<Message>,
    chasing: Option<SeriesTag>,
    incoming: Seq<Message>,
)
    ensures
        ({
            let (m, c, stop) = absorb(size, mails, chasing, incoming);
            stop ==> m.len() >= size
        }),
    decreases incoming.len(),
{
    let (done, next) = page_end(mails, size, chasing);
    if incoming.len() > 0 && !done {
        lemma_absorb_full(size, mails.push(incoming[0]), next, incoming.skip(1));
    }
}

/// What is told of the older epochs is told of all of them, where the newest
/// is known.
proof fn lemma_asks_step(
    w: Archive,
    epochs: Seq<u32>,
    cache: Map<u32, Seq<String>>,
    cache2: Map<u32, Seq<String>>,
    size: nat,
    left: nat,
    end: Served,
)
    requires
        0 < left <= epochs.len(),
        known(w, cache, epochs[left - 1]) is Some,
        cache2 == cache || cache2 == cache.insert(
            epochs[left - 1],
            known(w, cache, epochs[left - 1])->0,
        ),
        match end {
            Served::NeedsClone(e) => exists|k: int|
                0 <= k < left - 1 && #[trigger] epochs[k] == e && !cache2.contains_key(e)
                    && !(w.present)(e) && newer_are_known(w, epochs, cache2, k, (left - 1) as nat),
            Served::Mails(m) => m.len() < size ==> forall|k: int|
                0 <= k < left - 1 && newer_are_known(w, epochs, cache2, k, (left - 1) as nat)
                    && !cache2.contains_key(#[trigger] epochs[k]) ==> (w.present)(epochs[k]),
            Served::Nothing => size > 0 ==> forall|k: int|
                0 <= k < left - 1 && newer_are_known(w, epochs, cache2, k, (left - 1) as nat)
                    && !cache2.contains_key(#[trigger] epochs[k]) ==> (w.present)(epochs[k]),
        },
    ensures
        match end {
            Served::NeedsClone(e) => exists|k: int|
                0 <= k < left && #[trigger] epochs[k] == e && !cache.contains_key(e)
                    && !(w.present)(e) && newer_are_known(w, epochs, cache, k, left),
            Served::Mails(m) => m.len() < size ==> forall|k: int|
                0 <= k < left && newer_are_known(w, epochs, cache, k, left)
                    && !cache.contains_key(#[trigger] epochs[k]) ==> (w.present)(epochs[k]),
            Served::Nothing => size > 0 ==> forall|k: int|
                0 <= k < left && newer_are_known(w, epochs, cache, k, left)
                    && !cache.contains_key(#[trigger] epochs[k]) ==> (w.present)(epochs[k]),
        },
{
    let less = (left - 1) as nat;
    let newest = epochs[left - 1];
    assert forall|e: u32| #[trigger] known(w, cache2, e) == known(w, cache, e) by {}
    if let Served::NeedsClone(e) = end {
        let k = choose|k: int|
            0 <= k < left - 1 && #[trigger] epochs[k] == e && !cache2.contains_key(e) && !(
            w.present)(e) && newer_are_known(w, epochs, cache2, k, less);
        assert forall|j: int| k < j < left implies known(w, cache, #[trigger] epochs[j]) is Some by {
            if j < less {
                assert(known(w, cache2, epochs[j]) is Some);
            }
        }
        assert(newer_are_known(w, epochs, cache, k, left));
    } else {
        assert forall|k: int|
            0 <= k < left && newer_are_known(w, epochs, cache, k, left) && !cache.contains_key(
                #[trigger] epochs[k],
            ) implies (k < less ==> newer_are_known(w, epochs, cache2, k, less)) && (epochs[k]
            == newest ==> (w.present)(epochs[k])) by {
            if k < less {
                assert forall|j: int| k < j < less implies known(
                    w,
                    cache2,
                    #[trigger] epochs[j],
                ) is Some by {
                    assert(known(w, cache, epochs[j]) is Some);
                }
            }
        }
    }
}

/// The epoch that is asked for is the newest one that is missing: it is not
/// cloned, and the commits of all epochs newer than it are known.
pub proof fn law_the_newest_missing_epoch_is_asked_for(
    w: Archive,
    epochs: Seq<u32>,
    cache: Map<u32, Seq<String>>,
    size: nat,
    offset: nat,
)
    ensures
        stream_page(w, epochs, cache, size, offset) matches Served::NeedsClone(e) ==> exists|k: int|
            0 <= k < epochs.len() && #[trigger] epochs[k] == e && !cache.contains_key(e)
                && !(w.present)(e) && newer_are_known(w, epochs, cache, k, epochs.len()),
{
    lemma_walk_asks(w, epochs, cache, size, seq![], None, offset, epochs.len());
}

/// No page is served short, and no list ends, where an epoch that is not cloned
/// could go on with it.
pub proof fn law_no_page_is_short_of_a_missing_epoch(
    w: Archive,
    epochs: Seq<u32>,
    cache: Map<u32, Seq<String>>,
    size: nat,
    offset: nat,
    k: int,
)
    requires
        size > 0,
        0 <= k < epochs.len(),
        !cache.contains_key(epochs[k]),
        !(w.present)(epochs[k]),
        newer_are_known(w, epochs, cache, k, epochs.len()),
    ensures
        match stream_page(w, epochs, cache, size, offset) {
            Served::Mails(m) => m.len() >= size,
            Served::NeedsClone(_) => true,
            Served::Nothing => false,
        },
{
    lemma_walk_asks(w, epochs, cache, size, seq![], None, offset, epochs.len());
}

// ---------------------------------------------------------------------------
// What is read and what is shown
// ---------------------------------------------------------------------------

/// Commits are read one after the other, each for the mails it holds.
pub proof fn law_commits_are_read_in_order(
    w: Archive,
    epoch: u32,
    a: Seq<String>,
    commit: String,
    b: Seq<String>,
)
    ensures
        mails_of(w, epoch, a + seq![commit] + b) == mails_of(w, epoch, a) + (w.mail)(epoch, commit)
            + mails_of(w, epoch, b),
    decreases a.len(),
{
    let all = a + seq![commit] + b;
    if a.len() == 0 {
        assert(all[0] == commit);
        assert(all.skip(1) =~= b);
        assert(mails_of(w, epoch, a) + (w.mail)(epoch, commit) =~= (w.mail)(epoch, commit));
    } else {
        assert(all[0] == a[0]);
        assert(all.skip(1) =~= a.skip(1) + seq![commit] + b);
        law_commits_are_read_in_order(w, epoch, a.skip(1), commit, b);
        assert(mails_of(w, epoch, all) =~= mails_of(w, epoch, a) + (w.mail)(epoch, commit)
            + mails_of(w, epoch, b));
    }
}

/// A batch is never empty while commits are left, never goes past them, and
/// never past what fills a page that is short; a page that is full and chases a
/// series reads sixteen commits at a time.
pub proof fn law_reading_ahead_is_bounded(walk: StreamWalk, from: int, n: int)
    requires
        from < n,
    ensures
        from < read_ahead(walk, from, n) <= n,
        walk.mails@.len() < walk.page_size ==> read_ahead(walk, from, n) - from
            <= walk.page_size - walk.mails@.len(),
        walk.mails@.len() < walk.page_size && read_ahead(walk, from, n) < n ==> read_ahead(
            walk,
            from,
            n,
        ) - from == walk.page_size - walk.mails@.len(),
        walk.mails@.len() >= walk.page_size ==> read_ahead(walk, from, n) - from <= 16,
        walk.mails@.len() >= walk.page_size && read_ahead(walk, from, n) < n ==> read_ahead(
            walk,
            from,
            n,
        ) - from == 16,
{
}

/// A page that is served shows the mails that the walk came to, each once, and
/// starts where it was asked to; it is served exactly where the walk came to
/// mails, an epoch is asked for exactly where the walk needs it, and the list
/// is at its end exactly where the walk came to nothing.
pub proof fn law_what_a_walk_comes_to_is_told(
    status: SourceStatus,
    offset: usize,
    outcome: Served,
)
    requires
        tells(status, offset, outcome),
    ensures
        status matches SourceStatus::Ready(page) ==> (outcome matches Served::Mails(m)
            && page.offset == offset && page.mails@.len() == m.len() && page.indent@.len()
            == m.len() && forall|i: int|
            0 <= i < m.len() ==> exists|p: int|
                0 <= p < m.len() && page.mails@[p] == #[trigger] m[i]),
        outcome is Mails ==> status is Ready,
        outcome matches Served::NeedsClone(e) ==> status == SourceStatus::NeedsClone(e),
        outcome is Nothing ==> status is Exhausted,
        !(status is Loading),
{
    if let SourceStatus::Ready(page) = status {
        if let Served::Mails(m) = outcome {
            law_grouping_is_a_permutation(m);
            let order = row_order(m, m.len() as int);
            assert forall|i: int| 0 <= i < m.len() implies exists|p: int|
                0 <= p < m.len() && page.mails@[p] == #[trigger] m[i] by {
                assert(order.contains(i));
                let p = choose|p: int| 0 <= p < order.len() && order[p] == i;
                assert(grouped_mails(m)[p] == m[i]);
                assert(page.mails@[p] == m[i]);
            }
        }
    }
}

} // verus!
