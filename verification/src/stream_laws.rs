//! What the pages of the stream are together: consecutive stretches of it.

use vstd::prelude::*;

use crate::message::{Message, SeriesTag};
use crate::series::{page_end, whole, SERIES_EXTEND_MAX};
use crate::stream::{absorb, enter, mails_of, stream_page, walk, Archive, Served};

verus! {

/// Every commit of the archive holds exactly one mail.
pub open spec fn one_mail_per_commit(w: Archive) -> bool {
    forall|epoch: u32, commit: String| (#[trigger] (w.mail)(epoch, commit)).len() == 1
}

/// The commits of an epoch, where they can be had: from the cache, or by
/// listing an epoch that is cloned.
pub open spec fn known(w: Archive, cache: Map<u32, Seq<String>>, epoch: u32) -> Option<
    Seq<String>,
> {
    if cache.contains_key(epoch) {
        Some(cache[epoch])
    } else if (w.present)(epoch) {
        (w.listing)(epoch)
    } else {
        None
    }
}

/// The mails of the newest epochs, newest first, up to the first epoch whose
/// commits cannot be had.
pub open spec fn stream(
    w: Archive,
    epochs: Seq<u32>,
    cache: Map<u32, Seq<String>>,
    left: nat,
) -> Seq<Message>
    decreases left,
{
    if left == 0 {
        seq![]
    } else {
        match known(w, cache, epochs[left - 1]) {
            Some(commits) => mails_of(w, epochs[left - 1], commits) + stream(
                w,
                epochs,
                cache,
                (left - 1) as nat,
            ),
            None => seq![],
        }
    }
}

/// What listing an epoch that is cloned adds to the cache does not change what
/// is known.
proof fn lemma_stream_cached(
    w: Archive,
    epochs: Seq<u32>,
    cache: Map<u32, Seq<String>>,
    epoch: u32,
    commits: Seq<String>,
    left: nat,
)
    requires
        known(w, cache, epoch) == Some(commits),
    ensures
        stream(w, epochs, cache.insert(epoch, commits), left) == stream(w, epochs, cache, left),
    decreases left,
{
    if left > 0 {
        lemma_stream_cached(w, epochs, cache, epoch, commits, (left - 1) as nat);
        assert(known(w, cache.insert(epoch, commits), epochs[left - 1]) == known(
            w,
            cache,
            epochs[left - 1],
        ));
    }
}

proof fn lemma_mails_of_single(w: Archive, epoch: u32, commits: Seq<String>, i: int)
    requires
        one_mail_per_commit(w),
        0 <= i <= commits.len(),
    ensures
        mails_of(w, epoch, commits).len() == commits.len(),
        mails_of(w, epoch, commits.skip(i)) == mails_of(w, epoch, commits).skip(i),
    decreases commits.len(),
{
    let all = mails_of(w, epoch, commits);
    if commits.len() > 0 {
        let rest = commits.skip(1);
        lemma_mails_of_single(
            w,
            epoch,
            rest,
            if i > 0 {
                i - 1
            } else {
                0
            },
        );
        assert((w.mail)(epoch, commits[0]).len() == 1);
        if i > 0 {
            assert(rest.skip(i - 1) =~= commits.skip(i));
            assert(all.skip(i) =~= mails_of(w, epoch, rest).skip(i - 1));
        } else {
            assert(commits.skip(0) =~= commits);
            assert(all.skip(0) =~= all);
        }
    } else {
        assert(commits.skip(0) =~= commits);
        assert(all.skip(0) =~= all);
    }
}

/// A page takes in a stretch of what comes, from its start; all of it, unless
/// the page is complete before. It never outgrows its bound.
proof fn lemma_absorb(
    size: nat,
    mails: Seq<Message>,
    chasing: Option<SeriesTag>,
    incoming: Seq<Message>,
)
    requires
        chasing is None ==> mails.len() <= size,
        mails.len() <= size + SERIES_EXTEND_MAX,
    ensures
        ({
            let (m, c, stop) = absorb(size, mails, chasing, incoming);
            &&& mails.len() <= m.len() <= mails.len() + incoming.len()
            &&& m == mails + incoming.take(m.len() - mails.len())
            &&& !stop ==> m.len() == mails.len() + incoming.len()
            &&& stop ==> m.len() >= size
            &&& c is None ==> m.len() <= size
            &&& m.len() <= size + SERIES_EXTEND_MAX
        }),
    decreases incoming.len(),
{
    let (m, c, stop) = absorb(size, mails, chasing, incoming);
    let (done, next) = page_end(mails, size, chasing);
    if incoming.len() == 0 || done {
        assert(m =~= mails + incoming.take(0));
    } else {
        lemma_absorb(size, mails.push(incoming[0]), next, incoming.skip(1));
        assert(m =~= mails + incoming.take(m.len() - mails.len()));
    }
}

/// `m` continues `mails` with a stretch of `all` from `skip` on, and with all
/// of it where `m` is short of `size`.
pub open spec fn continues(
    all: Seq<Message>,
    size: nat,
    mails: Seq<Message>,
    skip: nat,
    m: Seq<Message>,
) -> bool {
    let more = m.len() - mails.len();
    &&& 0 <= more
    &&& 0 < m.len() <= size + SERIES_EXTEND_MAX
    &&& more == 0 ==> m == mails
    &&& more > 0 ==> skip + more <= all.len() && m == mails + all.subrange(
        skip as int,
        skip + more,
    )
    &&& m.len() < size ==> skip + more == all.len()
}

proof fn lemma_continues_past(
    here: Seq<Message>,
    older: Seq<Message>,
    size: nat,
    mails: Seq<Message>,
    skip: nat,
    m: Seq<Message>,
)
    requires
        skip >= here.len(),
        continues(older, size, mails, (skip - here.len()) as nat, m),
    ensures
        continues(here + older, size, mails, skip, m),
{
    let more = m.len() - mails.len();
    let skip2 = skip - here.len();
    if more > 0 {
        assert((here + older).subrange(skip as int, skip + more) =~= older.subrange(
            skip2 as int,
            skip2 + more,
        ));
    }
}

proof fn lemma_continues_within(
    here: Seq<Message>,
    older: Seq<Message>,
    size: nat,
    mails: Seq<Message>,
    skip: nat,
    m: Seq<Message>,
)
    requires
        skip < here.len(),
        mails.len() < m.len() <= mails.len() + here.len() - skip,
        m == mails + here.skip(skip as int).take(m.len() - mails.len()),
        size <= m.len() <= size + SERIES_EXTEND_MAX,
    ensures
        continues(here + older, size, mails, skip, m),
{
    let more = m.len() - mails.len();
    assert(here.skip(skip as int).take(more) =~= (here + older).subrange(
        skip as int,
        skip + more,
    ));
}

proof fn lemma_continues_through(
    here: Seq<Message>,
    older: Seq<Message>,
    size: nat,
    mails: Seq<Message>,
    skip: nat,
    m1: Seq<Message>,
    m: Seq<Message>,
)
    requires
        skip < here.len(),
        m1 == mails + here.skip(skip as int),
        continues(older, size, m1, 0, m),
    ensures
        continues(here + older, size, mails, skip, m),
{
    let k = here.len() - skip;
    let more = m.len() - m1.len();
    let all = here + older;
    if more > 0 {
        assert(all.subrange(skip as int, skip + k + more) =~= here.skip(skip as int)
            + older.subrange(0, more));
        assert(m =~= mails + all.subrange(skip as int, skip + k + more));
    } else {
        assert(all.subrange(skip as int, skip + k) =~= here.skip(skip as int));
    }
}

/// What a walk adds to the mails it has is the stretch of the stream that lies
/// behind the commits it has to skip.
proof fn lemma_walk(
    w: Archive,
    epochs: Seq<u32>,
    cache: Map<u32, Seq<String>>,
    size: nat,
    mails: Seq<Message>,
    chasing: Option<SeriesTag>,
    skip: nat,
    left: nat,
)
    requires
        one_mail_per_commit(w),
        left <= epochs.len(),
        chasing is None ==> mails.len() <= size,
        mails.len() <= size + SERIES_EXTEND_MAX,
        mails.len() > 0 ==> skip == 0,
    ensures
        walk(w, epochs, cache, size, mails, chasing, skip, left) matches Served::Mails(m)
            ==> continues(stream(w, epochs, cache, left), size, mails, skip, m),
    decreases left,
{
    if left > 0 {
        let epoch = epochs[left - 1];
        let less = (left - 1) as nat;
        match known(w, cache, epoch) {
            None => {},
            Some(commits) => {
                if cache.contains_key(epoch) || mails.len() < size {
                    let cache2 = if cache.contains_key(epoch) {
                        cache
                    } else {
                        cache.insert(epoch, commits)
                    };
                    if !cache.contains_key(epoch) {
                        lemma_stream_cached(w, epochs, cache, epoch, commits, less);
                    }
                    let here = mails_of(w, epoch, commits);
                    let older = stream(w, epochs, cache, less);
                    assert(stream(w, epochs, cache, left) == here + older);
                    let end = walk(w, epochs, cache, size, mails, chasing, skip, left);
                    assert(end == enter(
                        w,
                        epochs,
                        cache2,
                        size,
                        mails,
                        chasing,
                        skip,
                        left,
                    ));
                    lemma_mails_of_single(w, epoch, commits, 0);
                    if skip >= commits.len() {
                        let skip2 = (skip - commits.len()) as nat;
                        lemma_walk(w, epochs, cache2, size, mails, chasing, skip2, less);
                        if let Served::Mails(m) = end {
                            lemma_continues_past(here, older, size, mails, skip, m);
                        }
                    } else {
                        lemma_mails_of_single(w, epoch, commits, skip as int);
                        let incoming = here.skip(skip as int);
                        lemma_absorb(size, mails, chasing, incoming);
                        let (m1, c1, stop) = absorb(size, mails, chasing, incoming);
                        if stop {
                            if let Served::Mails(m) = end {
                                if m.len() > mails.len() {
                                    lemma_continues_within(here, older, size, mails, skip, m);
                                } else {
                                    assert(m =~= mails);
                                }
                            }
                        } else {
                            assert(incoming.take(incoming.len() as int) =~= incoming);
                            lemma_walk(w, epochs, cache2, size, m1, c1, 0, less);
                            if let Served::Mails(m) = end {
                                lemma_continues_through(here, older, size, mails, skip, m1, m);
                            }
                        }
                    }
                }
            },
        }
    }
}

/// A walk that comes to nothing has no mails, and there are none behind the
/// commits it has to skip.
proof fn lemma_walk_nothing(
    w: Archive,
    epochs: Seq<u32>,
    cache: Map<u32, Seq<String>>,
    size: nat,
    mails: Seq<Message>,
    chasing: Option<SeriesTag>,
    skip: nat,
    left: nat,
)
    requires
        one_mail_per_commit(w),
        left <= epochs.len(),
        chasing is None ==> mails.len() <= size,
        mails.len() <= size + SERIES_EXTEND_MAX,
        mails.len() > 0 ==> skip == 0,
    ensures
        walk(w, epochs, cache, size, mails, chasing, skip, left) is Nothing ==> mails.len() == 0
            && (size > 0 ==> stream(w, epochs, cache, left).len() <= skip),
    decreases left,
{
    if left > 0 {
        let epoch = epochs[left - 1];
        let less = (left - 1) as nat;
        match known(w, cache, epoch) {
            None => {},
            Some(commits) => {
                if cache.contains_key(epoch) || mails.len() < size {
                    let cache2 = if cache.contains_key(epoch) {
                        cache
                    } else {
                        cache.insert(epoch, commits)
                    };
                    if !cache.contains_key(epoch) {
                        lemma_stream_cached(w, epochs, cache, epoch, commits, less);
                    }
                    assert(walk(w, epochs, cache, size, mails, chasing, skip, left) == enter(
                        w,
                        epochs,
                        cache2,
                        size,
                        mails,
                        chasing,
                        skip,
                        left,
                    ));
                    lemma_mails_of_single(w, epoch, commits, 0);
                    if skip >= commits.len() {
                        let skip2 = (skip - commits.len()) as nat;
                        lemma_walk_nothing(w, epochs, cache2, size, mails, chasing, skip2, less);
                    } else {
                        lemma_mails_of_single(w, epoch, commits, skip as int);
                        let incoming = mails_of(w, epoch, commits).skip(skip as int);
                        lemma_absorb(size, mails, chasing, incoming);
                        let (m1, c1, stop) = absorb(size, mails, chasing, incoming);
                        if !stop {
                            lemma_walk_nothing(w, epochs, cache2, size, m1, c1, 0, less);
                        }
                    }
                }
            },
        }
    }
}

/// A walk that comes to a missing epoch has too few mails without it.
proof fn lemma_walk_short(
    w: Archive,
    epochs: Seq<u32>,
    cache: Map<u32, Seq<String>>,
    size: nat,
    mails: Seq<Message>,
    chasing: Option<SeriesTag>,
    skip: nat,
    left: nat,
)
    requires
        one_mail_per_commit(w),
        left <= epochs.len(),
        chasing is None ==> mails.len() <= size,
        mails.len() <= size + SERIES_EXTEND_MAX,
        mails.len() > 0 ==> skip == 0,
    ensures
        walk(w, epochs, cache, size, mails, chasing, skip, left) matches Served::NeedsClone(e)
            ==> !(w.present)(e) && mails.len() + stream(w, epochs, cache, left).len() < size + skip,
    decreases left,
{
    if left > 0 {
        let epoch = epochs[left - 1];
        let less = (left - 1) as nat;
        match known(w, cache, epoch) {
            None => {},
            Some(commits) => {
                if cache.contains_key(epoch) || mails.len() < size {
                    let cache2 = if cache.contains_key(epoch) {
                        cache
                    } else {
                        cache.insert(epoch, commits)
                    };
                    if !cache.contains_key(epoch) {
                        lemma_stream_cached(w, epochs, cache, epoch, commits, less);
                    }
                    assert(walk(w, epochs, cache, size, mails, chasing, skip, left) == enter(
                        w,
                        epochs,
                        cache2,
                        size,
                        mails,
                        chasing,
                        skip,
                        left,
                    ));
                    lemma_mails_of_single(w, epoch, commits, 0);
                    if skip >= commits.len() {
                        let skip2 = (skip - commits.len()) as nat;
                        lemma_walk_short(w, epochs, cache2, size, mails, chasing, skip2, less);
                    } else {
                        lemma_mails_of_single(w, epoch, commits, skip as int);
                        let incoming = mails_of(w, epoch, commits).skip(skip as int);
                        lemma_absorb(size, mails, chasing, incoming);
                        let (m1, c1, stop) = absorb(size, mails, chasing, incoming);
                        if !stop {
                            lemma_walk_short(w, epochs, cache2, size, m1, c1, 0, less);
                        }
                    }
                }
            },
        }
    }
}

/// A page is a stretch of the stream: the mails from its offset on, without a
/// gap. It holds at least one mail, and at most as many as its size and the
/// extension for a series that it cuts. It is shorter than its size only where
/// the stream ends.
pub proof fn law_page_is_a_stretch_of_the_stream(
    w: Archive,
    epochs: Seq<u32>,
    cache: Map<u32, Seq<String>>,
    size: nat,
    offset: nat,
)
    requires
        one_mail_per_commit(w),
        size > 0,
    ensures
        stream_page(w, epochs, cache, size, offset) matches Served::Mails(m) ==> ({
            let all = stream(w, epochs, cache, epochs.len());
            &&& 0 < m.len() <= size + SERIES_EXTEND_MAX
            &&& offset + m.len() <= all.len()
            &&& m == all.subrange(offset as int, (offset + m.len()) as int)
            &&& m.len() < size ==> offset + m.len() == all.len()
        }),
        stream_page(w, epochs, cache, size, offset) is Nothing ==> stream(
            w,
            epochs,
            cache,
            epochs.len(),
        ).len() <= offset,
{
    lemma_walk(w, epochs, cache, size, seq![], None, offset, epochs.len());
    lemma_walk_nothing(w, epochs, cache, size, seq![], None, offset, epochs.len());
    if let Served::Mails(m) = stream_page(w, epochs, cache, size, offset) {
        let all = stream(w, epochs, cache, epochs.len());
        assert(m =~= all.subrange(offset as int, (offset + m.len()) as int));
    }
}

/// Paging on loses no mail and shows none twice: the page that starts where
/// another ends continues it, whatever the sizes of the two.
pub proof fn law_pages_follow_each_other(
    w: Archive,
    epochs: Seq<u32>,
    cache: Map<u32, Seq<String>>,
    size: nat,
    next_size: nat,
    offset: nat,
)
    requires
        one_mail_per_commit(w),
        size > 0,
        next_size > 0,
    ensures
        stream_page(w, epochs, cache, size, offset) matches Served::Mails(m) ==> (stream_page(
            w,
            epochs,
            cache,
            next_size,
            offset + m.len(),
        ) matches Served::Mails(n) ==> m + n == stream(
            w,
            epochs,
            cache,
            epochs.len(),
        ).subrange(offset as int, (offset + m.len() + n.len()) as int)),
{
    law_page_is_a_stretch_of_the_stream(w, epochs, cache, size, offset);
    if let Served::Mails(m) = stream_page(w, epochs, cache, size, offset) {
        law_page_is_a_stretch_of_the_stream(w, epochs, cache, next_size, offset + m.len());
        if let Served::Mails(n) = stream_page(w, epochs, cache, next_size, offset + m.len()) {
            let all = stream(w, epochs, cache, epochs.len());
            assert(m + n =~= all.subrange(
                offset as int,
                (offset + m.len() + n.len()) as int,
            ));
        }
    }
}

/// The page that a walk has so far chases nothing before it is full, and then
/// only the series of the mail at its boundary.
pub open spec fn chases_boundary(
    size: nat,
    mails: Seq<Message>,
    chasing: Option<SeriesTag>,
) -> bool {
    match chasing {
        None => mails.len() <= size,
        Some(tag) => mails.len() >= size && mails[size - 1].series == Some(tag),
    }
}

/// A page that is full holds all of the series that the mail at its boundary
/// belongs to, or has grown to its bound.
pub open spec fn cuts_nothing(size: nat, mails: Seq<Message>) -> bool {
    &&& mails.len() >= size
    &&& mails[size - 1].series matches Some(tag) ==> whole(mails, tag) || mails.len() == size
        + SERIES_EXTEND_MAX
}

/// A page that stops taking in mails cuts nothing.
proof fn lemma_absorb_whole(
    size: nat,
    mails: Seq<Message>,
    chasing: Option<SeriesTag>,
    incoming: Seq<Message>,
)
    requires
        size > 0,
        chases_boundary(size, mails, chasing),
        mails.len() <= size + SERIES_EXTEND_MAX,
    ensures
        ({
            let (m, c, stop) = absorb(size, mails, chasing, incoming);
            &&& chases_boundary(size, m, c)
            &&& stop ==> cuts_nothing(size, m)
        }),
    decreases incoming.len(),
{
    let (done, next) = page_end(mails, size, chasing);
    if incoming.len() > 0 && !done {
        assert(chases_boundary(size, mails.push(incoming[0]), next));
        lemma_absorb_whole(size, mails.push(incoming[0]), next, incoming.skip(1));
    }
}

/// A walk ends with a page that cuts nothing, or at the end of an epoch.
proof fn lemma_walk_whole(
    w: Archive,
    epochs: Seq<u32>,
    cache: Map<u32, Seq<String>>,
    size: nat,
    mails: Seq<Message>,
    chasing: Option<SeriesTag>,
    skip: nat,
    left: nat,
)
    requires
        one_mail_per_commit(w),
        size > 0,
        left <= epochs.len(),
        chases_boundary(size, mails, chasing),
        mails.len() <= size + SERIES_EXTEND_MAX,
        mails.len() > 0 ==> skip == 0,
    ensures
        walk(w, epochs, cache, size, mails, chasing, skip, left) matches Served::Mails(m)
            ==> cuts_nothing(size, m) || exists|k: nat|
            k <= left && skip + m.len() - mails.len() == stream(w, epochs, cache, left).len()
                - (#[trigger] stream(w, epochs, cache, k)).len(),
    decreases left,
{
    let all = stream(w, epochs, cache, left);
    if left == 0 {
        assert(all.len() == stream(w, epochs, cache, 0).len());
    } else {
        let epoch = epochs[left - 1];
        let less = (left - 1) as nat;
        match known(w, cache, epoch) {
            None => {
                assert(all.len() == stream(w, epochs, cache, left).len());
            },
            Some(commits) => {
                if cache.contains_key(epoch) || mails.len() < size {
                    let cache2 = if cache.contains_key(epoch) {
                        cache
                    } else {
                        cache.insert(epoch, commits)
                    };
                    assert forall|k: nat| #[trigger]
                        stream(w, epochs, cache2, k) == stream(w, epochs, cache, k) by {
                        if !cache.contains_key(epoch) {
                            lemma_stream_cached(w, epochs, cache, epoch, commits, k);
                        }
                    }
                    assert(walk(w, epochs, cache, size, mails, chasing, skip, left) == enter(
                        w,
                        epochs,
                        cache2,
                        size,
                        mails,
                        chasing,
                        skip,
                        left,
                    ));
                    lemma_mails_of_single(w, epoch, commits, 0);
                    assert(all.len() == commits.len() + stream(w, epochs, cache, less).len());
                    if skip >= commits.len() {
                        let skip2 = (skip - commits.len()) as nat;
                        lemma_walk_whole(w, epochs, cache2, size, mails, chasing, skip2, less);
                    } else {
                        lemma_mails_of_single(w, epoch, commits, skip as int);
                        let incoming = mails_of(w, epoch, commits).skip(skip as int);
                        lemma_absorb(size, mails, chasing, incoming);
                        lemma_absorb_whole(size, mails, chasing, incoming);
                        let (m1, c1, stop) = absorb(size, mails, chasing, incoming);
                        if !stop {
                            lemma_walk_whole(w, epochs, cache2, size, m1, c1, 0, less);
                        }
                    }
                } else {
                    assert(all.len() == stream(w, epochs, cache, left).len());
                }
            },
        }
    }
}

/// A page never cuts a patch series in half: a page that is full holds all of
/// the series that the mail at its boundary belongs to, unless it has grown to
/// its bound, or ends where an epoch ends.
pub proof fn law_page_cuts_no_series(
    w: Archive,
    epochs: Seq<u32>,
    cache: Map<u32, Seq<String>>,
    size: nat,
    offset: nat,
)
    requires
        one_mail_per_commit(w),
        size > 0,
    ensures
        stream_page(w, epochs, cache, size, offset) matches Served::Mails(m) ==> cuts_nothing(
            size,
            m,
        ) || exists|k: nat|
            k <= epochs.len() && offset + m.len() == stream(w, epochs, cache, epochs.len()).len()
                - (#[trigger] stream(w, epochs, cache, k)).len(),
{
    lemma_walk_whole(w, epochs, cache, size, seq![], None, offset, epochs.len());
}

/// An epoch is asked to be cloned only where it is not cloned and the mails
/// that can be had without it do not fill the page.
pub proof fn law_clone_only_what_is_missing(
    w: Archive,
    epochs: Seq<u32>,
    cache: Map<u32, Seq<String>>,
    size: nat,
    offset: nat,
)
    requires
        one_mail_per_commit(w),
        size > 0,
    ensures
        stream_page(w, epochs, cache, size, offset) matches Served::NeedsClone(e) ==> !(w.present)(
            e,
        ) && stream(w, epochs, cache, epochs.len()).len() < offset + size,
{
    lemma_walk_short(w, epochs, cache, size, seq![], None, offset, epochs.len());
}

} // verus!
