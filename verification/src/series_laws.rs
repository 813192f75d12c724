//! Where every row of a grouped page stands.

use vstd::prelude::*;

use crate::message::{Message, SeriesTag};
use crate::series::{
    block_of, grouped_indent, grouped_mails, law_grouping_is_a_permutation,
    law_series_form_blocks, law_series_rows, lemma_block_contains, lemma_order_contents,
    opens_block, page_end, placed_below, row_before, row_order, whole,
};

verus! {

/// The place of a mail in its series: the number of its patch, and 0 for a mail
/// without one.
pub open spec fn patch_place(m: Message) -> u32 {
    if m.patch_tag is Some {
        m.patch_tag.unwrap().number
    } else {
        0
    }
}

/// The first row, from `from` on, of a mail of the series of row `i`; row `i`
/// itself where it is of no series.
pub open spec fn first_of(mails: Seq<Message>, i: int, from: int) -> int
    decreases i - from,
{
    if from >= i || mails[i].series is None || mails[from].series == mails[i].series {
        if mails[i].series is None {
            i
        } else {
            from
        }
    } else {
        first_of(mails, i, from + 1)
    }
}

/// Row `a` is to stand above row `b` once the page is grouped: by where the
/// first mail of its series stood, then by its place in the series, and then by
/// where it stood itself.
pub open spec fn stands_above(mails: Seq<Message>, a: int, b: int) -> bool {
    let x = first_of(mails, a, 0);
    let y = first_of(mails, b, 0);
    ||| x < y
    ||| {
        &&& x == y
        &&& {
            ||| patch_place(mails[a]) < patch_place(mails[b])
            ||| patch_place(mails[a]) == patch_place(mails[b]) && a < b
        }
    }
}

proof fn lemma_first_of(mails: Seq<Message>, i: int, from: int)
    requires
        0 <= from <= i < mails.len(),
        mails[i].series is Some ==> forall|h: int|
            0 <= h < from ==> (#[trigger] mails[h]).series != mails[i].series,
    ensures
        ({
            let f = first_of(mails, i, from);
            &&& from <= f <= i
            &&& opens_block(mails, f)
            &&& mails[f].series == mails[i].series
            &&& mails[i].series is None ==> f == i
            &&& block_of(mails, f).contains(i)
        }),
    decreases i - from,
{
    if mails[i].series is None {
        lemma_block_contains(mails, i, i);
    } else if from == i || mails[from].series == mails[i].series {
        lemma_block_contains(mails, from, i);
    } else {
        lemma_first_of(mails, i, from + 1);
    }
}

/// A row is placed with the blocks opened above `k` exactly where the first
/// row of its series is above `k`.
proof fn lemma_placed(mails: Seq<Message>, k: int, i: int)
    requires
        0 <= k <= mails.len(),
        0 <= i < mails.len(),
    ensures
        row_order(mails, k).contains(i) <==> first_of(mails, i, 0) < k,
{
    lemma_order_contents(mails, k);
    lemma_first_of(mails, i, 0);
    let f = first_of(mails, i, 0);
    if row_order(mails, k).contains(i) {
        assert(placed_below(mails, k, i));
        let h = choose|h: int|
            0 <= h < k && opens_block(mails, h) && #[trigger] block_of(mails, h).contains(i);
        lemma_block_contains(mails, h, i);
        if h < f {
            assert(mails[h].series == mails[f].series);
        }
        if f < h {
            assert(mails[f].series == mails[h].series);
        }
        assert(f == h);
    }
    if f < k {
        assert(placed_below(mails, k, i));
    }
}

proof fn lemma_order_grows(mails: Seq<Message>, k: int, n: int)
    requires
        0 <= k <= n,
    ensures
        row_order(mails, k).len() <= row_order(mails, n).len(),
        row_order(mails, k) == row_order(mails, n).take(row_order(mails, k).len() as int),
    decreases n - k,
{
    let a = row_order(mails, k);
    if k < n {
        lemma_order_grows(mails, k, n - 1);
        let b = row_order(mails, n - 1);
        let c = row_order(mails, n);
        assert(c.take(a.len() as int) =~= b.take(a.len() as int));
    } else {
        assert(a.take(a.len() as int) =~= a);
    }
}

/// A grouped page shows each series where its first mail stood, its mails by
/// their patch numbers, and everything else in the order in which it came. `p`
/// and `q` are where the rows `a` and `b` end up.
pub proof fn law_rows_stand_in_this_order(mails: Seq<Message>, a: int, b: int, p: int, q: int)
    requires
        0 <= a < mails.len(),
        0 <= b < mails.len(),
        stands_above(mails, a, b),
        0 <= p < row_order(mails, mails.len() as int).len(),
        0 <= q < row_order(mails, mails.len() as int).len(),
        row_order(mails, mails.len() as int)[p] == a,
        row_order(mails, mails.len() as int)[q] == b,
    ensures
        p < q,
        grouped_mails(mails)[p] == mails[a],
        grouped_mails(mails)[q] == mails[b],
{
    let n = mails.len() as int;
    let order = row_order(mails, n);
    let x = first_of(mails, a, 0);
    let y = first_of(mails, b, 0);
    lemma_first_of(mails, a, 0);
    lemma_first_of(mails, b, 0);
    lemma_order_contents(mails, n);
    if x < y {
        let early = row_order(mails, y);
        lemma_order_grows(mails, y, n);
        lemma_placed(mails, y, a);
        lemma_placed(mails, y, b);
        let i = choose|i: int| 0 <= i < early.len() && early[i] == a;
        assert(order[i] == a);
        assert(i == p);
        if q < early.len() {
            assert(early[q] == b);
            assert(early.contains(b));
        }
    } else {
        let early = row_order(mails, x);
        let block = block_of(mails, x);
        let upto = row_order(mails, x + 1);
        assert(upto == early + block);
        lemma_order_grows(mails, x + 1, n);
        let i = choose|i: int| 0 <= i < block.len() && block[i] == a;
        let j = choose|j: int| 0 <= j < block.len() && block[j] == b;
        assert(upto[early.len() + i] == a);
        assert(upto[early.len() + j] == b);
        assert(order[early.len() + i] == a);
        assert(order[early.len() + j] == b);
        assert(p == early.len() + i && q == early.len() + j);
        match mails[x].series {
            Some(tag) => {
                law_series_rows(mails, tag, n);
                if j < i {
                    assert(row_before(mails, block[j], block[i]));
                }
            },
            None => {
                assert(a == b);
            },
        }
    }
}

/// A row of a grouped page is indented exactly where the row above it is of the
/// same series.
pub proof fn law_a_row_is_indented_under_its_series(mails: Seq<Message>, p: int)
    requires
        0 <= p < mails.len(),
    ensures
        grouped_indent(mails).len() == mails.len(),
        grouped_indent(mails)[p] <==> p > 0 && grouped_mails(mails)[p].series is Some
            && grouped_mails(mails)[p].series == grouped_mails(mails)[p - 1].series,
{
    law_grouping_is_a_permutation(mails);
    law_series_form_blocks(mails);
    let rows = grouped_mails(mails);
    if p > 0 && rows[p].series is Some && rows[p].series == rows[p - 1].series {
        if !grouped_indent(mails)[p] {
            assert(rows[p - 1].series != rows[p].series);
        }
    }
}

// ---------------------------------------------------------------------------
// Whole series
// ---------------------------------------------------------------------------

/// Among `mails` is patch `n` of the series `tag`.
pub open spec fn holds_patch(mails: Seq<Message>, tag: SeriesTag, n: u32) -> bool {
    exists|i: int|
        0 <= i < mails.len() && (#[trigger] mails[i]).series == Some(tag) && mails[i].patch_tag
            is Some && mails[i].patch_tag.unwrap().number == n
}

/// Among `mails` is every patch of the series `tag`, from the first to the last
/// that the series says it has. The cover letter is none of them.
pub open spec fn holds_series(mails: Seq<Message>, tag: SeriesTag) -> bool {
    forall|n: u32| 1 <= n && n <= tag.total ==> #[trigger] holds_patch(mails, tag, n)
}

/// A series is whole exactly where each of its patches is there.
pub proof fn law_a_series_is_whole_with_all_its_patches(mails: Seq<Message>, tag: SeriesTag)
    ensures
        whole(mails, tag) <==> holds_series(mails, tag),
{
    assert forall|n: u32| holds_patch(mails, tag, n) == #[trigger] crate::series::has_patch(
        mails,
        tag,
        n,
    ) by {
        if holds_patch(mails, tag, n) {
            let i = choose|i: int|
                0 <= i < mails.len() && (#[trigger] mails[i]).series == Some(tag)
                    && mails[i].patch_tag is Some && mails[i].patch_tag.unwrap().number == n;
            assert(mails[i].is_patch(tag, n));
        }
        if crate::series::has_patch(mails, tag, n) {
            let i = choose|i: int| 0 <= i < mails.len() && (#[trigger] mails[i]).is_patch(tag, n);
            assert(mails[i].series == Some(tag));
        }
    }
    if whole(mails, tag) {
        assert forall|n: u32| 1 <= n && n <= tag.total implies #[trigger] holds_patch(
            mails,
            tag,
            n,
        ) by {
            assert(crate::series::has_patch(mails, tag, n));
        }
    }
    if holds_series(mails, tag) {
        assert forall|n: u32| 1 <= n <= tag.total implies #[trigger] crate::series::has_patch(
            mails,
            tag,
            n,
        ) by {
            assert(holds_patch(mails, tag, n));
        }
    }
}

/// When a page has all it needs. Short of its size it never has. A page that
/// chases nothing has where its last mail is of no series, or of one that is
/// all there, and else takes up that series; a page that chases a series has
/// where that is all there, or the page has grown by 64 mails.
pub proof fn law_a_page_ends_with_the_series_it_chases(
    mails: Seq<Message>,
    size: nat,
    tag: SeriesTag,
)
    requires
        size > 0,
    ensures
        mails.len() < size ==> !page_end(mails, size, None).0 && page_end(mails, size, None).1
            is None && page_end(mails, size, Some(tag)) == (false, Some(tag)),
        mails.len() >= size ==> page_end(mails, size, Some(tag)) == (
            holds_series(mails, tag) || mails.len() >= size + 64,
            Some(tag),
        ),
        mails.len() >= size && mails.last().series is None ==> page_end(mails, size, None) == (
            true,
            None::<SeriesTag>,
        ),
        mails.len() >= size && mails.last().series == Some(tag) ==> page_end(mails, size, None)
            == if holds_series(mails, tag) {
            (true, None)
        } else {
            (false, Some(tag))
        },
{
    law_a_series_is_whole_with_all_its_patches(mails, tag);
}

} // verus!
