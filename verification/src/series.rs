//! Patch series on a page: pulling them together, and telling whether a page
//! cuts one.

use vstd::prelude::*;

use crate::message::{Message, SeriesTag};

verus! {

/// How far past its size a page may grow to finish a patch series that
/// straddles its tail. Bounds the walk when a series is only partly in the
/// archive and so would never complete.
pub const SERIES_EXTEND_MAX: usize = 64;

/// `block` with the row `i` behind all rows whose number is not greater.
pub open spec fn with_row(mails: Seq<Message>, block: Seq<int>, i: int) -> Seq<int>
    decreases block.len(),
{
    if block.len() > 0 && mails[block.last()].number() > mails[i].number() {
        with_row(mails, block.drop_last(), i).push(block.last())
    } else {
        block.push(i)
    }
}

/// The rows below `n` that belong to the series `tag`, lowest number first and
/// in stream order where numbers are equal.
pub open spec fn series_rows(mails: Seq<Message>, tag: SeriesTag, n: int) -> Seq<int>
    decreases n,
{
    if n <= 0 {
        seq![]
    } else if mails[n - 1].series == Some(tag) {
        with_row(mails, series_rows(mails, tag, n - 1), n - 1)
    } else {
        series_rows(mails, tag, n - 1)
    }
}

/// No row above `i` is of the series of row `i`.
pub open spec fn opens_block(mails: Seq<Message>, i: int) -> bool {
    mails[i].series is Some ==> forall|j: int|
        0 <= j < i ==> (#[trigger] mails[j]).series != mails[i].series
}

/// The rows that stand together where row `i` opens a block.
pub open spec fn block_of(mails: Seq<Message>, i: int) -> Seq<int> {
    match mails[i].series {
        Some(tag) => series_rows(mails, tag, mails.len() as int),
        None => seq![i],
    }
}

/// The order of the rows of a page: block after block, each where the first
/// mail of its series stood, up to the row `n`.
pub open spec fn row_order(mails: Seq<Message>, n: int) -> Seq<int>
    decreases n,
{
    if n <= 0 {
        seq![]
    } else if opens_block(mails, n - 1) {
        row_order(mails, n - 1) + block_of(mails, n - 1)
    } else {
        row_order(mails, n - 1)
    }
}

/// The flags of a block of `len` rows: all but the first sit under it.
pub open spec fn block_indent(len: nat) -> Seq<bool> {
    Seq::new(len, |k: int| k > 0)
}

/// The indent flags of the rows in `row_order`.
pub open spec fn row_indent(mails: Seq<Message>, n: int) -> Seq<bool>
    decreases n,
{
    if n <= 0 {
        seq![]
    } else if opens_block(mails, n - 1) {
        row_indent(mails, n - 1) + block_indent(block_of(mails, n - 1).len())
    } else {
        row_indent(mails, n - 1)
    }
}

/// The mails at the rows `order`.
pub open spec fn pick(mails: Seq<Message>, order: Seq<int>) -> Seq<Message> {
    Seq::new(order.len(), |k: int| mails[order[k]])
}

/// The mails of a page with each patch series pulled together.
pub open spec fn grouped_mails(mails: Seq<Message>) -> Seq<Message> {
    pick(mails, row_order(mails, mails.len() as int))
}

/// The indent flags of a page with each patch series pulled together.
pub open spec fn grouped_indent(mails: Seq<Message>) -> Seq<bool> {
    row_indent(mails, mails.len() as int)
}

/// Machine indices as mathematical ones.
pub open spec fn rows(v: Seq<usize>) -> Seq<int> {
    Seq::new(v.len(), |k: int| v[k] as int)
}

/// All of `block` are rows below `n`.
pub open spec fn rows_below(block: Seq<int>, n: int) -> bool {
    forall|k: int| 0 <= k < block.len() ==> 0 <= #[trigger] block[k] < n
}

proof fn lemma_with_row_below(mails: Seq<Message>, block: Seq<int>, i: int, n: int)
    requires
        rows_below(block, n),
        0 <= i < n,
    ensures
        rows_below(with_row(mails, block, i), n),
        with_row(mails, block, i).len() == block.len() + 1,
    decreases block.len(),
{
    if block.len() > 0 && mails[block.last()].number() > mails[i].number() {
        assert(rows_below(block.drop_last(), n));
        lemma_with_row_below(mails, block.drop_last(), i, n);
    }
}

proof fn lemma_series_rows_below(mails: Seq<Message>, tag: SeriesTag, n: int)
    ensures
        rows_below(series_rows(mails, tag, n), n),
    decreases n,
{
    if n > 0 {
        lemma_series_rows_below(mails, tag, n - 1);
        assert(rows_below(series_rows(mails, tag, n - 1), n));
        if mails[n - 1].series == Some(tag) {
            lemma_with_row_below(mails, series_rows(mails, tag, n - 1), n - 1, n);
        }
    }
}

/// Puts the row `i` behind all rows of `block` whose number is not greater.
fn add_row(mails: &Vec<Message>, block: &mut Vec<usize>, i: usize)
    requires
        i < mails.len(),
        rows_below(rows(old(block)@), mails.len() as int),
    ensures
        rows(final(block)@) == with_row(mails@, rows(old(block)@), i as int),
{
    let ghost all = rows(block@);
    let number = mails[i].place();
    let mut at: usize = block.len();
    assert(all.take(at as int) =~= all);
    assert(with_row(mails@, all, i as int) =~= with_row(mails@, all.take(at as int), i as int)
        + all.skip(at as int));
    while at > 0 && mails[block[at - 1]].place() > number
        invariant
            at <= block.len() == all.len(),
            i < mails.len(),
            number == mails[i as int].number(),
            all == rows(block@),
            rows_below(all, mails.len() as int),
            with_row(mails@, all, i as int) == with_row(mails@, all.take(at as int), i as int)
                + all.skip(at as int),
        decreases at,
    {
        assert(all.take(at as int).drop_last() =~= all.take(at - 1));
        assert(all.take(at as int).last() == all[at - 1]);
        assert(with_row(mails@, all.take(at - 1), i as int).push(all[at - 1]) + all.skip(at as int)
            =~= with_row(mails@, all.take(at - 1), i as int) + all.skip(at - 1));
        at -= 1;
    }
    proof {
        if at > 0 {
            assert(all.take(at as int).last() == all[at - 1]);
            assert(all[at - 1] == block@[at - 1]);
        }
    }
    block.insert(at, i);
    assert(rows(block@) =~= all.take(at as int).push(i as int) + all.skip(at as int));
}

/// The rows of the series `tag`, lowest number first.
fn collect_series(mails: &Vec<Message>, tag: SeriesTag) -> (r: Vec<usize>)
    ensures
        rows(r@) == series_rows(mails@, tag, mails.len() as int),
{
    let mut block: Vec<usize> = Vec::new();
    let mut i: usize = 0;
    assert(rows(block@) =~= series_rows(mails@, tag, 0));
    while i < mails.len()
        invariant
            i <= mails.len(),
            rows(block@) == series_rows(mails@, tag, i as int),
        decreases mails.len() - i,
    {
        proof {
            lemma_series_rows_below(mails@, tag, i as int);
        }
        if mails[i].series == Some(tag) {
            add_row(mails, &mut block, i);
        }
        i += 1;
    }
    block
}

/// Whether no row above `i` is of the series of row `i`.
fn is_first_of_series(mails: &Vec<Message>, i: usize) -> (r: bool)
    requires
        i < mails.len(),
    ensures
        r == opens_block(mails@, i as int),
{
    if mails[i].series.is_none() {
        return true;
    }
    let mut j: usize = 0;
    while j < i
        invariant
            j <= i < mails.len(),
            mails[i as int].series is Some,
            forall|k: int| 0 <= k < j ==> (#[trigger] mails@[k]).series != mails@[i as int].series,
        decreases i - j,
    {
        if mails[j].series == mails[i].series {
            return false;
        }
        j += 1;
    }
    true
}

/// Reorders `mails` so that every patch series forms one block: cover letter
/// or lowest-numbered patch first, the rest ascending, sitting where the first
/// mail of the series was. Flags the members that belong under the head.
pub fn group_series(mails: &Vec<Message>) -> (r: (Vec<Message>, Vec<bool>))
    ensures
        r.0@ == grouped_mails(mails@),
        r.1@ == grouped_indent(mails@),
{
    let mut out: Vec<Message> = Vec::new();
    let mut indent: Vec<bool> = Vec::new();
    let mut i: usize = 0;
    assert(out@ =~= pick(mails@, row_order(mails@, 0)));
    while i < mails.len()
        invariant
            i <= mails.len(),
            out@ == pick(mails@, row_order(mails@, i as int)),
            indent@ == row_indent(mails@, i as int),
        decreases mails.len() - i,
    {
        if is_first_of_series(mails, i) {
            let block: Vec<usize> = match mails[i].series {
                Some(tag) => collect_series(mails, tag),
                None => vec![i],
            };
            let ghost want = block_of(mails@, i as int);
            proof {
                if mails@[i as int].series is Some {
                    lemma_series_rows_below(mails@, mails@[i as int].series->0, mails.len() as int);
                } else {
                    assert(rows(block@) =~= want);
                }
            }
            assert(rows(block@) == want);
            let ghost before = out@;
            let ghost before_indent = indent@;
            let mut k: usize = 0;
            assert(out@ =~= before + pick(mails@, want.take(0)));
            assert(indent@ =~= before_indent + block_indent(0));
            while k < block.len()
                invariant
                    k <= block.len() == want.len(),
                    rows(block@) == want,
                    rows_below(want, mails.len() as int),
                    out@ == before + pick(mails@, want.take(k as int)),
                    indent@ == before_indent + block_indent(k as nat),
                decreases block.len() - k,
            {
                assert(want[k as int] == block@[k as int]);
                out.push(mails[block[k]].clone());
                indent.push(k > 0);
                k += 1;
                assert(out@ =~= before + pick(mails@, want.take(k as int)));
                assert(indent@ =~= before_indent + block_indent(k as nat));
            }
            assert(want.take(k as int) =~= want);
            assert(out@ =~= pick(mails@, row_order(mails@, i + 1)));
        }
        i += 1;
    }
    (out, indent)
}

// ---------------------------------------------------------------------------
// Laws of grouping
// ---------------------------------------------------------------------------

/// Row `a` comes before row `b` in a series: by number, then by stream order.
pub open spec fn row_before(mails: Seq<Message>, a: int, b: int) -> bool {
    mails[a].number() < mails[b].number() || (mails[a].number() == mails[b].number() && a < b)
}

/// The rows of `block` stand in the order of `row_before`.
pub open spec fn in_series_order(mails: Seq<Message>, block: Seq<int>) -> bool {
    forall|p: int, q: int|
        0 <= p < q < block.len() ==> row_before(mails, #[trigger] block[p], #[trigger] block[q])
}

proof fn lemma_with_row_order(mails: Seq<Message>, block: Seq<int>, i: int)
    requires
        in_series_order(mails, block),
        rows_below(block, i),
    ensures
        in_series_order(mails, with_row(mails, block, i)),
        forall|j: int| #[trigger]
            with_row(mails, block, i).contains(j) <==> j == i || block.contains(j),
    decreases block.len(),
{
    let all = with_row(mails, block, i);
    if block.len() > 0 && mails[block.last()].number() > mails[i].number() {
        let rest = block.drop_last();
        let inner = with_row(mails, rest, i);
        lemma_with_row_order(mails, rest, i);
        lemma_with_row_below(mails, rest, i, i + 1);
        assert forall|j: int| #[trigger] all.contains(j) <==> j == i || block.contains(j) by {
            if all.contains(j) {
                let p = choose|p: int| 0 <= p < all.len() && all[p] == j;
                if p < inner.len() {
                    assert(inner[p] == j);
                    assert(inner.contains(j));
                    if rest.contains(j) {
                        let q = choose|q: int| 0 <= q < rest.len() && rest[q] == j;
                        assert(block[q] == j);
                    }
                } else {
                    assert(block[block.len() - 1] == j);
                }
            }
            if j == i || block.contains(j) {
                if j == block.last() {
                    assert(all[all.len() - 1] == j);
                } else {
                    if block.contains(j) {
                        let q = choose|q: int| 0 <= q < block.len() && block[q] == j;
                        assert(rest[q] == j);
                    }
                    assert(inner.contains(j));
                    let p = choose|p: int| 0 <= p < inner.len() && inner[p] == j;
                    assert(all[p] == j);
                }
            }
        }
        assert forall|p: int, q: int| 0 <= p < q < all.len() implies row_before(
            mails,
            #[trigger] all[p],
            #[trigger] all[q],
        ) by {
            if q < inner.len() {
                assert(row_before(mails, inner[p], inner[q]));
            } else {
                assert(inner.contains(inner[p]));
                if inner[p] != i {
                    let r = choose|r: int| 0 <= r < rest.len() && rest[r] == inner[p];
                    assert(row_before(mails, block[r], block[block.len() - 1]));
                }
            }
        }
    } else {
        assert forall|j: int| #[trigger] all.contains(j) <==> j == i || block.contains(j) by {
            if j == i {
                assert(all[block.len() as int] == i);
            }
            if block.contains(j) {
                let q = choose|q: int| 0 <= q < block.len() && block[q] == j;
                assert(all[q] == j);
            }
        }
        assert forall|p: int, q: int| 0 <= p < q < all.len() implies row_before(
            mails,
            #[trigger] all[p],
            #[trigger] all[q],
        ) by {
            if q < block.len() {
                assert(row_before(mails, block[p], block[q]));
            } else if p < block.len() - 1 {
                assert(row_before(mails, block[p], block[block.len() - 1]));
            }
        }
    }
}

/// The rows of a series are exactly the mails that carry its tag, lowest
/// number first and in stream order where numbers are equal.
pub proof fn law_series_rows(mails: Seq<Message>, tag: SeriesTag, n: int)
    requires
        0 <= n <= mails.len(),
    ensures
        in_series_order(mails, series_rows(mails, tag, n)),
        forall|j: int| #[trigger]
            series_rows(mails, tag, n).contains(j) <==> 0 <= j < n && mails[j].series == Some(tag),
    decreases n,
{
    if n > 0 {
        law_series_rows(mails, tag, n - 1);
        lemma_series_rows_below(mails, tag, n - 1);
        if mails[n - 1].series == Some(tag) {
            lemma_with_row_order(mails, series_rows(mails, tag, n - 1), n - 1);
        }
    }
}

/// Row `j` stands in a block that a row below `k` opens.
pub open spec fn placed_below(mails: Seq<Message>, k: int, j: int) -> bool {
    exists|i: int| 0 <= i < k && opens_block(mails, i) && #[trigger] block_of(mails, i).contains(j)
}

pub proof fn lemma_block_contains(mails: Seq<Message>, i: int, j: int)
    requires
        0 <= i < mails.len(),
    ensures
        block_of(mails, i).contains(j) <==> {
            &&& 0 <= j < mails.len()
            &&& if mails[i].series is Some {
                mails[j].series == mails[i].series
            } else {
                j == i
            }
        },
{
    match mails[i].series {
        Some(tag) => law_series_rows(mails, tag, mails.len() as int),
        None => {
            assert(seq![i][0] == i);
        },
    }
}

pub proof fn lemma_order_contents(mails: Seq<Message>, k: int)
    requires
        0 <= k <= mails.len(),
    ensures
        row_order(mails, k).no_duplicates(),
        forall|j: int| #[trigger] row_order(mails, k).contains(j) <==> placed_below(mails, k, j),
    decreases k,
{
    if k > 0 {
        let i = k - 1;
        lemma_order_contents(mails, i);
        let before = row_order(mails, i);
        if opens_block(mails, i) {
            let block = block_of(mails, i);
            let all = before + block;
            match mails[i].series {
                Some(tag) => law_series_rows(mails, tag, mails.len() as int),
                None => {},
            }
            assert(block.no_duplicates()) by {
                assert forall|p: int, q: int|
                    0 <= p < block.len() && 0 <= q < block.len() && p != q implies block[p]
                    != block[q] by {
                    if mails[i].series is Some {
                        if p < q {
                            assert(row_before(mails, block[p], block[q]));
                        } else {
                            assert(row_before(mails, block[q], block[p]));
                        }
                    }
                }
            }
            assert forall|p: int, q: int| 0 <= p < before.len() && 0 <= q < block.len() implies
                #[trigger] before[p] != #[trigger] block[q] by {
                if before[p] == block[q] {
                    let j = before[p];
                    assert(before.contains(j));
                    let h = choose|h: int|
                        0 <= h < i && opens_block(mails, h) && #[trigger] block_of(
                            mails,
                            h,
                        ).contains(j);
                    lemma_block_contains(mails, h, j);
                    assert(block.contains(j));
                    lemma_block_contains(mails, i, j);
                }
            }
            assert(all.no_duplicates());
            assert forall|j: int| #[trigger] all.contains(j) <==> placed_below(mails, k, j) by {
                if all.contains(j) {
                    let p = choose|p: int| 0 <= p < all.len() && all[p] == j;
                    if p < before.len() {
                        assert(before[p] == j);
                        assert(before.contains(j));
                    } else {
                        assert(block[p - before.len()] == j);
                        assert(block_of(mails, i).contains(j));
                    }
                }
                if placed_below(mails, k, j) {
                    let h = choose|h: int|
                        0 <= h < k && opens_block(mails, h) && #[trigger] block_of(
                            mails,
                            h,
                        ).contains(j);
                    if h < i {
                        assert(placed_below(mails, i, j));
                        assert(before.contains(j));
                        let p = choose|p: int| 0 <= p < before.len() && before[p] == j;
                        assert(all[p] == j);
                    } else {
                        let p = choose|p: int| 0 <= p < block.len() && block[p] == j;
                        assert(all[before.len() + p] == j);
                    }
                }
            }
        } else {
            assert forall|j: int| #[trigger]
                row_order(mails, k).contains(j) <==> placed_below(mails, k, j) by {
                assert(row_order(mails, k) == before);
                if placed_below(mails, k, j) {
                    let h = choose|h: int|
                        0 <= h < k && opens_block(mails, h) && #[trigger] block_of(
                            mails,
                            h,
                        ).contains(j);
                    assert(placed_below(mails, i, j));
                }
            }
        }
    }
}

/// Some row at or above `j` opens the block that `j` stands in.
proof fn lemma_has_block(mails: Seq<Message>, j: int, from: int) -> (i: int)
    requires
        0 <= from <= j < mails.len(),
        mails[j].series is Some ==> forall|h: int|
            0 <= h < from ==> (#[trigger] mails[h]).series != mails[j].series,
    ensures
        from <= i <= j,
        opens_block(mails, i),
        block_of(mails, i).contains(j),
    decreases j - from,
{
    if from == j || (mails[j].series is Some && mails[from].series == mails[j].series) {
        lemma_block_contains(mails, from, j);
        from
    } else if mails[j].series is None {
        lemma_block_contains(mails, j, j);
        j
    } else {
        lemma_has_block(mails, j, from + 1)
    }
}

/// Grouping loses no mail and shows none twice: the rows of a grouped page are
/// the rows of the page, in another order.
pub proof fn law_grouping_is_a_permutation(mails: Seq<Message>)
    ensures
        row_order(mails, mails.len() as int).len() == mails.len(),
        row_order(mails, mails.len() as int).no_duplicates(),
        forall|j: int| #[trigger]
            row_order(mails, mails.len() as int).contains(j) <==> 0 <= j < mails.len(),
        grouped_mails(mails).len() == mails.len(),
        grouped_indent(mails).len() == mails.len(),
{
    let n = mails.len() as int;
    let order = row_order(mails, n);
    lemma_order_contents(mails, n);
    assert forall|j: int| #[trigger] order.contains(j) <==> 0 <= j < n by {
        if 0 <= j < n {
            let i = lemma_has_block(mails, j, 0);
            assert(placed_below(mails, n, j));
        }
        if order.contains(j) {
            assert(placed_below(mails, n, j));
            let i = choose|i: int|
                0 <= i < n && opens_block(mails, i) && #[trigger] block_of(mails, i).contains(j);
            lemma_block_contains(mails, i, j);
        }
    }
    order.unique_seq_to_set();
    vstd::set_lib::lemma_int_range(0, n);
    assert(order.to_set() =~= vstd::set_lib::set_int_range(0, n));
    lemma_indent_len(mails, n);
}

proof fn lemma_indent_len(mails: Seq<Message>, k: int)
    ensures
        row_indent(mails, k).len() == row_order(mails, k).len(),
    decreases k,
{
    if k > 0 {
        lemma_indent_len(mails, k - 1);
    }
}

/// What holds of the rows of a grouped page, up to the block that row `k` opens.
spec fn blocks_ok(mails: Seq<Message>, order: Seq<int>, indent: Seq<bool>) -> bool {
    &&& order.len() == indent.len()
    &&& forall|p: int|
        #![trigger indent[p]]
        0 <= p < indent.len() && indent[p] ==> {
            &&& p > 0
            &&& mails[order[p]].series is Some
            &&& mails[order[p]].series == mails[order[p - 1]].series
            &&& row_before(mails, order[p - 1], order[p])
        }
    &&& forall|p: int, q: int|
        0 <= p < q < order.len() && !indent[q] && mails[order[p]].series is Some
            ==> mails[#[trigger] order[p]].series != mails[#[trigger] order[q]].series
}

proof fn lemma_blocks(mails: Seq<Message>, k: int)
    requires
        0 <= k <= mails.len(),
    ensures
        blocks_ok(mails, row_order(mails, k), row_indent(mails, k)),
    decreases k,
{
    if k > 0 {
        let i = k - 1;
        lemma_blocks(mails, i);
        lemma_order_contents(mails, i);
        let before = row_order(mails, i);
        let before_indent = row_indent(mails, i);
        if opens_block(mails, i) {
            let block = block_of(mails, i);
            let order = before + block;
            let indent = before_indent + block_indent(block.len());
            match mails[i].series {
                Some(tag) => law_series_rows(mails, tag, mails.len() as int),
                None => {},
            }
            assert forall|p: int|
                #![trigger indent[p]]
                0 <= p < indent.len() && indent[p] implies {
                &&& p > 0
                &&& mails[order[p]].series is Some
                &&& mails[order[p]].series == mails[order[p - 1]].series
                &&& row_before(mails, order[p - 1], order[p])
            } by {
                if p < before.len() {
                    assert(before_indent[p]);
                } else {
                    let r = p - before.len();
                    assert(block_indent(block.len())[r]);
                    assert(row_before(mails, block[r - 1], block[r]));
                    assert(block.contains(block[r]) && block.contains(block[r - 1]));
                }
            }
            assert forall|p: int, q: int|
                0 <= p < q < order.len() && !indent[q] && mails[order[p]].series is Some implies
                mails[#[trigger] order[p]].series != mails[#[trigger] order[q]].series by {
                if q < before.len() {
                    assert(!before_indent[q]);
                    assert(before[p] == order[p] && before[q] == order[q]);
                } else {
                    let r = q - before.len();
                    assert(!block_indent(block.len())[r]);
                    assert(r == 0);
                    assert(block.contains(block[0]));
                    assert(before[p] == order[p]);
                    assert(before.contains(before[p]));
                    assert(placed_below(mails, i, before[p]));
                    let h = choose|h: int|
                        0 <= h < i && opens_block(mails, h) && #[trigger] block_of(
                            mails,
                            h,
                        ).contains(before[p]);
                    lemma_block_contains(mails, h, before[p]);
                    lemma_block_contains(mails, i, block[0]);
                }
            }
        }
    }
}

/// On a grouped page every series is one block. A row that is indented belongs
/// to the series of the row above it and does not come before that row in the
/// series; a row that is not indented is of no series that a row above it
/// belongs to.
pub proof fn law_series_form_blocks(mails: Seq<Message>)
    ensures
        forall|p: int|
            #![trigger grouped_indent(mails)[p]]
            0 <= p < mails.len() && grouped_indent(mails)[p] ==> {
                &&& p > 0
                &&& grouped_mails(mails)[p].series is Some
                &&& grouped_mails(mails)[p].series == grouped_mails(mails)[p - 1].series
                &&& grouped_mails(mails)[p - 1].number() <= grouped_mails(mails)[p].number()
            },
        forall|p: int, q: int|
            0 <= p < q < mails.len() && !grouped_indent(mails)[q]
                && grouped_mails(mails)[p].series is Some ==> (#[trigger] grouped_mails(
                mails,
            )[p]).series != (#[trigger] grouped_mails(mails)[q]).series,
{
    law_grouping_is_a_permutation(mails);
    lemma_blocks(mails, mails.len() as int);
    let order = row_order(mails, mails.len() as int);
    let indent = grouped_indent(mails);
    assert forall|p: int|
        #![trigger indent[p]]
        0 <= p < mails.len() && indent[p] implies {
        &&& p > 0
        &&& grouped_mails(mails)[p].series is Some
        &&& grouped_mails(mails)[p].series == grouped_mails(mails)[p - 1].series
        &&& grouped_mails(mails)[p - 1].number() <= grouped_mails(mails)[p].number()
    } by {
        assert(order[p - 1] == order[p - 1]);
    }
    assert forall|p: int, q: int|
        0 <= p < q < mails.len() && !indent[q] && grouped_mails(mails)[p].series is Some implies (
    #[trigger] grouped_mails(mails)[p]).series != (#[trigger] grouped_mails(mails)[q]).series by {
        assert(mails[order[p]].series != mails[order[q]].series);
    }
}

/// The flags `indent` tell the blocks of `mails` apart: an indented mail goes
/// on with the series of the mail above it, and no other mail is of a series
/// that stands above it.
spec fn is_grouped(mails: Seq<Message>, indent: Seq<bool>) -> bool {
    &&& mails.len() == indent.len()
    &&& forall|p: int|
        #![trigger indent[p]]
        0 <= p < mails.len() && indent[p] ==> {
            &&& p > 0
            &&& mails[p].series is Some
            &&& mails[p].series == mails[p - 1].series
            &&& mails[p - 1].number() <= mails[p].number()
        }
    &&& forall|p: int, q: int|
        0 <= p < q < mails.len() && !indent[q] && mails[p].series is Some ==> (
        #[trigger] mails[p]).series != (#[trigger] mails[q]).series
}

/// The first row from `k` on that is not indented.
spec fn next_head(indent: Seq<bool>, k: int) -> int
    decreases indent.len() - k,
{
    if k >= indent.len() || !indent[k] {
        k
    } else {
        next_head(indent, k + 1)
    }
}

proof fn lemma_next_head(indent: Seq<bool>, k: int)
    requires
        0 <= k <= indent.len(),
    ensures
        k <= next_head(indent, k) <= indent.len(),
        next_head(indent, k) < indent.len() ==> !indent[next_head(indent, k)],
        forall|j: int| k <= j < next_head(indent, k) ==> #[trigger] indent[j],
    decreases indent.len() - k,
{
    if k < indent.len() && indent[k] {
        lemma_next_head(indent, k + 1);
    }
}

/// The row that heads the block of row `j`: the last one up to `j` that is not
/// indented.
proof fn lemma_head_of(mails: Seq<Message>, indent: Seq<bool>, j: int) -> (q: int)
    requires
        is_grouped(mails, indent),
        0 <= j < mails.len(),
    ensures
        0 <= q <= j,
        !indent[q],
        forall|m: int| q < m <= j ==> #[trigger] indent[m],
        mails[q].series == mails[j].series,
    decreases j,
{
    if indent[j] {
        lemma_head_of(mails, indent, j - 1)
    } else {
        j
    }
}

/// The rows from `i` up to `end`.
spec fn run_of(i: int, end: int) -> Seq<int> {
    Seq::new(
        if end < i {
            0
        } else {
            (end - i) as nat
        },
        |r: int| i + r,
    )
}

/// On a grouped page the rows of a series are those from its head to the next
/// head, in their order.
proof fn lemma_block_in_place(mails: Seq<Message>, indent: Seq<bool>, i: int, k: int)
    requires
        is_grouped(mails, indent),
        0 <= i < mails.len(),
        0 <= k <= mails.len(),
        !indent[i],
        mails[i].series is Some,
    ensures
        series_rows(mails, mails[i].series->0, k) == run_of(
            i,
            if k < next_head(indent, i + 1) {
                k
            } else {
                next_head(indent, i + 1)
            },
        ),
    decreases k,
{
    let end = next_head(indent, i + 1);
    lemma_next_head(indent, i + 1);
    let tag = mails[i].series->0;
    if k > 0 {
        lemma_block_in_place(mails, indent, i, k - 1);
        let before = series_rows(mails, tag, k - 1);
        let j = k - 1;
        let head = lemma_head_of(mails, indent, j);
        if i <= j && j < end {
            assert(head == i) by {
                if head < i {
                    assert(indent[i]);
                } else if head > i {
                    assert(indent[head]);
                }
            }
            assert(mails[j].series == Some(tag));
            if before.len() > 0 {
                assert(before.last() == j - 1);
                assert(indent[j]);
            }
            assert(series_rows(mails, tag, k) == before.push(j));
        } else {
            assert(mails[j].series != Some(tag)) by {
                if j < i {
                    if mails[j].series is Some {
                        assert(mails[j].series != mails[i].series);
                    }
                } else {
                    assert(head >= end) by {
                        if head < end {
                            assert(indent[end]);
                        }
                    }
                    assert(mails[i].series != mails[head].series);
                }
            }
        }
    }
    let upto = if k < end {
        k
    } else {
        end
    };
    assert(series_rows(mails, tag, k) =~= run_of(i, upto));
}

proof fn lemma_order_stays(mails: Seq<Message>, indent: Seq<bool>, k: int)
    requires
        is_grouped(mails, indent),
        0 <= k <= mails.len(),
    ensures
        row_order(mails, k) == run_of(0, next_head(indent, k)),
        row_indent(mails, k) == indent.take(next_head(indent, k)),
    decreases k,
{
    lemma_next_head(indent, k);
    let end = next_head(indent, k);
    if k == 0 {
        assert(end == 0);
        assert(row_order(mails, 0) =~= run_of(0, 0));
        assert(row_indent(mails, 0) =~= indent.take(0));
    } else {
        let i = k - 1;
        lemma_order_stays(mails, indent, i);
        if indent[i] {
            assert(mails[i - 1].series == mails[i].series);
            assert(!opens_block(mails, i));
        } else {
            assert(opens_block(mails, i)) by {
                assert forall|j: int| 0 <= j < i && mails[i].series is Some implies (
                #[trigger] mails[j]).series != mails[i].series by {
                    if mails[j].series is Some {
                        assert(mails[j].series != mails[i].series);
                    }
                }
            }
            let block = block_of(mails, i);
            assert(block =~= run_of(i, end)) by {
                if mails[i].series is Some {
                    lemma_block_in_place(mails, indent, i, mails.len() as int);
                } else if k < mails.len() {
                    assert(!indent[k]);
                }
            }
            assert(row_order(mails, k) =~= run_of(0, end));
            let flags = block_indent(block.len());
            assert forall|r: int| 0 <= r < flags.len() implies flags[r] == #[trigger] indent[i
                + r] by {}
            assert(row_indent(mails, k) =~= indent.take(end)) by {
                assert forall|r: int| 0 <= r < end implies row_indent(mails, k)[r] == indent[r] by {
                    if r >= i {
                        assert(flags[r - i] == indent[i + (r - i)]);
                    }
                }
            }
        }
    }
}

/// Grouping a page that has been grouped changes neither its rows nor their
/// flags.
pub proof fn law_grouping_twice_is_grouping_once(mails: Seq<Message>)
    ensures
        grouped_mails(grouped_mails(mails)) == grouped_mails(mails),
        grouped_indent(grouped_mails(mails)) == grouped_indent(mails),
{
    let page = grouped_mails(mails);
    let indent = grouped_indent(mails);
    law_grouping_is_a_permutation(mails);
    law_series_form_blocks(mails);
    assert(is_grouped(page, indent));
    lemma_order_stays(page, indent, page.len() as int);
    assert(grouped_mails(page) =~= page);
    assert(indent.take(page.len() as int) =~= indent);
}

/// A page on which no two mails are of one series is left as it is.
pub proof fn law_lone_mails_stay_put(mails: Seq<Message>)
    requires
        forall|i: int, j: int|
            0 <= i < j < mails.len() && mails[i].series is Some ==> (#[trigger] mails[i]).series
                != (#[trigger] mails[j]).series,
    ensures
        grouped_mails(mails) == mails,
        forall|p: int| 0 <= p < mails.len() ==> !#[trigger] grouped_indent(mails)[p],
{
    lemma_lone(mails, mails.len() as int);
    assert(grouped_mails(mails) =~= mails);
}

proof fn lemma_lone(mails: Seq<Message>, k: int)
    requires
        0 <= k <= mails.len(),
        forall|i: int, j: int|
            0 <= i < j < mails.len() && mails[i].series is Some ==> (#[trigger] mails[i]).series
                != (#[trigger] mails[j]).series,
    ensures
        row_order(mails, k) == Seq::new(k as nat, |p: int| p),
        row_indent(mails, k) == Seq::new(k as nat, |p: int| false),
    decreases k,
{
    if k > 0 {
        let i = k - 1;
        lemma_lone(mails, i);
        assert(opens_block(mails, i));
        let block = block_of(mails, i);
        assert(block =~= seq![i]) by {
            if mails[i].series is Some {
                law_series_rows(mails, mails[i].series->0, mails.len() as int);
                assert(block.contains(i));
                assert forall|p: int| 0 <= p < block.len() implies block[p] == i by {
                    assert(block.contains(block[p]));
                    if block[p] < i {
                        assert(mails[block[p]].series != mails[i].series);
                    } else if block[p] > i {
                        assert(mails[i].series != mails[block[p]].series);
                    }
                }
                if block.len() > 1 {
                    assert(row_before(mails, block[0], block[1]));
                }
            }
        }
        assert(row_order(mails, k) =~= Seq::new(k as nat, |p: int| p));
        assert(row_indent(mails, k) =~= Seq::new(k as nat, |p: int| false));
    } else {
        assert(row_order(mails, k) =~= Seq::new(k as nat, |p: int| p));
        assert(row_indent(mails, k) =~= Seq::new(k as nat, |p: int| false));
    }
}

// ---------------------------------------------------------------------------
// Where a page ends
// ---------------------------------------------------------------------------

/// Every patch of the series `tag` is among `mails`. The cover letter, number
/// 0, is optional.
pub open spec fn whole(mails: Seq<Message>, tag: SeriesTag) -> bool {
    forall|n: u32| 1 <= n <= tag.total ==> #[trigger] has_patch(mails, tag, n)
}

/// Patch `n` of the series `tag` is among `mails`.
pub open spec fn has_patch(mails: Seq<Message>, tag: SeriesTag, n: u32) -> bool {
    exists|i: int| 0 <= i < mails.len() && (#[trigger] mails[i]).is_patch(tag, n)
}

/// The series that a page which is full ends in the middle of: the one of its
/// last mail, unless it is whole.
pub open spec fn cut_series(mails: Seq<Message>) -> Option<SeriesTag> {
    match mails.last().series {
        Some(tag) if !whole(mails, tag) => Some(tag),
        _ => None,
    }
}

/// Whether a page of at least `size` mails has all it needs, and the series
/// that it chases from here on.
pub open spec fn page_end(mails: Seq<Message>, size: nat, chasing: Option<SeriesTag>) -> (
    bool,
    Option<SeriesTag>,
) {
    if mails.len() < size {
        (false, chasing)
    } else {
        match chasing {
            Some(tag) => (
                whole(mails, tag) || mails.len() >= size + SERIES_EXTEND_MAX,
                chasing,
            ),
            None => (cut_series(mails) is None, cut_series(mails)),
        }
    }
}

/// Is every patch of `tag` on the page? The cover letter is optional, the
/// patches from 1 to the total are not.
pub fn is_whole(mails: &Vec<Message>, tag: &SeriesTag) -> (r: bool)
    ensures
        r == whole(mails@, *tag),
{
    let mut n: u32 = 0;
    while n < tag.total
        invariant
            n <= tag.total,
            forall|k: u32| 1 <= k <= n ==> #[trigger] has_patch(mails@, *tag, k),
        decreases tag.total - n,
    {
        n += 1;
        let mut found = false;
        let mut i: usize = 0;
        while i < mails.len() && !found
            invariant
                i <= mails.len(),
                found ==> has_patch(mails@, *tag, n),
                !found ==> forall|j: int| 0 <= j < i ==> !(#[trigger] mails@[j]).is_patch(*tag, n),
            decreases mails.len() - i,
        {
            if mails[i].series == Some(*tag) {
                if let Some(t) = mails[i].patch_tag {
                    if t.number == n {
                        assert(mails@[i as int].is_patch(*tag, n));
                        found = true;
                    }
                }
            }
            i += 1;
        }
        if !found {
            assert(!has_patch(mails@, *tag, n));
            return false;
        }
    }
    true
}

/// Has the walk collected everything the page needs? Short of `page_size`,
/// never. At that point the page either ends cleanly and is done, or ends
/// mid-series and `chasing` takes up the rest of that series, bounded by
/// [`SERIES_EXTEND_MAX`].
pub fn page_done(mails: &Vec<Message>, page_size: usize, chasing: &mut Option<SeriesTag>) -> (r:
    bool)
    requires
        page_size > 0 || mails.len() > 0 || *old(chasing) is Some,
    ensures
        (r, *final(chasing)) == page_end(mails@, page_size as nat, *old(chasing)),
{
    if mails.len() < page_size {
        return false;
    }
    match *chasing {
        Some(tag) => is_whole(mails, &tag) || mails.len() - page_size >= SERIES_EXTEND_MAX,
        None => {
            // Only the mail at the boundary counts. A series that looks
            // half-present further up the page is one whose siblings live
            // somewhere else entirely, and chasing every one of those drags in
            // mails that cut yet more series, page after page.
            match mails[mails.len() - 1].series {
                Some(tag) => {
                    if is_whole(mails, &tag) {
                        true
                    } else {
                        *chasing = Some(tag);
                        false
                    }
                },
                None => true,
            }
        },
    }
}

} // verus!
