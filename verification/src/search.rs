//! The block-max pruning search driver.
//!
//! Per query: cursors are ranked by weight and pruned to the top β
//! fraction, an initial threshold is seeded from the quantile scores,
//! per-block upper bounds are folded from the block maxima, blocks are
//! bucket-sorted by upper bound and visited high to low, each visited
//! block is scored densely, and the query ends early once the running
//! threshold provably beats every remaining block.

use vstd::prelude::*;
use vstd::multiset::Multiset;
use crate::cursor::{DocId, RangeMaxScore};
use crate::forward_index::{block_score, block_view, block_wf, spec_block_score, BlockForwardIndex};
use crate::live_block::{
    compute_upper_bounds, compute_upper_bounds_raw, comp_views, raw_views, sblocks_wf, spec_ub_comp,
    spec_ub_raw,
};
use crate::posting_list::{spec_kth_value, weight_u8, BlockData, PostingListIterator};
use crate::topk_heap::{spec_heap_insert, Entry, TopKHeap};

verus! {

/// An exact non-negative rational, used for the approximation factor α
/// and the term-retention fraction β.
#[derive(Debug, Clone, Copy, PartialEq, Eq, Structural)]
pub struct Ratio {
    pub num: u32,
    pub den: u32,
}

/// Ranking of query cursors: heavier terms first, ties towards the
/// smaller term id.
pub open spec fn cur_leq<'a>(a: PostingListIterator<'a>, b: PostingListIterator<'a>) -> bool {
    weight_u8(a.spec_term_weight()) > weight_u8(b.spec_term_weight()) || (weight_u8(
        a.spec_term_weight(),
    ) == weight_u8(b.spec_term_weight()) && a.spec_term_id() <= b.spec_term_id())
}

/// How many of the `n` ranked cursors are kept: `ceil(n * β)`.
pub open spec fn spec_keep_count(n: int, beta: Ratio) -> int {
    (n * beta.num + beta.den - 1) / (beta.den as int)
}

/// The query's initial threshold: the largest (quantile score at k) ×
/// (weight) over the kept cursors, 0 when none are kept.
pub open spec fn spec_seed_threshold<'a>(kept: Seq<PostingListIterator<'a>>, k: int) -> u16
    decreases kept.len(),
{
    if kept.len() == 0 {
        0
    } else {
        let rest = spec_seed_threshold(kept.drop_last(), k);
        let own = (spec_kth_value(kept.last().spec_list().spec_kth_score(), k) * weight_u8(
            kept.last().spec_term_weight(),
        )) as u16;
        if own > rest {
            own
        } else {
            rest
        }
    }
}

/// The query vector entry of a cursor: its term id narrowed to 16 bits
/// and its weight narrowed to 8.
pub open spec fn qterm<'a>(c: PostingListIterator<'a>) -> (u16, u8) {
    ((c.spec_term_id() % 0x10000) as u16, weight_u8(c.spec_term_weight()))
}

/// The packed sort key of a query vector entry.
pub open spec fn qterm_key(p: (u16, u8)) -> int {
    p.0 * 256 + p.1
}

/// The per-block upper bounds of the kept cursors: over the compressed
/// layout when the cursors carry it, else over the raw layout.
pub open spec fn spec_upper_bounds<'a>(
    kept: Seq<PostingListIterator<'a>>,
    nblocks: int,
    b: int,
) -> u16 {
    if kept.len() > 0 && (kept[0].spec_list().spec_range_maxes() matches BlockData::Compressed(_)) {
        spec_ub_comp(
            Seq::new(
                kept.len(),
                |t: int|
                    (match kept[t].spec_list().spec_range_maxes() {
                        BlockData::Compressed(v) => Seq::new(v@.len(), |s: int| v@[s].max_scores@),
                        BlockData::Raw(_) => Seq::empty(),
                    }),
            ),
            Seq::new(kept.len(), |t: int| weight_u8(kept[t].spec_term_weight())),
            b,
        )
    } else {
        spec_ub_raw(
            Seq::new(
                kept.len(),
                |t: int|
                    (match kept[t].spec_list().spec_range_maxes() {
                        BlockData::Raw(v) => v@,
                        BlockData::Compressed(_) => Seq::empty(),
                    }),
            ),
            Seq::new(kept.len(), |t: int| weight_u8(kept[t].spec_term_weight())),
            b,
        )
    }
}

/// The ascending list of blocks whose upper bound is exactly `u`,
/// scanning the first `upto` blocks.
pub open spec fn blocks_at(ubs: Seq<u16>, u: int, upto: int) -> Seq<u32>
    decreases upto,
{
    if upto <= 0 {
        Seq::empty()
    } else {
        let prev = blocks_at(ubs, u, upto - 1);
        if ubs[upto - 1] == u {
            prev.push((upto - 1) as u32)
        } else {
            prev
        }
    }
}

/// One visiting row: the blocks of upper bound `u`, tagged with `u`.
pub open spec fn visit_row(ubs: Seq<u16>, u: int) -> Seq<(u16, u32)> {
    Seq::new(
        blocks_at(ubs, u, ubs.len() as int).len(),
        |i: int| (u as u16, blocks_at(ubs, u, ubs.len() as int)[i]),
    )
}

/// The visiting order: upper bounds from `hi` down to just above `t0`,
/// blocks ascending within one bound.
pub open spec fn visit_down(ubs: Seq<u16>, t0: u16, hi: int) -> Seq<(u16, u32)>
    decreases hi,
{
    if hi <= t0 {
        Seq::empty()
    } else {
        visit_row(ubs, hi) + visit_down(ubs, t0, hi - 1)
    }
}

/// The traversal order of a query: blocks with upper bound above the
/// seed threshold, highest bound first, ascending block id within a
/// bound.
pub open spec fn spec_visit_order(ubs: Seq<u16>, t0: u16) -> Seq<(u16, u32)> {
    visit_down(ubs, t0, 0xFFFF)
}

/// Folding one block's scores into the heap model, document by
/// document.
pub open spec fn spec_insert_block(
    fwdv: Seq<Seq<(u16, Seq<(u8, u8)>)>>,
    qv: Seq<(u16, u8)>,
    bsize: int,
    k: int,
    state: (u16, Seq<Entry>),
    blk: int,
    j: int,
) -> (u16, Seq<Entry>)
    decreases bsize - j,
{
    if j >= bsize {
        state
    } else {
        let score = spec_block_score(qv, fwdv[blk], j);
        let stepped = spec_heap_insert(k, state.0, state.1, (blk * bsize + j) as u32, score);
        spec_insert_block(fwdv, qv, bsize, k, (stepped.0, stepped.1), blk, j + 1)
    }
}

/// Folding the traversal: each visited block is scored and inserted;
/// the query ends once the threshold exceeds the current block's upper
/// bound scaled by α.
pub open spec fn spec_run_blocks(
    order: Seq<(u16, u32)>,
    fwdv: Seq<Seq<(u16, Seq<(u8, u8)>)>>,
    qv: Seq<(u16, u8)>,
    bsize: int,
    k: int,
    state: (u16, Seq<Entry>),
    alpha: Ratio,
    i: int,
) -> (u16, Seq<Entry>)
    decreases order.len() - i,
{
    if i < 0 || i >= order.len() {
        state
    } else {
        let (ub, blk) = order[i];
        let stepped = spec_insert_block(fwdv, qv, bsize, k, state, blk as int, 0);
        if stepped.0 * alpha.den > ub * alpha.num {
            stepped
        } else {
            spec_run_blocks(order, fwdv, qv, bsize, k, stepped, alpha, i + 1)
        }
    }
}

/// The whole query pipeline after ranking: prune to the β fraction,
/// seed the threshold, fold upper bounds, bucket-order the blocks, and
/// run the traversal.  The result is the final (threshold, entries)
/// heap state.
pub open spec fn spec_query_run<'a>(
    sorted: Seq<PostingListIterator<'a>>,
    fwdv: Seq<Seq<(u16, Seq<(u8, u8)>)>>,
    bsize: int,
    k: int,
    alpha: Ratio,
    beta: Ratio,
) -> (u16, Seq<Entry>) {
    let kept = sorted.take(spec_keep_count(sorted.len() as int, beta));
    let t0 = spec_seed_threshold(kept, k);
    let ubs = Seq::new(fwdv.len(), |b: int| spec_upper_bounds(kept, fwdv.len() as int, b));
    let order = spec_visit_order(ubs, t0);
    let qv = spec_query_vec(kept);
    spec_run_blocks(order, fwdv, qv, bsize, k, (t0, Seq::empty()), alpha, 0)
}

/// The term-sorted query vector of the kept cursors: the unique
/// arrangement of their (term id, weight) pairs ascending by packed
/// key.
pub open spec fn spec_query_vec<'a>(kept: Seq<PostingListIterator<'a>>) -> Seq<(u16, u8)> {
    sorted_qterms(Seq::new(kept.len(), |t: int| qterm(kept[t])))
}

/// The ascending arrangement of query vector entries by packed key.
pub open spec fn sorted_qterms(ps: Seq<(u16, u8)>) -> Seq<(u16, u8)> {
    Seq::new(
        crate::inverted_index::sorted_ascending(
            ps.map(|i: int, p: (u16, u8)| qterm_key(p) as u64),
        ).len(),
        |i: int|
            {
                let key = crate::inverted_index::sorted_ascending(
                    ps.map(|i2: int, p: (u16, u8)| qterm_key(p) as u64),
                )[i];
                ((key / 256) as u16, (key % 256) as u8)
            },
    )
}

/// `s` is ranked: heavier first, smaller term id among equals.
pub open spec fn cursors_sorted<'a>(s: Seq<PostingListIterator<'a>>) -> bool {
    forall|i: int, j: int| 0 <= i < j < s.len() ==> cur_leq(s[i], s[j])
}

/// The per-term maxima a cursor carries fit the block count: a raw
/// array no longer than the block count, or well-formed super-blocks
/// addressing only valid blocks.
pub open spec fn cursor_ranges_ok<'a>(c: PostingListIterator<'a>, nblocks: int) -> bool {
    match c.spec_list().spec_range_maxes() {
        BlockData::Raw(v) => v@.len() <= nblocks,
        BlockData::Compressed(v) => {
            let sb = Seq::new(v@.len(), |s: int| v@[s].max_scores@);
            &&& sblocks_wf(sb)
            &&& forall|s: int, j: int|
                0 <= s < sb.len() && 0 <= j < sb[s].len() ==> s * 256 + (#[trigger] sb[s][j]).0
                    < nblocks
        },
    }
}

/// Whether a cursor's maxima use the compressed layout.
pub open spec fn is_compressed<'a>(c: PostingListIterator<'a>) -> bool {
    c.spec_list().spec_range_maxes() is Compressed
}

/// What one ranked query evaluates to.
pub open spec fn query_result<'a>(
    sorted: Seq<PostingListIterator<'a>>,
    q: Seq<PostingListIterator<'a>>,
    heap: TopKHeap,
    fwdv: Seq<Seq<(u16, Seq<(u8, u8)>)>>,
    bsize: int,
    k: int,
    alpha: Ratio,
    beta: Ratio,
) -> bool {
    &&& cursors_sorted(sorted)
    &&& sorted.to_multiset() == q.to_multiset()
    &&& sorted.len() == q.len()
    &&& heap.spec_k() == k
    &&& heap.wf()
    &&& heap.spec_threshold() == spec_query_run(sorted, fwdv, bsize, k, alpha, beta).0
    &&& heap.spec_entries() == spec_query_run(sorted, fwdv, bsize, k, alpha, beta).1
}

/// Some ranking of the query evaluates to this heap.
pub closed spec fn some_query_result<'a>(
    q: Seq<PostingListIterator<'a>>,
    heap: TopKHeap,
    fwdv: Seq<Seq<(u16, Seq<(u8, u8)>)>>,
    bsize: int,
    k: int,
    alpha: Ratio,
    beta: Ratio,
) -> bool {
    exists|sorted: Seq<PostingListIterator<'a>>|
        query_result(sorted, q, heap, fwdv, bsize, k, alpha, beta)
}

/// What `some_query_result` stands for.
pub proof fn lemma_some_query_result<'a>(
    q: Seq<PostingListIterator<'a>>,
    heap: TopKHeap,
    fwdv: Seq<Seq<(u16, Seq<(u8, u8)>)>>,
    bsize: int,
    k: int,
    alpha: Ratio,
    beta: Ratio,
)
    ensures
        some_query_result(q, heap, fwdv, bsize, k, alpha, beta) <==> exists|
            sorted: Seq<PostingListIterator<'a>>,
        | query_result(sorted, q, heap, fwdv, bsize, k, alpha, beta),
{
}

/// Executable form of the cursor ranking.
fn cur_le_exec<'a>(a: &PostingListIterator<'a>, b: &PostingListIterator<'a>) -> (r: bool)
    ensures
        r == cur_leq(*a, *b),
{
    let wa = a.term_weight();
    let wb = b.term_weight();
    wa > wb || (wa == wb && a.term_id() <= b.term_id())
}

/// Insertion of a cursor into a ranked sequence, keeping the ranking.
pub open spec fn insert_ranked<'a>(
    s: Seq<PostingListIterator<'a>>,
    x: PostingListIterator<'a>,
) -> Seq<PostingListIterator<'a>>
    decreases s.len(),
{
    if s.len() == 0 {
        seq![x]
    } else if cur_leq(s.last(), x) {
        s.push(x)
    } else {
        insert_ranked(s.drop_last(), x).push(s.last())
    }
}

proof fn lemma_insert_ranked_facts<'a>(s: Seq<PostingListIterator<'a>>, x: PostingListIterator<'a>)
    requires
        cursors_sorted(s),
    ensures
        insert_ranked(s, x).len() == s.len() + 1,
        cursors_sorted(insert_ranked(s, x)),
        insert_ranked(s, x).to_multiset() == s.to_multiset().insert(x),
    decreases s.len(),
{
    s.to_multiset_ensures();
    insert_ranked(s, x).to_multiset_ensures();
    if s.len() == 0 {
        assert(insert_ranked(s, x) =~= Seq::<PostingListIterator<'a>>::empty().push(x));
        Seq::<PostingListIterator<'a>>::empty().to_multiset_ensures();
        assert(Seq::<PostingListIterator<'a>>::empty().to_multiset() =~= Multiset::<
            PostingListIterator<'a>,
        >::empty());
        assert(insert_ranked(s, x).to_multiset() =~= s.to_multiset().insert(x));
    } else if cur_leq(s.last(), x) {
        assert forall|i: int, j: int| 0 <= i < j < s.push(x).len() implies cur_leq(
            s.push(x)[i],
            s.push(x)[j],
        ) by {
            if j == s.len() && i < s.len() - 1 {
                assert(cur_leq(s[i], s.last()));
            }
        }
    } else {
        let s0 = s.drop_last();
        assert(cursors_sorted(s0)) by {
            assert(forall|i: int, j: int|
                0 <= i < j < s0.len() ==> s0[i] == s[i] && s0[j] == s[j]);
        }
        lemma_insert_ranked_facts(s0, x);
        let t = insert_ranked(s0, x);
        let r = t.push(s.last());
        s0.to_multiset_ensures();
        t.to_multiset_ensures();
        assert(s0.push(s.last()) =~= s);
        assert(r.to_multiset() =~= t.to_multiset().insert(s.last()));
        assert(s.to_multiset() =~= s0.to_multiset().insert(s.last()));
        assert(r.to_multiset() =~= s.to_multiset().insert(x));
        assert(!cur_leq(s.last(), x));
        assert(cur_leq(x, s.last()));
        assert forall|i: int, j: int| 0 <= i < j < r.len() implies cur_leq(r[i], r[j]) by {
            if j == r.len() - 1 {
                assert(t.to_multiset().count(t[i]) > 0);
                assert(s0.to_multiset().insert(x).count(t[i]) > 0);
                if t[i] == x {
                } else {
                    assert(s0.to_multiset().count(t[i]) > 0);
                    assert(s0.contains(t[i]));
                    let m = choose|m: int| 0 <= m < s0.len() && s0[m] == t[i];
                    assert(cur_leq(s[m], s.last()));
                }
            }
        }
    }
}

proof fn lemma_insert_ranked_at<'a>(
    s: Seq<PostingListIterator<'a>>,
    x: PostingListIterator<'a>,
    i: int,
)
    requires
        cursors_sorted(s),
        0 <= i <= s.len(),
        forall|j: int| 0 <= j < i ==> cur_leq(s[j], x),
        forall|j: int| i <= j < s.len() ==> !cur_leq(s[j], x),
    ensures
        insert_ranked(s, x) =~= s.subrange(0, i) + seq![x] + s.subrange(i, s.len() as int),
    decreases s.len(),
{
    if s.len() == 0 {
    } else if cur_leq(s.last(), x) {
        assert(i == s.len());
    } else {
        assert(i < s.len());
        let s0 = s.drop_last();
        assert(cursors_sorted(s0));
        lemma_insert_ranked_at(s0, x, i);
    }
}

/// Ranks the query's cursors by weight, heaviest first, ties towards
/// the smaller term id.
fn sort_cursors<'a>(v: &Vec<PostingListIterator<'a>>) -> (r: Vec<PostingListIterator<'a>>)
    ensures
        r@.len() == v@.len(),
        cursors_sorted(r@),
        r@.to_multiset() == v@.to_multiset(),
{
    let mut out: Vec<PostingListIterator<'a>> = Vec::new();
    let mut t: usize = 0;
    proof {
        v@.to_multiset_ensures();
        out@.to_multiset_ensures();
        assert(v@.subrange(0, 0) =~= Seq::<PostingListIterator<'a>>::empty());
        assert(Seq::<PostingListIterator<'a>>::empty().to_multiset() =~= Multiset::<
            PostingListIterator<'a>,
        >::empty());
    }
    while t < v.len()
        invariant
            0 <= t <= v@.len(),
            cursors_sorted(out@),
            out@.len() == t,
            out@.to_multiset() == v@.subrange(0, t as int).to_multiset(),
        decreases v@.len() - t,
    {
        let x = v[t];
        let ghost s0 = out@;
        proof {
            lemma_insert_ranked_facts(s0, x);
        }
        let mut i: usize = out.len();
        while i > 0 && !cur_le_exec(&out[i - 1], &x)
            invariant
                0 <= i <= out@.len(),
                out@ == s0,
                forall|j: int| i <= j < s0.len() ==> !cur_leq(s0[j], x),
            decreases i,
        {
            i = i - 1;
        }
        proof {
            assert forall|j: int| 0 <= j < i implies cur_leq(s0[j], x) by {
                assert(cur_leq(s0[i - 1], x));
                if j < i - 1 {
                    assert(cur_leq(s0[j], s0[i - 1]));
                }
            }
            lemma_insert_ranked_at(s0, x, i as int);
        }
        out.insert(i, x);
        proof {
            assert(out@ =~= s0.insert(i as int, x));
            assert(s0.insert(i as int, x) =~= s0.subrange(0, i as int) + seq![x] + s0.subrange(
                i as int,
                s0.len() as int,
            ));
            assert(out@ == insert_ranked(s0, x));
            s0.to_multiset_ensures();
            assert(v@.subrange(0, t + 1) =~= v@.subrange(0, t as int).push(x));
            v@.subrange(0, t as int).to_multiset_ensures();
        }
        t = t + 1;
    }
    proof {
        assert(v@.subrange(0, v@.len() as int) =~= v@);
    }
    out
}

/// Bucket-sorts the blocks by upper bound and lists them highest bound
/// first, ascending block id within a bound; only blocks above the seed
/// threshold are listed.
fn bucket_order(ubs: &Vec<u16>, t0: u16) -> (r: Vec<(u16, u32)>)
    requires
        ubs@.len() <= u32::MAX,
    ensures
        r@ == spec_visit_order(ubs@, t0),
        forall|m: int| 0 <= m < r@.len() ==> ((#[trigger] r@[m]).1 as int) < ubs@.len(),
        forall|m: int| 0 <= m < r@.len() ==> ubs@[r@[m].1 as int] == r@[m].0 && r@[m].0 > t0,
{
    let nblocks = ubs.len();
    let mut buckets: Vec<Vec<u32>> = Vec::new();
    let mut u: usize = 0;
    while u < 65537
        invariant
            0 <= u <= 65537,
            buckets@.len() == u,
            forall|uu: int| 0 <= uu < u ==> (#[trigger] buckets@[uu])@ =~= Seq::<u32>::empty(),
        decreases 65537 - u,
    {
        buckets.push(Vec::new());
        u = u + 1;
    }
    let mut b: usize = 0;
    proof {
        assert(forall|uu: int| 0 <= uu < 65537 ==> (#[trigger] buckets@[uu])@ =~= blocks_at(
            ubs@,
            uu,
            0,
        ));
    }
    while b < nblocks
        invariant
            nblocks == ubs@.len(),
            nblocks <= u32::MAX,
            buckets@.len() == 65537,
            0 <= b <= nblocks,
            forall|uu: int| 0 <= uu < 65537 ==> (#[trigger] buckets@[uu])@ =~= blocks_at(
                ubs@,
                uu,
                b as int,
            ),
        decreases nblocks - b,
    {
        let ub = ubs[b];
        let ui = ub as usize;
        buckets[ui].push(b as u32);
        proof {
            assert forall|uu: int| 0 <= uu < 65537 implies (#[trigger] buckets@[uu])@ =~= blocks_at(
                ubs@,
                uu,
                b + 1,
            ) by {
                if uu != ui {
                    assert(ubs@[b as int] != uu);
                }
            }
        }
        b = b + 1;
    }
    let mut order: Vec<(u16, u32)> = Vec::new();
    let mut hi: usize = 65535;
    proof {
        assert(spec_visit_order(ubs@, t0) =~= order@ + visit_down(ubs@, t0, 65535));
    }
    while hi > t0 as usize
        invariant
            buckets@.len() == 65537,
            nblocks == ubs@.len(),
            nblocks <= u32::MAX,
            forall|uu: int| 0 <= uu < 65537 ==> (#[trigger] buckets@[uu])@ =~= blocks_at(
                ubs@,
                uu,
                nblocks as int,
            ),
            t0 as int <= hi <= 65535,
            spec_visit_order(ubs@, t0) =~= order@ + visit_down(ubs@, t0, hi as int),
            forall|m: int| 0 <= m < order@.len() ==> ((#[trigger] order@[m]).1 as int) < ubs@.len()
                && ubs@[order@[m].1 as int] == order@[m].0 && order@[m].0 > t0,
        decreases hi,
    {
        let row_len = buckets[hi].len();
        let ghost row = buckets@[hi as int]@;
        let ghost order_start = order@;
        proof {
            lemma_blocks_at_facts(ubs@, hi as int, nblocks as int);
            assert(row =~= blocks_at(ubs@, hi as int, nblocks as int));
            assert forall|p: int| 0 <= p < row.len() implies ((#[trigger] row[p]) as int) < nblocks
                && ubs@[row[p] as int] == hi by {
                assert(blocks_at(ubs@, hi as int, nblocks as int)[p] == row[p]);
            }
            assert(visit_down(ubs@, t0, hi as int) =~= visit_row(ubs@, hi as int) + visit_down(
                ubs@,
                t0,
                hi - 1,
            ));
        }
        let mut m: usize = 0;
        while m < row_len
            invariant
                buckets@.len() == 65537,
                nblocks == ubs@.len(),
                t0 < hi <= 65535,
                row == buckets@[hi as int]@,
                row_len == row.len(),
                row.len() == visit_row(ubs@, hi as int).len(),
                forall|p: int| 0 <= p < row.len() ==> ((#[trigger] row[p]) as int) < nblocks
                    && ubs@[row[p] as int] == hi,
                forall|p: int| 0 <= p < row.len() ==> visit_row(ubs@, hi as int)[p] == (
                    hi as u16,
                    row[p],
                ),
                0 <= m <= row_len,
                order@ =~= order_start + visit_row(ubs@, hi as int).subrange(0, m as int),
                forall|p: int| 0 <= p < order_start.len() ==> ((#[trigger] order_start[p]).1 as int)
                    < ubs@.len() && ubs@[order_start[p].1 as int] == order_start[p].0
                    && order_start[p].0 > t0,
            decreases row_len - m,
        {
            let blk = buckets[hi][m];
            order.push((hi as u16, blk));
            proof {
                assert(visit_row(ubs@, hi as int).subrange(0, m + 1) =~= visit_row(
                    ubs@,
                    hi as int,
                ).subrange(0, m as int).push((hi as u16, row[m as int])));
            }
            m = m + 1;
        }
        proof {
            assert(visit_row(ubs@, hi as int).subrange(0, row_len as int) =~= visit_row(
                ubs@,
                hi as int,
            ));
            assert(order@ =~= order_start + visit_row(ubs@, hi as int));
            assert(spec_visit_order(ubs@, t0) =~= order@ + visit_down(ubs@, t0, hi - 1)) by {
                assert(spec_visit_order(ubs@, t0) =~= order_start + visit_down(
                    ubs@,
                    t0,
                    hi as int,
                ));
            }
            assert forall|p: int| 0 <= p < order@.len() implies ((#[trigger] order@[p]).1 as int)
                < ubs@.len() && ubs@[order@[p].1 as int] == order@[p].0 && order@[p].0 > t0 by {
                if p >= order_start.len() {
                    assert(order@[p] == visit_row(ubs@, hi as int)[p - order_start.len()]);
                    assert(order@[p] == (hi as u16, row[p - order_start.len()]));
                } else {
                    assert(order@[p] == order_start[p]);
                }
            }
        }
        hi = hi - 1;
    }
    proof {
        assert(visit_down(ubs@, t0, hi as int) =~= Seq::<(u16, u32)>::empty());
        assert(order@ =~= spec_visit_order(ubs@, t0));
    }
    order
}

/// Every block listed for bound `u` is in range and has that bound.
proof fn lemma_blocks_at_facts(ubs: Seq<u16>, u: int, upto: int)
    requires
        0 <= upto <= ubs.len(),
        ubs.len() <= u32::MAX,
    ensures
        forall|p: int|
            0 <= p < blocks_at(ubs, u, upto).len() ==> ((#[trigger] blocks_at(ubs, u, upto)[p]) as int)
                < upto && ubs[blocks_at(ubs, u, upto)[p] as int] == u,
    decreases upto,
{
    if upto > 0 {
        lemma_blocks_at_facts(ubs, u, upto - 1);
        assert forall|p: int| 0 <= p < blocks_at(ubs, u, upto).len() implies ((#[trigger] blocks_at(
            ubs,
            u,
            upto,
        )[p]) as int) < upto && ubs[blocks_at(ubs, u, upto)[p] as int] == u by {
            if p < blocks_at(ubs, u, upto - 1).len() {
                assert(blocks_at(ubs, u, upto)[p] == blocks_at(ubs, u, upto - 1)[p]);
            }
        }
    }
}

/// A query's cursors are acceptable: few enough to count, pairwise
/// distinct narrowed term ids, maxima fitting the block count, and one
/// shared maxima layout.
pub open spec fn query_ok<'a>(q: Seq<PostingListIterator<'a>>, nblocks: int) -> bool {
    &&& q.len() <= u32::MAX
    &&& (forall|a: int, b: int| 0 <= a < b < q.len() ==> qterm(q[a]).0 != qterm(q[b]).0)
    &&& (forall|c: int| 0 <= c < q.len() ==> cursor_ranges_ok(#[trigger] q[c], nblocks))
    &&& (forall|a: int, b: int|
        0 <= a < q.len() && 0 <= b < q.len() ==> is_compressed(#[trigger] q[a]) == is_compressed(
            #[trigger] q[b],
        ))
}

/// The blocked forward index is fit for searching.
pub open spec fn bfwd_ok(fwd: BlockForwardIndex) -> bool {
    &&& fwd.block_size >= 1
    &&& fwd@.len() * fwd.block_size <= u32::MAX + 1
    &&& fwd@.len() <= u32::MAX
    &&& forall|b: int| 0 <= b < fwd@.len() ==> block_wf(#[trigger] fwd@[b], fwd.block_size as int)
}

/// The retrieval knobs are in range: k positive, α at least 1, β in
/// (0, 1].
pub open spec fn params_ok(k: int, alpha: Ratio, beta: Ratio) -> bool {
    &&& k >= 1
    &&& alpha.den >= 1
    &&& alpha.num >= alpha.den
    &&& 1 <= beta.num <= beta.den
}

/// Properties that transfer from a query to any rearrangement of it.
proof fn lemma_query_ok_rearranged<'a>(
    q: Seq<PostingListIterator<'a>>,
    s: Seq<PostingListIterator<'a>>,
    nblocks: int,
)
    requires
        query_ok(q, nblocks),
        s.to_multiset() == q.to_multiset(),
        s.len() == q.len(),
    ensures
        query_ok(s, nblocks),
{
    s.to_multiset_ensures();
    q.to_multiset_ensures();
    assert forall|c: int| 0 <= c < s.len() implies cursor_ranges_ok(#[trigger] s[c], nblocks) by {
        assert(s.contains(s[c]));
        assert(s.to_multiset().count(s[c]) > 0);
        assert(q.to_multiset().count(s[c]) > 0);
        assert(q.contains(s[c]));
        let p = choose|p: int| 0 <= p < q.len() && q[p] == s[c];
        assert(cursor_ranges_ok(q[p], nblocks));
    }
    assert forall|a: int, b: int|
        0 <= a < s.len() && 0 <= b < s.len() implies is_compressed(#[trigger] s[a])
        == is_compressed(#[trigger] s[b]) by {
        assert(s.contains(s[a]) && s.contains(s[b]));
        assert(s.to_multiset().count(s[a]) > 0 && s.to_multiset().count(s[b]) > 0);
        assert(q.to_multiset().count(s[a]) > 0 && q.to_multiset().count(s[b]) > 0);
        assert(q.contains(s[a]) && q.contains(s[b]));
        let pa = choose|p: int| 0 <= p < q.len() && q[p] == s[a as int];
        let pb = choose|p: int| 0 <= p < q.len() && q[p] == s[b as int];
        assert(is_compressed(q[pa]) == is_compressed(q[pb]));
    }
    assert forall|a: int, b: int| 0 <= a < b < s.len() implies qterm(s[a]).0 != qterm(s[b]).0 by {
        if qterm(s[a]).0 == qterm(s[b]).0 {
            if s[a] == s[b] {
                let v = s[a];
                assert(s.remove(a).to_multiset() =~= s.to_multiset().remove(v));
                assert(s.remove(a)[b - 1] == v);
                assert(s.remove(a).contains(v));
                s.remove(a).to_multiset_ensures();
                assert(s.to_multiset().remove(v).count(v) > 0);
                assert(s.to_multiset().count(v) >= 2);
                assert(q.to_multiset().count(v) >= 2);
                assert(q.contains(v));
                let p = choose|p: int| 0 <= p < q.len() && q[p] == v;
                assert(q.remove(p).to_multiset() =~= q.to_multiset().remove(v));
                q.remove(p).to_multiset_ensures();
                assert(q.remove(p).to_multiset().count(v) > 0);
                assert(q.remove(p).contains(v));
                let p2 = choose|pp: int| 0 <= pp < q.remove(p).len() && q.remove(p)[pp] == v;
                q.remove_ensures(p);
                if p2 < p {
                    assert(q[p2] == v);
                    assert(qterm(q[p2]).0 != qterm(q[p]).0);
                } else {
                    assert(q[p2 + 1] == v);
                    assert(qterm(q[p]).0 != qterm(q[p2 + 1]).0);
                }
            } else {
                assert(s.contains(s[a]) && s.contains(s[b]));
                assert(s.to_multiset().count(s[a]) > 0 && s.to_multiset().count(s[b]) > 0);
                assert(q.to_multiset().count(s[a]) > 0 && q.to_multiset().count(s[b]) > 0);
                assert(q.contains(s[a]) && q.contains(s[b]));
                let pa = choose|p: int| 0 <= p < q.len() && q[p] == s[a as int];
                let pb = choose|p: int| 0 <= p < q.len() && q[p] == s[b as int];
                assert(pa != pb);
                if pa < pb {
                    assert(qterm(q[pa]).0 != qterm(q[pb]).0);
                } else {
                    assert(qterm(q[pb]).0 != qterm(q[pa]).0);
                }
            }
        }
    }
}

/// Evaluates one ranked query against the blocked forward index.
#[verifier::rlimit(100)]
fn search_query<'a>(
    query: &Vec<PostingListIterator<'a>>,
    forward_index: &BlockForwardIndex,
    k: usize,
    alpha: Ratio,
    beta: Ratio,
) -> (heap: TopKHeap)
    requires
        params_ok(k as int, alpha, beta),
        bfwd_ok(*forward_index),
        query_ok(query@, forward_index@.len() as int),
    ensures
        some_query_result(
            query@,
            heap,
            forward_index@,
            forward_index.block_size as int,
            k as int,
            alpha,
            beta,
        ),
{
    let ghost fwdv = forward_index@;
    let bsize = forward_index.block_size;
    let nblocks = forward_index.data.len();
    let sorted_vec = sort_cursors(query);
    let ghost sortedv = sorted_vec@;
    proof {
        lemma_query_ok_rearranged(query@, sortedv, nblocks as int);
    }
    let n = sorted_vec.len();
    // prune to the top beta fraction
    proof {
        assert((n as int) * (beta.num as int) + (beta.den as int)
            < 0x1_0000_0000_0000_0000) by (nonlinear_arith)
            requires
                0 <= n <= 0xFFFF_FFFFu64,
                0 <= beta.num <= 0xFFFF_FFFFu64,
                1 <= beta.den <= 0xFFFF_FFFFu64,
        ;
    }
    let keep64: u64 = ((n as u64) * (beta.num as u64) + (beta.den as u64) - 1) / (beta.den as u64);
    proof {
        assert(keep64 == spec_keep_count(n as int, beta) && 0 <= keep64 <= n) by (nonlinear_arith)
            requires
                keep64 == ((n as u64) * (beta.num as u64) + (beta.den as u64) - 1) as int / (
                beta.den as int),
                1 <= beta.num <= beta.den,
                n >= 0,
                n <= u32::MAX,
                beta.den <= u32::MAX,
        ;
    }
    let keep = keep64 as usize;
    let mut kept = sorted_vec;
    kept.truncate(keep);
    let ghost keptv = sortedv.take(spec_keep_count(n as int, beta));
    proof {
        assert(kept@ =~= keptv);
    }
    let m = kept.len();
    // the per-term weights
    let mut weights: Vec<u8> = Vec::new();
    let mut t: usize = 0;
    while t < m
        invariant
            m == kept@.len(),
            0 <= t <= m,
            weights@.len() == t,
            forall|tt: int| 0 <= tt < t ==> weights@[tt] == weight_u8(
                (#[trigger] kept@[tt]).spec_term_weight(),
            ),
        decreases m - t,
    {
        weights.push(kept[t].term_weight());
        t = t + 1;
    }
    // the seed threshold
    let mut t0: u16 = 0;
    let mut t2: usize = 0;
    while t2 < m
        invariant
            m == kept@.len(),
            0 <= t2 <= m,
            t0 == spec_seed_threshold(kept@.subrange(0, t2 as int), k as int),
        decreases m - t2,
    {
        let own = crate::arith::mul8(kept[t2].kth(k), kept[t2].term_weight());
        if own > t0 {
            t0 = own;
        }
        proof {
            assert(kept@.subrange(0, t2 + 1).drop_last() =~= kept@.subrange(0, t2 as int));
            assert(kept@.subrange(0, t2 + 1).last() == kept@[t2 as int]);
        }
        t2 = t2 + 1;
    }
    proof {
        assert(kept@.subrange(0, m as int) =~= kept@);
        assert(t0 == spec_seed_threshold(keptv, k as int));
    }
    // the term-sorted query vector
    let mut keys: Vec<u64> = Vec::new();
    let mut t3: usize = 0;
    while t3 < m
        invariant
            m == kept@.len(),
            0 <= t3 <= m,
            keys@.len() == t3,
            forall|tt: int| 0 <= tt < t3 ==> keys@[tt] == qterm_key(qterm(#[trigger] kept@[tt])),
        decreases m - t3,
    {
        let tid16: u64 = (kept[t3].term_id() % 65536) as u64;
        let w: u64 = kept[t3].term_weight() as u64;
        keys.push(tid16 * 256 + w);
        t3 = t3 + 1;
    }
    let skeys = crate::sorting::sort_u64(&keys);
    let ghost qkeys = keys@;
    proof {
        assert(qkeys =~= Seq::new(keptv.len(), |tt: int| qterm(keptv[tt])).map(
            |i: int, p: (u16, u8)| qterm_key(p) as u64,
        ));
        crate::inverted_index::lemma_sorted_ascending_pub(qkeys);
        crate::sorting::lemma_sorted_multiset_unique(
            skeys@,
            crate::inverted_index::sorted_ascending(qkeys),
        );
    }
    let mut qv: Vec<(u16, u8)> = Vec::new();
    let mut t4: usize = 0;
    while t4 < m
        invariant
            m == skeys@.len(),
            0 <= t4 <= m,
            qv@.len() == t4,
            forall|tt: int| 0 <= tt < t4 ==> (#[trigger] qv@[tt]) == (
                (skeys@[tt] / 256) as u16,
                (skeys@[tt] % 256) as u8,
            ),
        decreases m - t4,
    {
        let key = skeys[t4];
        qv.push((((key / 256) as u64 % 65536) as u16, (key % 256) as u8));
        proof {
            assert(((key / 256) as u64 % 65536) as u16 == (key / 256) as u16) by (bit_vector);
        }
        t4 = t4 + 1;
    }
    proof {
        assert(qv@ =~= spec_query_vec(keptv)) by {
            assert(qv@.len() == sorted_qterms(Seq::new(keptv.len(), |tt: int| qterm(keptv[tt]))).len());
            assert forall|tt: int| 0 <= tt < qv@.len() implies qv@[tt] == sorted_qterms(
                Seq::new(keptv.len(), |t5: int| qterm(keptv[t5])),
            )[tt] by {
            }
        }
        // the query vector ascends strictly by term id
        assert forall|a: int, b: int| 0 <= a < b < qv@.len() implies qv@[a].0 < qv@[b].0 by {
            lemma_qv_strict(qkeys, skeys@, keptv, a, b);
            assert(qv@[a] == ((skeys@[a] / 256) as u16, (skeys@[a] % 256) as u8));
            assert(qv@[b] == ((skeys@[b] / 256) as u16, (skeys@[b] % 256) as u8));
            assert(skeys@[a] / 256 < 0x10000u64 && skeys@[b] / 256 < 0x10000u64);
        }
    }
    // per-block upper bounds, over whichever layout the cursors carry
    let mut raw_ranges: Vec<&[u8]> = Vec::new();
    let mut comp_ranges: Vec<&[crate::posting_list::CompressedBlock]> = Vec::new();
    let mut t6: usize = 0;
    while t6 < m
        invariant
            m == kept@.len(),
            forall|c: int| 0 <= c < kept@.len() ==> cursor_ranges_ok(
                #[trigger] kept@[c],
                nblocks as int,
            ),
            forall|a: int, b: int|
                0 <= a < kept@.len() && 0 <= b < kept@.len() ==> is_compressed(#[trigger] kept@[a])
                    == is_compressed(#[trigger] kept@[b]),
            0 <= t6 <= m,
            (forall|c: int| 0 <= c < t6 ==> is_compressed(#[trigger] kept@[c])) || comp_ranges@.len()
                == 0,
            (forall|c: int| 0 <= c < t6 ==> !is_compressed(#[trigger] kept@[c])) || raw_ranges@.len()
                == 0,
            !(comp_ranges@.len() > 0 && raw_ranges@.len() > 0),
            comp_ranges@.len() > 0 ==> comp_ranges@.len() == t6,
            raw_ranges@.len() > 0 ==> raw_ranges@.len() == t6,
            comp_ranges@.len() == 0 || raw_ranges@.len() == 0,
            comp_ranges@.len() + raw_ranges@.len() == t6,
            forall|c: int| 0 <= c < raw_ranges@.len() ==> (#[trigger] raw_ranges@[c])@ == (
                match kept@[c].spec_list().spec_range_maxes() {
                    BlockData::Raw(v) => v@,
                    BlockData::Compressed(_) => Seq::<u8>::empty(),
                }),
            forall|c: int| 0 <= c < comp_ranges@.len() ==> Seq::new(
                (#[trigger] comp_ranges@[c])@.len(),
                |ss: int| comp_ranges@[c]@[ss].max_scores@,
            ) == (match kept@[c].spec_list().spec_range_maxes() {
                BlockData::Compressed(v) => Seq::new(v@.len(), |ss: int| v@[ss].max_scores@),
                BlockData::Raw(_) => Seq::<Seq<(usize, u8)>>::empty(),
            }),
        decreases m - t6,
    {
        let rms = kept[t6].range_maxes();
        match rms {
            RangeMaxScore::Raw(slice) => {
                proof {
                    assert(!is_compressed(kept@[t6 as int]));
                    if comp_ranges@.len() > 0 {
                        assert(is_compressed(kept@[0]));
                        assert(is_compressed(kept@[t6 as int]) == is_compressed(kept@[0]));
                        assert(false);
                    }
                }
                raw_ranges.push(slice);
            },
            RangeMaxScore::Compressed(slice) => {
                proof {
                    assert(is_compressed(kept@[t6 as int]));
                    if raw_ranges@.len() > 0 {
                        assert(!is_compressed(kept@[0]));
                        assert(is_compressed(kept@[t6 as int]) == is_compressed(kept@[0]));
                        assert(false);
                    }
                }
                comp_ranges.push(slice);
            },
        }
        t6 = t6 + 1;
    }
    let run_compressed = comp_ranges.len() > 0;
    let upper_bounds: Vec<u16> = if run_compressed {
        proof {
            assert(comp_ranges@.len() == m);
            assert forall|tt: int| 0 <= tt < m implies sblocks_wf(
                comp_views(comp_ranges@)[tt],
            ) by {
                assert(cursor_ranges_ok(kept@[tt], nblocks as int));
                assert(comp_views(comp_ranges@)[tt] == Seq::new(
                    comp_ranges@[tt]@.len(),
                    |ss: int| comp_ranges@[tt]@[ss].max_scores@,
                ));
            }
            assert forall|tt: int, ss: int, j: int|
                (0 <= tt < m && 0 <= ss < comp_views(comp_ranges@)[tt].len() && 0 <= j
                    < comp_views(comp_ranges@)[tt][ss].len()) implies ss * 256 + comp_views(
                comp_ranges@,
            )[tt][ss][j].0 < nblocks by {
                assert(cursor_ranges_ok(kept@[tt], nblocks as int));
                assert(comp_views(comp_ranges@)[tt] == Seq::new(
                    comp_ranges@[tt]@.len(),
                    |s2: int| comp_ranges@[tt]@[s2].max_scores@,
                ));
            }
        }
        compute_upper_bounds(&comp_ranges, &weights, nblocks)
    } else {
        proof {
            assert(raw_ranges@.len() == m);
            assert forall|tt: int| 0 <= tt < m implies (#[trigger] raw_ranges@[tt])@.len()
                <= nblocks by {
                assert(cursor_ranges_ok(kept@[tt], nblocks as int));
                assert(!is_compressed(kept@[tt]) || m == 0);
                if m > 0 {
                    if is_compressed(kept@[tt]) {
                        assert(raw_ranges@[tt]@ == Seq::<u8>::empty());
                    }
                }
            }
        }
        compute_upper_bounds_raw(&raw_ranges, &weights, nblocks)
    };
    proof {
        assert forall|b: int| 0 <= b < nblocks implies upper_bounds@[b] == spec_upper_bounds(
            keptv,
            nblocks as int,
            b,
        ) by {
            if run_compressed {
                assert(is_compressed(keptv[0]));
                assert(comp_views(comp_ranges@) =~= Seq::new(
                    keptv.len(),
                    |tt: int|
                        (match keptv[tt].spec_list().spec_range_maxes() {
                            BlockData::Compressed(v) => Seq::new(
                                v@.len(),
                                |ss: int| v@[ss].max_scores@,
                            ),
                            BlockData::Raw(_) => Seq::empty(),
                        }),
                ));
                assert(weights@ =~= Seq::new(
                    keptv.len(),
                    |tt: int| weight_u8(keptv[tt].spec_term_weight()),
                ));
            } else {
                if m > 0 && is_compressed(keptv[0]) {
                    assert(comp_ranges@.len() + raw_ranges@.len() == m);
                    assert(is_compressed(keptv[0]) == is_compressed(keptv[0]));
                    assert(raw_ranges@.len() > 0 || comp_ranges@.len() > 0);
                    assert(raw_ranges@.len() == m);
                    assert(!is_compressed(keptv[0]));
                    assert(false);
                }
                assert(raw_views(raw_ranges@) =~= Seq::new(
                    keptv.len(),
                    |tt: int|
                        (match keptv[tt].spec_list().spec_range_maxes() {
                            BlockData::Raw(v) => v@,
                            BlockData::Compressed(_) => Seq::empty(),
                        }),
                ));
                assert(weights@ =~= Seq::new(
                    keptv.len(),
                    |tt: int| weight_u8(keptv[tt].spec_term_weight()),
                ));
            }
        }
        assert(upper_bounds@ =~= Seq::new(
            fwdv.len(),
            |b: int| spec_upper_bounds(keptv, fwdv.len() as int, b),
        ));
    }
    // bucket-sort the blocks and traverse, scoring and accumulating
    let order = bucket_order(&upper_bounds, t0);
    let ghost ubs_spec = Seq::new(fwdv.len(), |b: int| spec_upper_bounds(keptv, fwdv.len() as int, b));
    proof {
        assert(order@ == spec_visit_order(ubs_spec, t0));
    }
    let mut topk = TopKHeap::with_threshold(k, t0);
    let ghost total = spec_run_blocks(
        order@,
        fwdv,
        qv@,
        bsize as int,
        k as int,
        (t0, Seq::<Entry>::empty()),
        alpha,
        0,
    );
    let olen = order.len();
    let mut i: usize = 0;
    let mut done = false;
    while i < olen && !done
        invariant
            olen == order@.len(),
            fwdv == forward_index@,
            bsize == forward_index.block_size,
            bfwd_ok(*forward_index),
            forall|a: int, b: int| 0 <= a < b < qv@.len() ==> qv@[a].0 < qv@[b].0,
            forall|mm: int| 0 <= mm < order@.len() ==> ((#[trigger] order@[mm]).1 as int)
                < fwdv.len(),
            k >= 1,
            0 <= i <= olen,
            topk.wf(),
            topk.spec_k() == k,
            !done ==> spec_run_blocks(
                order@,
                fwdv,
                qv@,
                bsize as int,
                k as int,
                (topk.spec_threshold(), topk.spec_entries()),
                alpha,
                i as int,
            ) == total,
            done ==> (topk.spec_threshold(), topk.spec_entries()) == total,
        decreases olen - i + (if done { 0int } else { 1int }),
    {
        let (ub, blk) = order[i];
        let blku = blk as usize;
        let ghost st0 = (topk.spec_threshold(), topk.spec_entries());
        proof {
            assert(block_wf(fwdv[blku as int], bsize as int));
            assert(fwdv[blku as int] == block_view(forward_index.data@[blku as int]@));
            assert forall|g1: int, g2: int|
                0 <= g1 < g2 < forward_index.data@[blku as int]@.len() implies
                forward_index.data@[blku as int]@[g1].0 < forward_index.data@[blku as int]@[g2].0 by {
                assert(block_view(forward_index.data@[blku as int]@)[g1].0
                    == forward_index.data@[blku as int]@[g1].0);
                assert(block_view(forward_index.data@[blku as int]@)[g2].0
                    == forward_index.data@[blku as int]@[g2].0);
            }
            assert forall|g: int, p: int|
                0 <= g < forward_index.data@[blku as int]@.len() && 0 <= p
                    < forward_index.data@[blku as int]@[g].1@.len() implies
                forward_index.data@[blku as int]@[g].1@[p].0 < bsize by {
                assert(block_view(forward_index.data@[blku as int]@)[g].1
                    == forward_index.data@[blku as int]@[g].1@);
            }
        }
        let scores = block_score(&qv, forward_index.data[blku].as_slice(), bsize);
        let mut j: usize = 0;
        while j < bsize
            invariant
                fwdv == forward_index@,
                bsize == forward_index.block_size,
                bfwd_ok(*forward_index),
                0 <= (blku as int) < fwdv.len(),
                scores@.len() == bsize,
                forall|d: int| 0 <= d < bsize ==> scores@[d] == spec_block_score(
                    qv@,
                    fwdv[blku as int],
                    d,
                ),
                k >= 1,
                0 <= j <= bsize,
                topk.wf(),
                topk.spec_k() == k,
                spec_insert_block(
                    fwdv,
                    qv@,
                    bsize as int,
                    k as int,
                    (topk.spec_threshold(), topk.spec_entries()),
                    blku as int,
                    j as int,
                ) == spec_insert_block(fwdv, qv@, bsize as int, k as int, st0, blku as int, 0),
            decreases bsize - j,
        {
            let score = scores[j];
            proof {
                assert((blku as int) * (bsize as int) + j < fwdv.len() * bsize) by (nonlinear_arith)
                    requires
                        0 <= (blku as int) < fwdv.len(),
                        0 <= j < bsize,
                        bsize >= 1,
                ;
            }
            let doc: u32 = ((blku as u64) * (bsize as u64) + (j as u64)) as u32;
            let _ = topk.insert(DocId(doc), score);
            j = j + 1;
        }
        let thr = topk.threshold();
        proof {
            assert((thr as int) * (alpha.den as int) < 0x1_0000_0000_0000_0000 && (ub as int) * (
            alpha.num as int) < 0x1_0000_0000_0000_0000) by (nonlinear_arith)
                requires
                    0 <= thr < 0x10000,
                    0 <= ub < 0x10000,
                    0 <= alpha.den <= 0xFFFF_FFFFu64,
                    0 <= alpha.num <= 0xFFFF_FFFFu64,
            ;
            assert(spec_insert_block(
                fwdv,
                qv@,
                bsize as int,
                k as int,
                (topk.spec_threshold(), topk.spec_entries()),
                blku as int,
                bsize as int,
            ) == (topk.spec_threshold(), topk.spec_entries()));
        }
        if (thr as u64) * (alpha.den as u64) > (ub as u64) * (alpha.num as u64) {
            done = true;
        } else {
            i = i + 1;
        }
    }
    proof {
        assert((topk.spec_threshold(), topk.spec_entries()) == total);
        assert(query_result(
            sortedv,
            query@,
            topk,
            fwdv,
            bsize as int,
            k as int,
            alpha,
            beta,
        )) by {
            assert(spec_query_run(sortedv, fwdv, bsize as int, k as int, alpha, beta) == total);
        }
        lemma_some_query_result(
            query@,
            topk,
            fwdv,
            bsize as int,
            k as int,
            alpha,
            beta,
        );
    }
    topk
}

/// The query vector ascends strictly: distinct narrowed term ids give
/// distinct key classes, preserved by sorting.
proof fn lemma_qv_strict<'a>(
    qkeys: Seq<u64>,
    skeys: Seq<u64>,
    keptv: Seq<PostingListIterator<'a>>,
    a: int,
    b: int,
)
    requires
        qkeys.len() == keptv.len(),
        forall|tt: int| 0 <= tt < qkeys.len() ==> (#[trigger] qkeys[tt]) == qterm_key(
            qterm(keptv[tt]),
        ),
        forall|a2: int, b2: int|
            0 <= a2 < b2 < keptv.len() ==> qterm(keptv[a2]).0 != qterm(keptv[b2]).0,
        crate::sorting::sorted_u64(skeys),
        skeys.to_multiset() == qkeys.to_multiset(),
        skeys.len() == qkeys.len(),
        0 <= a < b < skeys.len(),
    ensures
        skeys[a] / 256 < skeys[b] / 256,
        skeys[a] < 0x100_0000u64,
        skeys[b] < 0x100_0000u64,
{
    skeys.to_multiset_ensures();
    qkeys.to_multiset_ensures();
    assert forall|tt: int| 0 <= tt < qkeys.len() implies (#[trigger] qkeys[tt]) / 256 == qterm(
        keptv[tt],
    ).0 && qkeys[tt] < 0x1_0000_0000u64 by {
        let t16 = qterm(keptv[tt]).0 as int;
        let w8 = qterm(keptv[tt]).1 as int;
        assert((t16 * 256 + w8) / 256 == t16 && t16 * 256 + w8 < 0x100_0000) by (nonlinear_arith)
            requires
                0 <= t16 < 0x10000,
                0 <= w8 < 256,
        ;
    }
    assert(qkeys.contains(skeys[a]) ==> skeys[a] < 0x100_0000u64) by {
        if qkeys.contains(skeys[a]) {
            let p = choose|p: int| 0 <= p < qkeys.len() && qkeys[p] == skeys[a];
            assert(qkeys[p] < 0x100_0000u64);
        }
    }
    assert(qkeys.contains(skeys[b]) ==> skeys[b] < 0x100_0000u64) by {
        if qkeys.contains(skeys[b]) {
            let p = choose|p: int| 0 <= p < qkeys.len() && qkeys[p] == skeys[b];
            assert(qkeys[p] < 0x100_0000u64);
        }
    }
    assert(skeys.contains(skeys[a]) && skeys.contains(skeys[b]));
    assert(skeys.to_multiset().count(skeys[a]) > 0 && skeys.to_multiset().count(skeys[b]) > 0);
    assert(qkeys.to_multiset().count(skeys[a]) > 0 && qkeys.to_multiset().count(skeys[b]) > 0);
    assert(qkeys.contains(skeys[a]) && qkeys.contains(skeys[b]));
    let pa = choose|p: int| 0 <= p < qkeys.len() && qkeys[p] == skeys[a];
    let pb = choose|p: int| 0 <= p < qkeys.len() && qkeys[p] == skeys[b];
    if skeys[a] == skeys[b] {
        let v = skeys[a];
        assert(skeys.remove(a).to_multiset() =~= skeys.to_multiset().remove(v));
        assert(skeys.remove(a)[b - 1] == v);
        assert(skeys.remove(a).contains(v));
        skeys.remove(a).to_multiset_ensures();
        assert(skeys.to_multiset().remove(v).count(v) > 0);
        assert(skeys.to_multiset().count(v) >= 2);
        assert(qkeys.to_multiset().count(v) >= 2);
        let p = choose|p: int| 0 <= p < qkeys.len() && qkeys[p] == v;
        assert(qkeys.to_multiset().count(v) > 0);
        assert(qkeys.contains(v));
        assert(qkeys.remove(p).to_multiset() =~= qkeys.to_multiset().remove(v));
        qkeys.remove(p).to_multiset_ensures();
        assert(qkeys.remove(p).to_multiset().count(v) > 0);
        assert(qkeys.remove(p).contains(v));
        let p2 = choose|pp: int| 0 <= pp < qkeys.remove(p).len() && qkeys.remove(p)[pp] == v;
        qkeys.remove_ensures(p);
        if p2 < p {
            assert(qkeys[p2] == v);
            assert(qterm(keptv[p2]).0 != qterm(keptv[p]).0);
            assert(qkeys[p2] / 256 == qkeys[p] / 256);
        } else {
            assert(qkeys[p2 + 1] == v);
            assert(qterm(keptv[p]).0 != qterm(keptv[p2 + 1]).0);
            assert(qkeys[p] / 256 == qkeys[p2 + 1] / 256);
        }
        assert(false);
    } else {
        assert(skeys[a] < skeys[b]);
        if skeys[a] / 256 == skeys[b] / 256 {
            assert(pa != pb);
            if pa < pb {
                assert(qterm(keptv[pa]).0 != qterm(keptv[pb]).0);
            } else {
                assert(qterm(keptv[pb]).0 != qterm(keptv[pa]).0);
            }
            assert(qkeys[pa] / 256 != qkeys[pb] / 256);
            assert(false);
        }
        assert(skeys[a] / 256 <= skeys[b] / 256) by (nonlinear_arith)
            requires
                skeys[a] <= skeys[b],
        ;
    }
}

/// Evaluates the queries in order; each returns its top-k accumulator.
pub fn b_search_verbose<'a>(
    queries: Vec<Vec<PostingListIterator<'a>>>,
    forward_index: &BlockForwardIndex,
    k: usize,
    alpha: Ratio,
    beta: Ratio,
    verbose: bool,
) -> (r: Vec<TopKHeap>)
    requires
        params_ok(k as int, alpha, beta),
        bfwd_ok(*forward_index),
        forall|qi: int| 0 <= qi < queries@.len() ==> query_ok(
            (#[trigger] queries@[qi])@,
            forward_index@.len() as int,
        ),
    ensures
        r@.len() == queries@.len(),
        forall|qi: int|
            0 <= qi < queries@.len() ==> some_query_result(
                queries@[qi]@,
                #[trigger] r@[qi],
                forward_index@,
                forward_index.block_size as int,
                k as int,
                alpha,
                beta,
            ),
{
    let _ = verbose;
    let mut results: Vec<TopKHeap> = Vec::new();
    let nq = queries.len();
    let mut qi: usize = 0;
    while qi < nq
        invariant
            nq == queries@.len(),
            params_ok(k as int, alpha, beta),
            bfwd_ok(*forward_index),
            forall|q2: int| 0 <= q2 < queries@.len() ==> query_ok(
                (#[trigger] queries@[q2])@,
                forward_index@.len() as int,
            ),
            0 <= qi <= nq,
            results@.len() == qi,
            forall|q2: int|
                0 <= q2 < qi ==> some_query_result(
                    queries@[q2]@,
                    #[trigger] results@[q2],
                    forward_index@,
                    forward_index.block_size as int,
                    k as int,
                    alpha,
                    beta,
                ),
        decreases nq - qi,
    {
        let ghost results0 = results@;
        let heap = search_query(&queries[qi], forward_index, k, alpha, beta);
        results.push(heap);
        proof {
            assert forall|q2: int| 0 <= q2 < qi + 1 implies some_query_result(
                queries@[q2]@,
                #[trigger] results@[q2],
                forward_index@,
                forward_index.block_size as int,
                k as int,
                alpha,
                beta,
            ) by {
                if q2 < qi {
                    assert(results@[q2] == results0[q2]);
                } else {
                    assert(results@[q2] == heap);
                }
            }
        }
        qi = qi + 1;
    }
    results
}

/// Evaluates the queries with default verbosity.
pub fn b_search<'a>(
    queries: Vec<Vec<PostingListIterator<'a>>>,
    forward_index: &BlockForwardIndex,
    k: usize,
    alpha: Ratio,
    beta: Ratio,
) -> (r: Vec<TopKHeap>)
    requires
        params_ok(k as int, alpha, beta),
        bfwd_ok(*forward_index),
        forall|qi: int| 0 <= qi < queries@.len() ==> query_ok(
            (#[trigger] queries@[qi])@,
            forward_index@.len() as int,
        ),
    ensures
        r@.len() == queries@.len(),
        forall|qi: int|
            0 <= qi < queries@.len() ==> some_query_result(
                queries@[qi]@,
                #[trigger] r@[qi],
                forward_index@,
                forward_index.block_size as int,
                k as int,
                alpha,
                beta,
            ),
{
    b_search_verbose(queries, forward_index, k, alpha, beta, true)
}

/// Two rankings of the same cursors agree when every cursor carries a
/// distinct narrowed term id: the ranking order is then antisymmetric.
proof fn lemma_ranking_unique<'a>(
    s1: Seq<PostingListIterator<'a>>,
    s2: Seq<PostingListIterator<'a>>,
    q: Seq<PostingListIterator<'a>>,
)
    requires
        cursors_sorted(s1),
        cursors_sorted(s2),
        s1.to_multiset() == q.to_multiset(),
        s2.to_multiset() == q.to_multiset(),
        s1.len() == q.len(),
        s2.len() == q.len(),
        forall|a: int, b: int| 0 <= a < b < q.len() ==> qterm(q[a]).0 != qterm(q[b]).0,
    ensures
        s1 =~= s2,
    decreases q.len(),
{
    s1.to_multiset_ensures();
    s2.to_multiset_ensures();
    q.to_multiset_ensures();
    if q.len() > 0 {
        // the heads are mutually ranked, so they carry one term id, so
        // they are one cursor
        assert(s1.contains(s1[0]));
        assert(s1.to_multiset().count(s1[0]) > 0);
        assert(s2.to_multiset().count(s1[0]) > 0);
        assert(s2.contains(s1[0]));
        let j1 = choose|j: int| 0 <= j < s2.len() && s2[j] == s1[0];
        assert(cur_leq(s2[0], s2[j1]) || j1 == 0);
        assert(s2.contains(s2[0]));
        assert(s2.to_multiset().count(s2[0]) > 0);
        assert(s1.to_multiset().count(s2[0]) > 0);
        assert(s1.contains(s2[0]));
        let j2 = choose|j: int| 0 <= j < s1.len() && s1[j] == s2[0];
        assert(cur_leq(s1[0], s1[j2]) || j2 == 0);
        assert(cur_leq(s1[0], s2[0]) && cur_leq(s2[0], s1[0]));
        assert(qterm(s1[0]).0 == qterm(s2[0]).0);
        assert(s1[0] == s2[0]) by {
            if s1[0] != s2[0] {
                // two distinct members of q with one narrowed term id
                assert(q.to_multiset().count(s1[0]) > 0);
                assert(q.contains(s1[0]));
                assert(q.to_multiset().count(s2[0]) > 0);
                assert(q.contains(s2[0]));
                let p1 = choose|p: int| 0 <= p < q.len() && q[p] == s1[0];
                let p2 = choose|p: int| 0 <= p < q.len() && q[p] == s2[0];
                assert(p1 != p2);
                if p1 < p2 {
                    assert(qterm(q[p1]).0 != qterm(q[p2]).0);
                } else {
                    assert(qterm(q[p2]).0 != qterm(q[p1]).0);
                }
            }
        }
        let t1 = s1.drop_first();
        let t2 = s2.drop_first();
        let q0 = q.remove(choose|p: int| 0 <= p < q.len() && q[p] == s1[0]);
        let p0 = choose|p: int| 0 <= p < q.len() && q[p] == s1[0];
        assert(q.contains(s1[0])) by {
            assert(q.to_multiset().count(s1[0]) > 0);
        }
        assert(t1.to_multiset() == q0.to_multiset() && t2.to_multiset() == q0.to_multiset()) by {
            assert(s1.remove(0) =~= t1);
            assert(s2.remove(0) =~= t2);
            assert(t1.to_multiset() =~= s1.to_multiset().remove(s1[0]));
            assert(t2.to_multiset() =~= s2.to_multiset().remove(s2[0]));
            assert(q0.to_multiset() =~= q.to_multiset().remove(q[p0]));
        }
        assert(cursors_sorted(t1) && cursors_sorted(t2)) by {
            assert(forall|i: int, j: int|
                0 <= i < j < t1.len() ==> t1[i] == s1[i + 1] && t1[j] == s1[j + 1]);
            assert(forall|i: int, j: int|
                0 <= i < j < t2.len() ==> t2[i] == s2[i + 1] && t2[j] == s2[j + 1]);
        }
        assert(forall|a: int, b: int|
            0 <= a < b < q0.len() ==> qterm(q0[a]).0 != qterm(q0[b]).0) by {
            q.remove_ensures(p0);
            assert forall|a: int, b: int|
                0 <= a < b < q0.len() implies qterm(q0[a]).0 != qterm(q0[b]).0 by {
                let a2: int = if a < p0 {
                    a
                } else {
                    a + 1
                };
                let b2: int = if b < p0 {
                    b
                } else {
                    b + 1
                };
                assert(q0[a] == q[a2] && q0[b] == q[b2]);
                assert(qterm(q[a2]).0 != qterm(q[b2]).0);
            }
        }
        lemma_ranking_unique(t1, t2, q0);
        assert(s1 =~= seq![s1[0]] + t1);
        assert(s2 =~= seq![s2[0]] + t2);
    } else {
        if s1.len() != 0 {
            assert(s1.to_multiset().count(s1[0]) > 0);
        }
        assert(s1 =~= Seq::<PostingListIterator<'a>>::empty());
        assert(s2 =~= Seq::<PostingListIterator<'a>>::empty());
    }
}

/// Heap determinism: against one index, one query evaluates to one
/// outcome — any two heaps that the search contract admits for it hold
/// the same threshold and the same entries in the same order.
pub proof fn lemma_search_deterministic<'a>(
    q: Seq<PostingListIterator<'a>>,
    h1: TopKHeap,
    h2: TopKHeap,
    fwdv: Seq<Seq<(u16, Seq<(u8, u8)>)>>,
    bsize: int,
    k: int,
    alpha: Ratio,
    beta: Ratio,
)
    requires
        forall|a: int, b: int| 0 <= a < b < q.len() ==> qterm(q[a]).0 != qterm(q[b]).0,
        some_query_result(q, h1, fwdv, bsize, k, alpha, beta),
        some_query_result(q, h2, fwdv, bsize, k, alpha, beta),
    ensures
        h1.spec_threshold() == h2.spec_threshold(),
        h1.spec_entries() == h2.spec_entries(),
{
    lemma_some_query_result(q, h1, fwdv, bsize, k, alpha, beta);
    lemma_some_query_result(q, h2, fwdv, bsize, k, alpha, beta);
    let s1 = choose|sorted: Seq<PostingListIterator<'a>>|
        query_result(sorted, q, h1, fwdv, bsize, k, alpha, beta);
    let s2 = choose|sorted: Seq<PostingListIterator<'a>>|
        query_result(sorted, q, h2, fwdv, bsize, k, alpha, beta);
    lemma_ranking_unique(s1, s2, q);
    assert(s1 == s2);
}

} // verus!
