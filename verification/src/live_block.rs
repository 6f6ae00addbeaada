//! Per-block upper-bound combination.
//!
//! For each query term, its per-block maxima (raw or compressed) scaled
//! by the term's weight are folded into a per-block 16-bit upper bound.
//! All additions saturate at 0xFFFF.

use vstd::prelude::*;
use crate::arith::{mul8, sat_add, spec_sat_add};
use crate::forward_index::{cap16, grp_lookup, inner_sum, score_upto, spec_block_score};
use crate::posting_list::CompressedBlock;

verus! {

/// The views of a sequence of borrowed byte slices.
pub open spec fn raw_views(rs: Seq<&[u8]>) -> Seq<Seq<u8>> {
    Seq::new(rs.len(), |i: int| rs[i]@)
}

/// The views of a sequence of borrowed super-block slices: per term, per
/// super-block, the (offset, maximum) pairs.
pub open spec fn comp_views(rs: Seq<&[CompressedBlock]>) -> Seq<Seq<Seq<(usize, u8)>>> {
    Seq::new(rs.len(), |i: int| Seq::new(rs[i]@.len(), |j: int| rs[i]@[j].max_scores@))
}

/// One raw term's contribution to block `b`: its block maximum times its
/// weight, or 0 past the end of its array.
pub open spec fn raw_term_ub(range: Seq<u8>, w: u8, b: int) -> u16 {
    if 0 <= b < range.len() {
        (range[b] * w) as u16
    } else {
        0
    }
}

/// Saturating fold of the first `t` raw terms' contributions to block `b`.
pub open spec fn spec_ub_raw_upto(ranges: Seq<Seq<u8>>, weights: Seq<u8>, b: int, t: int) -> u16
    decreases t,
{
    if t <= 0 {
        0
    } else {
        spec_sat_add(
            spec_ub_raw_upto(ranges, weights, b, t - 1),
            raw_term_ub(ranges[t - 1], weights[t - 1], b),
        )
    }
}

/// The upper bound of block `b` over all raw terms.
pub open spec fn spec_ub_raw(ranges: Seq<Seq<u8>>, weights: Seq<u8>, b: int) -> u16 {
    spec_ub_raw_upto(ranges, weights, b, ranges.len() as int)
}

/// A well-formed super-block: offsets strictly ascending and below 256.
pub open spec fn sblock_wf(pairs: Seq<(usize, u8)>) -> bool {
    &&& forall|i: int, j: int| 0 <= i < j < pairs.len() ==> pairs[i].0 < pairs[j].0
    &&& forall|i: int| 0 <= i < pairs.len() ==> (#[trigger] pairs[i]).0 < 256
}

/// All super-blocks of one term are well-formed.
pub open spec fn sblocks_wf(sblocks: Seq<Seq<(usize, u8)>>) -> bool {
    forall|s: int| 0 <= s < sblocks.len() ==> sblock_wf(#[trigger] sblocks[s])
}

/// The maximum recorded at `off` in a super-block, or 0 when absent.
pub open spec fn pairs_lookup(pairs: Seq<(usize, u8)>, off: int) -> u8 {
    if exists|j: int| 0 <= j < pairs.len() && pairs[j].0 == off {
        pairs[choose|j: int| 0 <= j < pairs.len() && pairs[j].0 == off].1
    } else {
        0
    }
}

/// One compressed term's contribution to block `b`.
pub open spec fn comp_term_ub(sblocks: Seq<Seq<(usize, u8)>>, w: u8, b: int) -> u16 {
    if 0 <= b && b / 256 < sblocks.len() {
        (pairs_lookup(sblocks[b / 256], b % 256) * w) as u16
    } else {
        0
    }
}

/// Saturating fold of the first `t` compressed terms' contributions to
/// block `b`.
pub open spec fn spec_ub_comp_upto(
    ranges: Seq<Seq<Seq<(usize, u8)>>>,
    weights: Seq<u8>,
    b: int,
    t: int,
) -> u16
    decreases t,
{
    if t <= 0 {
        0
    } else {
        spec_sat_add(
            spec_ub_comp_upto(ranges, weights, b, t - 1),
            comp_term_ub(ranges[t - 1], weights[t - 1], b),
        )
    }
}

/// The upper bound of block `b` over all compressed terms.
pub open spec fn spec_ub_comp(ranges: Seq<Seq<Seq<(usize, u8)>>>, weights: Seq<u8>, b: int) -> u16 {
    spec_ub_comp_upto(ranges, weights, b, ranges.len() as int)
}

/// Folds raw per-block maxima, scaled by the term weights, into a dense
/// vector of saturating 16-bit upper bounds, one per block.
pub fn compute_upper_bounds_raw(
    query_ranges: &Vec<&[u8]>,
    query_weights: &Vec<u8>,
    vector_len: usize,
) -> (r: Vec<u16>)
    requires
        query_ranges@.len() == query_weights@.len(),
        forall|t: int| 0 <= t < query_ranges@.len() ==> (#[trigger] query_ranges@[t])@.len()
            <= vector_len,
    ensures
        r@.len() == vector_len,
        forall|b: int| 0 <= b < vector_len ==> r@[b] == spec_ub_raw(
            raw_views(query_ranges@),
            query_weights@,
            b,
        ),
{
    let ghost ranges = raw_views(query_ranges@);
    let ghost weights = query_weights@;
    let mut upper_bounds: Vec<u16> = vec![0u16; vector_len];
    let nterms = query_ranges.len();
    let mut t: usize = 0;
    while t < nterms
        invariant
            nterms == query_ranges@.len(),
            query_ranges@.len() == query_weights@.len(),
            forall|tt: int| 0 <= tt < query_ranges@.len() ==> (#[trigger] query_ranges@[tt])@.len()
                <= vector_len,
            ranges == raw_views(query_ranges@),
            weights == query_weights@,
            0 <= t <= nterms,
            upper_bounds@.len() == vector_len,
            forall|b: int| 0 <= b < vector_len ==> upper_bounds@[b] == spec_ub_raw_upto(
                ranges,
                weights,
                b,
                t as int,
            ),
        decreases nterms - t,
    {
        let range: &[u8] = query_ranges[t];
        let weight: u8 = query_weights[t];
        let rlen = range.len();
        let ghost before = upper_bounds@;
        let mut i: usize = 0;
        while i < rlen
            invariant
                rlen == range@.len(),
                range@ == ranges[t as int],
                weight == weights[t as int],
                0 <= t < ranges.len(),
                rlen <= vector_len,
                0 <= i <= rlen,
                upper_bounds@.len() == vector_len,
                before.len() == vector_len,
                forall|b: int| 0 <= b < i ==> upper_bounds@[b] == spec_sat_add(
                    before[b],
                    raw_term_ub(ranges[t as int], weight, b),
                ),
                forall|b: int| i <= b < vector_len ==> upper_bounds@[b] == before[b],
            decreases rlen - i,
        {
            let multiplied: u16 = mul8(range[i], weight);
            upper_bounds[i] = sat_add(upper_bounds[i], multiplied);
            i = i + 1;
        }
        proof {
            assert forall|b: int| 0 <= b < vector_len implies upper_bounds@[b] == spec_ub_raw_upto(
                ranges,
                weights,
                b,
                t + 1,
            ) by {
                if b >= rlen {
                    assert(raw_term_ub(ranges[t as int], weight, b) == 0);
                    assert(spec_sat_add(before[b], 0) == before[b]);
                }
            }
        }
        t = t + 1;
    }
    upper_bounds
}

/// Folds compressed per-block maxima, scaled by the term weights, into a
/// dense vector of saturating 16-bit upper bounds, one per block.
pub fn compute_upper_bounds(
    query_ranges: &Vec<&[CompressedBlock]>,
    query_weights: &Vec<u8>,
    vector_len: usize,
) -> (r: Vec<u16>)
    requires
        query_ranges@.len() == query_weights@.len(),
        forall|t: int| 0 <= t < query_ranges@.len() ==> sblocks_wf(
            comp_views(query_ranges@)[t],
        ),
        forall|t: int, s: int, j: int|
            (0 <= t < query_ranges@.len() && 0 <= s < comp_views(query_ranges@)[t].len() && 0 <= j
                < comp_views(query_ranges@)[t][s].len()) ==> s * 256 + comp_views(
                query_ranges@,
            )[t][s][j].0 < vector_len,
    ensures
        r@.len() == vector_len,
        forall|b: int| 0 <= b < vector_len ==> r@[b] == spec_ub_comp(
            comp_views(query_ranges@),
            query_weights@,
            b,
        ),
{
    let ghost ranges = comp_views(query_ranges@);
    let ghost weights = query_weights@;
    let mut upper_bounds: Vec<u16> = vec![0u16; vector_len];
    let nterms = query_ranges.len();
    let mut t: usize = 0;
    while t < nterms
        invariant
            nterms == query_ranges@.len(),
            query_ranges@.len() == query_weights@.len(),
            ranges == comp_views(query_ranges@),
            weights == query_weights@,
            forall|tt: int| 0 <= tt < ranges.len() ==> sblocks_wf(#[trigger] ranges[tt]),
            forall|tt: int, s: int, j: int|
                (0 <= tt < ranges.len() && 0 <= s < ranges[tt].len() && 0 <= j
                    < ranges[tt][s].len()) ==> s * 256 + ranges[tt][s][j].0 < vector_len,
            0 <= t <= nterms,
            upper_bounds@.len() == vector_len,
            forall|b: int| 0 <= b < vector_len ==> upper_bounds@[b] == spec_ub_comp_upto(
                ranges,
                weights,
                b,
                t as int,
            ),
        decreases nterms - t,
    {
        let sblocks: &[CompressedBlock] = query_ranges[t];
        let weight: u8 = query_weights[t];
        let nsb = sblocks.len();
        let ghost before = upper_bounds@;
        let ghost term = ranges[t as int];
        let mut sb: usize = 0;
        while sb < nsb
            invariant
                nsb == sblocks@.len(),
                term == Seq::new(sblocks@.len(), |j: int| sblocks@[j].max_scores@),
                term == ranges[t as int],
                0 <= t < ranges.len(),
                weight == weights[t as int],
                sblocks_wf(term),
                forall|s: int, j: int|
                    (0 <= s < term.len() && 0 <= j < term[s].len()) ==> s * 256 + term[s][j].0
                        < vector_len,
                0 <= sb <= nsb,
                upper_bounds@.len() == vector_len,
                before.len() == vector_len,
                forall|b: int| 0 <= b < vector_len ==> upper_bounds@[b] == spec_sat_add(
                    before[b],
                    comp_partial(term, weight, b, sb as int, 0),
                ),
            decreases nsb - sb,
        {
            let pairs: &Vec<(usize, u8)> = &sblocks[sb].max_scores;
            let npairs = pairs.len();
            let mut j: usize = 0;
            while j < npairs
                invariant
                    npairs == pairs@.len(),
                    pairs@ == term[sb as int],
                    term == ranges[t as int],
                    0 <= t < ranges.len(),
                    weight == weights[t as int],
                    sblocks_wf(term),
                    forall|s: int, jj: int|
                        (0 <= s < term.len() && 0 <= jj < term[s].len()) ==> s * 256
                            + term[s][jj].0 < vector_len,
                    0 <= sb < term.len(),
                    0 <= j <= npairs,
                    upper_bounds@.len() == vector_len,
                    before.len() == vector_len,
                    forall|b: int| 0 <= b < vector_len ==> upper_bounds@[b] == spec_sat_add(
                        before[b],
                        comp_partial(term, weight, b, sb as int, j as int),
                    ),
                decreases npairs - j,
            {
                let (offset, score) = pairs[j];
                let multiplied: u16 = mul8(score, weight);
                let pos: usize = sb * 256 + offset;
                let ghost bstar = pos as int;
                proof {
                    lemma_comp_partial_step(term, weight, sb as int, j as int, vector_len as int);
                }
                upper_bounds[pos] = sat_add(upper_bounds[pos], multiplied);
                proof {
                    assert(comp_partial(term, weight, bstar, sb as int, j as int) == 0);
                    assert(spec_sat_add(before[bstar], 0) == before[bstar]);
                    assert(comp_term_ub(term, weight, bstar) == (score * weight) as u16);
                }
                j = j + 1;
            }
            proof {
                assert forall|b: int| 0 <= b < vector_len implies comp_partial(
                    term,
                    weight,
                    b,
                    sb as int,
                    npairs as int,
                ) == comp_partial(term, weight, b, sb + 1, 0) by {
                    let s = b / 256;
                    let o = b % 256;
                    if s == sb {
                        if exists|jj: int|
                            0 <= jj < npairs && jj < term[s].len() && term[s][jj].0 == o {
                        } else {
                            assert forall|jj: int|
                                0 <= jj < term[s].len() implies term[s][jj].0 != o by {
                                assert(!(0 <= jj < npairs && jj < term[s].len() && term[s][jj].0
                                    == o));
                            }
                            assert(pairs_lookup(term[s], o) == 0);
                            assert(comp_term_ub(term, weight, b) == (0 * weight) as u16);
                        }
                    }
                }
            }
            sb = sb + 1;
        }
        proof {
            assert forall|b: int| 0 <= b < vector_len implies upper_bounds@[b]
                == spec_ub_comp_upto(ranges, weights, b, t + 1) by {
                assert(comp_partial(term, weight, b, nsb as int, 0) == comp_term_ub(
                    term,
                    weight,
                    b,
                ));
            }
        }
        t = t + 1;
    }
    upper_bounds
}

/// The part of one compressed term's contribution to block `b` already
/// applied after `sb` full super-blocks and `j` pairs of super-block
/// `sb`.
pub open spec fn comp_partial(
    sblocks: Seq<Seq<(usize, u8)>>,
    w: u8,
    b: int,
    sb: int,
    j: int,
) -> u16 {
    if b < 0 {
        0
    } else {
        let s = b / 256;
        let o = b % 256;
        if s < sb && s < sblocks.len() {
            comp_term_ub(sblocks, w, b)
        } else if s == sb && s < sblocks.len() && (exists|jj: int|
            0 <= jj < j && jj < sblocks[s].len() && sblocks[s][jj].0 == o) {
            comp_term_ub(sblocks, w, b)
        } else {
            0
        }
    }
}

/// Applying pair `j` of super-block `sb` moves exactly the block it
/// addresses from "not yet applied" to "applied", and that block's full
/// contribution is the pair's value times the weight.
proof fn lemma_comp_partial_step(
    sblocks: Seq<Seq<(usize, u8)>>,
    w: u8,
    sb: int,
    j: int,
    vector_len: int,
)
    requires
        sblocks_wf(sblocks),
        0 <= sb < sblocks.len(),
        0 <= j < sblocks[sb].len(),
        forall|s: int, jj: int|
            (0 <= s < sblocks.len() && 0 <= jj < sblocks[s].len()) ==> s * 256 + sblocks[s][jj].0
                < vector_len,
    ensures
        ({
            let bstar = sb * 256 + sblocks[sb][j].0;
            &&& 0 <= bstar < vector_len
            &&& comp_partial(sblocks, w, bstar, sb, j) == 0
            &&& comp_partial(sblocks, w, bstar, sb, j + 1) == comp_term_ub(sblocks, w, bstar)
            &&& comp_term_ub(sblocks, w, bstar) == (sblocks[sb][j].1 * w) as u16
            &&& forall|b: int|
                (0 <= b < vector_len && b != bstar) ==> comp_partial(sblocks, w, b, sb, j + 1)
                    == comp_partial(sblocks, w, b, sb, j)
        }),
{
    let off = sblocks[sb][j].0 as int;
    let bstar = sb * 256 + off;
    assert(0 <= off < 256);
    assert(bstar / 256 == sb && bstar % 256 == off) by (nonlinear_arith)
        requires
            0 <= off < 256,
            0 <= sb,
            bstar == sb * 256 + off,
    ;
    assert(sblocks[sb][j].0 == off && 0 <= j < sblocks[sb].len());
    // uniqueness of the offset within the super-block
    assert forall|jj: int| 0 <= jj < sblocks[sb].len() && sblocks[sb][jj].0 == off implies jj == j
        by {
        if jj < j {
            assert(sblocks[sb][jj].0 < sblocks[sb][j].0);
        }
        if jj > j {
            assert(sblocks[sb][j].0 < sblocks[sb][jj].0);
        }
    }
    assert(comp_partial(sblocks, w, bstar, sb, j) == 0);
    assert(exists|jj: int|
        0 <= jj < j + 1 && jj < sblocks[sb].len() && sblocks[sb][jj].0 == off) by {
        assert(0 <= j < j + 1 && j < sblocks[sb].len() && sblocks[sb][j].0 == off);
    }
    assert(pairs_lookup(sblocks[sb], off) == sblocks[sb][j].1) by {
        assert(exists|jj: int| 0 <= jj < sblocks[sb].len() && sblocks[sb][jj].0 == off);
        let w0 = choose|jj: int| 0 <= jj < sblocks[sb].len() && sblocks[sb][jj].0 == off;
        assert(w0 == j);
    }
    assert forall|b: int| (0 <= b < vector_len && b != bstar) implies comp_partial(
        sblocks,
        w,
        b,
        sb,
        j + 1,
    ) == comp_partial(sblocks, w, b, sb, j) by {
        let s = b / 256;
        let o = b % 256;
        if s == sb {
            assert(b == s * 256 + o) by (nonlinear_arith)
                requires
                    s == b / 256,
                    o == b % 256,
                    0 <= b,
            ;
            if o != off {
                assert forall|jj: int|
                    0 <= jj < j + 1 && jj < sblocks[s].len() && sblocks[s][jj].0 == o implies 0
                    <= jj < j && jj < sblocks[s].len() && sblocks[s][jj].0 == o by {
                    assert(jj != j);
                }
            } else {
                assert(b == bstar);
            }
        }
    }
}

/// Both layouts of the same dense per-block maxima yield the same
/// upper bound for every block: sparsifying the zeros changes nothing.
pub proof fn lemma_layouts_agree(
    dense: Seq<Seq<u8>>,
    comp: Seq<Seq<Seq<(usize, u8)>>>,
    weights: Seq<u8>,
    b: int,
)
    requires
        dense.len() == comp.len(),
        dense.len() == weights.len(),
        forall|t: int| 0 <= t < comp.len() ==> (#[trigger] comp[t]).len() == crate::arith::spec_div_ceil(
            dense[t].len(),
            256,
        ),
        forall|t: int, sb: int|
            0 <= t < comp.len() && 0 <= sb < comp[t].len() ==> (#[trigger] comp[t][sb])
                == crate::inverted_index::comp_pairs(dense[t], sb, 256),
        0 <= b,
    ensures
        spec_ub_comp(comp, weights, b) == spec_ub_raw(dense, weights, b),
{
    lemma_layouts_agree_upto(dense, comp, weights, b, dense.len() as int);
}

proof fn lemma_layouts_agree_upto(
    dense: Seq<Seq<u8>>,
    comp: Seq<Seq<Seq<(usize, u8)>>>,
    weights: Seq<u8>,
    b: int,
    t: int,
)
    requires
        dense.len() == comp.len(),
        dense.len() == weights.len(),
        forall|tt: int| 0 <= tt < comp.len() ==> (#[trigger] comp[tt]).len()
            == crate::arith::spec_div_ceil(dense[tt].len(), 256),
        forall|tt: int, sb: int|
            0 <= tt < comp.len() && 0 <= sb < comp[tt].len() ==> (#[trigger] comp[tt][sb])
                == crate::inverted_index::comp_pairs(dense[tt], sb, 256),
        0 <= b,
        0 <= t <= dense.len(),
    ensures
        spec_ub_comp_upto(comp, weights, b, t) == spec_ub_raw_upto(dense, weights, b, t),
    decreases t,
{
    if t > 0 {
        lemma_layouts_agree_upto(dense, comp, weights, b, t - 1);
        let sb = b / 256;
        let off = b % 256;
        assert(0 <= off < 256);
        if b < dense[t - 1].len() {
            crate::arith::lemma_block_index_in_range(b as nat, dense[t - 1].len(), 256);
            assert(sb < comp[t - 1].len());
            crate::inverted_index::lemma_comp_pairs_facts(dense[t - 1], sb, 256);
            assert(sb * 256 + off == b) by (nonlinear_arith)
                requires
                    sb == b / 256,
                    off == b % 256,
                    b >= 0,
            ;
            assert(pairs_lookup(comp[t - 1][sb], off) == (if dense[t - 1][b] > 0 {
                dense[t - 1][b]
            } else {
                0
            }));
            assert(comp_term_ub(comp[t - 1], weights[t - 1], b) == raw_term_ub(
                dense[t - 1],
                weights[t - 1],
                b,
            ));
        } else {
            assert(raw_term_ub(dense[t - 1], weights[t - 1], b) == 0);
            if sb < comp[t - 1].len() {
                crate::inverted_index::lemma_comp_pairs_facts(dense[t - 1], sb, 256);
                assert(sb * 256 + off == b) by (nonlinear_arith)
                    requires
                        sb == b / 256,
                        off == b % 256,
                        b >= 0,
                ;
                assert(pairs_lookup(comp[t - 1][sb], off) == 0);
            }
            assert(comp_term_ub(comp[t - 1], weights[t - 1], b) == 0);
        }
    }
}

/// With at most one entry per in-block document, the summed score of a
/// group at one document is a single entry's value, or 0.
proof fn lemma_inner_sum_bounded(ps: Seq<(u8, u8)>, d: int, cap: u8, j: int)
    requires
        forall|p1: int, p2: int| 0 <= p1 < p2 < ps.len() ==> ps[p1].0 < ps[p2].0,
        forall|p: int| 0 <= p < ps.len() ==> (#[trigger] ps[p]).1 <= cap,
        0 <= j <= ps.len(),
    ensures
        crate::forward_index::inner_sum_upto(ps, d, j) <= cap,
    decreases j,
{
    if j > 0 {
        lemma_inner_sum_bounded(ps, d, cap, j - 1);
        if ps[j - 1].0 == d {
            // no earlier entry shares this document id
            assert forall|p: int| 0 <= p < j - 1 implies ps[p].0 != d by {
                assert(ps[p].0 < ps[j - 1].0);
            }
            lemma_inner_sum_zero(ps, d, j - 1);
        }
    }
}

proof fn lemma_inner_sum_zero(ps: Seq<(u8, u8)>, d: int, j: int)
    requires
        0 <= j <= ps.len(),
        forall|p: int| 0 <= p < j ==> (#[trigger] ps[p]).0 != d,
    ensures
        crate::forward_index::inner_sum_upto(ps, d, j) == 0,
    decreases j,
{
    if j > 0 {
        lemma_inner_sum_zero(ps, d, j - 1);
    }
}

/// Upper-bound soundness: when every term's per-block maximum dominates
/// that term's scores inside the block, the folded upper bound
/// dominates every document's score in the block.
pub proof fn lemma_upper_bound_sound(
    ranges: Seq<Seq<u8>>,
    weights: Seq<u8>,
    qv: Seq<(u16, u8)>,
    blockv: Seq<(u16, Seq<(u8, u8)>)>,
    b: int,
    d: int,
)
    requires
        ranges.len() == qv.len(),
        weights.len() == qv.len(),
        forall|t: int| 0 <= t < qv.len() ==> (#[trigger] qv[t]).1 == weights[t],
        forall|g: int, p1: int, p2: int|
            0 <= g < blockv.len() && 0 <= p1 < p2 < blockv[g].1.len() ==> blockv[g].1[p1].0
                < blockv[g].1[p2].0,
        forall|t: int, p: int|
            0 <= t < qv.len() && 0 <= p < grp_lookup(blockv, qv[t].0).len() ==> (
            #[trigger] grp_lookup(blockv, qv[t].0)[p]).1 <= (if 0 <= b < ranges[t].len() {
                ranges[t][b]
            } else {
                0
            }),
    ensures
        spec_block_score(qv, blockv, d) <= spec_ub_raw(ranges, weights, b),
{
    lemma_upper_bound_sound_upto(ranges, weights, qv, blockv, b, d, qv.len() as int);
}

proof fn lemma_upper_bound_sound_upto(
    ranges: Seq<Seq<u8>>,
    weights: Seq<u8>,
    qv: Seq<(u16, u8)>,
    blockv: Seq<(u16, Seq<(u8, u8)>)>,
    b: int,
    d: int,
    t: int,
)
    requires
        ranges.len() == qv.len(),
        weights.len() == qv.len(),
        forall|tt: int| 0 <= tt < qv.len() ==> (#[trigger] qv[tt]).1 == weights[tt],
        forall|g: int, p1: int, p2: int|
            0 <= g < blockv.len() && 0 <= p1 < p2 < blockv[g].1.len() ==> blockv[g].1[p1].0
                < blockv[g].1[p2].0,
        forall|tt: int, p: int|
            0 <= tt < qv.len() && 0 <= p < grp_lookup(blockv, qv[tt].0).len() ==> (
            #[trigger] grp_lookup(blockv, qv[tt].0)[p]).1 <= (if 0 <= b < ranges[tt].len() {
                ranges[tt][b]
            } else {
                0
            }),
        0 <= t <= qv.len(),
    ensures
        cap16(score_upto(qv, blockv, d, t)) <= spec_ub_raw_upto(ranges, weights, b, t),
    decreases t,
{
    if t == 0 {
    } else {
        lemma_upper_bound_sound_upto(ranges, weights, qv, blockv, b, d, t - 1);
        let grp = grp_lookup(blockv, qv[t - 1].0);
        let cap: u8 = if 0 <= b < ranges[t - 1].len() {
            ranges[t - 1][b]
        } else {
            0
        };
        // the group's contribution at one document is a single entry
        assert(inner_sum(grp, d) <= cap) by {
            if grp.len() > 0 {
                assert(exists|g: int| 0 <= g < blockv.len() && blockv[g].0 == qv[t - 1].0);
                let g0 = choose|g: int| 0 <= g < blockv.len() && blockv[g].0 == qv[t - 1].0;
                assert(grp == blockv[g0].1);
                lemma_inner_sum_bounded(grp, d, cap, grp.len() as int);
            } else {
                lemma_inner_sum_zero(grp, d, 0);
            }
        }
        let w = qv[t - 1].1 as nat;
        let m = w * inner_sum(grp, d);
        assert(m <= (cap as nat) * (weights[t - 1] as nat) && m <= 0xFFFF) by (nonlinear_arith)
            requires
                m == w * inner_sum(grp, d),
                inner_sum(grp, d) <= cap,
                w == qv[t - 1].1 as nat,
                qv[t - 1].1 == weights[t - 1],
                0 <= w < 256,
                cap < 256,
                inner_sum(grp, d) >= 0,
        ;
        assert(cap16(score_upto(qv, blockv, d, t)) == spec_sat_add(
            cap16(score_upto(qv, blockv, d, t - 1)),
            m as u16,
        )) by {
            crate::forward_index::lemma_cap16_add_pub(score_upto(qv, blockv, d, t - 1), m);
        }
        assert(raw_term_ub(ranges[t - 1], weights[t - 1], b) == (cap * weights[t - 1]) as u16);
        assert(cap * weights[t - 1] <= 255 * 255) by (nonlinear_arith)
            requires
                0 <= cap < 256,
                0 <= weights[t - 1] < 256,
        ;
        assert(m as u16 <= (cap * weights[t - 1]) as u16);
        crate::arith::lemma_sat_add_monotone(
            cap16(score_upto(qv, blockv, d, t - 1)),
            m as u16,
            spec_ub_raw_upto(ranges, weights, b, t - 1),
            (cap * weights[t - 1]) as u16,
        );
    }
}

} // verus!
