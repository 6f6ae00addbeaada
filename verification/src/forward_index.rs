//! Document-major and blocked forward indexes, and dense per-block
//! scoring.

use vstd::prelude::*;
use crate::arith::{mul8, sat_add, spec_sat_add, spec_div_ceil, div_ceil};

verus! {

/// Document-major forward index: for each document, its (term id, raw
/// score) pairs.
#[derive(Debug)]
pub struct ForwardIndex {
    pub data: Vec<Vec<(u32, u32)>>,
}

impl View for ForwardIndex {
    type V = Seq<Seq<(u32, u32)>>;

    open spec fn view(&self) -> Seq<Seq<(u32, u32)>> {
        Seq::new(self.data@.len(), |i: int| self.data@[i]@)
    }
}

/// Blocked forward index: for each block of `block_size` consecutive
/// documents, the (term id, [(in-block document id, quantized score)])
/// groups, sorted by term id.
#[derive(Debug)]
pub struct BlockForwardIndex {
    pub data: Vec<Vec<(u16, Vec<(u8, u8)>)>>,
    pub block_size: usize,
}

/// The view of one block: its groups with inner lists as sequences.
pub open spec fn block_view(b: Seq<(u16, Vec<(u8, u8)>)>) -> Seq<(u16, Seq<(u8, u8)>)> {
    Seq::new(b.len(), |g: int| (b[g].0, b[g].1@))
}

impl View for BlockForwardIndex {
    type V = Seq<Seq<(u16, Seq<(u8, u8)>)>>;

    open spec fn view(&self) -> Seq<Seq<(u16, Seq<(u8, u8)>)>> {
        Seq::new(self.data@.len(), |b: int| block_view(self.data@[b]@))
    }
}

/// 8-bit quantization of a raw score: its low 8 bits.
pub open spec fn quant(s: u32) -> u8 {
    (s % 256) as u8
}

/// Builds the document-major forward index from per-term posting lists.
pub struct ForwardIndexBuilder {
    forward_index: ForwardIndex,
}

impl ForwardIndexBuilder {
    /// The documents accumulated so far.
    pub closed spec fn spec_docs(&self) -> Seq<Seq<(u32, u32)>> {
        self.forward_index@
    }

    pub fn new(num_documents: usize) -> (r: ForwardIndexBuilder)
        ensures
            r.spec_docs().len() == num_documents,
            forall|d: int| 0 <= d < num_documents ==> r.spec_docs()[d] =~= Seq::<(u32, u32)>::empty(),
    {
        let mut data: Vec<Vec<(u32, u32)>> = Vec::new();
        let mut i: usize = 0;
        while i < num_documents
            invariant
                0 <= i <= num_documents,
                data@.len() == i,
                forall|d: int| 0 <= d < i ==> data@[d]@ =~= Seq::<(u32, u32)>::empty(),
            decreases num_documents - i,
        {
            data.push(Vec::new());
            i = i + 1;
        }
        ForwardIndexBuilder { forward_index: ForwardIndex { data } }
    }

    /// Appends one term's postings: each (document, score) pair adds
    /// (term, score) to that document's list.  Documents must be strictly
    /// ascending and in range.
    pub fn insert_posting_list(&mut self, term_id: u32, posting_list: &Vec<(u32, u32)>)
        requires
            forall|i: int, j: int|
                0 <= i < j < posting_list@.len() ==> posting_list@[i].0 < posting_list@[j].0,
            forall|i: int| 0 <= i < posting_list@.len() ==> (#[trigger] posting_list@[i]).0
                < old(self).spec_docs().len(),
        ensures
            final(self).spec_docs().len() == old(self).spec_docs().len(),
            forall|d: int|
                0 <= d < final(self).spec_docs().len() ==> final(self).spec_docs()[d] == (
                if exists|k: int|
                    0 <= k < posting_list@.len() && posting_list@[k].0 == d {
                    old(self).spec_docs()[d].push(
                        (
                            term_id,
                            posting_list@[choose|k: int|
                                0 <= k < posting_list@.len() && posting_list@[k].0 == d].1,
                        ),
                    )
                } else {
                    old(self).spec_docs()[d]
                }),
    {
        let ghost docs0 = self.spec_docs();
        let n = posting_list.len();
        let mut i: usize = 0;
        while i < n
            invariant
                n == posting_list@.len(),
                forall|a: int, b: int|
                    0 <= a < b < posting_list@.len() ==> posting_list@[a].0 < posting_list@[b].0,
                forall|a: int| 0 <= a < posting_list@.len() ==> (#[trigger] posting_list@[a]).0
                    < docs0.len(),
                0 <= i <= n,
                self.spec_docs().len() == docs0.len(),
                forall|d: int|
                    0 <= d < docs0.len() ==> self.spec_docs()[d] == (
                    if exists|k: int| 0 <= k < i && posting_list@[k].0 == d {
                        docs0[d].push(
                            (
                                term_id,
                                posting_list@[choose|k: int|
                                    0 <= k < i && posting_list@[k].0 == d].1,
                            ),
                        )
                    } else {
                        docs0[d]
                    }),
            decreases n - i,
        {
            let (doc_id, score) = posting_list[i];
            let ghost before = self.spec_docs();
            proof {
                // this document has not been touched yet in this pass
                assert forall|k: int| 0 <= k < i implies posting_list@[k].0 != doc_id by {
                    assert(posting_list@[k].0 < posting_list@[i as int].0);
                }
            }
            let du = doc_id as usize;
            self.forward_index.data[du].push((term_id, score));
            proof {
                assert forall|d: int| 0 <= d < docs0.len() implies self.spec_docs()[d] == (
                if exists|k: int| 0 <= k < i + 1 && posting_list@[k].0 == d {
                    docs0[d].push(
                        (
                            term_id,
                            posting_list@[choose|k: int|
                                0 <= k < i + 1 && posting_list@[k].0 == d].1,
                        ),
                    )
                } else {
                    docs0[d]
                }) by {
                    if d == doc_id {
                        assert(self.spec_docs()[d] == before[d].push((term_id, score)));
                        assert(!(exists|k: int| 0 <= k < i && posting_list@[k].0 == d));
                        assert(before[d] == docs0[d]);
                        let kk = choose|k: int| 0 <= k < i + 1 && posting_list@[k].0 == d;
                        assert(kk == i);
                    } else {
                        assert(self.spec_docs()[d] == before[d]);
                        if exists|k: int| 0 <= k < i + 1 && posting_list@[k].0 == d {
                            let kk = choose|k: int| 0 <= k < i + 1 && posting_list@[k].0 == d;
                            assert(kk < i);
                            assert(exists|k: int| 0 <= k < i && posting_list@[k].0 == d);
                            let k0 = choose|k: int| 0 <= k < i && posting_list@[k].0 == d;
                            let k1 = choose|k: int| 0 <= k < i + 1 && posting_list@[k].0 == d;
                            assert(k0 == k1) by {
                                if k0 < k1 {
                                    assert(posting_list@[k0].0 < posting_list@[k1].0);
                                }
                                if k1 < k0 {
                                    assert(posting_list@[k1].0 < posting_list@[k0].0);
                                }
                            }
                        }
                    }
                }
            }
            i = i + 1;
        }
    }

    /// Appends one document's (term, score) vector.
    pub fn insert_document(&mut self, vector: Vec<(u32, u32)>)
        ensures
            final(self).spec_docs() =~= old(self).spec_docs().push(vector@),
    {
        self.forward_index.data.push(vector);
    }

    /// Finishes the document-major index, sorting each document's pairs
    /// by (term id, score).
    pub fn build(self) -> (r: ForwardIndex)
        ensures
            r@.len() == self.spec_docs().len(),
            forall|d: int| 0 <= d < r@.len() ==> #[trigger] r@[d].to_multiset()
                == self.spec_docs()[d].to_multiset(),
            forall|d: int, i: int, j: int|
                0 <= d < r@.len() && 0 <= i < j < r@[d].len() ==> pair_key(r@[d][i]) <= pair_key(
                    r@[d][j],
                ),
    {
        let mut data = self.forward_index.data;
        let n = data.len();
        let ghost docs0 = Seq::new(data@.len(), |i: int| data@[i]@);
        let mut d: usize = 0;
        while d < n
            invariant
                n == data@.len(),
                docs0.len() == n,
                0 <= d <= n,
                forall|i: int| d <= i < n ==> data@[i]@ == docs0[i],
                forall|i: int| 0 <= i < d ==> (#[trigger] data@[i]@).to_multiset()
                    == docs0[i].to_multiset(),
                forall|dd: int, i: int, j: int|
                    0 <= dd < d && 0 <= i < j < data@[dd]@.len() ==> pair_key(data@[dd]@[i])
                        <= pair_key(data@[dd]@[j]),
            decreases n - d,
        {
            let sorted = sort_pairs(&data[d]);
            data[d] = sorted;
            d = d + 1;
        }
        ForwardIndex { data }
    }
}

/// The packed order key of a (term, score) pair: term-major, then score.
pub open spec fn pair_key(p: (u32, u32)) -> int {
    p.0 * 0x1_0000_0000 + p.1
}

/// Sorts (term, score) pairs by term id, then score.
fn sort_pairs(v: &Vec<(u32, u32)>) -> (r: Vec<(u32, u32)>)
    ensures
        r@.to_multiset() == v@.to_multiset(),
        r@.len() == v@.len(),
        forall|i: int, j: int| 0 <= i < j < r@.len() ==> pair_key(r@[i]) <= pair_key(r@[j]),
{
    let mut keys: Vec<u64> = Vec::new();
    let n = v.len();
    let mut i: usize = 0;
    while i < n
        invariant
            n == v@.len(),
            0 <= i <= n,
            keys@.len() == i,
            forall|m: int| 0 <= m < i ==> keys@[m] == pair_key(v@[m]),
        decreases n - i,
    {
        let (t, s) = v[i];
        let key: u64 = (t as u64) * 0x1_0000_0000u64 + (s as u64);
        keys.push(key);
        i = i + 1;
    }
    let sorted_keys = crate::sorting::sort_u64(&keys);
    let mut out: Vec<(u32, u32)> = Vec::new();
    let mut m: usize = 0;
    proof {
        assert(sorted_keys@.subrange(0, 0) =~= Seq::<u64>::empty());
        assert(Seq::<u64>::empty().map_values(|k: u64| unpack_pair(k)) =~= Seq::<(
            u32,
            u32,
        )>::empty());
        Seq::<(u32, u32)>::empty().to_multiset_ensures();
        assert(out@ =~= Seq::<(u32, u32)>::empty());
    }
    while m < n
        invariant
            n == sorted_keys@.len(),
            n == keys@.len(),
            n == v@.len(),
            crate::sorting::sorted_u64(sorted_keys@),
            sorted_keys@.to_multiset() == keys@.to_multiset(),
            forall|a: int| 0 <= a < n ==> keys@[a] == pair_key(v@[a]),
            0 <= m <= n,
            out@.len() == m,
            forall|a: int| 0 <= a < m ==> pair_key(out@[a]) == sorted_keys@[a],
            out@.to_multiset() == sorted_keys@.subrange(0, m as int).map_values(
                |k: u64| unpack_pair(k),
            ).to_multiset(),
        decreases n - m,
    {
        proof {
            sorted_keys@.to_multiset_ensures();
            keys@.to_multiset_ensures();
            assert(sorted_keys@.contains(sorted_keys@[m as int]));
            assert(sorted_keys@.to_multiset().count(sorted_keys@[m as int]) > 0);
            assert(keys@.contains(sorted_keys@[m as int]));
        }
        let k = sorted_keys[m];
        let t: u32 = (k / 0x1_0000_0000u64) as u32;
        let s: u32 = (k % 0x1_0000_0000u64) as u32;
        let ghost out0 = out@;
        out.push((t, s));
        proof {
            assert((t, s) == unpack_pair(k));
            assert(pair_key((t, s)) == k as int) by {
                let ki = k as int;
                assert(ki == (ki / 0x1_0000_0000) * 0x1_0000_0000 + ki % 0x1_0000_0000) by (nonlinear_arith)
                    requires
                        ki >= 0,
                ;
            }
            let prefix0 = sorted_keys@.subrange(0, m as int).map_values(|kk: u64| unpack_pair(kk));
            let prefix1 = sorted_keys@.subrange(0, m + 1).map_values(|kk: u64| unpack_pair(kk));
            assert(prefix1 =~= prefix0.push(unpack_pair(k))) by {
                assert(sorted_keys@.subrange(0, m + 1) =~= sorted_keys@.subrange(0, m as int).push(
                    k,
                ));
            }
            prefix0.to_multiset_ensures();
            out0.to_multiset_ensures();
            assert(out@ =~= out0.push((t, s)));
            assert(out@.to_multiset() =~= out0.to_multiset().insert((t, s)));
            assert(prefix1.to_multiset() =~= prefix0.to_multiset().insert(unpack_pair(k)));
        }
        m = m + 1;
    }
    proof {
        // the multiset of unpacked sorted keys is the multiset of the input
        assert(sorted_keys@.subrange(0, n as int) =~= sorted_keys@);
        lemma_map_multiset(sorted_keys@, keys@);
        assert(keys@.map_values(|k: u64| unpack_pair(k)) =~= v@) by {
            assert forall|a: int| 0 <= a < n implies keys@.map_values(|k: u64| unpack_pair(k))[a]
                == v@[a] by {
                lemma_pack_pair_roundtrip(v@[a]);
            }
        }
        assert forall|i: int, j: int| 0 <= i < j < out@.len() implies pair_key(out@[i]) <= pair_key(
            out@[j],
        ) by {
            assert(pair_key(out@[i]) == sorted_keys@[i]);
            assert(pair_key(out@[j]) == sorted_keys@[j]);
            assert(sorted_keys@[i] <= sorted_keys@[j]);
        }
    }
    out
}

/// Unpacking of a 64-bit pair key back into (term, score).
pub open spec fn unpack_pair(k: u64) -> (u32, u32) {
    ((k / 0x1_0000_0000u64) as u32, (k % 0x1_0000_0000u64) as u32)
}

proof fn lemma_pack_pair_roundtrip(p: (u32, u32))
    ensures
        unpack_pair((p.0 * 0x1_0000_0000 + p.1) as u64) == p,
        pair_key(p) < 0x1_0000_0000_0000_0000,
{
    let t = p.0 as int;
    let s = p.1 as int;
    assert((t * 0x1_0000_0000 + s) / 0x1_0000_0000 == t && (t * 0x1_0000_0000 + s) % 0x1_0000_0000
        == s && t * 0x1_0000_0000 + s < 0x1_0000_0000_0000_0000) by (nonlinear_arith)
        requires
            0 <= t < 0x1_0000_0000,
            0 <= s < 0x1_0000_0000,
    ;
}

/// Mapping a value-level bijection over equal multisets gives equal
/// multisets.
proof fn lemma_map_multiset(a: Seq<u64>, b: Seq<u64>)
    requires
        a.to_multiset() == b.to_multiset(),
    ensures
        a.map_values(|k: u64| unpack_pair(k)).to_multiset() == b.map_values(
            |k: u64| unpack_pair(k),
        ).to_multiset(),
    decreases a.len(),
{
    a.to_multiset_ensures();
    b.to_multiset_ensures();
    if a.len() == 0 {
        assert(a =~= Seq::<u64>::empty());
        if b.len() != 0 {
            assert(b.to_multiset().count(b[0]) > 0);
            assert(a.to_multiset().count(b[0]) == 0);
        }
        assert(b =~= Seq::<u64>::empty());
        assert(a.map_values(|k: u64| unpack_pair(k)) =~= b.map_values(|k: u64| unpack_pair(k)));
    } else {
        let x = a.last();
        assert(a.to_multiset().count(x) > 0);
        assert(b.contains(x));
        let bi = choose|bi: int| 0 <= bi < b.len() && b[bi] == x;
        let a0 = a.drop_last();
        let b0 = b.remove(bi);
        assert(a0.to_multiset() == b0.to_multiset()) by {
            assert(a =~= a0.push(x));
            a0.to_multiset_ensures();
            assert(a.to_multiset() =~= a0.to_multiset().insert(x));
            assert(b0.to_multiset() =~= b.to_multiset().remove(x));
            assert(a0.to_multiset() =~= a.to_multiset().remove(x));
        }
        lemma_map_multiset(a0, b0);
        let f = |k: u64| unpack_pair(k);
        assert(a.map_values(f) =~= a0.map_values(f).push(f(x)));
        a0.map_values(f).to_multiset_ensures();
        a.map_values(f).to_multiset_ensures();
        assert(b.map_values(f) =~= b0.map_values(f).insert(bi, f(x))) by {
            assert forall|q: int| 0 <= q < b.len() implies b.map_values(f)[q] == b0.map_values(
                f,
            ).insert(bi, f(x))[q] by {
                if q < bi {
                    assert(b0[q] == b[q]);
                } else if q == bi {
                } else {
                    assert(b0[q - 1] == b[q]);
                }
            }
        }
        lemma_insert_multiset(b0.map_values(f), bi, f(x));
        assert(a.map_values(f).to_multiset() =~= a0.map_values(f).to_multiset().insert(f(x)));
        assert(b.map_values(f).to_multiset() =~= b0.map_values(f).to_multiset().insert(f(x)));
    }
}

proof fn lemma_insert_multiset<A>(s: Seq<A>, i: int, x: A)
    requires
        0 <= i <= s.len(),
    ensures
        s.insert(i, x).to_multiset() == s.to_multiset().insert(x),
{
    let t = s.insert(i, x);
    t.to_multiset_ensures();
    s.to_multiset_ensures();
    assert(t.remove(i) =~= s);
    assert(t.remove(i).to_multiset() =~= t.to_multiset().remove(t[i]));
    assert(t[i] == x);
    assert(s.to_multiset() =~= t.to_multiset().remove(x));
    t.to_multiset_ensures();
    assert(t.to_multiset().count(x) > 0) by {
        assert(t.contains(x));
    }
    assert(t.to_multiset() =~= s.to_multiset().insert(x)) by {
        assert(forall|y: A| #[trigger] t.to_multiset().count(y) == s.to_multiset().insert(x).count(
            y,
        ));
    }
}

/// The exact score capped to 16 bits.
pub open spec fn cap16(n: nat) -> u16 {
    if n > 0xFFFF {
        0xFFFF as u16
    } else {
        n as u16
    }
}

/// Sum of the scores a group's first `j` pairs give to in-block document
/// `d`.
pub open spec fn inner_sum_upto(ps: Seq<(u8, u8)>, d: int, j: int) -> nat
    decreases j,
{
    if j <= 0 {
        0
    } else {
        inner_sum_upto(ps, d, j - 1) + if ps[j - 1].0 == d {
            ps[j - 1].1 as nat
        } else {
            0
        }
    }
}

/// Sum of the scores a group's pairs give to in-block document `d`.
pub open spec fn inner_sum(ps: Seq<(u8, u8)>, d: int) -> nat {
    inner_sum_upto(ps, d, ps.len() as int)
}

/// The inner list of the group with term `t`, empty when absent.
pub open spec fn grp_lookup(doc: Seq<(u16, Seq<(u8, u8)>)>, t: u16) -> Seq<(u8, u8)> {
    if exists|g: int| 0 <= g < doc.len() && doc[g].0 == t {
        doc[choose|g: int| 0 <= g < doc.len() && doc[g].0 == t].1
    } else {
        Seq::empty()
    }
}

/// The exact (uncapped) score the first `qi` query terms give to
/// in-block document `d`.
pub open spec fn score_upto(q: Seq<(u16, u8)>, doc: Seq<(u16, Seq<(u8, u8)>)>, d: int, qi: int) -> nat
    decreases qi,
{
    if qi <= 0 {
        0
    } else {
        score_upto(q, doc, d, qi - 1) + (q[qi - 1].1 as nat) * inner_sum(grp_lookup(doc, q[qi - 1].0), d)
    }
}

/// The score of in-block document `d` for the whole query, capped to 16
/// bits.
pub open spec fn spec_block_score(q: Seq<(u16, u8)>, doc: Seq<(u16, Seq<(u8, u8)>)>, d: int) -> u16 {
    cap16(score_upto(q, doc, d, q.len() as int))
}

/// Adding a value that fits 16 bits commutes with capping.
pub proof fn lemma_cap16_add_pub(a: nat, m: nat)
    requires
        m <= 0xFFFF,
    ensures
        crate::arith::spec_sat_add(cap16(a), m as u16) == cap16(a + m),
{
}

proof fn lemma_cap16_add(a: nat, m: nat)
    requires
        m <= 0xFFFF,
    ensures
        spec_sat_add(cap16(a), m as u16) == cap16(a + m),
{
}

/// Unmatched query terms contribute nothing.
proof fn lemma_score_upto_stable(
    q: Seq<(u16, u8)>,
    doc: Seq<(u16, Seq<(u8, u8)>)>,
    d: int,
    from: int,
    to: int,
)
    requires
        0 <= from <= to <= q.len(),
        forall|qq: int| from <= qq < to ==> grp_lookup(doc, q[qq].0) =~= Seq::<(u8, u8)>::empty(),
    ensures
        score_upto(q, doc, d, to) == score_upto(q, doc, d, from),
    decreases to - from,
{
    if to > from {
        lemma_score_upto_stable(q, doc, d, from, to - 1);
        assert(inner_sum(Seq::<(u8, u8)>::empty(), d) == 0);
        assert((q[to - 1].1 as nat) * 0 == 0) by (nonlinear_arith);
    }
}

/// Scores one block of the forward index against a term-sorted query
/// vector: a two-pointer merge on term id accumulating weight times
/// quantized score, saturating in 16 bits.
///
/// The unused tail for a short final block stays zero.
pub fn block_score(
    query: &Vec<(u16, u8)>,
    document: &[(u16, Vec<(u8, u8)>)],
    bsize: usize,
) -> (r: Vec<u16>)
    requires
        forall|i: int, j: int| 0 <= i < j < query@.len() ==> query@[i].0 < query@[j].0,
        forall|i: int, j: int| 0 <= i < j < document@.len() ==> document@[i].0 < document@[j].0,
        forall|g: int, p: int|
            0 <= g < document@.len() && 0 <= p < document@[g].1@.len() ==> document@[g].1@[p].0
                < bsize,
    ensures
        r@.len() == bsize,
        forall|d: int| 0 <= d < bsize ==> r@[d] == spec_block_score(
            query@,
            block_view(document@),
            d,
        ),
{
    let ghost qv = query@;
    let ghost dv = block_view(document@);
    let mut doc_score: Vec<u16> = vec![0u16; bsize];
    let qlen = query.len();
    let dlen = document.len();
    let mut qi: usize = 0;
    let mut ti: usize = 0;
    let mut done = false;
    while qi < qlen && !done
        invariant
            qlen == qv.len(),
            dlen == dv.len(),
            dv == block_view(document@),
            qv == query@,
            forall|i: int, j: int| 0 <= i < j < qv.len() ==> qv[i].0 < qv[j].0,
            forall|i: int, j: int| 0 <= i < j < dv.len() ==> dv[i].0 < dv[j].0,
            forall|g: int, p: int|
                0 <= g < dv.len() && 0 <= p < dv[g].1.len() ==> dv[g].1[p].0 < bsize,
            0 <= qi <= qlen,
            0 <= ti <= dlen,
            doc_score@.len() == bsize,
            forall|d: int| 0 <= d < bsize ==> doc_score@[d] == cap16(score_upto(qv, dv, d, qi as int)),
            qi < qlen ==> forall|g: int| 0 <= g < ti ==> dv[g].0 < qv[qi as int].0,
            done ==> ti == dlen,
        decreases qlen - qi + (if done { 0int } else { 1int }),
    {
        let coordinate = query[qi].0;
        let value = query[qi].1;
        while ti < dlen && document[ti].0 < coordinate
            invariant
                dlen == dv.len(),
                dv == block_view(document@),
                0 <= ti <= dlen,
                forall|g: int| 0 <= g < ti ==> dv[g].0 < coordinate,
            decreases dlen - ti,
        {
            ti = ti + 1;
        }
        if ti == dlen {
            done = true;
        } else {
            if document[ti].0 == coordinate {
                proof {
                    // the matching group is unique and stands at ti
                    assert forall|g: int| 0 <= g < dv.len() && dv[g].0 == coordinate implies g
                        == ti by {
                        if g < ti {
                            assert(dv[g].0 < coordinate);
                        }
                        if g > ti {
                            assert(dv[ti as int].0 < dv[g].0);
                        }
                    }
                    assert(grp_lookup(dv, coordinate) == dv[ti as int].1) by {
                        assert(0 <= ti < dv.len() && dv[ti as int].0 == coordinate);
                        let g0 = choose|g: int| 0 <= g < dv.len() && dv[g].0 == coordinate;
                        assert(g0 == ti);
                    }
                }
                let pairs: &Vec<(u8, u8)> = &document[ti].1;
                let plen = pairs.len();
                let ghost ps = dv[ti as int].1;
                let mut p: usize = 0;
                while p < plen
                    invariant
                        plen == ps.len(),
                        ps == pairs@,
                        pairs@ == dv[ti as int].1,
                        0 <= ti < dv.len(),
                        value == qv[qi as int].1,
                        0 <= qi < qv.len(),
                        grp_lookup(dv, qv[qi as int].0) == ps,
                        forall|pp: int| 0 <= pp < ps.len() ==> ps[pp].0 < bsize,
                        0 <= p <= plen,
                        doc_score@.len() == bsize,
                        forall|d: int| 0 <= d < bsize ==> doc_score@[d] == cap16(
                            score_upto(qv, dv, d, qi as int) + (value as nat) * inner_sum_upto(
                                ps,
                                d,
                                p as int,
                            ),
                        ),
                    decreases plen - p,
                {
                    let (dd, sc) = pairs[p];
                    let add = mul8(value, sc);
                    let di = dd as usize;
                    let ghost before = doc_score@;
                    let cur = doc_score[di];
                    doc_score[di] = sat_add(cur, add);
                    proof {
                        assert forall|d: int| 0 <= d < bsize implies doc_score@[d] == cap16(
                            score_upto(qv, dv, d, qi as int) + (value as nat) * inner_sum_upto(
                                ps,
                                d,
                                p + 1,
                            ),
                        ) by {
                            if d == di {
                                assert(inner_sum_upto(ps, d, p + 1) == inner_sum_upto(ps, d, p as int)
                                    + sc as nat);
                                assert((value as nat) * (inner_sum_upto(ps, d, p as int) + sc as nat)
                                    == (value as nat) * inner_sum_upto(ps, d, p as int) + (
                                value as nat) * (sc as nat)) by (nonlinear_arith);
                                assert((value as nat) * (sc as nat) == add) by {
                                    assert(add == value * sc);
                                }
                                lemma_cap16_add(
                                    score_upto(qv, dv, d, qi as int) + (value as nat)
                                        * inner_sum_upto(ps, d, p as int),
                                    (value as nat) * (sc as nat),
                                );
                            } else {
                                assert(inner_sum_upto(ps, d, p + 1) == inner_sum_upto(
                                    ps,
                                    d,
                                    p as int,
                                ));
                            }
                        }
                    }
                    p = p + 1;
                }
                proof {
                    assert forall|d: int| 0 <= d < bsize implies doc_score@[d] == cap16(
                        score_upto(qv, dv, d, qi + 1),
                    ) by {
                        assert(score_upto(qv, dv, d, qi + 1) == score_upto(qv, dv, d, qi as int) + (
                        qv[qi as int].1 as nat) * inner_sum(grp_lookup(dv, qv[qi as int].0), d));
                    }
                }
            } else {
                proof {
                    // no group matches this term
                    assert forall|g: int| 0 <= g < dv.len() implies dv[g].0 != coordinate by {
                        if g < ti {
                            assert(dv[g].0 < coordinate);
                        } else if g > ti {
                            assert(dv[ti as int].0 < dv[g].0);
                        }
                    }
                    assert(grp_lookup(dv, coordinate) =~= Seq::<(u8, u8)>::empty());
                    assert forall|d: int| 0 <= d < bsize implies doc_score@[d] == cap16(
                        score_upto(qv, dv, d, qi + 1),
                    ) by {
                        assert(inner_sum(Seq::<(u8, u8)>::empty(), d) == 0);
                        assert((qv[qi as int].1 as nat) * 0 == 0) by (nonlinear_arith);
                    }
                }
            }
            proof {
                if qi + 1 < qlen {
                    assert forall|g: int| 0 <= g < ti implies dv[g].0 < qv[qi + 1].0 by {
                        assert(dv[g].0 <= coordinate);
                        assert(qv[qi as int].0 < qv[qi + 1].0);
                    }
                }
            }
            qi = qi + 1;
        }
    }
    proof {
        if qi < qlen {
            // every remaining query term matches no group
            assert forall|qq: int| qi <= qq < qlen implies grp_lookup(dv, qv[qq].0) =~= Seq::<(
                u8,
                u8,
            )>::empty() by {
                assert forall|g: int| 0 <= g < dv.len() implies dv[g].0 != qv[qq].0 by {
                    assert(dv[g].0 < qv[qi as int].0);
                    assert(qv[qi as int].0 <= qv[qq].0);
                }
            }
            lemma_score_upto_stable(qv, dv, 0, qi as int, qlen as int);
            assert forall|d: int| 0 <= d < bsize implies doc_score@[d] == cap16(
                score_upto(qv, dv, d, qlen as int),
            ) by {
                lemma_score_upto_stable(qv, dv, d, qi as int, qlen as int);
            }
        }
    }
    doc_score
}

/// A per-document list has strictly ascending term ids.
pub open spec fn terms_strict(list: Seq<(u32, u32)>) -> bool {
    forall|i: int, j: int| 0 <= i < j < list.len() ==> list[i].0 < list[j].0
}

/// A per-document list's term ids fit in 16 bits.
pub open spec fn terms_fit(list: Seq<(u32, u32)>) -> bool {
    forall|i: int| 0 <= i < list.len() ==> (#[trigger] list[i]).0 < 65536
}

/// Packing of a (term, in-block document, quantized score) triple into
/// one integer whose numeric order is the wanted lexicographic order.
pub open spec fn pack3(t: int, dd: int, q: int) -> int {
    t * 65536 + dd * 256 + q
}

proof fn lemma_pack3(t: int, dd: int, q: int)
    requires
        0 <= t < 65536,
        0 <= dd < 256,
        0 <= q < 256,
    ensures
        0 <= pack3(t, dd, q) < 0x1_0000_0000,
        pack3(t, dd, q) / 65536 == t,
        (pack3(t, dd, q) / 256) % 256 == dd,
        pack3(t, dd, q) % 256 == q,
        pack3(t, dd, q) / 256 == t * 256 + dd,
{
    let p = pack3(t, dd, q);
    assert(0 <= p < 0x1_0000_0000 && p / 65536 == t && p / 256 == t * 256 + dd && (t * 256 + dd)
        % 256 == dd && p % 256 == q) by (nonlinear_arith)
        requires
            0 <= t < 65536,
            0 <= dd < 256,
            0 <= q < 256,
            p == t * 65536 + dd * 256 + q,
    ;
}

proof fn lemma_unpack3(k: int)
    requires
        0 <= k < 0x1_0000_0000,
    ensures
        k == pack3(k / 65536, (k / 256) % 256, k % 256),
        0 <= k / 65536 < 65536,
        0 <= (k / 256) % 256 < 256,
        0 <= k % 256 < 256,
        k / 256 == (k / 65536) * 256 + (k / 256) % 256,
{
    assert(k == (k / 65536) * 65536 + ((k / 256) % 256) * 256 + k % 256 && 0 <= k / 65536 < 65536
        && 0 <= (k / 256) % 256 < 256 && 0 <= k % 256 < 256 && k / 256 == (k / 65536) * 256 + (k
        / 256) % 256) by (nonlinear_arith)
        requires
            0 <= k < 0x1_0000_0000,
    ;
}

/// The packed keys of one document's list, at in-block position `dd`.
pub open spec fn doc_keys(list: Seq<(u32, u32)>, dd: int) -> Seq<u64> {
    Seq::new(list.len(), |k: int| pack3(list[k].0 as int, dd, quant(list[k].1) as int) as u64)
}

/// The packed keys of the first `cnt` documents of a block starting at
/// document `first`.
pub open spec fn block_keys(docs: Seq<Seq<(u32, u32)>>, first: int, cnt: int) -> Seq<u64>
    decreases cnt,
{
    if cnt <= 0 {
        Seq::empty()
    } else {
        block_keys(docs, first, cnt - 1) + doc_keys(docs[first + cnt - 1], cnt - 1)
    }
}

/// A document's list carries term `t` with quantized score `q`.
pub open spec fn doc_has(list: Seq<(u32, u32)>, t: int, q: u8) -> bool {
    exists|k: int| 0 <= k < list.len() && list[k].0 == t && quant(list[k].1) == q
}

/// A block's groups carry (in-block document `dd`, score `q`) under term
/// `t`.
pub open spec fn block_group_has(gs: Seq<(u16, Seq<(u8, u8)>)>, t: u16, dd: u8, q: u8) -> bool {
    exists|g: int, p: int|
        0 <= g < gs.len() && 0 <= p < gs[g].1.len() && gs[g].0 == t && gs[g].1[p] == (dd, q)
}

/// Element `m` of a block's packed keys is some document's triple.
pub open spec fn bk_elem_ok(docs: Seq<Seq<(u32, u32)>>, first: int, cnt: int, m: int) -> bool {
    exists|dd: int, k: int|
        #![trigger docs[first + dd][k]]
        0 <= dd < cnt && 0 <= k < docs[first + dd].len() && block_keys(docs, first, cnt)[m]
            == pack3(docs[first + dd][k].0 as int, dd, quant(docs[first + dd][k].1) as int)
}

/// The triple of document `dd`, entry `k` is among a block's packed
/// keys.
pub open spec fn bk_has_triple(docs: Seq<Seq<(u32, u32)>>, first: int, cnt: int, dd: int, k: int) -> bool {
    block_keys(docs, first, cnt).contains(
        (pack3(docs[first + dd][k].0 as int, dd, quant(docs[first + dd][k].1) as int)) as u64,
    )
}

proof fn lemma_block_keys_facts(docs: Seq<Seq<(u32, u32)>>, first: int, cnt: int)
    requires
        0 <= first,
        first + cnt <= docs.len(),
        0 <= cnt <= 256,
        forall|dd: int| 0 <= dd < cnt ==> terms_strict(#[trigger] docs[first + dd]) && terms_fit(
            docs[first + dd],
        ),
    ensures
        forall|m: int|
            0 <= m < block_keys(docs, first, cnt).len() ==> #[trigger] bk_elem_ok(
                docs,
                first,
                cnt,
                m,
            ),
        forall|dd: int, k: int|
            0 <= dd < cnt && 0 <= k < docs[first + dd].len() ==> #[trigger] bk_has_triple(
                docs,
                first,
                cnt,
                dd,
                k,
            ),
        forall|m1: int, m2: int|
            0 <= m1 < m2 < block_keys(docs, first, cnt).len() ==> block_keys(docs, first, cnt)[m1]
                / 256 != block_keys(docs, first, cnt)[m2] / 256,
        forall|m: int| 0 <= m < block_keys(docs, first, cnt).len() ==> block_keys(
            docs,
            first,
            cnt,
        )[m] < 0x1_0000_0000u64,
    decreases cnt,
{
    if cnt > 0 {
        lemma_block_keys_facts(docs, first, cnt - 1);
        let bk0 = block_keys(docs, first, cnt - 1);
        let list = docs[first + cnt - 1];
        let dk = doc_keys(list, cnt - 1);
        let bk = block_keys(docs, first, cnt);
        assert(bk == bk0 + dk);
        assert forall|k: int| 0 <= k < list.len() implies (#[trigger] dk[k]) == pack3(
            list[k].0 as int,
            cnt - 1,
            quant(list[k].1) as int,
        ) && dk[k] < 0x1_0000_0000u64 && dk[k] / 256 == (list[k].0 as int) * 256 + (cnt - 1) by {
            lemma_pack3(list[k].0 as int, cnt - 1, quant(list[k].1) as int);
        }
        // representation of every element
        assert forall|m: int| 0 <= m < block_keys(docs, first, cnt).len() implies #[trigger] bk_elem_ok(
            docs,
            first,
            cnt,
            m,
        ) by {
            if m < bk0.len() {
                assert(bk[m] == bk0[m]);
                assert(bk_elem_ok(docs, first, cnt - 1, m));
                let (dd, k): (int, int) = choose|dd: int, k: int|
                    #![trigger docs[first + dd][k]]
                    0 <= dd < cnt - 1 && 0 <= k < docs[first + dd].len() && bk0[m] == pack3(
                        docs[first + dd][k].0 as int,
                        dd,
                        quant(docs[first + dd][k].1) as int,
                    );
                assert(0 <= dd < cnt && 0 <= k < docs[first + dd].len() && bk[m] == pack3(
                    docs[first + dd][k].0 as int,
                    dd,
                    quant(docs[first + dd][k].1) as int,
                ));
            } else {
                let k = m - bk0.len();
                assert(bk[m] == dk[k]);
                assert(0 <= cnt - 1 < cnt && 0 <= k < docs[first + cnt - 1].len() && bk[m] == pack3(
                    docs[first + cnt - 1][k].0 as int,
                    cnt - 1,
                    quant(docs[first + cnt - 1][k].1) as int,
                ));
            }
        }
        // containment of every triple
        assert forall|dd: int, k: int|
            0 <= dd < cnt && 0 <= k < docs[first + dd].len() implies #[trigger] bk_has_triple(
            docs,
            first,
            cnt,
            dd,
            k,
        ) by {
            if dd < cnt - 1 {
                assert(bk_has_triple(docs, first, cnt - 1, dd, k));
                let x = (pack3(
                    docs[first + dd][k].0 as int,
                    dd,
                    quant(docs[first + dd][k].1) as int,
                )) as u64;
                assert(bk0.contains(x));
                let m = choose|m: int| 0 <= m < bk0.len() && bk0[m] == x;
                assert(bk[m] == x);
                assert(bk.contains(x));
            } else {
                assert(bk[bk0.len() + k] == dk[k]);
                assert(bk.contains(dk[k]));
            }
        }
        // pairwise distinct key classes
        assert forall|m1: int, m2: int| 0 <= m1 < m2 < block_keys(docs, first, cnt).len() implies
            block_keys(docs, first, cnt)[m1] / 256 != block_keys(docs, first, cnt)[m2] / 256 by {
            if m2 < bk0.len() {
            } else if m1 >= bk0.len() {
                let k1 = m1 - bk0.len();
                let k2 = m2 - bk0.len();
                assert(list[k1].0 < list[k2].0);
            } else {
                let k2 = m2 - bk0.len();
                assert(bk[m2] / 256 == (list[k2].0 as int) * 256 + (cnt - 1));
                assert(bk_elem_ok(docs, first, cnt - 1, m1));
                let (dd, k): (int, int) = choose|dd: int, k: int|
                    #![trigger docs[first + dd][k]]
                    0 <= dd < cnt - 1 && 0 <= k < docs[first + dd].len() && bk0[m1] == pack3(
                        docs[first + dd][k].0 as int,
                        dd,
                        quant(docs[first + dd][k].1) as int,
                    );
                lemma_pack3(docs[first + dd][k].0 as int, dd, quant(docs[first + dd][k].1) as int);
                assert(bk[m1] / 256 == (docs[first + dd][k].0 as int) * 256 + dd);
                assert(((docs[first + dd][k].0 as int) * 256 + dd) % 256 == dd && ((
                list[k2].0 as int) * 256 + (cnt - 1)) % 256 == cnt - 1) by (nonlinear_arith)
                    requires
                        0 <= dd < 256,
                        0 <= cnt - 1 < 256,
                ;
            }
        }
    }
}

/// The packed keys of one group's pairs.
pub open spec fn pair_keys3(t: u16, ps: Seq<(u8, u8)>) -> Seq<u64> {
    Seq::new(ps.len(), |k: int| pack3(t as int, ps[k].0 as int, ps[k].1 as int) as u64)
}

/// The packed keys of a block's groups, in listed order.
pub open spec fn groups_flat(gs: Seq<(u16, Seq<(u8, u8)>)>) -> Seq<u64>
    decreases gs.len(),
{
    if gs.len() == 0 {
        Seq::empty()
    } else {
        groups_flat(gs.drop_last()) + pair_keys3(gs.last().0, gs.last().1)
    }
}

/// Element `m` of a block's flattened groups is some group's pair.
pub open spec fn gf_elem_ok(gs: Seq<(u16, Seq<(u8, u8)>)>, m: int) -> bool {
    exists|g: int, p: int|
        #![trigger gs[g].1[p]]
        0 <= g < gs.len() && 0 <= p < gs[g].1.len() && groups_flat(gs)[m] == pack3(
            gs[g].0 as int,
            gs[g].1[p].0 as int,
            gs[g].1[p].1 as int,
        )
}

/// Group `g`, pair `p` is among a block's flattened groups.
pub open spec fn gf_has_pair(gs: Seq<(u16, Seq<(u8, u8)>)>, g: int, p: int) -> bool {
    groups_flat(gs).contains(
        pack3(gs[g].0 as int, gs[g].1[p].0 as int, gs[g].1[p].1 as int) as u64,
    )
}

proof fn lemma_groups_flat_facts(gs: Seq<(u16, Seq<(u8, u8)>)>)
    ensures
        forall|m: int| 0 <= m < groups_flat(gs).len() ==> #[trigger] gf_elem_ok(gs, m),
        forall|g: int, p: int|
            0 <= g < gs.len() && 0 <= p < gs[g].1.len() ==> #[trigger] gf_has_pair(gs, g, p),
    decreases gs.len(),
{
    if gs.len() > 0 {
        let gs0 = gs.drop_last();
        lemma_groups_flat_facts(gs0);
        let fl0 = groups_flat(gs0);
        let pk = pair_keys3(gs.last().0, gs.last().1);
        let fl = groups_flat(gs);
        assert(fl == fl0 + pk);
        assert forall|m: int| 0 <= m < groups_flat(gs).len() implies #[trigger] gf_elem_ok(
            gs,
            m,
        ) by {
            if m < fl0.len() {
                assert(fl[m] == fl0[m]);
                assert(gf_elem_ok(gs0, m));
                let (g, p): (int, int) = choose|g: int, p: int|
                    #![trigger gs0[g].1[p]]
                    0 <= g < gs0.len() && 0 <= p < gs0[g].1.len() && fl0[m] == pack3(
                        gs0[g].0 as int,
                        gs0[g].1[p].0 as int,
                        gs0[g].1[p].1 as int,
                    );
                assert(gs0[g] == gs[g]);
                assert(0 <= g < gs.len() && 0 <= p < gs[g].1.len() && fl[m] == pack3(
                    gs[g].0 as int,
                    gs[g].1[p].0 as int,
                    gs[g].1[p].1 as int,
                ));
            } else {
                let p = m - fl0.len();
                let g = gs.len() - 1;
                assert(fl[m] == pk[p]);
                assert(0 <= g < gs.len() && 0 <= p < gs[g].1.len() && fl[m] == pack3(
                    gs[g].0 as int,
                    gs[g].1[p].0 as int,
                    gs[g].1[p].1 as int,
                ));
            }
        }
        assert forall|g: int, p: int|
            0 <= g < gs.len() && 0 <= p < gs[g].1.len() implies #[trigger] gf_has_pair(
            gs,
            g,
            p,
        ) by {
            if g < gs.len() - 1 {
                assert(gs0[g] == gs[g]);
                assert(gf_has_pair(gs0, g, p));
                let x = pack3(gs[g].0 as int, gs[g].1[p].0 as int, gs[g].1[p].1 as int) as u64;
                assert(fl0.contains(x));
                let m = choose|m: int| 0 <= m < fl0.len() && fl0[m] == x;
                assert(fl[m] == x);
                assert(fl.contains(x));
            } else {
                assert(fl[fl0.len() + p] == pk[p]);
                assert(fl.contains(pk[p]));
            }
        }
    }
}

/// Groups strictly ascending sorted keys by term, preserving key order.
fn group_sorted_keys(keys: &Vec<u64>) -> (groups: Vec<(u16, Vec<(u8, u8)>)>)
    requires
        forall|m1: int, m2: int| 0 <= m1 < m2 < keys@.len() ==> keys@[m1] < keys@[m2],
        forall|m1: int, m2: int|
            0 <= m1 < m2 < keys@.len() ==> keys@[m1] / 256 != keys@[m2] / 256,
        forall|m: int| 0 <= m < keys@.len() ==> keys@[m] < 0x1_0000_0000u64,
    ensures
        groups_flat(block_view(groups@)) =~= keys@,
        forall|g1: int, g2: int|
            0 <= g1 < g2 < groups@.len() ==> groups@[g1].0 < groups@[g2].0,
        forall|g: int, p1: int, p2: int|
            0 <= g < groups@.len() && 0 <= p1 < p2 < groups@[g].1@.len() ==> groups@[g].1@[p1].0
                < groups@[g].1@[p2].0,
        forall|g: int| 0 <= g < groups@.len() ==> groups@[g].1@.len() > 0,
{
    let mut groups: Vec<(u16, Vec<(u8, u8)>)> = Vec::new();
    let n = keys.len();
    let mut i: usize = 0;
    proof {
        assert(block_view(groups@) =~= Seq::<(u16, Seq<(u8, u8)>)>::empty());
        assert(groups_flat(block_view(groups@)) =~= keys@.subrange(0, 0));
    }
    while i < n
        invariant
            n == keys@.len(),
            forall|m1: int, m2: int| 0 <= m1 < m2 < keys@.len() ==> keys@[m1] < keys@[m2],
            forall|m1: int, m2: int|
                0 <= m1 < m2 < keys@.len() ==> keys@[m1] / 256 != keys@[m2] / 256,
            forall|m: int| 0 <= m < keys@.len() ==> keys@[m] < 0x1_0000_0000u64,
            0 <= i <= n,
            groups_flat(block_view(groups@)) =~= keys@.subrange(0, i as int),
            forall|g1: int, g2: int|
                0 <= g1 < g2 < groups@.len() ==> groups@[g1].0 < groups@[g2].0,
            forall|g: int, p1: int, p2: int|
                0 <= g < groups@.len() && 0 <= p1 < p2 < groups@[g].1@.len() ==> groups@[g].1@[p1].0
                    < groups@[g].1@[p2].0,
            forall|g: int| 0 <= g < groups@.len() ==> groups@[g].1@.len() > 0,
            (i > 0) == (groups@.len() > 0),
            i > 0 ==> groups@.last().0 as int == keys@[i - 1] as int / 65536,
            i > 0 ==> pack3(
                groups@.last().0 as int,
                groups@.last().1@.last().0 as int,
                groups@.last().1@.last().1 as int,
            ) == keys@[i - 1] as int,
        decreases n - i,
    {
        let k = keys[i];
        let ghost ki = k as int;
        proof {
            lemma_unpack3(k as int);
        }
        let t: u16 = (k / 65536) as u16;
        let dd: u8 = ((k / 256) % 256) as u8;
        let q: u8 = (k % 256) as u8;
        let ghost gv0 = block_view(groups@);
        let push_new: bool = if i == 0 {
            true
        } else {
            let last_t = groups[groups.len() - 1].0;
            last_t != t
        };
        if push_new {
            proof {
                if i > 0 {
                    // strictly larger term than every existing group
                    let kprev = keys@[i - 1] as int;
                    assert(kprev < k as int);
                    assert(kprev / 65536 <= ki / 65536) by (nonlinear_arith)
                        requires
                            0 <= kprev < ki,
                    ;
                    assert(gv0.last().0 as int != t as int);
                    assert(gv0.last().0 < t);
                }
            }
            let mut inner: Vec<(u8, u8)> = Vec::new();
            inner.push((dd, q));
            groups.push((t, inner));
            proof {
                let gv1 = block_view(groups@);
                assert(gv1.drop_last() =~= gv0);
                assert(pair_keys3(t, gv1.last().1) =~= seq![k]);
                assert(groups_flat(gv1) =~= groups_flat(gv0) + seq![k]);
                assert(groups_flat(gv1) =~= keys@.subrange(0, i + 1)) by {
                    assert(keys@.subrange(0, i + 1) =~= keys@.subrange(0, i as int).push(k));
                }
            }
        } else {
            proof {
                // same term as the last group: the in-block document id
                // strictly grew
                let kprev = keys@[i - 1] as int;
                lemma_unpack3(kprev);
                assert(kprev < ki);
                assert(kprev / 256 <= ki / 256) by (nonlinear_arith)
                    requires
                        0 <= kprev < ki,
                ;
                assert(kprev / 256 != ki / 256);
                assert(gv0.last().0 == t);
                assert(kprev / 256 == (kprev / 65536) * 256 + (kprev / 256) % 256);
                assert(ki / 256 == (ki / 65536) * 256 + (ki / 256) % 256);
                assert(kprev / 65536 == t as int);
                assert(gv0.last().1.last().0 as int == (kprev / 256) % 256) by {
                    lemma_pack3(
                        gv0.last().0 as int,
                        gv0.last().1.last().0 as int,
                        gv0.last().1.last().1 as int,
                    );
                }
                assert((kprev / 256) % 256 < (ki / 256) % 256);
            }
            let last = groups.len() - 1;
            let popped = groups.pop();
            match popped {
                Some((gt, mut inner)) => {
                    let ghost inner0 = inner@;
                    inner.push((dd, q));
                    groups.push((gt, inner));
                    proof {
                        let gv1 = block_view(groups@);
                        assert(gv1.drop_last() =~= gv0.drop_last());
                        assert(gv1.last().0 == gt && gt == t);
                        assert(gv1.last().1 =~= inner0.push((dd, q)));
                        assert(pair_keys3(t, inner0.push((dd, q))) =~= pair_keys3(t, inner0).push(
                            k,
                        ));
                        assert(groups_flat(gv1) =~= groups_flat(gv0.drop_last()) + pair_keys3(
                            t,
                            inner0,
                        ) + seq![k]);
                        assert(groups_flat(gv0) =~= groups_flat(gv0.drop_last()) + pair_keys3(
                            t,
                            inner0,
                        ));
                        assert(groups_flat(gv1) =~= keys@.subrange(0, i + 1)) by {
                            assert(keys@.subrange(0, i + 1) =~= keys@.subrange(0, i as int).push(
                                k,
                            ));
                        }
                    }
                },
                None => {
                    proof {
                        assert(false);
                    }
                },
            }
        }
        i = i + 1;
    }
    proof {
        assert(keys@.subrange(0, n as int) =~= keys@);
    }
    groups
}

/// The number of documents in block `b`: `bsize`, or fewer in the last
/// block.
pub open spec fn spec_blen(n: int, bsize: int, b: int) -> int {
    if n - b * bsize < bsize {
        n - b * bsize
    } else {
        bsize
    }
}

/// Term `t` appears with quantized score `q` in the document at offset
/// `dd` of the block starting at `first`.
pub open spec fn doc_has_in(docs: Seq<Seq<(u32, u32)>>, first: int, dd: int, t: int, q: u8) -> bool {
    doc_has(docs[first + dd], t, q)
}

/// A block's groups carry exactly the (term, offset, quantized score)
/// triples of its documents.
pub open spec fn block_matches(
    bv: Seq<(u16, Seq<(u8, u8)>)>,
    docs: Seq<Seq<(u32, u32)>>,
    first: int,
    blen: int,
) -> bool {
    forall|t: u16, dd: u8, q: u8|
        #![trigger block_group_has(bv, t, dd, q)]
        block_group_has(bv, t, dd, q) <==> (dd < blen && doc_has_in(docs, first, dd as int, t as int, q))
}

/// Structural well-formedness of one block: groups strictly ascending by
/// term id, inner lists non-empty and strictly ascending by in-block
/// document id, all in-block ids below the block size.
pub open spec fn block_wf(bv: Seq<(u16, Seq<(u8, u8)>)>, bsize: int) -> bool {
    &&& forall|g1: int, g2: int| 0 <= g1 < g2 < bv.len() ==> bv[g1].0 < bv[g2].0
    &&& forall|g: int, p1: int, p2: int|
        0 <= g < bv.len() && 0 <= p1 < p2 < bv[g].1.len() ==> bv[g].1[p1].0 < bv[g].1[p2].0
    &&& forall|g: int| 0 <= g < bv.len() ==> (#[trigger] bv[g]).1.len() > 0
    &&& forall|g: int, p: int|
        0 <= g < bv.len() && 0 <= p < bv[g].1.len() ==> (#[trigger] bv[g].1[p]).0 < bsize
}

/// Converts the document-major forward index into blocked form: each
/// block of `block_size` consecutive documents becomes a term-sorted
/// list of (term, [(in-block document id, quantized score)]) groups.
#[verifier::rlimit(100)]
pub fn fwd2bfwd(fwd: &ForwardIndex, block_size: usize) -> (r: BlockForwardIndex)
    requires
        1 <= block_size <= 256,
        fwd@.len() < usize::MAX - 256,
        forall|d: int| 0 <= d < fwd@.len() ==> terms_strict(#[trigger] fwd@[d]) && terms_fit(
            fwd@[d],
        ),
    ensures
        r.block_size == block_size,
        r@.len() == spec_div_ceil(fwd@.len() as nat, block_size as nat),
        forall|b: int| 0 <= b < r@.len() ==> block_wf(#[trigger] r@[b], block_size as int),
        forall|b: int| 0 <= b < r@.len() ==> block_matches(
            #[trigger] r@[b],
            fwd@,
            b * block_size,
            spec_blen(fwd@.len() as int, block_size as int, b),
        ),
{
    let ghost docs = fwd@;
    let n = fwd.data.len();
    let nblocks = div_ceil(n, block_size);
    let mut out: Vec<Vec<(u16, Vec<(u8, u8)>)>> = Vec::new();
    let mut b: usize = 0;
    while b < nblocks
        invariant
            docs == fwd@,
            n == docs.len(),
            1 <= block_size <= 256,
            n < usize::MAX - 256,
            nblocks == spec_div_ceil(n as nat, block_size as nat),
            forall|d: int| 0 <= d < docs.len() ==> terms_strict(#[trigger] docs[d]) && terms_fit(
                docs[d],
            ),
            0 <= b <= nblocks,
            out@.len() == b,
            forall|bb: int| 0 <= bb < b ==> block_wf(
                #[trigger] block_view(out@[bb]@),
                block_size as int,
            ),
            forall|bb: int| 0 <= bb < b ==> block_matches(
                #[trigger] block_view(out@[bb]@),
                docs,
                bb * block_size,
                spec_blen(n as int, block_size as int, bb),
            ),
        decreases nblocks - b,
    {
        proof {
            assert(b * block_size < n && b * block_size + block_size < usize::MAX) by (nonlinear_arith)
                requires
                    0 <= b,
                    b < (n + block_size - 1) / (block_size as int),
                    1 <= block_size <= 256,
                    n < usize::MAX - 256,
            ;
        }
        let first = b * block_size;
        let blen: usize = if n - first < block_size {
            n - first
        } else {
            block_size
        };
        proof {
            assert(blen == spec_blen(n as int, block_size as int, b as int));
            assert(1 <= blen <= 256);
        }
        // collect the block's packed keys, document-major
        let mut keys: Vec<u64> = Vec::new();
        let mut idx: usize = 0;
        proof {
            assert(keys@ =~= block_keys(docs, first as int, 0));
        }
        while idx < blen
            invariant
                docs == fwd@,
                n == docs.len(),
                first + blen <= n,
                0 <= first,
                1 <= blen <= 256,
                forall|d: int| 0 <= d < docs.len() ==> terms_strict(#[trigger] docs[d])
                    && terms_fit(docs[d]),
                0 <= idx <= blen,
                keys@ =~= block_keys(docs, first as int, idx as int),
            decreases blen - idx,
        {
            let list: &Vec<(u32, u32)> = &fwd.data[first + idx];
            let llen = list.len();
            let ghost lv = docs[first + idx];
            let mut kk: usize = 0;
            proof {
                assert(lv == list@);
                assert(doc_keys(lv, idx as int).subrange(0, 0) =~= Seq::<u64>::empty());
                assert(keys@ =~= block_keys(docs, first as int, idx as int) + doc_keys(
                    lv,
                    idx as int,
                ).subrange(0, 0));
            }
            while kk < llen
                invariant
                    llen == list@.len(),
                    lv == list@,
                    terms_strict(lv),
                    terms_fit(lv),
                    0 <= idx < 256,
                    0 <= kk <= llen,
                    keys@ =~= block_keys(docs, first as int, idx as int) + doc_keys(
                        lv,
                        idx as int,
                    ).subrange(0, kk as int),
                decreases llen - kk,
            {
                let (t, sc) = list[kk];
                proof {
                    lemma_pack3(t as int, idx as int, quant(sc) as int);
                }
                let key: u64 = (t as u64) * 65536 + (idx as u64) * 256 + ((sc % 256) as u64);
                keys.push(key);
                proof {
                    assert(key as int == pack3(t as int, idx as int, quant(sc) as int));
                    assert(doc_keys(lv, idx as int)[kk as int] == key);
                    assert(doc_keys(lv, idx as int).subrange(0, kk + 1) =~= doc_keys(
                        lv,
                        idx as int,
                    ).subrange(0, kk as int).push(key));
                }
                kk = kk + 1;
            }
            proof {
                assert(doc_keys(lv, idx as int).subrange(0, llen as int) =~= doc_keys(
                    lv,
                    idx as int,
                ));
                assert(keys@ =~= block_keys(docs, first as int, idx + 1));
            }
            idx = idx + 1;
        }
        // sort and regroup by term
        proof {
            lemma_block_keys_facts(docs, first as int, blen as int);
            assert(keys@.no_duplicates()) by {
                assert forall|m1: int, m2: int|
                    0 <= m1 < keys@.len() && 0 <= m2 < keys@.len() && m1 != m2 implies keys@[m1]
                    != keys@[m2] by {
                    if m1 < m2 {
                        assert(keys@[m1] / 256 != keys@[m2] / 256);
                    } else {
                        assert(keys@[m2] / 256 != keys@[m1] / 256);
                    }
                }
            }
        }
        let skeys = crate::sorting::sort_u64(&keys);
        proof {
            keys@.lemma_multiset_has_no_duplicates();
            skeys@.lemma_multiset_has_no_duplicates_conv();
            crate::sorting::lemma_sorted_no_dup_strict(skeys@);
            keys@.to_multiset_ensures();
            skeys@.to_multiset_ensures();
            // sorted keys keep pairwise-distinct key classes
            assert forall|m1: int, m2: int|
                0 <= m1 < m2 < skeys@.len() implies skeys@[m1] / 256 != skeys@[m2] / 256 by {
                assert(skeys@.contains(skeys@[m1]));
                assert(skeys@.contains(skeys@[m2]));
                assert(skeys@.to_multiset().count(skeys@[m1]) > 0);
                assert(skeys@.to_multiset().count(skeys@[m2]) > 0);
                assert(keys@.to_multiset().count(skeys@[m1]) > 0);
                assert(keys@.to_multiset().count(skeys@[m2]) > 0);
                assert(keys@.contains(skeys@[m1]));
                assert(keys@.contains(skeys@[m2]));
                let p1 = choose|p: int| 0 <= p < keys@.len() && keys@[p] == skeys@[m1];
                let p2 = choose|p: int| 0 <= p < keys@.len() && keys@[p] == skeys@[m2];
                assert(skeys@[m1] != skeys@[m2]);
                assert(p1 != p2);
                if p1 < p2 {
                    assert(keys@[p1] / 256 != keys@[p2] / 256);
                } else {
                    assert(keys@[p2] / 256 != keys@[p1] / 256);
                }
            }
            assert forall|m: int| 0 <= m < skeys@.len() implies skeys@[m] < 0x1_0000_0000u64 by {
                assert(skeys@.contains(skeys@[m]));
                assert(skeys@.to_multiset().count(skeys@[m]) > 0);
                assert(keys@.to_multiset().count(skeys@[m]) > 0);
                assert(keys@.contains(skeys@[m]));
                let p = choose|p: int| 0 <= p < keys@.len() && keys@[p] == skeys@[m];
                assert(keys@[p] < 0x1_0000_0000u64);
            }
        }
        let groups = group_sorted_keys(&skeys);
        let ghost gv = block_view(groups@);
        proof {
            lemma_groups_flat_facts(gv);
            let firsti = first as int;
            let bleni = blen as int;
            // membership chain between block groups and document lists
            assert forall|t: u16, dd: u8, q: u8|
                #![trigger block_group_has(gv, t, dd, q)]
                block_group_has(gv, t, dd, q) <==> (dd < bleni && doc_has_in(
                docs,
                firsti,
                dd as int,
                t as int,
                q,
            )) by {
                lemma_pack3(t as int, dd as int, q as int);
                let x = pack3(t as int, dd as int, q as int) as u64;
                if block_group_has(gv, t, dd, q) {
                    let (g, p): (int, int) = choose|g: int, p: int|
                        0 <= g < gv.len() && 0 <= p < gv[g].1.len() && gv[g].0 == t && gv[g].1[p]
                            == (dd, q);
                    assert(gf_has_pair(gv, g, p));
                    assert(groups_flat(gv).contains(x));
                    let m = choose|m: int| 0 <= m < groups_flat(gv).len() && groups_flat(gv)[m]
                        == x;
                    assert(skeys@[m] == x);
                    assert(skeys@.contains(x));
                    assert(skeys@.to_multiset().count(x) > 0);
                    assert(keys@.to_multiset().count(x) > 0);
                    assert(keys@.contains(x));
                    let mk = choose|mk: int| 0 <= mk < keys@.len() && keys@[mk] == x;
                    assert(bk_elem_ok(docs, firsti, bleni, mk));
                    let (dd0, k0): (int, int) = choose|dd0: int, k0: int|
                        #![trigger docs[firsti + dd0][k0]]
                        0 <= dd0 < bleni && 0 <= k0 < docs[firsti + dd0].len() && block_keys(
                            docs,
                            firsti,
                            bleni,
                        )[mk] == pack3(
                            docs[firsti + dd0][k0].0 as int,
                            dd0,
                            quant(docs[firsti + dd0][k0].1) as int,
                        );
                    lemma_pack3(
                        docs[firsti + dd0][k0].0 as int,
                        dd0,
                        quant(docs[firsti + dd0][k0].1) as int,
                    );
                    assert(docs[firsti + dd0][k0].0 == t as u32 && dd0 == dd as int && quant(
                        docs[firsti + dd0][k0].1,
                    ) == q);
                    assert(doc_has(docs[firsti + dd as int], t as int, q));
                }
                if dd < bleni && doc_has_in(docs, firsti, dd as int, t as int, q) {
                    let k0 = choose|k0: int|
                        #![trigger docs[firsti + dd as int][k0]]
                        0 <= k0 < docs[firsti + dd as int].len() && docs[firsti + dd as int][k0].0
                            == t as int && quant(docs[firsti + dd as int][k0].1) == q;
                    assert(bk_has_triple(docs, firsti, bleni, dd as int, k0));
                    assert(keys@.contains(x));
                    assert(keys@.to_multiset().count(x) > 0);
                    assert(skeys@.to_multiset().count(x) > 0);
                    assert(skeys@.contains(x));
                    let m = choose|m: int| 0 <= m < skeys@.len() && skeys@[m] == x;
                    assert(groups_flat(gv)[m] == x);
                    assert(0 <= m < groups_flat(gv).len());
                    assert(gf_elem_ok(gv, m));
                    let (g, p): (int, int) = choose|g: int, p: int|
                        #![trigger gv[g].1[p]]
                        0 <= g < gv.len() && 0 <= p < gv[g].1.len() && groups_flat(gv)[m] == pack3(
                            gv[g].0 as int,
                            gv[g].1[p].0 as int,
                            gv[g].1[p].1 as int,
                        );
                    lemma_pack3(gv[g].0 as int, gv[g].1[p].0 as int, gv[g].1[p].1 as int);
                    assert(gv[g].0 == t && gv[g].1[p].0 == dd && gv[g].1[p].1 == q);
                    assert(block_group_has(gv, t, dd, q));
                }
            }
            // in-block ids stay below the block length
            assert forall|g: int, p: int|
                0 <= g < gv.len() && 0 <= p < gv[g].1.len() implies (#[trigger] gv[g].1[p]).0
                < blen by {
                assert(gf_has_pair(gv, g, p));
                let x = pack3(gv[g].0 as int, gv[g].1[p].0 as int, gv[g].1[p].1 as int) as u64;
                assert(groups_flat(gv).contains(x));
                let m = choose|m: int| 0 <= m < groups_flat(gv).len() && groups_flat(gv)[m] == x;
                assert(skeys@[m] == x);
                assert(skeys@.contains(x));
                assert(skeys@.to_multiset().count(x) > 0);
                assert(keys@.to_multiset().count(x) > 0);
                assert(keys@.contains(x));
                let mk = choose|mk: int| 0 <= mk < keys@.len() && keys@[mk] == x;
                assert(bk_elem_ok(docs, firsti, bleni, mk));
                let (dd0, k0): (int, int) = choose|dd0: int, k0: int|
                    #![trigger docs[firsti + dd0][k0]]
                    0 <= dd0 < bleni && 0 <= k0 < docs[firsti + dd0].len() && block_keys(
                        docs,
                        firsti,
                        bleni,
                    )[mk] == pack3(
                        docs[firsti + dd0][k0].0 as int,
                        dd0,
                        quant(docs[firsti + dd0][k0].1) as int,
                    );
                lemma_pack3(
                    docs[firsti + dd0][k0].0 as int,
                    dd0,
                    quant(docs[firsti + dd0][k0].1) as int,
                );
                lemma_pack3(gv[g].0 as int, gv[g].1[p].0 as int, gv[g].1[p].1 as int);
                assert(gv[g].1[p].0 as int == dd0);
            }
        }
        out.push(groups);
        proof {
            assert(block_view(out@[b as int]@) == gv);
            assert(block_wf(gv, block_size as int));
            assert(block_matches(gv, docs, b * block_size, spec_blen(
                n as int,
                block_size as int,
                b as int,
            )));
        }
        b = b + 1;
    }
    BlockForwardIndex { data: out, block_size }
}

/// A multiset-preserving rearrangement keeps membership of every pair.
pub proof fn lemma_multiset_contains_pairs(s1: Seq<(u32, u32)>, s2: Seq<(u32, u32)>)
    requires
        s1.to_multiset() == s2.to_multiset(),
    ensures
        forall|x: (u32, u32)| s1.contains(x) <==> s2.contains(x),
{
    s1.to_multiset_ensures();
    s2.to_multiset_ensures();
    assert forall|x: (u32, u32)| s1.contains(x) <==> s2.contains(x) by {
        if s1.contains(x) {
            assert(s1.to_multiset().count(x) > 0);
            assert(s2.to_multiset().count(x) > 0);
        }
        if s2.contains(x) {
            assert(s2.to_multiset().count(x) > 0);
            assert(s1.to_multiset().count(x) > 0);
        }
    }
}

/// If one arrangement of a pair multiset has pairwise-distinct first
/// components, so does every other arrangement.
pub proof fn lemma_multiset_distinct_proj(s1: Seq<(u32, u32)>, s2: Seq<(u32, u32)>)
    requires
        s1.to_multiset() == s2.to_multiset(),
        forall|a: int, b: int| 0 <= a < b < s1.len() ==> s1[a].0 != s1[b].0,
    ensures
        forall|a: int, b: int| 0 <= a < b < s2.len() ==> s2[a].0 != s2[b].0,
{
    s1.to_multiset_ensures();
    s2.to_multiset_ensures();
    assert forall|a: int, b: int| 0 <= a < b < s2.len() implies s2[a].0 != s2[b].0 by {
        if s2[a].0 == s2[b].0 {
            if s2[a] == s2[b] {
                // the pair occurs at least twice, so it occurs twice in s1
                let v = s2[a];
                assert(s2.remove(a).to_multiset() =~= s2.to_multiset().remove(v));
                assert(s2.remove(a)[b - 1] == v);
                assert(s2.remove(a).contains(v));
                s2.remove(a).to_multiset_ensures();
                assert(s2.to_multiset().remove(v).count(v) > 0);
                assert(s2.to_multiset().count(v) >= 2);
                assert(s1.to_multiset().count(v) >= 2);
                assert(s1.contains(v));
                let p = choose|p: int| 0 <= p < s1.len() && s1[p] == v;
                assert(s1.remove(p).to_multiset() =~= s1.to_multiset().remove(v));
                s1.remove(p).to_multiset_ensures();
                assert(s1.remove(p).to_multiset().count(v) > 0);
                assert(s1.remove(p).contains(v));
                let p2 = choose|pp: int| 0 <= pp < s1.remove(p).len() && s1.remove(p)[pp] == v;
                s1.remove_ensures(p);
                if p2 < p {
                    assert(s1[p2] == v);
                    assert(s1[p2].0 != s1[p].0 || p2 == p);
                } else {
                    assert(s1[p2 + 1] == v);
                    assert(s1[p].0 != s1[p2 + 1].0);
                }
            } else {
                // two different pairs with one first component, both in s1
                assert(s2.contains(s2[a]) && s2.contains(s2[b]));
                assert(s2.to_multiset().count(s2[a]) > 0 && s2.to_multiset().count(s2[b]) > 0);
                assert(s1.to_multiset().count(s2[a]) > 0 && s1.to_multiset().count(s2[b]) > 0);
                assert(s1.contains(s2[a]) && s1.contains(s2[b]));
                let p = choose|p: int| 0 <= p < s1.len() && s1[p] == s2[a as int];
                let q = choose|q: int| 0 <= q < s1.len() && s1[q] == s2[b as int];
                assert(p != q);
                if p < q {
                    assert(s1[p].0 != s1[q].0);
                } else {
                    assert(s1[q].0 != s1[p].0);
                }
            }
        }
    }
}

} // verus!
