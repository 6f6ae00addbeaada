//! The inverted index: per-term block maxima and quantile scores, the
//! term dictionary, and the document-name table.

use vstd::prelude::*;
use vstd::relations::{sorted_by, total_ordering};
use crate::arith::{div_ceil, spec_div_ceil};
use crate::errors::BmpError;
use crate::forward_index::quant;
use crate::lexorder::{lex_le, str_bytes, str_eq, sort_term_indices, lemma_lex_antisym, lemma_lex_trans, lemma_bytes_eq_views_eq};
use crate::live_block::pairs_lookup;
use crate::posting_list::{BlockData, CompressedBlock, PostingList, PostingListIterator};
use crate::sorting::{sort_u64, sorted_u64, lemma_sorted_multiset_unique};

verus! {

/// The per-block maximum quantized score of one posting list: 0 when the
/// block holds no posting of this term.
pub open spec fn spec_block_max(list: Seq<(u32, u32)>, bsize: int, b: int) -> u8
    decreases list.len(),
{
    if list.len() == 0 {
        0
    } else {
        let rest = spec_block_max(list.drop_last(), bsize, b);
        if list.last().0 as int / bsize == b && quant(list.last().1) > rest {
            quant(list.last().1)
        } else {
            rest
        }
    }
}

/// The dense per-block maxima of one posting list.
pub open spec fn dense_range_max(list: Seq<(u32, u32)>, bsize: int, nb: int) -> Seq<u8> {
    Seq::new(nb as nat, |b: int| spec_block_max(list, bsize, b))
}

/// The per-block maximum is the greatest quantized score of the block's
/// postings, and 0 when the block has none.
pub proof fn lemma_block_max_correct(list: Seq<(u32, u32)>, bsize: int, b: int)
    requires
        bsize >= 1,
    ensures
        forall|k: int|
            0 <= k < list.len() && (#[trigger] list[k]).0 as int / bsize == b ==> quant(list[k].1)
                <= spec_block_max(list, bsize, b),
        spec_block_max(list, bsize, b) > 0 ==> exists|k: int|
            0 <= k < list.len() && (#[trigger] list[k]).0 as int / bsize == b && quant(list[k].1)
                == spec_block_max(list, bsize, b),
    decreases list.len(),
{
    if list.len() > 0 {
        lemma_block_max_correct(list.drop_last(), bsize, b);
        let l0 = list.drop_last();
        assert(forall|k: int| 0 <= k < l0.len() ==> l0[k] == list[k]);
        let m = spec_block_max(list, bsize, b);
        if m > 0 {
            if list.last().0 as int / bsize == b && quant(list.last().1) > spec_block_max(
                l0,
                bsize,
                b,
            ) {
                assert(list[list.len() - 1].0 as int / bsize == b && quant(list[list.len() - 1].1)
                    == m);
            } else {
                let k0 = choose|k: int|
                    0 <= k < l0.len() && (#[trigger] l0[k]).0 as int / bsize == b && quant(l0[k].1)
                        == spec_block_max(l0, bsize, b);
                assert(list[k0].0 as int / bsize == b && quant(list[k0].1) == m);
            }
        }
    }
}

/// Builds the dense per-block maxima of one posting list.
fn build_range_max(list: &Vec<(u32, u32)>, bsize: usize, nblocks: usize) -> (r: Vec<u8>)
    requires
        bsize >= 1,
        forall|k: int| 0 <= k < list@.len() ==> (#[trigger] list@[k]).0 as int / (bsize as int)
            < nblocks,
    ensures
        r@.len() == nblocks,
        forall|b: int| 0 <= b < nblocks ==> r@[b] == spec_block_max(list@, bsize as int, b),
{
    let mut rm: Vec<u8> = vec![0u8; nblocks];
    let n = list.len();
    let mut k: usize = 0;
    proof {
        assert(list@.subrange(0, 0) =~= Seq::<(u32, u32)>::empty());
    }
    while k < n
        invariant
            n == list@.len(),
            bsize >= 1,
            forall|kk: int| 0 <= kk < list@.len() ==> (#[trigger] list@[kk]).0 as int / (
            bsize as int) < nblocks,
            0 <= k <= n,
            rm@.len() == nblocks,
            forall|b: int| 0 <= b < nblocks ==> rm@[b] == spec_block_max(
                list@.subrange(0, k as int),
                bsize as int,
                b,
            ),
        decreases n - k,
    {
        let (docid, score) = list[k];
        let du: usize = (docid as usize) / bsize;
        let q: u8 = (score % 256) as u8;
        let cur = rm[du];
        if q > cur {
            rm[du] = q;
        }
        proof {
            let pre = list@.subrange(0, k as int);
            let cur_s = list@.subrange(0, k + 1);
            assert(cur_s.drop_last() =~= pre);
            assert(cur_s.last() == list@[k as int]);
            assert forall|b: int| 0 <= b < nblocks implies rm@[b] == spec_block_max(
                cur_s,
                bsize as int,
                b,
            ) by {
                if b != du as int {
                    assert(spec_block_max(cur_s, bsize as int, b) == spec_block_max(
                        pre,
                        bsize as int,
                        b,
                    ));
                }
            }
        }
        k = k + 1;
    }
    proof {
        assert(list@.subrange(0, n as int) =~= list@);
    }
    rm
}

/// The non-zero (offset, maximum) pairs of super-block `s`, scanning the
/// first `upto` offsets.
pub open spec fn comp_pairs(data: Seq<u8>, s: int, upto: int) -> Seq<(usize, u8)>
    decreases upto,
{
    if upto <= 0 {
        Seq::empty()
    } else {
        let prev = comp_pairs(data, s, upto - 1);
        let pos = s * 256 + (upto - 1);
        if 0 <= pos < data.len() && data[pos] > 0 {
            prev.push(((upto - 1) as usize, data[pos]))
        } else {
            prev
        }
    }
}

/// The compressed pairs keep exactly the non-zero entries: offsets
/// ascend, stay below `upto`, and looking an offset up recovers the
/// dense value.
pub proof fn lemma_comp_pairs_facts(data: Seq<u8>, s: int, upto: int)
    requires
        0 <= s,
        0 <= upto <= 256,
    ensures
        forall|p1: int, p2: int|
            0 <= p1 < p2 < comp_pairs(data, s, upto).len() ==> comp_pairs(data, s, upto)[p1].0
                < comp_pairs(data, s, upto)[p2].0,
        forall|p: int| 0 <= p < comp_pairs(data, s, upto).len() ==> (#[trigger] comp_pairs(
            data,
            s,
            upto,
        )[p]).0 < upto,
        forall|off: int|
            0 <= off < upto ==> pairs_lookup(comp_pairs(data, s, upto), off) == (
            if 0 <= s * 256 + off < data.len() && data[s * 256 + off] > 0 {
                data[s * 256 + off]
            } else {
                0
            }),
    decreases upto,
{
    if upto > 0 {
        lemma_comp_pairs_facts(data, s, upto - 1);
        let prev = comp_pairs(data, s, upto - 1);
        let cur = comp_pairs(data, s, upto);
        let pos = s * 256 + (upto - 1);
        assert forall|off: int| 0 <= off < upto implies pairs_lookup(cur, off) == (
        if 0 <= s * 256 + off < data.len() && data[s * 256 + off] > 0 {
            data[s * 256 + off]
        } else {
            0
        }) by {
            if 0 <= pos < data.len() && data[pos] > 0 {
                assert(cur == prev.push(((upto - 1) as usize, data[pos])));
                if off == upto - 1 {
                    assert(cur[cur.len() - 1].0 == off);
                    assert(exists|j: int| 0 <= j < cur.len() && (#[trigger] cur[j]).0 == off);
                    let j0 = choose|j: int| 0 <= j < cur.len() && (#[trigger] cur[j]).0 == off;
                    assert(j0 == cur.len() - 1) by {
                        if j0 < cur.len() - 1 {
                            assert(prev[j0].0 < upto - 1);
                        }
                    }
                    assert(pairs_lookup(cur, off) == data[pos]);
                } else {
                    // lookups below the new offset are unchanged
                    if exists|j: int| 0 <= j < prev.len() && (#[trigger] prev[j]).0 == off {
                        let j0 = choose|j: int| 0 <= j < prev.len() && (#[trigger] prev[j]).0 == off;
                        assert(cur[j0].0 == off);
                        assert(exists|j: int| 0 <= j < cur.len() && (#[trigger] cur[j]).0 == off);
                        let j1 = choose|j: int| 0 <= j < cur.len() && (#[trigger] cur[j]).0 == off;
                        assert(j1 < cur.len() - 1) by {
                            assert(cur[cur.len() - 1].0 == upto - 1);
                        }
                        assert(j1 == j0) by {
                            if j1 < j0 {
                                assert(prev[j1].0 < prev[j0].0);
                            }
                            if j0 < j1 {
                                assert(prev[j0].0 < prev[j1].0);
                            }
                        }
                        assert(pairs_lookup(cur, off) == pairs_lookup(prev, off));
                    } else {
                        assert forall|j: int| 0 <= j < cur.len() implies (#[trigger] cur[j]).0
                            != off by {
                            if j < cur.len() - 1 {
                                assert(!(0 <= j < prev.len() && prev[j].0 == off));
                            }
                        }
                        assert(pairs_lookup(cur, off) == 0);
                        assert(pairs_lookup(prev, off) == 0);
                    }
                }
            } else {
                assert(cur == prev);
                if off == upto - 1 {
                    assert forall|j: int| 0 <= j < cur.len() implies (#[trigger] cur[j]).0
                        != off by {
                        assert(prev[j].0 < upto - 1);
                    }
                    assert(pairs_lookup(cur, off) == 0);
                }
            }
        }
    }
}

/// Sparsifies dense per-block maxima into super-blocks of 256 offsets,
/// keeping only the non-zero entries.
pub fn compress(data: &Vec<u8>) -> (r: Vec<CompressedBlock>)
    requires
        data@.len() < usize::MAX - 256,
    ensures
        r@.len() == spec_div_ceil(data@.len() as nat, 256),
        forall|s: int| 0 <= s < r@.len() ==> (#[trigger] r@[s]).max_scores@ == comp_pairs(
            data@,
            s,
            256,
        ),
{
    let nsb = div_ceil(data.len(), 256);
    let mut out: Vec<CompressedBlock> = Vec::new();
    let mut s: usize = 0;
    while s < nsb
        invariant
            nsb == spec_div_ceil(data@.len() as nat, 256),
            data@.len() < usize::MAX - 256,
            0 <= s <= nsb,
            out@.len() == s,
            forall|ss: int| 0 <= ss < s ==> (#[trigger] out@[ss]).max_scores@ == comp_pairs(
                data@,
                ss,
                256,
            ),
        decreases nsb - s,
    {
        proof {
            assert(s * 256 <= data@.len()) by (nonlinear_arith)
                requires
                    0 <= s,
                    s < (data@.len() + 255) / 256,
            ;
        }
        let mut pairs: Vec<(usize, u8)> = Vec::new();
        let mut off: usize = 0;
        proof {
            assert(pairs@ =~= comp_pairs(data@, s as int, 0));
        }
        while off < 256
            invariant
                0 <= off <= 256,
                s * 256 <= data@.len(),
                data@.len() < usize::MAX - 256,
                pairs@ =~= comp_pairs(data@, s as int, off as int),
            decreases 256 - off,
        {
            let pos: usize = s * 256 + off;
            if pos < data.len() && data[pos] > 0 {
                pairs.push((off, data[pos]));
            }
            off = off + 1;
        }
        out.push(CompressedBlock { max_scores: pairs });
        s = s + 1;
    }
    out
}

/// The scores of a posting list, widened for sorting.
pub open spec fn list_scores(list: Seq<(u32, u32)>) -> Seq<u64> {
    Seq::new(list.len(), |k: int| list[k].1 as u64)
}

/// The ascending arrangement of a score multiset.
pub open spec fn sorted_ascending(s: Seq<u64>) -> Seq<u64> {
    s.sort_by(|x: u64, y: u64| x <= y)
}

/// The k-th largest score of a list, or 0 when the list is shorter than
/// k.
pub open spec fn spec_kth_largest(scores: Seq<u64>, k: int) -> u64 {
    if 1 <= k <= scores.len() {
        sorted_ascending(scores)[scores.len() - k]
    } else {
        0
    }
}

/// `sorted_ascending` really is sorted and a rearrangement.
pub proof fn lemma_sorted_ascending_pub(s: Seq<u64>)
    ensures
        sorted_u64(sorted_ascending(s)),
        sorted_ascending(s).to_multiset() == s.to_multiset(),
        sorted_ascending(s).len() == s.len(),
{
    lemma_sorted_ascending(s);
}

proof fn lemma_sorted_ascending(s: Seq<u64>)
    ensures
        sorted_u64(sorted_ascending(s)),
        sorted_ascending(s).to_multiset() == s.to_multiset(),
        sorted_ascending(s).len() == s.len(),
{
    let leq = |x: u64, y: u64| x <= y;
    assert(total_ordering(leq));
    s.lemma_sort_by_ensures(leq);
    assert(sorted_by(s.sort_by(leq), leq));
    assert forall|i: int, j: int|
        0 <= i < j < sorted_ascending(s).len() implies sorted_ascending(s)[i] <= sorted_ascending(
        s,
    )[j] by {
        assert(leq(s.sort_by(leq)[i], s.sort_by(leq)[j]));
    }
    s.to_multiset_ensures();
    sorted_ascending(s).to_multiset_ensures();
}

/// The three quantile scores of a posting list: the 10th, 100th and
/// 1000th largest raw scores, each in its low 8 bits, 0 when absent.
fn kth_score_vec(list: &Vec<(u32, u32)>) -> (r: Vec<u8>)
    ensures
        r@.len() == 3,
        r@[0] == (spec_kth_largest(list_scores(list@), 10) % 256) as u8,
        r@[1] == (spec_kth_largest(list_scores(list@), 100) % 256) as u8,
        r@[2] == (spec_kth_largest(list_scores(list@), 1000) % 256) as u8,
{
    let n = list.len();
    let mut scores: Vec<u64> = Vec::new();
    let mut k: usize = 0;
    while k < n
        invariant
            n == list@.len(),
            0 <= k <= n,
            scores@.len() == k,
            forall|kk: int| 0 <= kk < k ==> scores@[kk] == list@[kk].1 as u64,
        decreases n - k,
    {
        scores.push(list[k].1 as u64);
        k = k + 1;
    }
    proof {
        assert(scores@ =~= list_scores(list@));
    }
    let ss = sort_u64(&scores);
    proof {
        lemma_sorted_ascending(scores@);
        lemma_sorted_multiset_unique(ss@, sorted_ascending(scores@));
    }
    let s10: u64 = if n >= 10 {
        ss[n - 10]
    } else {
        0
    };
    let s100: u64 = if n >= 100 {
        ss[n - 100]
    } else {
        0
    };
    let s1000: u64 = if n >= 1000 {
        ss[n - 1000]
    } else {
        0
    };
    let mut out: Vec<u8> = Vec::new();
    out.push((s10 % 256) as u8);
    out.push((s100 % 256) as u8);
    out.push((s1000 % 256) as u8);
    proof {
        assert(out@[0] == (spec_kth_largest(list_scores(list@), 10) % 256) as u8);
        assert(out@[1] == (spec_kth_largest(list_scores(list@), 100) % 256) as u8);
        assert(out@[2] == (spec_kth_largest(list_scores(list@), 1000) % 256) as u8);
    }
    out
}

/// The record built for one posting list: its block maxima in the chosen
/// layout and its three quantile scores.
pub open spec fn pl_matches(
    pl: PostingList,
    list: Seq<(u32, u32)>,
    bsize: int,
    ndocs: int,
    compress_range: bool,
) -> bool {
    let nb = spec_div_ceil(ndocs as nat, bsize as nat) as int;
    let dense = dense_range_max(list, bsize, nb);
    &&& pl.spec_kth_score() =~= seq![
        (spec_kth_largest(list_scores(list), 10) % 256) as u8,
        (spec_kth_largest(list_scores(list), 100) % 256) as u8,
        (spec_kth_largest(list_scores(list), 1000) % 256) as u8,
    ]
    &&& if compress_range {
        pl.spec_range_maxes() matches BlockData::Compressed(v) && v@.len() == spec_div_ceil(
            nb as nat,
            256,
        ) && (forall|s: int| 0 <= s < v@.len() ==> (#[trigger] v@[s]).max_scores@ == comp_pairs(
            dense,
            s,
            256,
        ))
    } else {
        pl.spec_range_maxes() matches BlockData::Raw(v) && v@ =~= dense
    }
}

/// The inverted index: per-term records ordered by lexicographic term
/// rank, the term dictionary, and the document-name table.
#[derive(Debug)]
pub struct Index {
    num_documents: usize,
    posting_lists: Vec<PostingList>,
    terms: Vec<String>,
    documents: Vec<String>,
}

impl Index {
    pub closed spec fn spec_num_documents(&self) -> usize {
        self.num_documents
    }

    pub closed spec fn spec_posting_lists(&self) -> Seq<PostingList> {
        self.posting_lists@
    }

    pub closed spec fn spec_terms(&self) -> Seq<String> {
        self.terms@
    }

    pub closed spec fn spec_documents(&self) -> Seq<String> {
        self.documents@
    }

    /// Well-formedness: one record per term, terms strictly ascending in
    /// byte-lexicographic order.
    pub open spec fn wf(&self) -> bool {
        &&& self.spec_terms().len() == self.spec_posting_lists().len()
        &&& forall|i: int, j: int|
            0 <= i < j < self.spec_terms().len() ==> lex_le(
                str_bytes(self.spec_terms()[i]@),
                str_bytes(self.spec_terms()[j]@),
            ) && str_bytes(self.spec_terms()[i]@) != str_bytes(self.spec_terms()[j]@)
    }

    /// An empty index over a document count.
    pub fn new(num_documents: usize) -> (r: Index)
        ensures
            r.wf(),
            r.spec_num_documents() == num_documents,
            r.spec_posting_lists() =~= Seq::<PostingList>::empty(),
            r.spec_terms() =~= Seq::<String>::empty(),
            r.spec_documents() =~= Seq::<String>::empty(),
    {
        Index {
            num_documents,
            posting_lists: Vec::new(),
            terms: Vec::new(),
            documents: Vec::new(),
        }
    }

    /// Assembles an index from already-ordered parts.
    pub fn from_parts(
        num_documents: usize,
        posting_lists: Vec<PostingList>,
        terms: Vec<String>,
        documents: Vec<String>,
    ) -> (r: Index)
        ensures
            r.spec_num_documents() == num_documents,
            r.spec_posting_lists() == posting_lists@,
            r.spec_terms() == terms@,
            r.spec_documents() == documents@,
    {
        Index { num_documents, posting_lists, terms, documents }
    }

    /// The document-name table, indexed by document id.
    pub fn documents(&self) -> (r: &Vec<String>)
        ensures
            r@ == self.spec_documents(),
    {
        &self.documents
    }

    /// The per-term records, ordered by term id.
    pub fn posting_lists(&self) -> (r: &Vec<PostingList>)
        ensures
            r@ == self.spec_posting_lists(),
    {
        &self.posting_lists
    }

    /// The dictionary's terms, ordered by term id.
    pub fn terms(&self) -> (r: &Vec<String>)
        ensures
            r@ == self.spec_terms(),
    {
        &self.terms
    }

    /// The number of documents.
    pub fn num_documents(&self) -> (r: usize)
        ensures
            r == self.spec_num_documents(),
    {
        self.num_documents
    }

    /// Looks the term up in the dictionary; on a hit, a cursor over its
    /// posting list carrying the term's id and the query weight.
    pub fn get_cursor<'a>(&'a self, term: &str, term_weight: u32) -> (r: Option<
        PostingListIterator<'a>,
    >)
        requires
            self.spec_terms().len() == self.spec_posting_lists().len(),
            self.spec_terms().len() <= u32::MAX,
        ensures
            r is Some <==> (exists|i: int|
                0 <= i < self.spec_terms().len() && (#[trigger] self.spec_terms()[i])@ == term@),
            (r matches Some(it) ==> {
                &&& 0 <= it.spec_term_id() < self.spec_terms().len()
                &&& self.spec_terms()[it.spec_term_id() as int]@ == term@
                &&& forall|j: int|
                    0 <= j < it.spec_term_id() ==> (#[trigger] self.spec_terms()[j])@ != term@
                &&& it.spec_list() == self.spec_posting_lists()[it.spec_term_id() as int]
                &&& it.spec_term_weight() == term_weight
                &&& it.spec_position() == usize::MAX
            }),
    {
        let n = self.terms.len();
        let mut i: usize = 0;
        while i < n
            invariant
                n == self.spec_terms().len(),
                self.spec_terms().len() == self.spec_posting_lists().len(),
                n <= u32::MAX,
                0 <= i <= n,
                forall|j: int| 0 <= j < i ==> (#[trigger] self.spec_terms()[j])@ != term@,
            decreases n - i,
        {
            if str_eq(self.terms[i].as_str(), term) {
                return Some(self.posting_lists[i].iter(i as u32, term_weight));
            }
            i = i + 1;
        }
        None
    }
}

/// Accumulates per-term posting lists and document names, then builds
/// the inverted index.
pub struct IndexBuilder {
    num_documents: usize,
    bsize: usize,
    posting_lists: Vec<Vec<(u32, u32)>>,
    terms: Vec<String>,
    documents: Vec<String>,
}

impl IndexBuilder {
    pub closed spec fn spec_num_documents(&self) -> usize {
        self.num_documents
    }

    pub closed spec fn spec_bsize(&self) -> usize {
        self.bsize
    }

    pub closed spec fn spec_posting_lists(&self) -> Seq<Seq<(u32, u32)>> {
        Seq::new(self.posting_lists@.len(), |i: int| self.posting_lists@[i]@)
    }

    pub closed spec fn spec_terms(&self) -> Seq<String> {
        self.terms@
    }

    pub closed spec fn spec_documents(&self) -> Seq<String> {
        self.documents@
    }

    /// The document count the built index will carry: the configured
    /// count, or the number of inserted documents when the count was 0.
    pub open spec fn spec_effective_docs(&self) -> int {
        if self.spec_num_documents() == 0 {
            self.spec_documents().len() as int
        } else {
            self.spec_num_documents() as int
        }
    }

    pub fn new(num_documents: usize, bsize: usize) -> (r: IndexBuilder)
        requires
            bsize >= 1,
        ensures
            r.spec_num_documents() == num_documents,
            r.spec_bsize() == bsize,
            r.spec_posting_lists() =~= Seq::<Seq<(u32, u32)>>::empty(),
            r.spec_terms() =~= Seq::<String>::empty(),
            r.spec_documents() =~= Seq::<String>::empty(),
    {
        IndexBuilder {
            num_documents,
            bsize,
            posting_lists: Vec::new(),
            terms: Vec::new(),
            documents: Vec::new(),
        }
    }

    /// Appends one term with its (document, score) postings.
    pub fn insert_term(&mut self, term: &str, list: Vec<(u32, u32)>)
        ensures
            final(self).spec_num_documents() == old(self).spec_num_documents(),
            final(self).spec_bsize() == old(self).spec_bsize(),
            final(self).spec_documents() == old(self).spec_documents(),
            final(self).spec_terms().len() == old(self).spec_terms().len() + 1,
            final(self).spec_terms() =~= old(self).spec_terms().push(final(self).spec_terms().last()),
            final(self).spec_terms().last()@ == term@,
            final(self).spec_posting_lists() =~= old(self).spec_posting_lists().push(list@),
    {
        self.posting_lists.push(list);
        self.terms.push(term.to_owned());
        proof {
            assert(final(self).spec_posting_lists() =~= old(self).spec_posting_lists().push(
                list@,
            ));
        }
    }

    /// Appends a (document, frequency) posting to the list of term
    /// `term_id`; documents are expected in increasing order.
    pub fn push_posting(&mut self, term_id: u32, doc_id: u32, tf: u32)
        requires
            (term_id as int) < old(self).spec_posting_lists().len(),
        ensures
            final(self).spec_num_documents() == old(self).spec_num_documents(),
            final(self).spec_bsize() == old(self).spec_bsize(),
            final(self).spec_documents() == old(self).spec_documents(),
            final(self).spec_terms() == old(self).spec_terms(),
            final(self).spec_posting_lists() =~= old(self).spec_posting_lists().update(
                term_id as int,
                old(self).spec_posting_lists()[term_id as int].push((doc_id, tf)),
            ),
    {
        let t = term_id as usize;
        self.posting_lists[t].push((doc_id, tf));
        proof {
            assert(final(self).spec_posting_lists() =~= old(self).spec_posting_lists().update(
                term_id as int,
                old(self).spec_posting_lists()[term_id as int].push((doc_id, tf)),
            ));
        }
    }

    /// Appends a document name, returning its id.
    pub fn insert_document(&mut self, name: &str) -> (r: u32)
        requires
            old(self).spec_documents().len() < u32::MAX,
        ensures
            final(self).spec_num_documents() == old(self).spec_num_documents(),
            final(self).spec_bsize() == old(self).spec_bsize(),
            final(self).spec_terms() == old(self).spec_terms(),
            final(self).spec_posting_lists() == old(self).spec_posting_lists(),
            final(self).spec_documents().len() == old(self).spec_documents().len() + 1,
            final(self).spec_documents() =~= old(self).spec_documents().push(
                final(self).spec_documents().last(),
            ),
            final(self).spec_documents().last()@ == name@,
            r == old(self).spec_documents().len(),
    {
        let doc_id = self.documents.len();
        self.documents.push(name.to_owned());
        doc_id as u32
    }

    /// Builds the inverted index: terms are ranked lexicographically and
    /// each term's record is built from its postings.  Returns the index
    /// together with the ranking (rank -> insertion position), or an
    /// error when two inserted terms are equal.
    #[verifier::rlimit(50)]
    pub fn build(self, compress_range: bool) -> (r: Result<(Index, Vec<usize>), BmpError>)
        requires
            self.spec_bsize() >= 1,
            self.spec_effective_docs() < usize::MAX - 256,
            self.spec_posting_lists().len() == self.spec_terms().len(),
            forall|t: int, k: int|
                0 <= t < self.spec_posting_lists().len() && 0 <= k
                    < self.spec_posting_lists()[t].len() ==> (#[trigger] self.spec_posting_lists()[t][k]).0
                    < self.spec_effective_docs(),
        ensures
            (r is Ok) <==> (forall|i: int, j: int|
                0 <= i < j < self.spec_terms().len() ==> (#[trigger] self.spec_terms()[i])@ != (
                #[trigger] self.spec_terms()[j])@),
            (r matches Ok(p) ==> {
                let idx = p.0;
                let ord = p.1@;
                &&& idx.wf()
                &&& idx.spec_num_documents() == self.spec_effective_docs()
                &&& idx.spec_documents() == self.spec_documents()
                &&& ord.len() == self.spec_terms().len()
                &&& ord.no_duplicates()
                &&& (forall|rk: int| 0 <= rk < ord.len() ==> (#[trigger] ord[rk]) < ord.len())
                &&& (forall|i: int| 0 <= i < ord.len() ==> ord.contains(#[trigger] (i as usize)))
                &&& idx.spec_terms().len() == ord.len()
                &&& idx.spec_posting_lists().len() == ord.len()
                &&& (forall|rk: int|
                    0 <= rk < ord.len() ==> (#[trigger] idx.spec_terms()[rk])
                        == self.spec_terms()[ord[rk] as int])
                &&& (forall|rk: int|
                    0 <= rk < ord.len() ==> pl_matches(
                        #[trigger] idx.spec_posting_lists()[rk],
                        self.spec_posting_lists()[ord[rk] as int],
                        self.spec_bsize() as int,
                        self.spec_effective_docs(),
                        compress_range,
                    ))
            }),
    {
        let num_docs: usize = if self.num_documents == 0 {
            self.documents.len()
        } else {
            self.num_documents
        };
        let n = self.terms.len();
        let ord = sort_term_indices(&self.terms);
        // reject duplicate terms: with ranks sorted, duplicates are
        // adjacent
        let mut rk: usize = 1;
        while rk < n
            invariant
                n == self.spec_terms().len(),
                ord@.len() == n,
                forall|a: int| 0 <= a < ord@.len() ==> (#[trigger] ord@[a]) < n,
                forall|r1: int, r2: int|
                    0 <= r1 < r2 < ord@.len() ==> lex_le(
                        str_bytes(self.spec_terms()[ord@[r1] as int]@),
                        str_bytes(self.spec_terms()[ord@[r2] as int]@),
                    ),
                ord@.no_duplicates(),
                forall|i: int| 0 <= i < n ==> ord@.contains(#[trigger] (i as usize)),
                1 <= rk <= n || (n == 0 && rk == 1),
                forall|a: int| 0 < a < rk ==> self.spec_terms()[ord@[a - 1] as int]@ != (
                #[trigger] self.spec_terms()[ord@[a] as int])@,
            decreases n - rk,
        {
            if str_eq(self.terms[ord[rk - 1]].as_str(), self.terms[ord[rk]].as_str()) {
                proof {
                    // two distinct insertion positions hold equal terms
                    let i = ord@[rk - 1] as int;
                    let j = ord@[rk as int] as int;
                    assert(i != j);
                    if i < j {
                        assert(!(forall|a: int, b: int|
                            0 <= a < b < self.spec_terms().len() ==> (
                            #[trigger] self.spec_terms()[a])@ != (
                            #[trigger] self.spec_terms()[b])@)) by {
                            assert(self.spec_terms()[i]@ == self.spec_terms()[j]@);
                        }
                    } else {
                        assert(self.spec_terms()[j]@ == self.spec_terms()[i]@);
                    }
                }
                return Err(BmpError::InputMalformed);
            }
            rk = rk + 1;
        }
        proof {
            // adjacent-distinct plus sorted gives pairwise-distinct
            lemma_ranked_strict(self.spec_terms(), ord@);
            // distinct ranked terms means distinct inserted terms
            assert forall|i: int, j: int|
                0 <= i < j < self.spec_terms().len() implies (#[trigger] self.spec_terms()[i])@
                != (#[trigger] self.spec_terms()[j])@ by {
                assert(ord@.contains(i as usize));
                assert(ord@.contains(j as usize));
                let r1 = choose|r: int| 0 <= r < ord@.len() && ord@[r] == i as usize;
                let r2 = choose|r: int| 0 <= r < ord@.len() && ord@[r] == j as usize;
                assert(r1 != r2);
                if r1 < r2 {
                    assert(str_bytes(self.spec_terms()[ord@[r1] as int]@) != str_bytes(
                        self.spec_terms()[ord@[r2] as int]@,
                    ));
                } else {
                    assert(str_bytes(self.spec_terms()[ord@[r2] as int]@) != str_bytes(
                        self.spec_terms()[ord@[r1] as int]@,
                    ));
                }
            }
        }
        proof {
            assert((num_docs + self.spec_bsize() - 1) / (self.spec_bsize() as int)
                <= num_docs) by (nonlinear_arith)
                requires
                    self.spec_bsize() >= 1,
                    num_docs >= 0,
            ;
        }
        let nblocks = div_ceil(num_docs, self.bsize);
        let mut plists: Vec<PostingList> = Vec::new();
        let mut terms_out: Vec<String> = Vec::new();
        let mut r: usize = 0;
        while r < n
            invariant
                n == self.spec_terms().len(),
                n == self.spec_posting_lists().len(),
                self.spec_bsize() >= 1,
                num_docs == self.spec_effective_docs(),
                num_docs < usize::MAX - 256,
                nblocks == spec_div_ceil(num_docs as nat, self.spec_bsize() as nat),
                nblocks <= num_docs,
                ord@.len() == n,
                forall|a: int| 0 <= a < ord@.len() ==> (#[trigger] ord@[a]) < n,
                forall|t: int, k: int|
                    0 <= t < self.spec_posting_lists().len() && 0 <= k
                        < self.spec_posting_lists()[t].len() ==> (
                    #[trigger] self.spec_posting_lists()[t][k]).0 < self.spec_effective_docs(),
                0 <= r <= n,
                plists@.len() == r,
                terms_out@.len() == r,
                forall|a: int|
                    0 <= a < r ==> (#[trigger] terms_out@[a]) == self.spec_terms()[ord@[a] as int],
                forall|a: int|
                    0 <= a < r ==> pl_matches(
                        #[trigger] plists@[a],
                        self.spec_posting_lists()[ord@[a] as int],
                        self.spec_bsize() as int,
                        self.spec_effective_docs(),
                        compress_range,
                    ),
            decreases n - r,
        {
            let i = ord[r];
            let list: &Vec<(u32, u32)> = &self.posting_lists[i];
            proof {
                assert forall|k: int| 0 <= k < list@.len() implies (#[trigger] list@[k]).0 as int
                    / (self.spec_bsize() as int) < nblocks by {
                    assert(self.spec_posting_lists()[i as int][k].0 < self.spec_effective_docs());
                    crate::arith::lemma_block_index_in_range(
                        list@[k].0 as nat,
                        num_docs as nat,
                        self.spec_bsize() as nat,
                    );
                }
            }
            let rm = build_range_max(list, self.bsize, nblocks);
            proof {
                assert(rm@ =~= dense_range_max(
                    self.spec_posting_lists()[i as int],
                    self.spec_bsize() as int,
                    nblocks as int,
                ));
            }
            let bd: BlockData = if compress_range {
                BlockData::Compressed(compress(&rm))
            } else {
                BlockData::Raw(rm)
            };
            let kth = kth_score_vec(list);
            let pl = PostingList::new(bd, kth);
            plists.push(pl);
            terms_out.push(self.terms[i].clone());
            r = r + 1;
        }
        let idx = Index {
            num_documents: num_docs,
            posting_lists: plists,
            terms: terms_out,
            documents: self.documents,
        };
        proof {
            assert(idx.wf()) by {
                assert forall|a: int, b: int| 0 <= a < b < idx.spec_terms().len() implies lex_le(
                    str_bytes(idx.spec_terms()[a]@),
                    str_bytes(idx.spec_terms()[b]@),
                ) && str_bytes(idx.spec_terms()[a]@) != str_bytes(idx.spec_terms()[b]@) by {
                    assert(idx.spec_terms()[a] == self.spec_terms()[ord@[a] as int]);
                    assert(idx.spec_terms()[b] == self.spec_terms()[ord@[b] as int]);
                }
            }
        }
        Ok((idx, ord))
    }
}

/// With ranks sorted and adjacent ranked terms distinct, all ranked
/// terms are pairwise distinct (strictly ascending).
proof fn lemma_ranked_strict(terms: Seq<String>, ord: Seq<usize>)
    requires
        forall|a: int| 0 <= a < ord.len() ==> (#[trigger] ord[a]) < terms.len(),
        forall|r1: int, r2: int|
            0 <= r1 < r2 < ord.len() ==> lex_le(
                str_bytes(terms[ord[r1] as int]@),
                str_bytes(terms[ord[r2] as int]@),
            ),
        forall|a: int|
            0 < a < ord.len() ==> terms[ord[a - 1] as int]@ != (#[trigger] terms[ord[a] as int])@,
    ensures
        forall|r1: int, r2: int|
            0 <= r1 < r2 < ord.len() ==> str_bytes(terms[ord[r1] as int]@) != str_bytes(
                terms[ord[r2] as int]@,
            ),
{
    assert forall|r1: int, r2: int| 0 <= r1 < r2 < ord.len() implies str_bytes(
        terms[ord[r1] as int]@,
    ) != str_bytes(terms[ord[r2] as int]@) by {
        if str_bytes(terms[ord[r1] as int]@) == str_bytes(terms[ord[r2] as int]@) {
            // the whole run r1..r2 is equal, contradicting adjacency
            let b1 = str_bytes(terms[ord[r1] as int]@);
            let bmid = str_bytes(terms[ord[r1 + 1] as int]@);
            assert(lex_le(b1, bmid));
            if r1 + 1 < r2 {
                assert(lex_le(bmid, str_bytes(terms[ord[r2] as int]@)));
            }
            assert(lex_le(bmid, b1));
            lemma_lex_antisym(b1, bmid);
            lemma_bytes_eq_views_eq(terms[ord[r1] as int]@, terms[ord[r1 + 1] as int]@);
        }
    }
}

} // verus!
