//! Conversion of a CIFF-style postings stream into the engine's
//! inverted and blocked forward indexes.
//!
//! The stream reader itself is an external collaborator: this module
//! consumes its plain records — a header with counts, per-term posting
//! lists with delta-encoded document ids, and (document id, name)
//! records — validates them, and builds the two indexes.

use vstd::prelude::*;
use crate::arith::spec_div_ceil;
use crate::errors::BmpError;
use crate::forward_index::{block_group_has, block_wf, doc_has, quant, fwd2bfwd, lemma_multiset_contains_pairs, lemma_multiset_distinct_proj, pair_key, spec_blen, BlockForwardIndex, ForwardIndexBuilder};
use crate::inverted_index::{pl_matches, Index, IndexBuilder};
use crate::text::{dec_int, i64_to_string};

verus! {

/// The counts and description carried by a CIFF stream header.
#[derive(Debug)]
pub struct CiffHeader {
    pub version: i64,
    pub num_postings_lists: i64,
    pub num_docs: i64,
    pub total_postings_lists: i64,
    pub total_docs: i64,
    pub total_terms_in_collection: i64,
    pub average_doclength: String,
    pub description: String,
}

/// The text `describe` renders for a header.
pub open spec fn spec_describe(h: CiffHeader) -> Seq<char> {
    "----- CIFF HEADER -----\n"@ + "Version: "@ + dec_int(h.version as int) + "\n"@
        + "No. Postings Lists: "@ + dec_int(h.num_postings_lists as int) + "\n"@
        + "Total Postings Lists: "@ + dec_int(h.total_postings_lists as int) + "\n"@
        + "No. Documents: "@ + dec_int(h.num_docs as int) + "\n"@ + "Total Documents: "@ + dec_int(
        h.total_docs as int,
    ) + "\n"@ + "Total Terms in Collection "@ + dec_int(h.total_terms_in_collection as int) + "\n"@
        + "Average Document Length: "@ + h.average_doclength@ + "\n"@ + "Description: "@
        + h.description@ + "\n"@ + "-----------------------"@
}

impl CiffHeader {
    /// Renders the header in its report form, one line per field.
    pub fn describe(&self) -> (r: String)
        ensures
            r@ == spec_describe(*self),
    {
        let mut s = String::from_str("----- CIFF HEADER -----\n");
        s.append("Version: ");
        let t = i64_to_string(self.version);
        s.append(t.as_str());
        s.append("\n");
        s.append("No. Postings Lists: ");
        let t = i64_to_string(self.num_postings_lists);
        s.append(t.as_str());
        s.append("\n");
        s.append("Total Postings Lists: ");
        let t = i64_to_string(self.total_postings_lists);
        s.append(t.as_str());
        s.append("\n");
        s.append("No. Documents: ");
        let t = i64_to_string(self.num_docs);
        s.append(t.as_str());
        s.append("\n");
        s.append("Total Documents: ");
        let t = i64_to_string(self.total_docs);
        s.append(t.as_str());
        s.append("\n");
        s.append("Total Terms in Collection ");
        let t = i64_to_string(self.total_terms_in_collection);
        s.append(t.as_str());
        s.append("\n");
        s.append("Average Document Length: ");
        s.append(self.average_doclength.as_str());
        s.append("\n");
        s.append("Description: ");
        s.append(self.description.as_str());
        s.append("\n");
        s.append("-----------------------");
        proof {
            assert(s@ =~= spec_describe(*self));
        }
        s
    }

    /// Validates the two counts the builder needs: both must be
    /// non-negative (else the stream is malformed) and fit in 32 bits.
    pub fn checked_counts(&self) -> (r: Result<(u32, u32), BmpError>)
        ensures
            (r is Ok) <==> (0 <= self.num_docs <= u32::MAX && 0 <= self.num_postings_lists
                <= u32::MAX),
            (r matches Ok(c) ==> c.0 == self.num_docs && c.1 == self.num_postings_lists),
            ((self.num_docs < 0 || self.num_postings_lists < 0) ==> r == Err::<
                (u32, u32),
                BmpError,
            >(BmpError::InputMalformed)),
            (r is Err && self.num_docs >= 0 && self.num_postings_lists >= 0 ==> r == Err::<
                (u32, u32),
                BmpError,
            >(BmpError::NumericOverflow)),
    {
        if self.num_docs < 0 || self.num_postings_lists < 0 {
            Err(BmpError::InputMalformed)
        } else if self.num_docs > u32::MAX as i64 || self.num_postings_lists > u32::MAX as i64 {
            Err(BmpError::NumericOverflow)
        } else {
            Ok((self.num_docs as u32, self.num_postings_lists as u32))
        }
    }
}

/// One per-term record of the stream: the term and its postings as
/// (document-id delta, term frequency) pairs.
#[derive(Debug)]
pub struct CiffPostingsList {
    pub term: String,
    pub postings: Vec<(i64, i64)>,
}

/// One document record of the stream.
#[derive(Debug)]
pub struct CiffDocRecord {
    pub docid: i64,
    pub collection_docid: String,
}

/// A fully read CIFF stream: the header, the posting lists in stream
/// order, then the document records.
#[derive(Debug)]
pub struct CiffStream {
    pub header: CiffHeader,
    pub lists: Vec<CiffPostingsList>,
    pub docs: Vec<CiffDocRecord>,
}

/// The absolute document id of posting `k`: the sum of the deltas up to
/// and including it.
pub open spec fn delta_sum(ps: Seq<(i64, i64)>, k: int) -> int
    decreases k + 1,
{
    if k < 0 {
        0
    } else {
        delta_sum(ps, k - 1) + ps[k].0
    }
}

/// A posting list is acceptable when the first delta is non-negative,
/// later deltas are positive (document ids strictly ascend), every
/// frequency fits in 32 bits, and every document id is below the
/// document count.
pub open spec fn postings_ok(ps: Seq<(i64, i64)>, ndocs: int) -> bool {
    forall|k: int|
        0 <= k < ps.len() ==> (#[trigger] ps[k]).0 >= (if k == 0 {
            0int
        } else {
            1int
        }) && 0 <= ps[k].1 <= u32::MAX && delta_sum(ps, k) < ndocs
}

/// The decoded postings: absolute document ids with their frequencies.
pub open spec fn decoded_list(ps: Seq<(i64, i64)>) -> Seq<(u32, u32)> {
    Seq::new(ps.len(), |k: int| (delta_sum(ps, k) as u32, ps[k].1 as u32))
}

/// Decodes one posting list, validating deltas, frequencies and the
/// document range.
pub fn decode_postings(ps: &Vec<(i64, i64)>, ndocs: u32) -> (r: Result<Vec<(u32, u32)>, BmpError>)
    ensures
        (r is Ok) <==> postings_ok(ps@, ndocs as int),
        (r matches Ok(v) ==> {
            &&& v@ == decoded_list(ps@)
            &&& v@.len() == ps@.len()
            &&& (forall|a: int, b: int| 0 <= a < b < v@.len() ==> v@[a].0 < v@[b].0)
            &&& (forall|k: int| 0 <= k < v@.len() ==> (#[trigger] v@[k]).0 < ndocs)
        }),
{
    let n = ps.len();
    let mut out: Vec<(u32, u32)> = Vec::new();
    let mut docid: u64 = 0;
    let mut k: usize = 0;
    while k < n
        invariant
            n == ps@.len(),
            0 <= k <= n,
            out@.len() == k,
            k > 0 ==> docid == delta_sum(ps@, k - 1) && docid < ndocs,
            k == 0 ==> docid == 0,
            forall|a: int|
                0 <= a < k ==> (#[trigger] ps@[a]).0 >= (if a == 0 {
                    0int
                } else {
                    1int
                }) && 0 <= ps@[a].1 <= u32::MAX && delta_sum(ps@, a) < ndocs,
            forall|a: int| 0 <= a < k ==> (#[trigger] out@[a]) == (
                delta_sum(ps@, a) as u32,
                ps@[a].1 as u32,
            ),
        decreases n - k,
    {
        let (delta, tf) = ps[k];
        if delta < 0 || (k > 0 && delta == 0) {
            proof {
                assert(!postings_ok(ps@, ndocs as int)) by {
                    assert(!((#[trigger] ps@[k as int]).0 >= (if k == 0 {
                        0int
                    } else {
                        1int
                    }) && 0 <= ps@[k as int].1 <= u32::MAX && delta_sum(ps@, k as int) < ndocs));
                }
            }
            return Err(BmpError::InputMalformed);
        }
        if tf < 0 {
            proof {
                assert(!postings_ok(ps@, ndocs as int));
            }
            return Err(BmpError::InputMalformed);
        }
        if tf > u32::MAX as i64 {
            proof {
                assert(!postings_ok(ps@, ndocs as int));
            }
            return Err(BmpError::NumericOverflow);
        }
        // the accumulated id stays within u64: it was below 2^32 and the
        // delta is at most 2^63 - 1
        if delta as u64 > u32::MAX as u64 || docid + (delta as u64) >= ndocs as u64 {
            proof {
                assert(delta_sum(ps@, k as int) == delta_sum(ps@, k as int - 1) + ps@[k as int].0);
                assert(docid == delta_sum(ps@, k as int - 1));
                assert(!postings_ok(ps@, ndocs as int));
            }
            return Err(BmpError::InputMalformed);
        }
        docid = docid + (delta as u64);
        proof {
            assert(delta_sum(ps@, k as int) == delta_sum(ps@, k as int - 1) + ps@[k as int].0);
            assert(docid == delta_sum(ps@, k as int));
        }
        out.push((docid as u32, tf as u32));
        k = k + 1;
    }
    proof {
        assert(postings_ok(ps@, ndocs as int));
        assert(out@ =~= decoded_list(ps@));
        assert forall|a: int, b: int| 0 <= a < b < out@.len() implies out@[a].0 < out@[b].0 by {
            lemma_delta_sum_strict(ps@, ndocs as int, a, b);
            lemma_delta_sum_nonneg(ps@, ndocs as int, a);
            lemma_delta_sum_nonneg(ps@, ndocs as int, b);
            assert((#[trigger] ps@[a]).0 >= 0 && delta_sum(ps@, a) < ndocs);
            assert((#[trigger] ps@[b]).0 >= 0 && delta_sum(ps@, b) < ndocs);
            assert(out@[a].0 == delta_sum(ps@, a) as u32);
            assert(out@[b].0 == delta_sum(ps@, b) as u32);
        }
        assert forall|kk: int| 0 <= kk < out@.len() implies (#[trigger] out@[kk]).0 < ndocs by {
            lemma_delta_sum_nonneg(ps@, ndocs as int, kk);
            assert((#[trigger] ps@[kk]).0 >= 0 && delta_sum(ps@, kk) < ndocs);
            assert(out@[kk].0 == delta_sum(ps@, kk) as u32);
        }
    }
    Ok(out)
}

/// With positive later deltas, absolute document ids strictly ascend.
proof fn lemma_delta_sum_strict(ps: Seq<(i64, i64)>, ndocs: int, a: int, b: int)
    requires
        postings_ok(ps, ndocs),
        0 <= a < b < ps.len(),
    ensures
        delta_sum(ps, a) < delta_sum(ps, b),
    decreases b - a,
{
    assert(ps[b].0 >= 1);
    if b == a + 1 {
    } else {
        lemma_delta_sum_strict(ps, ndocs, a, b - 1);
    }
}

/// Every absolute document id is non-negative.
pub proof fn lemma_delta_sum_nonneg(ps: Seq<(i64, i64)>, ndocs: int, k: int)
    requires
        postings_ok(ps, ndocs),
        -1 <= k < ps.len(),
    ensures
        delta_sum(ps, k) >= 0,
    decreases k + 1,
{
    if k >= 0 {
        lemma_delta_sum_nonneg(ps, ndocs, k - 1);
        assert(ps[k].0 >= 0);
    }
}

/// The configuration of a CIFF-to-BMP conversion: input and output
/// paths, block size, and the block-maxima layout.
#[derive(Debug, Default)]
pub struct CiffToBmp {
    input: Option<String>,
    output: Option<String>,
    bsize: Option<usize>,
    compress_range: bool,
}

impl CiffToBmp {
    pub closed spec fn spec_input(&self) -> Option<String> {
        self.input
    }

    pub closed spec fn spec_output(&self) -> Option<String> {
        self.output
    }

    pub closed spec fn spec_bsize(&self) -> Option<usize> {
        self.bsize
    }

    pub closed spec fn spec_compress_range(&self) -> bool {
        self.compress_range
    }

    /// Sets the CIFF path. Required.
    pub fn input_path(&mut self, path: &str)
        ensures
            final(self).spec_input() matches Some(p) && p@ == path@,
            final(self).spec_output() == old(self).spec_output(),
            final(self).spec_bsize() == old(self).spec_bsize(),
            final(self).spec_compress_range() == old(self).spec_compress_range(),
    {
        self.input = Some(path.to_owned());
    }

    /// Sets the output index path. Required.
    pub fn output_path(&mut self, path: &str)
        ensures
            final(self).spec_output() matches Some(p) && p@ == path@,
            final(self).spec_input() == old(self).spec_input(),
            final(self).spec_bsize() == old(self).spec_bsize(),
            final(self).spec_compress_range() == old(self).spec_compress_range(),
    {
        self.output = Some(path.to_owned());
    }

    /// Sets the block size. Required; must lie in 1..=256.
    pub fn bsize(&mut self, bsize: usize)
        ensures
            final(self).spec_bsize() == Some(bsize),
            final(self).spec_input() == old(self).spec_input(),
            final(self).spec_output() == old(self).spec_output(),
            final(self).spec_compress_range() == old(self).spec_compress_range(),
    {
        self.bsize = Some(bsize);
    }

    /// Chooses between raw and compressed block-maxima storage.
    pub fn compress_range(&mut self, compress_range: bool)
        ensures
            final(self).spec_compress_range() == compress_range,
            final(self).spec_input() == old(self).spec_input(),
            final(self).spec_output() == old(self).spec_output(),
            final(self).spec_bsize() == old(self).spec_bsize(),
    {
        self.compress_range = compress_range;
    }
}

/// Every posting list of the stream is acceptable for the document
/// count.
pub open spec fn stream_lists_ok(lists: Seq<CiffPostingsList>, ndocs: int) -> bool {
    forall|i: int| 0 <= i < lists.len() ==> postings_ok((#[trigger] lists[i]).postings@, ndocs)
}

/// Document records arrive in order 0, 1, 2, ...
pub open spec fn stream_docs_ok(docs: Seq<CiffDocRecord>) -> bool {
    forall|d: int| 0 <= d < docs.len() ==> (#[trigger] docs[d]).docid == d
}

/// All terms of the stream are pairwise distinct.
pub open spec fn terms_distinct(lists: Seq<CiffPostingsList>) -> bool {
    forall|i: int, j: int|
        0 <= i < j < lists.len() ==> (#[trigger] lists[i]).term@ != (#[trigger] lists[j]).term@
}

/// The whole stream is acceptable: counts fit, record counts match the
/// header, the vocabulary fits 16-bit term ids, postings and document
/// records are valid, and no term repeats.
pub open spec fn stream_ok(s: CiffStream) -> bool {
    &&& 0 <= s.header.num_docs <= u32::MAX
    &&& 0 <= s.header.num_postings_lists <= u32::MAX
    &&& s.header.num_docs + 4096 < usize::MAX
    &&& s.lists@.len() == s.header.num_postings_lists
    &&& s.docs@.len() == s.header.num_docs
    &&& s.lists@.len() <= 65536
    &&& stream_lists_ok(s.lists@, s.header.num_docs as int)
    &&& stream_docs_ok(s.docs@)
    &&& terms_distinct(s.lists@)
}

/// The ranking `ord` (term id to stream position) ties the built pair to
/// the stream: the dictionary holds the ranked terms, each per-term
/// record is built from its decoded postings, and the blocked forward
/// index holds exactly the decoded (document, quantized score) pairs
/// under each term's rank.
pub open spec fn conversion_rel(
    s: CiffStream,
    bsize: int,
    compress_range: bool,
    idx: Index,
    bf: BlockForwardIndex,
    ord: Seq<usize>,
) -> bool {
    let ndocs = s.header.num_docs as int;
    &&& ord.len() == s.lists@.len()
    &&& ord.no_duplicates()
    &&& (forall|rk: int| 0 <= rk < ord.len() ==> (#[trigger] ord[rk]) < ord.len())
    &&& (forall|i: int| 0 <= i < ord.len() ==> ord.contains(#[trigger] (i as usize)))
    &&& (forall|rk: int|
        0 <= rk < ord.len() ==> (#[trigger] idx.spec_terms()[rk])@ == s.lists@[ord[rk] as int].term@)
    &&& (forall|rk: int|
        0 <= rk < ord.len() ==> pl_matches(
            #[trigger] idx.spec_posting_lists()[rk],
            decoded_list(s.lists@[ord[rk] as int].postings@),
            bsize,
            ndocs,
            compress_range,
        ))
    &&& (forall|b: int, t: u16, dd: u8, q: u8|
        #![trigger block_group_has(bf@[b], t, dd, q)]
        0 <= b < bf@.len() ==> (block_group_has(bf@[b], t, dd, q) <==> ((t as int) < ord.len() && (
        dd as int) < spec_blen(ndocs, bsize, b) && doc_has(
            decoded_list(s.lists@[ord[t as int] as int].postings@),
            b * bsize + dd,
            q,
        ))))
}

/// What a successful conversion produces.
pub open spec fn conversion_ok(
    s: CiffStream,
    bsize: int,
    compress_range: bool,
    idx: Index,
    bf: BlockForwardIndex,
) -> bool {
    let ndocs = s.header.num_docs as int;
    &&& idx.wf()
    &&& idx.spec_num_documents() == ndocs
    &&& idx.spec_documents().len() == ndocs
    &&& (forall|d: int|
        0 <= d < ndocs ==> (#[trigger] idx.spec_documents()[d])@ == s.docs@[d].collection_docid@)
    &&& idx.spec_terms().len() == s.lists@.len()
    &&& idx.spec_posting_lists().len() == s.lists@.len()
    &&& bf.block_size == bsize
    &&& bf@.len() == spec_div_ceil(ndocs as nat, bsize as nat)
    &&& (forall|b: int| 0 <= b < bf@.len() ==> block_wf(#[trigger] bf@[b], bsize))
    &&& (exists|ord: Seq<usize>| conversion_rel(s, bsize, compress_range, idx, bf, ord))
}


/// Entry `a` of document `dd` in the accumulating forward index stems
/// from one of the first `i` posting lists, under its ranked term id.
pub open spec fn fwd_entry_from(
    docs: Seq<Seq<(u32, u32)>>,
    lists: Seq<CiffPostingsList>,
    inv: Seq<usize>,
    i: int,
    dd: int,
    a: int,
) -> bool {
    exists|j: int, k: int|
        0 <= j < i && 0 <= k < decoded_list(lists[j].postings@).len() && (#[trigger] decoded_list(
            lists[j].postings@,
        )[k]) == (dd as u32, docs[dd][a].1) && docs[dd][a].0 == inv[j]
}

/// After sorting, the accumulated forward index is fit for blocking:
/// term ids per document are strictly ascending and below 2^16, and
/// membership matches the pre-sort content.
proof fn lemma_fwd_ready(
    fwd: Seq<Seq<(u32, u32)>>,
    docs: Seq<Seq<(u32, u32)>>,
    lists: Seq<CiffPostingsList>,
    inv: Seq<usize>,
    n: int,
    ndocs: int,
)
    requires
        docs.len() == ndocs,
        fwd.len() == ndocs,
        n <= 65536,
        inv.len() == n,
        forall|j: int| 0 <= j < n ==> (#[trigger] inv[j]) < n,
        forall|d: int| 0 <= d < ndocs ==> (#[trigger] fwd[d]).to_multiset()
            == docs[d].to_multiset(),
        forall|d: int, i: int, j: int|
            0 <= d < ndocs && 0 <= i < j < fwd[d].len() ==> pair_key(fwd[d][i]) <= pair_key(
                fwd[d][j],
            ),
        forall|dd: int, a1: int, a2: int|
            0 <= dd < ndocs && 0 <= a1 < a2 < docs[dd].len() ==> docs[dd][a1].0 != docs[dd][a2].0,
        forall|dd: int, a: int|
            0 <= dd < ndocs && 0 <= a < docs[dd].len() ==> #[trigger] fwd_entry_from(
                docs,
                lists,
                inv,
                n,
                dd,
                a,
            ),
    ensures
        forall|d: int| 0 <= d < fwd.len() ==> crate::forward_index::terms_strict(
            #[trigger] fwd[d],
        ) && crate::forward_index::terms_fit(fwd[d]),
        forall|d: int, x: (u32, u32)|
            0 <= d < ndocs ==> ((#[trigger] fwd[d].contains(x)) <==> docs[d].contains(x)),
{
    assert forall|d: int| 0 <= d < fwd.len() implies crate::forward_index::terms_strict(
        #[trigger] fwd[d],
    ) && crate::forward_index::terms_fit(fwd[d]) by {
        lemma_multiset_distinct_proj(docs[d], fwd[d]);
        lemma_multiset_contains_pairs(docs[d], fwd[d]);
        assert forall|i: int, j: int| 0 <= i < j < fwd[d].len() implies fwd[d][i].0
            < fwd[d][j].0 by {
            assert(pair_key(fwd[d][i]) <= pair_key(fwd[d][j]));
            let t1 = fwd[d][i].0 as int;
            let s1 = fwd[d][i].1 as int;
            let t2 = fwd[d][j].0 as int;
            let s2 = fwd[d][j].1 as int;
            assert(t1 <= t2) by (nonlinear_arith)
                requires
                    t1 * 0x1_0000_0000 + s1 <= t2 * 0x1_0000_0000 + s2,
                    0 <= s1 < 0x1_0000_0000,
                    0 <= s2 < 0x1_0000_0000,
                    0 <= t1,
                    0 <= t2,
            ;
            assert(fwd[d][i].0 != fwd[d][j].0);
        }
        assert forall|i: int| 0 <= i < fwd[d].len() implies (#[trigger] fwd[d][i]).0 < 65536 by {
            assert(fwd[d].contains(fwd[d][i]));
            assert(docs[d].contains(fwd[d][i]));
            let a = choose|a: int| 0 <= a < docs[d].len() && docs[d][a] == fwd[d][i];
            assert(fwd_entry_from(docs, lists, inv, n, d, a));
            let (j, k): (int, int) = choose|j: int, k: int|
                0 <= j < n && 0 <= k < decoded_list(lists[j].postings@).len() && (
                #[trigger] decoded_list(lists[j].postings@)[k]) == (d as u32, docs[d][a].1)
                    && docs[d][a].0 == inv[j];
            assert(docs[d][a].0 == inv[j]);
            assert(inv[j] < n <= 65536);
        }
    }
    assert forall|d: int, x: (u32, u32)|
        0 <= d < ndocs implies ((#[trigger] fwd[d].contains(x)) <==> docs[d].contains(x)) by {
        lemma_multiset_contains_pairs(docs[d], fwd[d]);
    }
}

/// Ties the blocked forward index produced by `fwd2bfwd` back to the
/// decoded stream postings, through the accumulated document-major
/// index and the term ranking.
proof fn lemma_conversion_rel(
    s: CiffStream,
    bsize: int,
    compress_range: bool,
    idx: Index,
    bf: BlockForwardIndex,
    ord: Seq<usize>,
    inv: Seq<usize>,
    fwd: Seq<Seq<(u32, u32)>>,
    docs: Seq<Seq<(u32, u32)>>,
)
    requires
        0 <= s.header.num_docs <= u32::MAX,
        s.lists@.len() == ord.len(),
        ord.len() <= 65536,
        bsize >= 1,
        ord.no_duplicates(),
        forall|rk: int| 0 <= rk < ord.len() ==> (#[trigger] ord[rk]) < ord.len(),
        forall|i: int| 0 <= i < ord.len() ==> ord.contains(#[trigger] (i as usize)),
        inv.len() == ord.len(),
        forall|j: int| 0 <= j < ord.len() ==> (#[trigger] inv[j]) < ord.len() && ord[inv[j] as int]
            == j,
        forall|a: int| 0 <= a < ord.len() ==> inv[(#[trigger] ord[a]) as int] == a,
        idx.spec_terms().len() == ord.len(),
        idx.spec_posting_lists().len() == ord.len(),
        forall|rk: int|
            0 <= rk < ord.len() ==> (#[trigger] idx.spec_terms()[rk])@ == s.lists@[ord[rk] as int].term@,
        forall|rk: int|
            0 <= rk < ord.len() ==> pl_matches(
                #[trigger] idx.spec_posting_lists()[rk],
                decoded_list(s.lists@[ord[rk] as int].postings@),
                bsize,
                s.header.num_docs as int,
                compress_range,
            ),
        docs.len() == s.header.num_docs as int,
        fwd.len() == s.header.num_docs as int,
        forall|d: int, x: (u32, u32)|
            0 <= d < docs.len() ==> ((#[trigger] fwd[d].contains(x)) <==> docs[d].contains(x)),
        forall|dd: int, a: int|
            0 <= dd < docs.len() && 0 <= a < docs[dd].len() ==> #[trigger] fwd_entry_from(
                docs,
                s.lists@,
                inv,
                ord.len() as int,
                dd,
                a,
            ),
        forall|j: int, k: int|
            0 <= j < ord.len() && 0 <= k < decoded_list((#[trigger] s.lists@[j]).postings@).len()
                ==> docs[decoded_list(s.lists@[j].postings@)[k].0 as int].contains(
                (inv[j] as u32, (#[trigger] decoded_list(s.lists@[j].postings@)[k]).1),
            ),
        forall|j: int| 0 <= j < ord.len() ==> postings_ok(
            (#[trigger] s.lists@[j]).postings@,
            s.header.num_docs as int,
        ),
        bf.block_size == bsize,
        bf@.len() == spec_div_ceil(s.header.num_docs as nat, bsize as nat),
        forall|b: int| 0 <= b < bf@.len() ==> crate::forward_index::block_matches(
            #[trigger] bf@[b],
            fwd,
            b * bsize,
            spec_blen(s.header.num_docs as int, bsize, b),
        ),
    ensures
        conversion_rel(s, bsize, compress_range, idx, bf, ord),
{
    let ndocs = s.header.num_docs as int;
    let n = ord.len() as int;
    assert forall|b: int, t: u16, dd: u8, q: u8|
        #![trigger block_group_has(bf@[b], t, dd, q)]
        0 <= b < bf@.len() implies (block_group_has(bf@[b], t, dd, q) <==> ((t as int) < n && (
    dd as int) < spec_blen(ndocs, bsize, b) && doc_has(
        decoded_list(s.lists@[ord[t as int] as int].postings@),
        b * bsize + dd,
        q,
    ))) by {
        let blen = spec_blen(ndocs, bsize, b);
        let d = b * bsize + dd;
        assert(crate::forward_index::block_matches(bf@[b], fwd, b * bsize, blen));
        assert(block_group_has(bf@[b], t, dd, q) <==> ((dd as int) < blen
            && crate::forward_index::doc_has_in(fwd, b * bsize, dd as int, t as int, q)));
        if (dd as int) < blen {
            assert(0 <= d < ndocs) by {
                assert(b * bsize >= 0) by (nonlinear_arith)
                    requires
                        b >= 0,
                        bsize >= 1,
                ;
            }
            // forward membership under term id t matches the decoded
            // postings of the term ranked t
            if doc_has(fwd[d], t as int, q) {
                let k = choose|k: int|
                    0 <= k < fwd[d].len() && (#[trigger] fwd[d][k]).0 == t as int && quant(
                        fwd[d][k].1,
                    ) == q;
                let x = fwd[d][k];
                assert(fwd[d].contains(x));
                assert(docs[d].contains(x));
                let a = choose|a: int| 0 <= a < docs[d].len() && docs[d][a] == x;
                assert(fwd_entry_from(docs, s.lists@, inv, n, d, a));
                let (j, k0): (int, int) = choose|j: int, k0: int|
                    0 <= j < n && 0 <= k0 < decoded_list(s.lists@[j].postings@).len() && (
                    #[trigger] decoded_list(s.lists@[j].postings@)[k0]) == (d as u32, docs[d][a].1)
                        && docs[d][a].0 == inv[j];
                assert(x.0 == inv[j]);
                assert(inv[j] == t as int);
                assert(ord[inv[j] as int] == j);
                assert(ord[t as int] == j);
                assert((t as int) < n);
                assert(decoded_list(s.lists@[j].postings@)[k0].0 == d as u32);
                assert(quant(decoded_list(s.lists@[j].postings@)[k0].1) == q) by {
                    assert(decoded_list(s.lists@[j].postings@)[k0].1 == x.1);
                }
                assert(doc_has(decoded_list(s.lists@[ord[t as int] as int].postings@), d, q));
            }
            if (t as int) < n && doc_has(
                decoded_list(s.lists@[ord[t as int] as int].postings@),
                d,
                q,
            ) {
                let j = ord[t as int] as int;
                let dl = decoded_list(s.lists@[j].postings@);
                let k = choose|k: int|
                    0 <= k < dl.len() && (#[trigger] dl[k]).0 == d && quant(dl[k].1) == q;
                assert(docs[dl[k].0 as int].contains((inv[j] as u32, dl[k].1)));
                assert(inv[j] == t as int);
                assert(docs[d].contains((t as u32, dl[k].1)));
                assert(fwd[d].contains((t as u32, dl[k].1)));
                let p = choose|p: int| 0 <= p < fwd[d].len() && fwd[d][p] == (t as u32, dl[k].1);
                assert(fwd[d][p].0 == t as int && quant(fwd[d][p].1) == q);
                assert(doc_has(fwd[d], t as int, q));
            }
        }
    }
}

/// Converts a fully read CIFF stream into the inverted index and the
/// blocked forward index.
#[verifier::rlimit(100)]
pub fn convert_to_bmp(stream: &CiffStream, bsize: usize, compress_range: bool) -> (r: Result<
    (Index, BlockForwardIndex),
    BmpError,
>)
    requires
        1 <= bsize <= 256,
    ensures
        (r is Ok) <==> stream_ok(*stream),
        (r matches Ok(p) ==> conversion_ok(*stream, bsize as int, compress_range, p.0, p.1)),
{
    let (ndocs, nlists) = match stream.header.checked_counts() {
        Ok(c) => c,
        Err(e) => {
            return Err(e);
        },
    };
    if (ndocs as u64) + 4096 >= usize::MAX as u64 {
        return Err(BmpError::NumericOverflow);
    }
    if stream.lists.len() != nlists as usize {
        return Err(BmpError::InputMalformed);
    }
    if stream.docs.len() != ndocs as usize {
        return Err(BmpError::InputMalformed);
    }
    if stream.lists.len() > 65536 {
        return Err(BmpError::NumericOverflow);
    }
    let n = stream.lists.len();
    let ghost lists = stream.lists@;
    let ghost ndocs_i = ndocs as int;
    // first pass: decode each posting list and feed the inverted-index
    // builder
    let mut builder = IndexBuilder::new(ndocs as usize, bsize);
    let mut i: usize = 0;
    while i < n
        invariant
            n == lists.len(),
            lists == stream.lists@,
            ndocs_i == ndocs as int,
            ndocs_i == stream.header.num_docs as int,
            1 <= bsize <= 256,
            0 <= i <= n,
            builder.spec_num_documents() == ndocs as usize,
            builder.spec_bsize() == bsize,
            builder.spec_documents().len() == 0,
            builder.spec_terms().len() == i,
            builder.spec_posting_lists().len() == i,
            forall|j: int| 0 <= j < i ==> postings_ok((#[trigger] lists[j]).postings@, ndocs_i),
            forall|j: int| 0 <= j < i ==> (#[trigger] builder.spec_terms()[j])@
                == lists[j].term@,
            forall|j: int| 0 <= j < i ==> (#[trigger] builder.spec_posting_lists()[j])
                == decoded_list(lists[j].postings@),
        decreases n - i,
    {
        let decoded = match decode_postings(&stream.lists[i].postings, ndocs) {
            Ok(v) => v,
            Err(e) => {
                proof {
                    assert(!postings_ok(lists[i as int].postings@, ndocs_i));
                    assert(!stream_lists_ok(lists, ndocs_i));
                }
                return Err(e);
            },
        };
        builder.insert_term(stream.lists[i].term.as_str(), decoded);
        i = i + 1;
    }
    // document records must arrive in order 0..ndocs
    let mut d: usize = 0;
    while d < ndocs as usize
        invariant
            lists == stream.lists@,
            ndocs_i == ndocs as int,
            ndocs_i == stream.header.num_docs as int,
            stream.docs@.len() == ndocs as int,
            ndocs as int + 4096 < usize::MAX,
            1 <= bsize <= 256,
            0 <= d <= ndocs as usize,
            builder.spec_num_documents() == ndocs as usize,
            builder.spec_bsize() == bsize,
            builder.spec_terms().len() == n,
            builder.spec_posting_lists().len() == n,
            n == lists.len(),
            forall|j: int| 0 <= j < n ==> postings_ok((#[trigger] lists[j]).postings@, ndocs_i),
            forall|j: int| 0 <= j < n ==> (#[trigger] builder.spec_terms()[j])@
                == lists[j].term@,
            forall|j: int| 0 <= j < n ==> (#[trigger] builder.spec_posting_lists()[j])
                == decoded_list(lists[j].postings@),
            builder.spec_documents().len() == d,
            forall|dd: int| 0 <= dd < d ==> (#[trigger] stream.docs@[dd]).docid == dd,
            forall|dd: int| 0 <= dd < d ==> (#[trigger] builder.spec_documents()[dd])@
                == stream.docs@[dd].collection_docid@,
        decreases ndocs as usize - d,
    {
        if stream.docs[d].docid != d as i64 {
            proof {
                assert(!stream_docs_ok(stream.docs@));
            }
            return Err(BmpError::InputMalformed);
        }
        let _ = builder.insert_document(stream.docs[d].collection_docid.as_str());
        d = d + 1;
    }
    proof {
        // the builder's requirements: each decoded document id is below
        // the effective document count
        assert(builder.spec_effective_docs() == ndocs_i);
        assert forall|t: int, k: int|
            0 <= t < builder.spec_posting_lists().len() && 0 <= k
                < builder.spec_posting_lists()[t].len() implies (
        #[trigger] builder.spec_posting_lists()[t][k]).0 < builder.spec_effective_docs() by {
            assert(builder.spec_posting_lists()[t] == decoded_list(lists[t].postings@));
            lemma_delta_sum_nonneg(lists[t].postings@, ndocs_i, k);
            assert((#[trigger] lists[t].postings@[k]).0 >= 0 || true);
            assert(postings_ok(lists[t].postings@, ndocs_i));
            assert((lists[t].postings@[k]).1 >= 0 && delta_sum(lists[t].postings@, k) < ndocs_i);
        }
    }
    let ghost builder_snapshot = builder;
    let (index, ord) = match builder.build(compress_range) {
        Ok(p) => p,
        Err(_) => {
            proof {
                // duplicate terms in the builder are duplicate stream terms
                assert(!(forall|a: int, b: int|
                    0 <= a < b < builder_snapshot.spec_terms().len() ==> (
                    #[trigger] builder_snapshot.spec_terms()[a])@ != (
                    #[trigger] builder_snapshot.spec_terms()[b])@));
                let (a, b): (int, int) = choose|a: int, b: int|
                    0 <= a < b < builder_snapshot.spec_terms().len()
                        && (#[trigger] builder_snapshot.spec_terms()[a])@ == (
                    #[trigger] builder_snapshot.spec_terms()[b])@;
                assert(lists[a].term@ == lists[b].term@);
                assert(!terms_distinct(lists));
            }
            return Err(BmpError::InputMalformed);
        },
    };
    proof {
        assert(stream_ok(*stream)) by {
            assert forall|a: int, b: int|
                0 <= a < b < lists.len() implies (#[trigger] lists[a]).term@ != (
            #[trigger] lists[b]).term@ by {
                assert(builder_snapshot.spec_terms()[a]@ == lists[a].term@);
                assert(builder_snapshot.spec_terms()[b]@ == lists[b].term@);
            }
        }
    }
    // invert the ranking: for stream position i, its rank
    let mut inv: Vec<usize> = vec![0usize; n];
    let mut rk: usize = 0;
    while rk < n
        invariant
            ord@.len() == n,
            ord@.no_duplicates(),
            forall|a: int| 0 <= a < n ==> (#[trigger] ord@[a]) < n,
            0 <= rk <= n,
            inv@.len() == n,
            forall|a: int| 0 <= a < rk ==> inv@[ord@[a] as int] == a,
        decreases n - rk,
    {
        let pos = ord[rk];
        inv[pos] = rk;
        proof {
            assert forall|a: int| 0 <= a < rk + 1 implies inv@[ord@[a] as int] == a by {
                if a < rk {
                    assert(ord@[a] != ord@[rk as int]);
                }
            }
        }
        rk = rk + 1;
    }
    proof {
        // the two directions of the permutation
        assert forall|j: int| 0 <= j < n implies (#[trigger] inv@[j]) < n && ord@[inv@[j] as int]
            == j by {
            assert(ord@.contains(j as usize));
            let r0 = choose|r0: int| 0 <= r0 < ord@.len() && ord@[r0] == j as usize;
            assert(inv@[ord@[r0] as int] == r0);
        }
    }
    // second pass: feed the forward-index builder under ranked term ids
    let mut fwd_builder = ForwardIndexBuilder::new(ndocs as usize);
    let mut i2: usize = 0;
    while i2 < n
        invariant
            n == lists.len(),
            lists == stream.lists@,
            ndocs_i == ndocs as int,
            ndocs_i == stream.header.num_docs as int,
            n <= 65536,
            forall|j: int| 0 <= j < n ==> postings_ok((#[trigger] lists[j]).postings@, ndocs_i),
            inv@.len() == n,
            ord@.len() == n,
            forall|j: int| 0 <= j < n ==> (#[trigger] inv@[j]) < n && ord@[inv@[j] as int] == j,
            forall|a: int| 0 <= a < n ==> inv@[(#[trigger] ord@[a]) as int] == a && ord@[a] < n,
            0 <= i2 <= n,
            fwd_builder.spec_docs().len() == ndocs as int,
            // soundness: every accumulated entry comes from a processed list
            forall|dd: int, a: int|
                0 <= dd < ndocs_i && 0 <= a < fwd_builder.spec_docs()[dd].len()
                    ==> #[trigger] fwd_entry_from(
                    fwd_builder.spec_docs(),
                    lists,
                    inv@,
                    i2 as int,
                    dd,
                    a,
                ),
            // completeness: every processed posting is accumulated
            forall|j: int, k: int|
                0 <= j < i2 && 0 <= k < decoded_list((#[trigger] lists[j]).postings@).len()
                    ==> fwd_builder.spec_docs()[decoded_list(lists[j].postings@)[k].0 as int]
                    .contains(
                    (inv@[j] as u32, (#[trigger] decoded_list(lists[j].postings@)[k]).1),
                ),
            // entries of one document carry pairwise distinct term ids
            forall|dd: int, a1: int, a2: int|
                0 <= dd < ndocs_i && 0 <= a1 < a2 < fwd_builder.spec_docs()[dd].len()
                    ==> fwd_builder.spec_docs()[dd][a1].0 != fwd_builder.spec_docs()[dd][a2].0,
        decreases n - i2,
    {
        let decoded = match decode_postings(&stream.lists[i2].postings, ndocs) {
            Ok(v) => v,
            Err(_) => {
                proof {
                    assert(postings_ok(lists[i2 as int].postings@, ndocs_i));
                    assert(false);
                }
                return Err(BmpError::InputMalformed);
            },
        };
        let ghost docs0 = fwd_builder.spec_docs();
        fwd_builder.insert_posting_list(inv[i2] as u32, &decoded);
        proof {
            let docs1 = fwd_builder.spec_docs();
            let tid = inv@[i2 as int] as u32;
            assert(decoded@ == decoded_list(lists[i2 as int].postings@));
            // how each document changed
            assert forall|dd: int| 0 <= dd < ndocs_i implies docs1[dd] == (
            if exists|k: int| 0 <= k < decoded@.len() && (#[trigger] decoded@[k]).0 == dd {
                docs0[dd].push(
                    (
                        tid,
                        decoded@[choose|k: int|
                            0 <= k < decoded@.len() && (#[trigger] decoded@[k]).0 == dd].1,
                    ),
                )
            } else {
                docs0[dd]
            }) by {
                assert(docs1[dd] == (if exists|k: int|
                    0 <= k < decoded@.len() && decoded@[k].0 == dd {
                    docs0[dd].push(
                        (
                            tid,
                            decoded@[choose|k: int|
                                0 <= k < decoded@.len() && decoded@[k].0 == dd].1,
                        ),
                    )
                } else {
                    docs0[dd]
                }));
            }
            // soundness is preserved
            assert forall|dd: int, a: int|
                0 <= dd < ndocs_i && 0 <= a < docs1[dd].len() implies #[trigger] fwd_entry_from(
                docs1,
                lists,
                inv@,
                i2 + 1,
                dd,
                a,
            ) by {
                if a < docs0[dd].len() {
                    let entry0 = docs0[dd][a];
                    assert(fwd_entry_from(docs0, lists, inv@, i2 as int, dd, a));
                    let (j, k): (int, int) = choose|j: int, k: int|
                        0 <= j < i2 && 0 <= k < decoded_list(lists[j].postings@).len() && (
                        #[trigger] decoded_list(lists[j].postings@)[k]) == (
                        dd as u32,
                        docs0[dd][a].1,
                        ) && docs0[dd][a].0 == inv@[j];
                    assert(docs1[dd][a] == docs0[dd][a]);
                    assert(0 <= j < i2 + 1 && 0 <= k < decoded_list(lists[j].postings@).len() && (
                    decoded_list(lists[j].postings@)[k]) == (dd as u32, docs1[dd][a].1)
                        && docs1[dd][a].0 == inv@[j]);
                } else {
                    // the freshly pushed entry of document dd
                    assert(exists|k: int|
                        0 <= k < decoded@.len() && (#[trigger] decoded@[k]).0 == dd);
                    let k = choose|k: int|
                        0 <= k < decoded@.len() && (#[trigger] decoded@[k]).0 == dd;
                    assert(docs1[dd][a] == (tid, decoded@[k].1));
                    assert(0 <= i2 < i2 + 1 && 0 <= k < decoded_list(
                        lists[i2 as int].postings@,
                    ).len() && (decoded_list(lists[i2 as int].postings@)[k]) == (
                    dd as u32,
                    docs1[dd][a].1,
                    ) && docs1[dd][a].0 == inv@[i2 as int]);
                }
            }
            // completeness is preserved
            assert forall|j: int, k: int|
                0 <= j < i2 + 1 && 0 <= k < decoded_list((#[trigger] lists[j]).postings@).len()
                    implies docs1[decoded_list(lists[j].postings@)[k].0 as int].contains(
                (inv@[j] as u32, (#[trigger] decoded_list(lists[j].postings@)[k]).1),
            ) by {
                let djk = decoded_list(lists[j].postings@)[k];
                let dtarget = djk.0 as int;
                assert(0 <= dtarget < ndocs_i) by {
                    lemma_delta_sum_nonneg(lists[j].postings@, ndocs_i, k);
                    assert((#[trigger] lists[j].postings@[k]).0 * 0 == 0);
                    assert(postings_ok(lists[j].postings@, ndocs_i));
                    assert(delta_sum(lists[j].postings@, k) < ndocs_i);
                }
                if j < i2 {
                    assert(docs0[dtarget].contains((inv@[j] as u32, djk.1)));
                    let a = choose|a: int|
                        0 <= a < docs0[dtarget].len() && docs0[dtarget][a] == (
                        inv@[j] as u32,
                        djk.1,
                        );
                    if exists|kk: int| 0 <= kk < decoded@.len() && (#[trigger] decoded@[kk]).0
                        == dtarget {
                        assert(docs1[dtarget][a] == docs0[dtarget][a]);
                    } else {
                        assert(docs1[dtarget] == docs0[dtarget]);
                        assert(docs1[dtarget][a] == docs0[dtarget][a]);
                    }
                } else {
                    assert(j == i2);
                    assert(decoded@[k] == djk);
                    assert(exists|kk: int|
                        0 <= kk < decoded@.len() && (#[trigger] decoded@[kk]).0 == dtarget) by {
                        assert(decoded@[k].0 == dtarget);
                    }
                    let kk = choose|kk: int|
                        0 <= kk < decoded@.len() && (#[trigger] decoded@[kk]).0 == dtarget;
                    assert(kk == k) by {
                        if kk < k {
                            assert(decoded@[kk].0 < decoded@[k].0);
                        }
                        if k < kk {
                            assert(decoded@[k].0 < decoded@[kk].0);
                        }
                    }
                    assert(docs1[dtarget] == docs0[dtarget].push((tid, decoded@[k].1)));
                    assert(docs1[dtarget].last() == (inv@[j] as u32, djk.1));
                }
            }
            // distinctness is preserved: a pushed entry carries a new term id
            assert forall|dd: int, a1: int, a2: int|
                0 <= dd < ndocs_i && 0 <= a1 < a2 < docs1[dd].len() implies docs1[dd][a1].0
                != docs1[dd][a2].0 by {
                if a2 < docs0[dd].len() {
                    assert(docs1[dd][a1] == docs0[dd][a1]);
                    assert(docs1[dd][a2] == docs0[dd][a2]);
                } else {
                    assert(a1 < docs0[dd].len());
                    let entry0 = docs0[dd][a1];
                    assert(docs1[dd][a1] == docs0[dd][a1]);
                    assert(docs1[dd][a2].0 == inv@[i2 as int]);
                    assert(fwd_entry_from(docs0, lists, inv@, i2 as int, dd, a1));
                    let (j, k): (int, int) = choose|j: int, k: int|
                        0 <= j < i2 && 0 <= k < decoded_list(lists[j].postings@).len() && (
                        #[trigger] decoded_list(lists[j].postings@)[k]) == (
                        dd as u32,
                        docs0[dd][a1].1,
                        ) && docs0[dd][a1].0 == inv@[j];
                    assert(ord@[inv@[j] as int] == j);
                    assert(ord@[inv@[i2 as int] as int] == i2);
                    assert(inv@[j] != inv@[i2 as int]);
                }
            }
            // restate over the builder state itself
            assert forall|dd: int, a: int|
                0 <= dd < ndocs_i && 0 <= a < fwd_builder.spec_docs()[dd].len()
                    implies #[trigger] fwd_entry_from(
                fwd_builder.spec_docs(),
                lists,
                inv@,
                i2 + 1,
                dd,
                a,
            ) by {
                assert(fwd_builder.spec_docs()[dd][a] == docs1[dd][a]);
                assert(fwd_entry_from(docs1, lists, inv@, i2 + 1, dd, a));
            }
            assert forall|j: int, k: int|
                0 <= j < i2 + 1 && 0 <= k < decoded_list((#[trigger] lists[j]).postings@).len()
                    implies fwd_builder.spec_docs()[decoded_list(lists[j].postings@)[k].0 as int]
                    .contains(
                    (inv@[j] as u32, (#[trigger] decoded_list(lists[j].postings@)[k]).1),
                ) by {
                assert(docs1[decoded_list(lists[j].postings@)[k].0 as int].contains(
                    (inv@[j] as u32, decoded_list(lists[j].postings@)[k].1),
                ));
            }
            assert forall|dd: int, a1: int, a2: int|
                0 <= dd < ndocs_i && 0 <= a1 < a2 < fwd_builder.spec_docs()[dd].len() implies
                fwd_builder.spec_docs()[dd][a1].0 != fwd_builder.spec_docs()[dd][a2].0 by {
                assert(fwd_builder.spec_docs()[dd][a1] == docs1[dd][a1]);
                assert(fwd_builder.spec_docs()[dd][a2] == docs1[dd][a2]);
            }
        }
        i2 = i2 + 1;
    }
    let ghost docs_final = fwd_builder.spec_docs();
    proof {
        assert forall|dd: int, a: int|
            0 <= dd < ndocs_i && 0 <= a < docs_final[dd].len() implies #[trigger] fwd_entry_from(
            docs_final,
            lists,
            inv@,
            n as int,
            dd,
            a,
        ) by {
            assert(docs_final[dd][a] == fwd_builder.spec_docs()[dd][a]);
            assert(fwd_entry_from(fwd_builder.spec_docs(), lists, inv@, n as int, dd, a));
        }
        assert forall|dd: int, a1: int, a2: int|
            0 <= dd < ndocs_i && 0 <= a1 < a2 < docs_final[dd].len() implies docs_final[dd][a1].0
            != docs_final[dd][a2].0 by {
            assert(docs_final[dd][a1] == fwd_builder.spec_docs()[dd][a1]);
            assert(docs_final[dd][a2] == fwd_builder.spec_docs()[dd][a2]);
        }
        assert forall|j: int, k: int|
            0 <= j < n && 0 <= k < decoded_list((#[trigger] lists[j]).postings@).len()
                implies docs_final[decoded_list(lists[j].postings@)[k].0 as int].contains(
                (inv@[j] as u32, (#[trigger] decoded_list(lists[j].postings@)[k]).1),
            ) by {
            assert(fwd_builder.spec_docs()[decoded_list(lists[j].postings@)[k].0 as int].contains(
                (inv@[j] as u32, decoded_list(lists[j].postings@)[k].1),
            ));
        }
    }
    let fwd = fwd_builder.build();
    proof {
        lemma_fwd_ready(fwd@, docs_final, lists, inv@, n as int, ndocs_i);
    }
    let bfwd = fwd2bfwd(&fwd, bsize);
    proof {
        lemma_conversion_rel(
            *stream,
            bsize as int,
            compress_range,
            index,
            bfwd,
            ord@,
            inv@,
            fwd@,
            docs_final,
        );
        assert(conversion_ok(*stream, bsize as int, compress_range, index, bfwd)) by {
            assert(conversion_rel(*stream, bsize as int, compress_range, index, bfwd, ord@));
        }
    }
    Ok((index, bfwd))
}

impl CiffToBmp {
    /// Runs the conversion under the configured parameters: validates
    /// that the input path, output path and block size are set and that
    /// the block size lies in 1..=256, then builds both indexes from the
    /// stream.  Returns the configured output path with the built pair.
    pub fn to_bmp(&self, stream: &CiffStream) -> (r: Result<
        (String, Index, BlockForwardIndex),
        BmpError,
    >)
        ensures
            (self.spec_input() is None ==> r == Err::<(String, Index, BlockForwardIndex), BmpError>(
                BmpError::ResourceMissing,
            )),
            (self.spec_input() is Some && self.spec_output() is None ==> r == Err::<
                (String, Index, BlockForwardIndex),
                BmpError,
            >(BmpError::ResourceMissing)),
            (self.spec_input() is Some && self.spec_output() is Some && self.spec_bsize() is None
                ==> r == Err::<(String, Index, BlockForwardIndex), BmpError>(
                BmpError::ResourceMissing,
            )),
            (self.spec_input() is Some && self.spec_output() is Some && (self.spec_bsize()
                matches Some(b) && !(1 <= b <= 256)) ==> r == Err::<
                (String, Index, BlockForwardIndex),
                BmpError,
            >(BmpError::InputMalformed)),
            (self.spec_input() is Some && self.spec_output() is Some && (self.spec_bsize()
                matches Some(b) && 1 <= b <= 256) ==> {
                &&& ((r is Ok) <==> stream_ok(*stream))
                &&& (r matches Ok(t) ==> t.0@ == self.spec_output().unwrap()@ && conversion_ok(
                    *stream,
                    self.spec_bsize().unwrap() as int,
                    self.spec_compress_range(),
                    t.1,
                    t.2,
                ))
            }),
    {
        if self.input.is_none() {
            return Err(BmpError::ResourceMissing);
        }
        let output: String = match &self.output {
            Some(p) => p.clone(),
            None => {
                return Err(BmpError::ResourceMissing);
            },
        };
        let bsize: usize = match self.bsize {
            Some(b) => b,
            None => {
                return Err(BmpError::ResourceMissing);
            },
        };
        if bsize < 1 || bsize > 256 {
            return Err(BmpError::InputMalformed);
        }
        match convert_to_bmp(stream, bsize, self.compress_range) {
            Ok((idx, bfwd)) => Ok((output, idx, bfwd)),
            Err(e) => Err(e),
        }
    }
}

} // verus!
