//! TREC-format rendering of retrieval results.

use vstd::prelude::*;
use crate::text::{dec_digits, u64_to_string};
use crate::topk_heap::{Entry, TopKHeap};

verus! {

/// One TREC output line: query id, a fixed tag, the document's name,
/// the 1-based rank, the score, and the run name.
pub open spec fn trec_line(qid: Seq<char>, doc: Seq<char>, rank: nat, score: u16) -> Seq<char> {
    qid + " Q0 "@ + doc + " "@ + dec_digits(rank) + " "@ + dec_digits(score as nat) + " BMP\n"@
}

/// The lines of one query's first `j` results, best first.
pub open spec fn trec_query_lines(
    qid: Seq<char>,
    entries: Seq<Entry>,
    lex: Seq<String>,
    j: int,
) -> Seq<char>
    decreases j,
{
    if j <= 0 {
        Seq::empty()
    } else {
        trec_query_lines(qid, entries, lex, j - 1) + trec_line(
            qid,
            lex[entries[j - 1].doc_id.0 as int]@,
            j as nat,
            entries[j - 1].score,
        )
    }
}

/// The lines of the first `i` queries.
pub open spec fn trec_all(
    qids: Seq<String>,
    rs: Seq<TopKHeap>,
    lex: Seq<String>,
    i: int,
) -> Seq<char>
    decreases i,
{
    if i <= 0 {
        Seq::empty()
    } else {
        trec_all(qids, rs, lex, i - 1) + trec_query_lines(
            qids[i - 1]@,
            rs[i - 1].spec_entries().reverse(),
            lex,
            rs[i - 1].spec_entries().len() as int,
        )
    }
}

/// How many query/result pairs are rendered: ids and results are
/// paired off until the shorter side ends.
pub open spec fn trec_pairs(qids: Seq<String>, rs: Seq<TopKHeap>) -> int {
    if qids.len() <= rs.len() {
        qids.len() as int
    } else {
        rs.len() as int
    }
}

/// Renders the query results as TREC run lines: for each query in
/// order, its retained documents from best to worst, each line holding
/// the query id, the document name, the 1-based rank and the score.
pub fn to_trec(query_ids: &Vec<String>, results: Vec<TopKHeap>, doc_lexicon: &Vec<String>) -> (r:
    String)
    requires
        forall|i: int, e: int|
            0 <= i < results@.len() && 0 <= e < results@[i].spec_entries().len() ==> (
            #[trigger] results@[i].spec_entries()[e]).doc_id.0 < doc_lexicon@.len(),
    ensures
        r@ == trec_all(query_ids@, results@, doc_lexicon@, trec_pairs(query_ids@, results@)),
{
    let ghost rs0 = results@;
    let mut results = results;
    let mut output = String::new();
    let n: usize = if query_ids.len() <= results.len() {
        query_ids.len()
    } else {
        results.len()
    };
    let mut i: usize = 0;
    proof {
        assert(output@ =~= trec_all(query_ids@, rs0, doc_lexicon@, 0));
    }
    while i < n
        invariant
            n == trec_pairs(query_ids@, rs0),
            n <= query_ids@.len(),
            forall|a: int, e: int|
                0 <= a < rs0.len() && 0 <= e < rs0[a].spec_entries().len() ==> (
                #[trigger] rs0[a].spec_entries()[e]).doc_id.0 < doc_lexicon@.len(),
            0 <= i <= n,
            results@.len() == rs0.len() - i,
            forall|a: int| 0 <= a < results@.len() ==> results@[a] == rs0[a + i],
            output@ == trec_all(query_ids@, rs0, doc_lexicon@, i as int),
        decreases n - i,
    {
        let mut heap = results.remove(0);
        let ghost hv = rs0[i as int];
        proof {
            assert(heap == hv);
        }
        let entries = heap.to_sorted_vec();
        let ghost ev = hv.spec_entries().reverse();
        proof {
            assert(entries@ == ev);
        }
        let m = entries.len();
        let mut j: usize = 0;
        let ghost out_before = output@;
        proof {
            assert(output@ =~= out_before + trec_query_lines(
                query_ids@[i as int]@,
                ev,
                doc_lexicon@,
                0,
            ));
        }
        while j < m
            invariant
                m == ev.len(),
                entries@ == ev,
                0 <= i < query_ids@.len(),
                i < rs0.len(),
                ev == rs0[i as int].spec_entries().reverse(),
                forall|e: int| 0 <= e < ev.len() ==> (#[trigger] ev[e]).doc_id.0
                    < doc_lexicon@.len(),
                0 <= j <= m,
                output@ == out_before + trec_query_lines(
                    query_ids@[i as int]@,
                    ev,
                    doc_lexicon@,
                    j as int,
                ),
            decreases m - j,
        {
            proof {
                assert(ev[j as int] == rs0[i as int].spec_entries().reverse()[j as int]);
                assert(rs0[i as int].spec_entries().reverse()[j as int]
                    == rs0[i as int].spec_entries()[rs0[i as int].spec_entries().len() - 1 - j]);
            }
            let e = entries[j];
            output.append(query_ids[i].as_str());
            output.append(" Q0 ");
            output.append(doc_lexicon[e.doc_id.0 as usize].as_str());
            output.append(" ");
            let rank_text = u64_to_string((j as u64) + 1);
            output.append(rank_text.as_str());
            output.append(" ");
            let score_text = u64_to_string(e.score as u64);
            output.append(score_text.as_str());
            output.append(" BMP\n");
            proof {
                assert(output@ =~= out_before + trec_query_lines(
                    query_ids@[i as int]@,
                    ev,
                    doc_lexicon@,
                    j + 1,
                ));
            }
            j = j + 1;
        }
        proof {
            assert(rs0[i as int].spec_entries().len() == ev.len());
            assert(output@ =~= trec_all(query_ids@, rs0, doc_lexicon@, i + 1));
        }
        i = i + 1;
    }
    proof {
        assert(output@ == trec_all(query_ids@, rs0, doc_lexicon@, trec_pairs(query_ids@, rs0)));
    }
    output
}

} // verus!
