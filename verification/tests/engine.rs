use bmp::ciff::{convert_to_bmp, CiffDocRecord, CiffHeader, CiffPostingsList, CiffStream, CiffToBmp};
use bmp::codec::{from_bytes, to_bytes};
use bmp::cursor::DocId;
use bmp::errors::BmpError;
use bmp::forward_index::block_score;
use bmp::inverted_index::{compress, IndexBuilder};
use bmp::live_block::compute_upper_bounds_raw;
use bmp::posting_list::{BlockData, PostingList};
use bmp::query::{cursors_from_queries, cursors_from_query_text, parse_query_line};
use bmp::search::{b_search, Ratio};
use bmp::text::{i64_to_string, u64_to_string};
use bmp::topk_heap::TopKHeap;
use bmp::util::to_trec;

fn header(num_docs: i64, num_postings_lists: i64) -> CiffHeader {
    CiffHeader {
        version: 1,
        num_postings_lists,
        num_docs,
        total_postings_lists: num_postings_lists,
        total_docs: num_docs,
        total_terms_in_collection: 0,
        average_doclength: "0".to_string(),
        description: "test".to_string(),
    }
}

fn stream(num_docs: i64, lists: Vec<(&str, Vec<(i64, i64)>)>, docs: Vec<&str>) -> CiffStream {
    let n = lists.len() as i64;
    CiffStream {
        header: header(num_docs, n),
        lists: lists
            .into_iter()
            .map(|(t, postings)| CiffPostingsList { term: t.to_string(), postings })
            .collect(),
        docs: docs
            .iter()
            .enumerate()
            .map(|(i, d)| CiffDocRecord { docid: i as i64, collection_docid: d.to_string() })
            .collect(),
    }
}

fn one() -> Ratio {
    Ratio { num: 1, den: 1 }
}

#[test]
fn test_display_header() {
    let header = CiffHeader {
        version: 1,
        num_postings_lists: 13,
        num_docs: 39,
        total_postings_lists: 399,
        total_docs: 200,
        total_terms_in_collection: 888,
        average_doclength: format!("{}", 12.7),
        description: "Test description".to_string(),
    };
    let formatted = header.describe();
    assert_eq!(
        formatted,
        r#"----- CIFF HEADER -----
Version: 1
No. Postings Lists: 13
Total Postings Lists: 399
No. Documents: 39
Total Documents: 200
Total Terms in Collection 888
Average Document Length: 12.7
Description: Test description
-----------------------"#
    );
}

#[test]
fn single_term_single_hit() {
    // one document, one term, one posting
    let s = stream(1, vec![("a", vec![(0, 5)])], vec!["d0"]);
    let (idx, bfwd) = convert_to_bmp(&s, 4, false).unwrap();
    let lines = vec!["q0:a".to_string()];
    let (qids, queries) = cursors_from_queries(&lines, &idx).unwrap();
    let results = b_search(queries, &bfwd, 1, one(), one());
    let out = to_trec(&qids, results, idx.documents());
    assert_eq!(out, "q0 Q0 d0 1 5 BMP\n");
}

#[test]
fn two_terms_exact() {
    let s = stream(
        4,
        vec![("a", vec![(0, 3), (2, 1)]), ("b", vec![(1, 4), (1, 2)])],
        vec!["d0", "d1", "d2", "d3"],
    );
    let (idx, bfwd) = convert_to_bmp(&s, 4, false).unwrap();
    let lines = vec!["q1:a b".to_string()];
    let (qids, queries) = cursors_from_queries(&lines, &idx).unwrap();
    let results = b_search(queries, &bfwd, 3, one(), one());
    let out = to_trec(&qids, results, idx.documents());
    // ties are broken towards the smaller document id
    assert_eq!(out, "q1 Q0 d1 1 4 BMP\nq1 Q0 d0 2 3 BMP\nq1 Q0 d2 3 3 BMP\n");
}

#[test]
fn pruning_skips_weak_blocks() {
    // two blocks of four documents; the first block dominates
    let s = stream(
        8,
        vec![("a", vec![(0, 10), (4, 1)]), ("b", vec![(5, 5)])],
        vec!["d0", "d1", "d2", "d3", "d4", "d5", "d6", "d7"],
    );
    let (idx, bfwd) = convert_to_bmp(&s, 4, false).unwrap();
    let lines = vec!["q2:a b".to_string()];
    let (qids, queries) = cursors_from_queries(&lines, &idx).unwrap();
    let results = b_search(queries, &bfwd, 1, one(), one());
    let out = to_trec(&qids, results, idx.documents());
    assert_eq!(out, "q2 Q0 d0 1 10 BMP\n");
}

#[test]
fn compressed_round_trip() {
    let lists = vec![("a", vec![(0, 3), (2, 1)]), ("b", vec![(1, 4), (1, 2)])];
    let docs = vec!["d0", "d1", "d2", "d3"];
    let s1 = stream(4, lists.clone(), docs.clone());
    let s2 = stream(4, lists, docs);
    let (idx_raw, bfwd_raw) = convert_to_bmp(&s1, 4, false).unwrap();
    let (idx_c, bfwd_c) = convert_to_bmp(&s2, 4, true).unwrap();
    let lines = vec!["q1:a b".to_string(), "q2:b".to_string()];
    let (qids_r, queries_r) = cursors_from_queries(&lines, &idx_raw).unwrap();
    let (qids_c, queries_c) = cursors_from_queries(&lines, &idx_c).unwrap();
    let out_r = to_trec(&qids_r, b_search(queries_r, &bfwd_raw, 3, one(), one()), idx_raw.documents());
    let out_c = to_trec(&qids_c, b_search(queries_c, &bfwd_c, 3, one(), one()), idx_c.documents());
    assert_eq!(out_r, out_c);
}

#[test]
fn serialization_round_trip() {
    let s = stream(
        4,
        vec![("a", vec![(0, 3), (2, 1)]), ("b", vec![(1, 4), (1, 2)])],
        vec!["d0", "d1", "d2", "d3"],
    );
    let (idx, bfwd) = convert_to_bmp(&s, 4, true).unwrap();
    let bytes1 = to_bytes(&idx, &bfwd);
    let (idx2, bfwd2) = from_bytes(&bytes1).unwrap();
    let bytes2 = to_bytes(&idx2, &bfwd2);
    assert_eq!(bytes1, bytes2);
    assert_eq!(idx2.documents(), idx.documents());
    assert_eq!(idx2.terms(), idx.terms());
    assert_eq!(bfwd2.block_size, 4);
}

#[test]
fn rescaling_caps_weights() {
    let s = stream(1, vec![("a", vec![(0, 5)]), ("b", vec![(0, 2)])], vec!["d0"]);
    let (idx, _bfwd) = convert_to_bmp(&s, 4, false).unwrap();
    let mut text = String::new();
    for _ in 0..40 {
        text.push_str("a ");
    }
    text.push('b');
    let cursors = cursors_from_query_text(&text, &idx);
    assert_eq!(cursors.len(), 2);
    for c in &cursors {
        if c.term_id() == 0 {
            assert_eq!(c.term_weight(), 32); // "a"
        } else {
            assert_eq!(c.term_id(), 1);
            assert_eq!(c.term_weight(), 1); // "b": ceil(32 / 40)
        }
    }
}

#[test]
fn empty_query_gives_empty_result() {
    let s = stream(1, vec![("a", vec![(0, 5)])], vec!["d0"]);
    let (idx, bfwd) = convert_to_bmp(&s, 4, false).unwrap();
    let lines = vec!["q9:zz yy".to_string()];
    let (qids, queries) = cursors_from_queries(&lines, &idx).unwrap();
    assert_eq!(queries[0].len(), 0);
    let results = b_search(queries, &bfwd, 1, one(), one());
    let out = to_trec(&qids, results, idx.documents());
    assert_eq!(out, "");
}

#[test]
fn heap_keeps_best_k_and_threshold_grows() {
    let mut h = TopKHeap::with_threshold(2, 0);
    assert_eq!(h.threshold(), 0);
    assert!(h.would_enter(1));
    assert_eq!(h.insert(DocId(7), 5), None);
    assert_eq!(h.threshold(), 0);
    assert_eq!(h.insert(DocId(3), 2), Some(2));
    assert_eq!(h.threshold(), 2);
    // too low now
    assert_eq!(h.insert(DocId(9), 2), None);
    assert_eq!(h.insert(DocId(1), 9), Some(5));
    assert_eq!(h.threshold(), 5);
    let sorted = h.to_sorted_vec();
    assert_eq!(sorted.len(), 2);
    assert_eq!(sorted[0].doc_id, DocId(1));
    assert_eq!(sorted[0].score, 9);
    assert_eq!(sorted[1].doc_id, DocId(7));
    assert_eq!(sorted[1].score, 5);
}

#[test]
fn heap_breaks_ties_by_ascending_docid() {
    let mut h = TopKHeap::with_threshold(3, 0);
    h.insert(DocId(5), 4);
    h.insert(DocId(2), 4);
    h.insert(DocId(9), 7);
    let sorted = h.to_sorted_vec();
    assert_eq!(sorted[0].doc_id, DocId(9));
    assert_eq!(sorted[1].doc_id, DocId(2));
    assert_eq!(sorted[2].doc_id, DocId(5));
}

#[test]
fn kth_is_strict_about_k() {
    let pl = PostingList::new(BlockData::Raw(Vec::new()), vec![7, 8, 9]);
    assert_eq!(pl.kth(10), 7);
    assert_eq!(pl.kth(100), 8);
    assert_eq!(pl.kth(1000), 9);
    assert_eq!(pl.kth(5), 0);
    assert_eq!(pl.kth(11), 0);
}

#[test]
fn compress_keeps_only_nonzero_entries() {
    let data = vec![5u8, 0, 2];
    let blocks = compress(&data);
    assert_eq!(blocks.len(), 1);
    assert_eq!(blocks[0].max_scores, vec![(0usize, 5u8), (2usize, 2u8)]);
}

#[test]
fn upper_bounds_add_and_saturate() {
    let r1: Vec<u8> = vec![10, 1];
    let r2: Vec<u8> = vec![0, 5];
    let ranges: Vec<&[u8]> = vec![&r1, &r2];
    let weights: Vec<u8> = vec![1, 1];
    let ubs = compute_upper_bounds_raw(&ranges, &weights, 2);
    assert_eq!(ubs, vec![10, 6]);

    let big: Vec<u8> = vec![255];
    let ranges2: Vec<&[u8]> = vec![&big, &big];
    let weights2: Vec<u8> = vec![255, 255];
    let ubs2 = compute_upper_bounds_raw(&ranges2, &weights2, 1);
    // 2 * 255 * 255 wraps 16 bits, so the sum saturates
    assert_eq!(ubs2, vec![0xFFFF]);
}

#[test]
fn block_score_merges_matching_terms() {
    let query: Vec<(u16, u8)> = vec![(0, 1), (1, 1)];
    let doc: Vec<(u16, Vec<(u8, u8)>)> =
        vec![(0, vec![(0, 3)]), (1, vec![(1, 4), (2, 2)]), (7, vec![(3, 9)])];
    let scores = block_score(&query, &doc, 4);
    assert_eq!(scores, vec![3, 4, 2, 0]);
}

#[test]
fn builder_orders_terms_lexicographically() {
    let mut b = IndexBuilder::new(2, 4);
    b.insert_term("b", vec![(0, 2)]);
    b.insert_term("a", vec![(1, 3)]);
    let (idx, ord) = b.build(false).unwrap();
    assert_eq!(idx.terms()[0], "a");
    assert_eq!(idx.terms()[1], "b");
    assert_eq!(ord, vec![1usize, 0usize]);
    let c = idx.get_cursor("b", 1).unwrap();
    assert_eq!(c.term_id(), 1);
    assert!(idx.get_cursor("zz", 1).is_none());
}

#[test]
fn duplicate_terms_are_rejected() {
    let mut b = IndexBuilder::new(1, 4);
    b.insert_term("a", vec![(0, 2)]);
    b.insert_term("a", vec![(0, 3)]);
    assert_eq!(b.build(false).unwrap_err(), BmpError::InputMalformed);
}

#[test]
fn header_counts_are_validated() {
    let mut h = header(-1, 2);
    assert_eq!(h.checked_counts().unwrap_err(), BmpError::InputMalformed);
    h.num_docs = 1;
    h.num_postings_lists = (u32::MAX as i64) + 1;
    assert_eq!(h.checked_counts().unwrap_err(), BmpError::NumericOverflow);
    h.num_postings_lists = 2;
    assert_eq!(h.checked_counts().unwrap(), (1, 2));
}

#[test]
fn malformed_streams_are_rejected() {
    // negative delta
    let s = stream(2, vec![("a", vec![(-1, 5)])], vec!["d0", "d1"]);
    assert_eq!(convert_to_bmp(&s, 4, false).unwrap_err(), BmpError::InputMalformed);
    // frequency too large for 32 bits
    let s = stream(2, vec![("a", vec![(0, (u32::MAX as i64) + 1)])], vec!["d0", "d1"]);
    assert_eq!(convert_to_bmp(&s, 4, false).unwrap_err(), BmpError::NumericOverflow);
    // document id out of range
    let s = stream(2, vec![("a", vec![(5, 1)])], vec!["d0", "d1"]);
    assert_eq!(convert_to_bmp(&s, 4, false).unwrap_err(), BmpError::InputMalformed);
    // document records out of order
    let mut s = stream(2, vec![("a", vec![(0, 1)])], vec!["d0", "d1"]);
    s.docs[1].docid = 7;
    assert_eq!(convert_to_bmp(&s, 4, false).unwrap_err(), BmpError::InputMalformed);
}

#[test]
fn converter_requires_its_parameters() {
    let s = stream(1, vec![("a", vec![(0, 5)])], vec!["d0"]);
    let mut conv = CiffToBmp::default();
    assert_eq!(conv.to_bmp(&s).unwrap_err(), BmpError::ResourceMissing);
    conv.input_path("in.ciff");
    assert_eq!(conv.to_bmp(&s).unwrap_err(), BmpError::ResourceMissing);
    conv.output_path("out.bmp");
    assert_eq!(conv.to_bmp(&s).unwrap_err(), BmpError::ResourceMissing);
    conv.bsize(0);
    assert_eq!(conv.to_bmp(&s).unwrap_err(), BmpError::InputMalformed);
    conv.bsize(4);
    conv.compress_range(false);
    let (path, idx, _bfwd) = conv.to_bmp(&s).unwrap();
    assert_eq!(path, "out.bmp");
    assert_eq!(idx.num_documents(), 1);
}

#[test]
fn query_lines_need_a_separator() {
    assert_eq!(parse_query_line("no separator").unwrap_err(), BmpError::InputMalformed);
    let (qid, text) = parse_query_line("  q7  :a b").unwrap();
    assert_eq!(qid, "q7");
    assert_eq!(text, "a b");
}

#[test]
fn loader_rejects_garbage() {
    let junk: Vec<u8> = vec![1, 2, 3];
    assert!(from_bytes(&junk).is_err());
}

#[test]
fn decimal_rendering_is_exact() {
    assert_eq!(u64_to_string(0), "0");
    assert_eq!(u64_to_string(90210), "90210");
    assert_eq!(i64_to_string(-345), "-345");
    assert_eq!(i64_to_string(7), "7");
}
