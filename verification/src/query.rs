//! Query parsing: one query per line, `"<qid>:<tokens>"`; tokens are
//! counted with multiplicity and rescaled so that no weight exceeds
//! `MAX_TERM_WEIGHT`.
//!
//! Tokens are split on ASCII whitespace.

use vstd::prelude::*;
use crate::errors::BmpError;
use crate::inverted_index::Index;
use crate::posting_list::PostingListIterator;

verus! {

/// The cap on a query term's weight.
pub const MAX_TERM_WEIGHT: usize = 32;

/// The whitespace the tokenizer splits on.
pub open spec fn is_qws(c: char) -> bool {
    c == ' ' || c == '\t' || c == '\n' || c == '\r'
}

/// The length of the leading token: the run of non-whitespace at the
/// front.
pub open spec fn token_len(s: Seq<char>) -> int
    decreases s.len(),
{
    if s.len() == 0 || is_qws(s[0]) {
        0
    } else {
        1 + token_len(s.drop_first())
    }
}

proof fn lemma_token_len(s: Seq<char>)
    ensures
        0 <= token_len(s) <= s.len(),
        forall|j: int| 0 <= j < token_len(s) ==> !is_qws(s[j]),
        token_len(s) < s.len() ==> is_qws(s[token_len(s)]),
    decreases s.len(),
{
    if s.len() > 0 && !is_qws(s[0]) {
        lemma_token_len(s.drop_first());
        assert forall|j: int| 0 <= j < token_len(s) implies !is_qws(s[j]) by {
            if j > 0 {
                assert(!is_qws(s.drop_first()[j - 1]));
            }
        }
        if token_len(s) < s.len() {
            assert(is_qws(s.drop_first()[token_len(s) - 1]));
        }
    }
}

/// A pinned form of `token_len`: the first whitespace position.
proof fn lemma_token_len_is(s: Seq<char>, tl: int)
    requires
        0 <= tl <= s.len(),
        forall|j: int| 0 <= j < tl ==> !is_qws(s[j]),
        tl < s.len() ==> is_qws(s[tl]),
    ensures
        token_len(s) == tl,
    decreases s.len(),
{
    if s.len() == 0 || is_qws(s[0]) {
    } else {
        assert(tl >= 1);
        lemma_token_len_is(s.drop_first(), tl - 1);
    }
}

/// The query's tokens: maximal runs of non-whitespace, in order.
pub open spec fn spec_tokens(s: Seq<char>) -> Seq<Seq<char>>
    decreases s.len(),
    via spec_tokens_dec
{
    if s.len() == 0 {
        Seq::empty()
    } else if is_qws(s[0]) {
        spec_tokens(s.drop_first())
    } else {
        seq![s.take(token_len(s))] + spec_tokens(s.skip(token_len(s)))
    }
}

#[via_fn]
proof fn spec_tokens_dec(s: Seq<char>) {
    if s.len() > 0 && !is_qws(s[0]) {
        lemma_token_len(s);
    }
}

/// Counting one token: bump its entry, or append it with count 1.
pub open spec fn qbump(cs: Seq<(Seq<char>, nat)>, t: Seq<char>) -> Seq<(Seq<char>, nat)> {
    if exists|i: int| 0 <= i < cs.len() && (#[trigger] cs[i]).0 == t {
        let i = choose|i: int| 0 <= i < cs.len() && (#[trigger] cs[i]).0 == t;
        cs.update(i, (t, (cs[i].1 + 1) as nat))
    } else {
        cs.push((t, 1nat))
    }
}

/// The distinct tokens of the first `i` tokens, in first-occurrence
/// order, each with its multiplicity.
pub open spec fn qcounts_upto(toks: Seq<Seq<char>>, i: int) -> Seq<(Seq<char>, nat)>
    decreases i,
{
    if i <= 0 {
        Seq::empty()
    } else {
        qbump(qcounts_upto(toks, i - 1), toks[i - 1])
    }
}

/// All distinct tokens with their multiplicities.
pub open spec fn qcounts(toks: Seq<Seq<char>>) -> Seq<(Seq<char>, nat)> {
    qcounts_upto(toks, toks.len() as int)
}

/// The largest multiplicity, 0 when there are no tokens.
pub open spec fn max_count(cs: Seq<(Seq<char>, nat)>) -> nat
    decreases cs.len(),
{
    if cs.len() == 0 {
        0
    } else {
        let rest = max_count(cs.drop_last());
        if cs.last().1 > rest {
            cs.last().1
        } else {
            rest
        }
    }
}

/// The spent weight of a multiplicity `c`: rescaled by
/// `ceil(c * 32 / max)` when the largest multiplicity exceeds the cap.
pub open spec fn spec_weight(c: nat, mx: nat) -> nat {
    if mx > MAX_TERM_WEIGHT {
        ((c * (MAX_TERM_WEIGHT as nat) + mx - 1) / (mx as int)) as nat
    } else {
        c
    }
}

/// The largest multiplicity dominates every entry.
proof fn lemma_max_count_ge(cs: Seq<(Seq<char>, nat)>, u: int)
    requires
        0 <= u < cs.len(),
    ensures
        cs[u].1 <= max_count(cs),
    decreases cs.len(),
{
    if u < cs.len() - 1 {
        lemma_max_count_ge(cs.drop_last(), u);
        assert(cs.drop_last()[u] == cs[u]);
    }
}

/// The first dictionary index whose term reads `t`, scanning from
/// `from`.
pub open spec fn dict_first(terms: Seq<String>, t: Seq<char>, from: int) -> Option<int>
    decreases terms.len() - from,
{
    if from < 0 || from >= terms.len() {
        None
    } else if terms[from]@ == t {
        Some(from)
    } else {
        dict_first(terms, t, from + 1)
    }
}

/// What a query line's cursors are: for each distinct token in
/// first-occurrence order, its dictionary hit (when any) with the
/// rescaled weight.
pub open spec fn cursors_match<'a>(
    r: Seq<PostingListIterator<'a>>,
    cs: Seq<(Seq<char>, nat)>,
    idx: &Index,
    sel: Seq<int>,
) -> bool {
    let mx = max_count(cs);
    &&& r.len() == sel.len()
    &&& (forall|a: int, b: int| 0 <= a < b < sel.len() ==> sel[a] < sel[b])
    &&& (forall|j: int| 0 <= j < sel.len() ==> 0 <= #[trigger] sel[j] < cs.len())
    &&& (forall|j: int|
        0 <= j < sel.len() ==> dict_first(idx.spec_terms(), cs[#[trigger] sel[j]].0, 0) == Some(
            (#[trigger] r[j]).spec_term_id() as int,
        ) && r[j].spec_list() == idx.spec_posting_lists()[r[j].spec_term_id() as int]
            && r[j].spec_term_weight() == spec_weight(cs[sel[j]].1, mx) && r[j].spec_position()
            == usize::MAX)
    &&& (forall|u: int|
        0 <= u < cs.len() && !sel.contains(u) ==> dict_first(
            idx.spec_terms(),
            (#[trigger] cs[u]).0,
            0,
        ) is None)
}

/// Some selection of the query's distinct tokens yields these cursors.
pub closed spec fn some_cursors<'a>(
    r: Seq<PostingListIterator<'a>>,
    q: Seq<char>,
    idx: &Index,
) -> bool {
    exists|sel: Seq<int>| cursors_match(r, qcounts(spec_tokens(q)), idx, sel)
}

/// What `some_cursors` stands for.
pub proof fn lemma_some_cursors<'a>(r: Seq<PostingListIterator<'a>>, q: Seq<char>, idx: &Index)
    ensures
        some_cursors(r, q, idx) <==> exists|sel: Seq<int>|
            cursors_match(r, qcounts(spec_tokens(q)), idx, sel),
{
}

/// Whether the executable tokenizer's whitespace test holds.
fn is_qws_exec(c: char) -> (r: bool)
    ensures
        r == is_qws(c),
{
    c == ' ' || c == '\t' || c == '\n' || c == '\r'
}

/// Splits a query into its whitespace-separated tokens.
pub fn split_tokens(s: &str) -> (r: Vec<String>)
    ensures
        r@.map_values(|t: String| t@) == spec_tokens(s@),
    decreases s@.len(),
{
    let n = s.unicode_len();
    if n == 0 {
        let out: Vec<String> = Vec::new();
        proof {
            assert(out@.map_values(|t: String| t@) =~= spec_tokens(s@));
        }
        return out;
    }
    let c0 = s.get_char(0);
    if is_qws_exec(c0) {
        let rest = s.substring_char(1, n);
        proof {
            assert(rest@ =~= s@.drop_first());
        }
        let out = split_tokens(rest);
        proof {
            assert(out@.map_values(|t: String| t@) == spec_tokens(s@));
        }
        return out;
    }
    let mut tl: usize = 1;
    while tl < n && !is_qws_exec(s.get_char(tl))
        invariant
            n == s@.len(),
            1 <= tl <= n,
            forall|j: int| 0 <= j < tl ==> !is_qws(s@[j]),
        decreases n - tl,
    {
        tl = tl + 1;
    }
    proof {
        lemma_token_len_is(s@, tl as int);
    }
    let tok = s.substring_char(0, tl).to_owned();
    let rest = s.substring_char(tl, n);
    let tail = split_tokens(rest);
    let mut out: Vec<String> = Vec::new();
    out.push(tok);
    let mut i: usize = 0;
    while i < tail.len()
        invariant
            0 <= i <= tail@.len(),
            out@.len() == i + 1,
            out@[0]@ == s@.take(token_len(s@)),
            forall|j: int| 0 <= j < i ==> out@[j + 1] == tail@[j],
        decreases tail@.len() - i,
    {
        out.push(tail[i].clone());
        i = i + 1;
    }
    proof {
        assert(rest@ =~= s@.skip(token_len(s@)));
        assert(tail@.map_values(|t: String| t@) == spec_tokens(s@.skip(token_len(s@))));
        assert(out@.map_values(|t: String| t@) =~= spec_tokens(s@)) by {
            assert forall|j: int| 0 <= j < out@.len() implies out@.map_values(|t: String| t@)[j]
                == spec_tokens(s@)[j] by {
                if j > 0 {
                    assert(out@[j] == tail@[j - 1]);
                    assert(tail@.map_values(|t: String| t@)[j - 1] == spec_tokens(
                        s@.skip(token_len(s@)),
                    )[j - 1]);
                }
            }
        }
    }
    out
}

/// Parses the query's tokens into weighted dictionary cursors: tokens
/// are counted with multiplicity, weights above the cap are rescaled,
/// and each distinct token present in the dictionary yields one cursor.
#[verifier::rlimit(100)]
pub fn cursors_from_query_text<'a>(query: &str, index: &'a Index) -> (r: Vec<
    PostingListIterator<'a>,
>)
    requires
        index.spec_terms().len() == index.spec_posting_lists().len(),
        index.spec_terms().len() <= u32::MAX,
        query@.len() <= u32::MAX,
    ensures
        some_cursors(r@, query@, index),
{
    let tokens = split_tokens(query);
    let ghost toks = spec_tokens(query@);
    // count multiplicities, first occurrence first
    let mut counts: Vec<(String, u64)> = Vec::new();
    let mut i: usize = 0;
    proof {
        assert(tokens@.map_values(|t: String| t@).len() == toks.len());
        lemma_tokens_bound(query@);
        assert(counts_model(counts@) =~= qcounts_upto(toks, 0));
    }
    while i < tokens.len()
        invariant
            toks == spec_tokens(query@),
            tokens@.map_values(|t: String| t@) == toks,
            toks.len() <= u32::MAX,
            0 <= i <= tokens@.len(),
            tokens@.len() == toks.len(),
            counts_model(counts@) == qcounts_upto(toks, i as int),
            counts@.len() <= i,
            forall|a: int, b: int|
                0 <= a < b < counts@.len() ==> (#[trigger] counts@[a]).0@ != (
                #[trigger] counts@[b]).0@,
            forall|a: int| 0 <= a < counts@.len() ==> 1 <= (#[trigger] counts@[a]).1 <= i,
        decreases tokens@.len() - i,
    {
        let tok = &tokens[i];
        let ghost cs0 = counts_model(counts@);
        let mut found = false;
        let mut pos: usize = 0;
        while pos < counts.len() && !found
            invariant
                0 <= pos <= counts@.len(),
                !found ==> forall|a: int| 0 <= a < pos ==> (#[trigger] counts@[a]).0@ != tok@,
                found ==> pos < counts@.len() && counts@[pos as int].0@ == tok@,
            decreases counts@.len() - pos + (if found { 0int } else { 1int }),
        {
            if crate::lexorder::str_eq(counts[pos].0.as_str(), tok.as_str()) {
                found = true;
            } else {
                pos = pos + 1;
            }
        }
        let ghost counts0 = counts@;
        if found {
            let key = counts[pos].0.clone();
            let c = counts[pos].1;
            counts[pos] = (key, c + 1);
            proof {
                assert(exists|a: int|
                    0 <= a < cs0.len() && (#[trigger] cs0[a]).0 == tokens@[i as int]@) by {
                    assert(cs0[pos as int].0 == tokens@[i as int]@);
                }
                let a0 = choose|a: int|
                    0 <= a < cs0.len() && (#[trigger] cs0[a]).0 == tokens@[i as int]@;
                assert(a0 == pos) by {
                    if a0 < pos {
                        assert(counts0[a0].0@ != tok@);
                    }
                    if a0 > pos {
                        assert(counts0[a0].0@ != counts0[pos as int].0@);
                        assert(counts0[a0].0@ == tok@);
                    }
                }
                assert(counts_model(counts@) =~= qbump(cs0, toks[i as int]));
            }
        } else {
            counts.push((tok.clone(), 1));
            proof {
                assert(!(exists|a: int|
                    0 <= a < cs0.len() && (#[trigger] cs0[a]).0 == tokens@[i as int]@)) by {
                    if exists|a: int|
                        0 <= a < cs0.len() && (#[trigger] cs0[a]).0 == tokens@[i as int]@ {
                        let a0 = choose|a: int|
                            0 <= a < cs0.len() && (#[trigger] cs0[a]).0 == tokens@[i as int]@;
                        assert(counts0[a0].0@ != tok@);
                    }
                }
                assert(counts_model(counts@) =~= qbump(cs0, toks[i as int]));
            }
        }
        i = i + 1;
    }
    let ghost cs = qcounts(toks);
    proof {
        assert(counts_model(counts@) == cs);
    }
    // the largest multiplicity
    let mut mx: u64 = 0;
    let mut m: usize = 0;
    while m < counts.len()
        invariant
            0 <= m <= counts@.len(),
            forall|a: int| 0 <= a < counts@.len() ==> 1 <= (#[trigger] counts@[a]).1 <= u32::MAX,
            mx <= u32::MAX,
            mx == max_count(counts_model(counts@).take(m as int)),
        decreases counts@.len() - m,
    {
        if counts[m].1 > mx {
            mx = counts[m].1;
        }
        proof {
            assert(counts_model(counts@).take(m + 1).drop_last() =~= counts_model(
                counts@,
            ).take(m as int));
            assert(counts_model(counts@).take(m + 1).last() == (
                counts@[m as int].0@,
                counts@[m as int].1 as nat,
            ));
        }
        m = m + 1;
    }
    proof {
        assert(counts_model(counts@).take(counts@.len() as int) =~= counts_model(counts@));
        assert(mx == max_count(cs));
    }
    // rescale and look each distinct token up
    let mut out: Vec<PostingListIterator<'a>> = Vec::new();
    let ghost mut sel: Seq<int> = Seq::empty();
    let mut u: usize = 0;
    while u < counts.len()
        invariant
            counts_model(counts@) == cs,
            mx == max_count(cs),
            index.spec_terms().len() == index.spec_posting_lists().len(),
            index.spec_terms().len() <= u32::MAX,
            forall|a: int| 0 <= a < counts@.len() ==> 1 <= (#[trigger] counts@[a]).1
                <= u32::MAX,
            mx <= u32::MAX,
            0 <= u <= counts@.len(),
            out@.len() == sel.len(),
            forall|a: int, b: int| 0 <= a < b < sel.len() ==> sel[a] < sel[b],
            forall|j: int| 0 <= j < sel.len() ==> 0 <= #[trigger] sel[j] < u,
            forall|j: int|
                0 <= j < sel.len() ==> dict_first(index.spec_terms(), cs[#[trigger] sel[j]].0, 0)
                    == Some((#[trigger] out@[j]).spec_term_id() as int) && out@[j].spec_list()
                    == index.spec_posting_lists()[out@[j].spec_term_id() as int]
                    && out@[j].spec_term_weight() == spec_weight(cs[sel[j]].1, mx as nat)
                    && out@[j].spec_position() == usize::MAX,
            forall|a: int|
                0 <= a < u && !sel.contains(a) ==> dict_first(
                    index.spec_terms(),
                    (#[trigger] cs[a]).0,
                    0,
                ) is None,
        decreases counts@.len() - u,
    {
        let c = counts[u].1;
        proof {
            lemma_max_count_ge(cs, u as int);
            assert(cs[u as int].1 == c && c <= mx);
        }
        let w: u64 = if mx > MAX_TERM_WEIGHT as u64 {
            (c * (MAX_TERM_WEIGHT as u64) + mx - 1) / mx
        } else {
            c
        };
        proof {
            if mx > MAX_TERM_WEIGHT as u64 {
                assert(c * 32 + mx - 1 < 0x1_0000_0000_0000_0000 && (
                c * 32 + mx - 1) as int / (mx as int) == spec_weight(c as nat, mx as nat) && (c * 32
                    + mx - 1) as int / (mx as int) <= u32::MAX) by (nonlinear_arith)
                    requires
                        1 <= c <= u32::MAX,
                        c <= mx,
                        mx <= u32::MAX,
                        mx > 32,
                ;
            }
        }
        let ghost sel0 = sel;
        let ghost out0 = out@;
        match index.get_cursor(counts[u].0.as_str(), w as u32) {
            Some(it) => {
                out.push(it);
                proof {
                    lemma_dict_first_scan(
                        index.spec_terms(),
                        counts@[u as int].0@,
                        it.spec_term_id() as int,
                    );
                    sel = sel.push(u as int);
                    assert forall|a: int, b: int| 0 <= a < b < sel.len() implies sel[a]
                        < sel[b] by {
                        if b < sel0.len() {
                            assert(sel[a] == sel0[a] && sel[b] == sel0[b]);
                        } else {
                            assert(sel[b] == u as int);
                            assert(sel[a] == sel0[a]);
                        }
                    }
                    assert forall|a: int|
                        0 <= a < u + 1 && !sel.contains(a) implies dict_first(
                        index.spec_terms(),
                        (#[trigger] cs[a]).0,
                        0,
                    ) is None by {
                        assert(sel[sel.len() - 1] == u as int);
                        if a == u as int {
                            assert(sel.contains(a));
                        } else {
                            assert(!sel0.contains(a)) by {
                                if sel0.contains(a) {
                                    let j = choose|j: int|
                                        0 <= j < sel0.len() && sel0[j] == a;
                                    assert(sel[j] == a);
                                    assert(sel.contains(a));
                                }
                            }
                        }
                    }
                }
            },
            None => {
                proof {
                    assert forall|j: int|
                        0 <= j < index.spec_terms().len() implies (
                    #[trigger] index.spec_terms()[j])@ != counts@[u as int].0@ by {
                        if index.spec_terms()[j]@ == counts@[u as int].0@ {
                            assert(exists|i2: int|
                                0 <= i2 < index.spec_terms().len() && (
                                #[trigger] index.spec_terms()[i2])@ == counts@[u as int].0.view());
                        }
                    }
                    lemma_dict_first_none(index.spec_terms(), counts@[u as int].0@);
                    assert forall|a: int|
                        0 <= a < u + 1 && !sel.contains(a) implies dict_first(
                        index.spec_terms(),
                        (#[trigger] cs[a]).0,
                        0,
                    ) is None by {
                    }
                }
            },
        }
        u = u + 1;
    }
    proof {
        assert(cursors_match(out@, cs, index, sel)) by {
            assert(cs.len() == counts@.len());
        }
        lemma_some_cursors(out@, query@, index);
    }
    out
}

/// The ghost content of the counting table.
pub open spec fn counts_model(cs: Seq<(String, u64)>) -> Seq<(Seq<char>, nat)> {
    Seq::new(cs.len(), |a: int| (cs[a].0@, cs[a].1 as nat))
}

/// The count of tokens is bounded by the query length.
proof fn lemma_tokens_bound(s: Seq<char>)
    ensures
        spec_tokens(s).len() <= s.len(),
    decreases s.len(),
{
    if s.len() > 0 {
        if is_qws(s[0]) {
            lemma_tokens_bound(s.drop_first());
        } else {
            lemma_token_len(s);
            lemma_tokens_bound(s.skip(token_len(s)));
        }
    }
}

/// A dictionary hit at the first matching index agrees with the
/// scanning lookup.
proof fn lemma_dict_first_scan(terms: Seq<String>, t: Seq<char>, hit: int)
    requires
        0 <= hit < terms.len(),
        terms[hit]@ == t,
        forall|j: int| 0 <= j < hit ==> (#[trigger] terms[j])@ != t,
    ensures
        dict_first(terms, t, 0) == Some(hit),
{
    lemma_dict_first_from(terms, t, 0, hit);
}

proof fn lemma_dict_first_from(terms: Seq<String>, t: Seq<char>, from: int, hit: int)
    requires
        0 <= from <= hit < terms.len(),
        terms[hit]@ == t,
        forall|j: int| 0 <= j < hit ==> (#[trigger] terms[j])@ != t,
    ensures
        dict_first(terms, t, from) == Some(hit),
    decreases terms.len() - from,
{
    if from < hit {
        lemma_dict_first_from(terms, t, from + 1, hit);
    }
}

/// A missing term never turns up while scanning.
proof fn lemma_dict_first_none(terms: Seq<String>, t: Seq<char>)
    requires
        forall|j: int| 0 <= j < terms.len() ==> (#[trigger] terms[j])@ != t,
    ensures
        dict_first(terms, t, 0) is None,
{
    lemma_dict_first_none_from(terms, t, 0);
}

proof fn lemma_dict_first_none_from(terms: Seq<String>, t: Seq<char>, from: int)
    requires
        0 <= from,
        forall|j: int| 0 <= j < terms.len() ==> (#[trigger] terms[j])@ != t,
    ensures
        dict_first(terms, t, from) is None,
    decreases terms.len() - from,
{
    if from < terms.len() {
        lemma_dict_first_none_from(terms, t, from + 1);
    }
}

/// The position of the first `:` in the line, scanning from `from`.
pub open spec fn colon_pos(s: Seq<char>, from: int) -> Option<int>
    decreases s.len() - from,
{
    if from < 0 || from >= s.len() {
        None
    } else if s[from] == ':' {
        Some(from)
    } else {
        colon_pos(s, from + 1)
    }
}

proof fn lemma_colon_pos_is(s: Seq<char>, from: int, p: int)
    requires
        0 <= from <= p < s.len(),
        s[p] == ':',
        forall|j: int| from <= j < p ==> s[j] != ':',
    ensures
        colon_pos(s, from) == Some(p),
    decreases s.len() - from,
{
    if from < p {
        lemma_colon_pos_is(s, from + 1, p);
    }
}

proof fn lemma_colon_pos_bounds(s: Seq<char>, from: int)
    requires
        0 <= from,
        colon_pos(s, from) is Some,
    ensures
        from <= colon_pos(s, from).unwrap() < s.len(),
    decreases s.len() - from,
{
    if from < s.len() && s[from] != ':' {
        lemma_colon_pos_bounds(s, from + 1);
    }
}

proof fn lemma_colon_pos_none(s: Seq<char>, from: int)
    requires
        0 <= from,
        forall|j: int| from <= j < s.len() ==> s[j] != ':',
    ensures
        colon_pos(s, from) is None,
    decreases s.len() - from,
{
    if from < s.len() {
        lemma_colon_pos_none(s, from + 1);
    }
}

/// Splits one query line at its first `:` into the trimmed query id
/// and the token text; a line without `:` is malformed.
pub fn parse_query_line(line: &str) -> (r: Result<(String, String), BmpError>)
    ensures
        (r is Ok) <==> colon_pos(line@, 0) is Some,
        (r matches Ok(q) ==> {
            &&& q.0@ == trim_ws(line@.take(colon_pos(line@, 0).unwrap()))
            &&& q.1@ == line@.skip(colon_pos(line@, 0).unwrap() + 1)
        }),
        (r is Err ==> r == Err::<(String, String), BmpError>(BmpError::InputMalformed)),
{
    let n = line.unicode_len();
    let mut p: usize = 0;
    while p < n && line.get_char(p) != ':'
        invariant
            n == line@.len(),
            0 <= p <= n,
            forall|j: int| 0 <= j < p ==> line@[j] != ':',
        decreases n - p,
    {
        p = p + 1;
    }
    if p >= n {
        proof {
            lemma_colon_pos_none(line@, 0);
        }
        return Err(BmpError::InputMalformed);
    }
    proof {
        lemma_colon_pos_is(line@, 0, p as int);
    }
    let head = line.substring_char(0, p);
    let tail = line.substring_char(p + 1, n);
    // trim the id
    let hn = head.unicode_len();
    let mut lo: usize = 0;
    while lo < hn && is_qws_exec(head.get_char(lo))
        invariant
            hn == head@.len(),
            0 <= lo <= hn,
            forall|j: int| 0 <= j < lo ==> is_qws(head@[j]),
        decreases hn - lo,
    {
        lo = lo + 1;
    }
    let mut hi: usize = hn;
    while hi > lo && is_qws_exec(head.get_char(hi - 1))
        invariant
            hn == head@.len(),
            lo <= hi <= hn,
            forall|j: int| 0 <= j < lo ==> is_qws(head@[j]),
            forall|j: int| hi <= j < hn ==> is_qws(head@[j]),
        decreases hi,
    {
        hi = hi - 1;
    }
    let qid = head.substring_char(lo, hi).to_owned();
    proof {
        assert(qid@ =~= trim_ws(line@.take(p as int))) by {
            assert(head@ =~= line@.take(p as int));
            lemma_trim_is(head@, lo as int, hi as int);
        }
        assert(tail@ =~= line@.skip(p + 1));
    }
    Ok((qid, tail.to_owned()))
}

/// The text with leading and trailing whitespace removed.
pub open spec fn trim_ws(s: Seq<char>) -> Seq<char>
    decreases s.len(),
{
    if s.len() == 0 {
        s
    } else if is_qws(s[0]) {
        trim_ws(s.drop_first())
    } else if is_qws(s.last()) {
        trim_ws(s.drop_last())
    } else {
        s
    }
}

proof fn lemma_trim_is(s: Seq<char>, lo: int, hi: int)
    requires
        0 <= lo <= hi <= s.len(),
        forall|j: int| 0 <= j < lo ==> is_qws(s[j]),
        forall|j: int| hi <= j < s.len() ==> is_qws(s[j]),
        hi > lo ==> !is_qws(s[lo]) && !is_qws(s[hi - 1]),
    ensures
        trim_ws(s) =~= s.subrange(lo, hi),
    decreases s.len(),
{
    if s.len() == 0 {
    } else if is_qws(s[0]) {
        assert(lo > 0 || lo == hi) by {
            if lo == 0 && hi > lo {
                assert(!is_qws(s[0]));
            }
        }
        if lo == hi {
            if lo == 0 {
                lemma_trim_is(s.drop_first(), 0, 0);
                assert(s.subrange(lo, hi) =~= s.drop_first().subrange(0, 0));
            } else {
                lemma_trim_is(s.drop_first(), lo - 1, hi - 1);
                assert(s.drop_first().subrange(lo - 1, hi - 1) =~= s.subrange(lo, hi));
            }
        } else {
            lemma_trim_is(s.drop_first(), lo - 1, hi - 1);
            assert(s.drop_first().subrange(lo - 1, hi - 1) =~= s.subrange(lo, hi));
        }
    } else if is_qws(s.last()) {
        assert(hi < s.len() || lo == hi) by {
            if hi == s.len() && hi > lo {
                assert(!is_qws(s[hi - 1]));
            }
        }
        if lo == hi && hi == s.len() {
            assert(lo == hi == s.len());
            assert(is_qws(s[lo - 1]) || lo == 0);
            lemma_trim_is(s.drop_last(), if lo <= s.len() - 1 {
                lo
            } else {
                s.len() - 1
            }, if hi <= s.len() - 1 {
                hi
            } else {
                s.len() - 1
            });
            assert(trim_ws(s) =~= s.subrange(lo, hi));
        } else {
            lemma_trim_is(s.drop_last(), lo, hi);
            assert(s.drop_last().subrange(lo, hi) =~= s.subrange(lo, hi));
        }
    }
}

/// Parses all query lines: each yields its id and its cursors; a line
/// without the `:` separator fails the whole batch.
pub fn cursors_from_queries<'a>(lines: &Vec<String>, index: &'a Index) -> (r: Result<
    (Vec<String>, Vec<Vec<PostingListIterator<'a>>>),
    BmpError,
>)
    requires
        index.spec_terms().len() == index.spec_posting_lists().len(),
        index.spec_terms().len() <= u32::MAX,
        forall|i: int| 0 <= i < lines@.len() ==> (#[trigger] lines@[i])@.len() <= u32::MAX,
    ensures
        (r is Ok) <==> (forall|i: int|
            0 <= i < lines@.len() ==> colon_pos((#[trigger] lines@[i])@, 0) is Some),
        (r matches Ok(q) ==> {
            &&& q.0@.len() == lines@.len()
            &&& q.1@.len() == lines@.len()
            &&& (forall|i: int|
                #![trigger lines@[i]]
                0 <= i < lines@.len() ==> q.0@[i]@ == trim_ws(
                    lines@[i]@.take(colon_pos(lines@[i]@, 0).unwrap()),
                ) && some_cursors(
                    q.1@[i]@,
                    lines@[i]@.skip(colon_pos(lines@[i]@, 0).unwrap() + 1),
                    index,
                ))
        }),
{
    let mut q_ids: Vec<String> = Vec::new();
    let mut queries: Vec<Vec<PostingListIterator<'a>>> = Vec::new();
    let n = lines.len();
    let mut i: usize = 0;
    while i < n
        invariant
            n == lines@.len(),
            index.spec_terms().len() == index.spec_posting_lists().len(),
            index.spec_terms().len() <= u32::MAX,
            forall|a: int| 0 <= a < lines@.len() ==> (#[trigger] lines@[a])@.len() <= u32::MAX,
            0 <= i <= n,
            q_ids@.len() == i,
            queries@.len() == i,
            forall|a: int|
                #![trigger lines@[a]]
                0 <= a < i ==> colon_pos(lines@[a]@, 0) is Some && q_ids@[a]@ == trim_ws(
                    lines@[a]@.take(colon_pos(lines@[a]@, 0).unwrap()),
                ) && some_cursors(
                    queries@[a]@,
                    lines@[a]@.skip(colon_pos(lines@[a]@, 0).unwrap() + 1),
                    index,
                ),
        decreases n - i,
    {
        let line = lines[i].as_str();
        proof {
            assert(line@ == lines@[i as int]@);
        }
        let (qid, text) = match parse_query_line(line) {
            Ok(q) => q,
            Err(e) => {
                return Err(e);
            },
        };
        proof {
            assert(text@.len() <= u32::MAX) by {
                lemma_colon_pos_bounds(lines@[i as int]@, 0);
                assert(text@ == lines@[i as int]@.skip(colon_pos(lines@[i as int]@, 0).unwrap() + 1));
            }
        }
        let cursors = cursors_from_query_text(text.as_str(), index);
        let ghost q_ids0 = q_ids@;
        let ghost queries0 = queries@;
        q_ids.push(qid);
        queries.push(cursors);
        proof {
            assert forall|a: int|
                #![trigger lines@[a]]
                0 <= a < i + 1 implies colon_pos(lines@[a]@, 0) is Some && q_ids@[a]@ == trim_ws(
                lines@[a]@.take(colon_pos(lines@[a]@, 0).unwrap()),
            ) && some_cursors(
                queries@[a]@,
                lines@[a]@.skip(colon_pos(lines@[a]@, 0).unwrap() + 1),
                index,
            ) by {
                if a < i {
                    assert(q_ids@[a] == q_ids0[a]);
                    assert(queries@[a] == queries0[a]);
                } else {
                    assert(q_ids@[a] == qid);
                    assert(queries@[a] == cursors);
                    assert(text@ == lines@[a]@.skip(colon_pos(lines@[a]@, 0).unwrap() + 1));
                }
            }
        }
        i = i + 1;
    }
    Ok((q_ids, queries))
}

} // verus!
