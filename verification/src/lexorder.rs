//! Byte-lexicographic order on term strings.
//!
//! Terms are ordered by the UTF-8 bytes of their text, which is also the
//! code-point order; the dictionary assigns term ids by this order.

use vstd::prelude::*;
use vstd::utf8::{encode_utf8, decode_utf8};

verus! {

/// The UTF-8 bytes of a term's text.
pub open spec fn str_bytes(s: Seq<char>) -> Seq<u8> {
    encode_utf8(s)
}

/// Byte-lexicographic "less than or equal".
pub open spec fn lex_le(a: Seq<u8>, b: Seq<u8>) -> bool
    decreases a.len(),
{
    if a.len() == 0 {
        true
    } else if b.len() == 0 {
        false
    } else if a[0] < b[0] {
        true
    } else if a[0] > b[0] {
        false
    } else {
        lex_le(a.drop_first(), b.drop_first())
    }
}

/// The order is total.
pub proof fn lemma_lex_total(a: Seq<u8>, b: Seq<u8>)
    ensures
        lex_le(a, b) || lex_le(b, a),
    decreases a.len(),
{
    if a.len() > 0 && b.len() > 0 && a[0] == b[0] {
        lemma_lex_total(a.drop_first(), b.drop_first());
    }
}

/// The order is antisymmetric: mutually ordered byte strings are equal.
pub proof fn lemma_lex_antisym(a: Seq<u8>, b: Seq<u8>)
    requires
        lex_le(a, b),
        lex_le(b, a),
    ensures
        a =~= b,
    decreases a.len(),
{
    if a.len() > 0 && b.len() > 0 && a[0] == b[0] {
        lemma_lex_antisym(a.drop_first(), b.drop_first());
        assert(a =~= seq![a[0]] + a.drop_first());
        assert(b =~= seq![b[0]] + b.drop_first());
    }
}

/// Comparison is decided at the first position where the bytes differ.
proof fn lemma_lex_skip(a: Seq<u8>, b: Seq<u8>, i: int)
    requires
        0 <= i <= a.len(),
        i <= b.len(),
        forall|j: int| 0 <= j < i ==> a[j] == b[j],
    ensures
        lex_le(a, b) == lex_le(a.skip(i), b.skip(i)),
    decreases i,
{
    if i > 0 {
        assert(a.len() > 0 && b.len() > 0 && a[0] == b[0]);
        lemma_lex_skip(a.drop_first(), b.drop_first(), i - 1);
        assert(a.drop_first().skip(i - 1) =~= a.skip(i));
        assert(b.drop_first().skip(i - 1) =~= b.skip(i));
    } else {
        assert(a.skip(0) =~= a);
        assert(b.skip(0) =~= b);
    }
}

/// Equal byte strings decode to equal texts.
pub proof fn lemma_bytes_eq_views_eq(a: Seq<char>, b: Seq<char>)
    requires
        str_bytes(a) == str_bytes(b),
    ensures
        a == b,
{
    vstd::utf8::encode_utf8_decode_utf8(a);
    vstd::utf8::encode_utf8_decode_utf8(b);
    assert(decode_utf8(encode_utf8(a)) == decode_utf8(encode_utf8(b)));
}

/// Byte-lexicographic comparison of two strings.
pub fn str_le(a: &str, b: &str) -> (r: bool)
    ensures
        r == lex_le(str_bytes(a@), str_bytes(b@)),
{
    let ab: &[u8] = a.as_bytes();
    let bb: &[u8] = b.as_bytes();
    let alen = ab.len();
    let blen = bb.len();
    let mut i: usize = 0;
    loop
        invariant
            ab@ == str_bytes(a@),
            bb@ == str_bytes(b@),
            alen == ab@.len(),
            blen == bb@.len(),
            0 <= i <= alen,
            i <= blen,
            forall|j: int| 0 <= j < i ==> ab@[j] == bb@[j],
        decreases alen - i,
    {
        proof {
            lemma_lex_skip(ab@, bb@, i as int);
        }
        if i >= alen {
            proof {
                assert(ab@.skip(i as int).len() == 0);
            }
            return true;
        }
        if i >= blen {
            proof {
                assert(bb@.skip(i as int).len() == 0);
                assert(ab@.skip(i as int).len() > 0);
            }
            return false;
        }
        let ca = ab[i];
        let cb = bb[i];
        proof {
            assert(ab@.skip(i as int)[0] == ab@[i as int]);
            assert(bb@.skip(i as int)[0] == bb@[i as int]);
        }
        if ca < cb {
            return true;
        }
        if ca > cb {
            return false;
        }
        i = i + 1;
    }
}

/// Text equality of two strings.
pub fn str_eq(a: &str, b: &str) -> (r: bool)
    ensures
        r == (a@ == b@),
{
    let ab: &[u8] = a.as_bytes();
    let bb: &[u8] = b.as_bytes();
    let alen = ab.len();
    let blen = bb.len();
    if alen != blen {
        proof {
            if a@ == b@ {
                assert(str_bytes(a@) == str_bytes(b@));
            }
        }
        return false;
    }
    let mut i: usize = 0;
    while i < alen
        invariant
            ab@ == str_bytes(a@),
            bb@ == str_bytes(b@),
            alen == ab@.len(),
            alen == bb@.len(),
            0 <= i <= alen,
            forall|j: int| 0 <= j < i ==> ab@[j] == bb@[j],
        decreases alen - i,
    {
        if ab[i] != bb[i] {
            proof {
                if a@ == b@ {
                    assert(str_bytes(a@) == str_bytes(b@));
                    assert(ab@[i as int] == bb@[i as int]);
                }
            }
            return false;
        }
        i = i + 1;
    }
    proof {
        assert(ab@ =~= bb@);
        lemma_bytes_eq_views_eq(a@, b@);
    }
    true
}

/// Indices into `terms`, ordered so that the term texts ascend in
/// byte-lexicographic order; a permutation of `0..terms.len()`.
pub fn sort_term_indices(terms: &Vec<String>) -> (ord: Vec<usize>)
    ensures
        ord@.len() == terms@.len(),
        forall|r: int| 0 <= r < ord@.len() ==> (#[trigger] ord@[r]) < terms@.len(),
        forall|r1: int, r2: int|
            0 <= r1 < r2 < ord@.len() ==> lex_le(
                str_bytes(terms@[ord@[r1] as int]@),
                str_bytes(terms@[ord@[r2] as int]@),
            ),
        ord@.no_duplicates(),
        forall|i: int| 0 <= i < terms@.len() ==> ord@.contains(#[trigger] (i as usize)),
{
    let n = terms.len();
    let mut ord: Vec<usize> = Vec::new();
    let mut i: usize = 0;
    while i < n
        invariant
            n == terms@.len(),
            0 <= i <= n,
            ord@.len() == i,
            forall|r: int| 0 <= r < ord@.len() ==> (#[trigger] ord@[r]) < i,
            forall|r1: int, r2: int|
                0 <= r1 < r2 < ord@.len() ==> lex_le(
                    str_bytes(terms@[ord@[r1] as int]@),
                    str_bytes(terms@[ord@[r2] as int]@),
                ),
            ord@.no_duplicates(),
            forall|j: int| 0 <= j < i ==> ord@.contains(#[trigger] (j as usize)),
        decreases n - i,
    {
        let ghost s0 = ord@;
        let mut pos: usize = ord.len();
        while pos > 0 && !str_le(terms[ord[pos - 1]].as_str(), terms[i].as_str())
            invariant
                n == terms@.len(),
                ord@ == s0,
                0 <= i < n,
                forall|r: int| 0 <= r < ord@.len() ==> (#[trigger] ord@[r]) < i,
                0 <= pos <= ord@.len(),
                forall|r: int| pos <= r < s0.len() ==> !lex_le(
                    str_bytes(terms@[s0[r] as int]@),
                    str_bytes(terms@[i as int]@),
                ),
            decreases pos,
        {
            pos = pos - 1;
        }
        proof {
            assert forall|r: int| 0 <= r < pos implies lex_le(
                str_bytes(terms@[s0[r] as int]@),
                str_bytes(terms@[i as int]@),
            ) by {
                assert(lex_le(str_bytes(terms@[s0[pos - 1] as int]@), str_bytes(terms@[i as int]@)));
                if r < pos - 1 {
                    assert(lex_le(
                        str_bytes(terms@[s0[r] as int]@),
                        str_bytes(terms@[s0[pos - 1] as int]@),
                    ));
                    lemma_lex_trans(
                        str_bytes(terms@[s0[r] as int]@),
                        str_bytes(terms@[s0[pos - 1] as int]@),
                        str_bytes(terms@[i as int]@),
                    );
                }
            }
            assert(!s0.contains(i as usize)) by {
                if s0.contains(i as usize) {
                    let r = choose|r: int| 0 <= r < s0.len() && s0[r] == i as usize;
                    assert(s0[r] < i);
                }
            }
            crate::sorting::lemma_insert_no_dup(s0, pos as int, i as usize);
            s0.insert_ensures(pos as int, i as usize);
        }
        ord.insert(pos, i);
        proof {
            assert(ord@ =~= s0.insert(pos as int, i as usize));
            let t = ord@;
            assert forall|r1: int, r2: int| 0 <= r1 < r2 < t.len() implies lex_le(
                str_bytes(terms@[t[r1] as int]@),
                str_bytes(terms@[t[r2] as int]@),
            ) by {
                let b = |r: int| str_bytes(terms@[t[r] as int]@);
                if r1 == pos {
                    assert(t[r2] == s0[r2 - 1]);
                    assert(!lex_le(str_bytes(terms@[s0[r2 - 1] as int]@), str_bytes(
                        terms@[i as int]@,
                    )));
                    lemma_lex_total(
                        str_bytes(terms@[s0[r2 - 1] as int]@),
                        str_bytes(terms@[i as int]@),
                    );
                } else if r2 == pos {
                    assert(t[r1] == s0[r1]);
                } else if r1 < pos && r2 < pos {
                    assert(t[r1] == s0[r1] && t[r2] == s0[r2]);
                } else if r1 < pos {
                    assert(t[r1] == s0[r1] && t[r2] == s0[r2 - 1]);
                    assert(!lex_le(str_bytes(terms@[s0[r2 - 1] as int]@), str_bytes(
                        terms@[i as int]@,
                    )));
                    lemma_lex_total(
                        str_bytes(terms@[s0[r2 - 1] as int]@),
                        str_bytes(terms@[i as int]@),
                    );
                    lemma_lex_trans(
                        str_bytes(terms@[s0[r1] as int]@),
                        str_bytes(terms@[i as int]@),
                        str_bytes(terms@[s0[r2 - 1] as int]@),
                    );
                } else {
                    assert(t[r1] == s0[r1 - 1] && t[r2] == s0[r2 - 1]);
                }
            }
        }
        i = i + 1;
    }
    ord
}

/// The order is transitive.
pub proof fn lemma_lex_trans(a: Seq<u8>, b: Seq<u8>, c: Seq<u8>)
    requires
        lex_le(a, b),
        lex_le(b, c),
    ensures
        lex_le(a, c),
    decreases a.len(),
{
    if a.len() > 0 && b.len() > 0 && c.len() > 0 {
        if a[0] == b[0] && b[0] == c[0] {
            lemma_lex_trans(a.drop_first(), b.drop_first(), c.drop_first());
        }
    }
}

} // verus!
