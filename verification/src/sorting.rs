//! Insertion sort over packed 64-bit keys.
//!
//! The builder orders term/document/score triples by packing them into
//! integers whose numeric order is the wanted lexicographic order.

use vstd::prelude::*;
use vstd::multiset::Multiset;

verus! {

/// `s` is sorted in non-decreasing order.
pub open spec fn sorted_u64(s: Seq<u64>) -> bool {
    forall|i: int, j: int| 0 <= i < j < s.len() ==> s[i] <= s[j]
}

/// Insertion of `x` into an (assumed sorted) sequence, keeping order.
pub open spec fn insert_sorted_u64(s: Seq<u64>, x: u64) -> Seq<u64>
    decreases s.len(),
{
    if s.len() == 0 {
        seq![x]
    } else if s.last() <= x {
        s.push(x)
    } else {
        insert_sorted_u64(s.drop_last(), x).push(s.last())
    }
}

pub proof fn lemma_insert_sorted_u64_facts(s: Seq<u64>, x: u64)
    requires
        sorted_u64(s),
    ensures
        insert_sorted_u64(s, x).len() == s.len() + 1,
        sorted_u64(insert_sorted_u64(s, x)),
        insert_sorted_u64(s, x).to_multiset() == s.to_multiset().insert(x),
    decreases s.len(),
{
    s.to_multiset_ensures();
    insert_sorted_u64(s, x).to_multiset_ensures();
    if s.len() == 0 {
        assert(insert_sorted_u64(s, x) =~= Seq::<u64>::empty().push(x));
        Seq::<u64>::empty().to_multiset_ensures();
        assert(Seq::<u64>::empty().to_multiset() =~= Multiset::<u64>::empty());
        assert(insert_sorted_u64(s, x).to_multiset() =~= s.to_multiset().insert(x));
    } else if s.last() <= x {
        assert forall|i: int, j: int| 0 <= i < j < s.push(x).len() implies s.push(x)[i] <= s.push(
            x,
        )[j] by {
            if j == s.len() && i < s.len() - 1 {
                assert(s[i] <= s.last());
            }
        }
    } else {
        let s0 = s.drop_last();
        assert(sorted_u64(s0)) by {
            assert(forall|i: int, j: int|
                0 <= i < j < s0.len() ==> s0[i] == s[i] && s0[j] == s[j]);
        }
        lemma_insert_sorted_u64_facts(s0, x);
        let t = insert_sorted_u64(s0, x);
        let r = t.push(s.last());
        s0.to_multiset_ensures();
        t.to_multiset_ensures();
        assert(s0.push(s.last()) =~= s);
        assert(r.to_multiset() =~= t.to_multiset().insert(s.last()));
        assert(s.to_multiset() =~= s0.to_multiset().insert(s.last()));
        assert(r.to_multiset() =~= s.to_multiset().insert(x));
        // every element of t is an element of s0 or x itself, and both
        // stand at or before s.last() in the order
        assert forall|i: int, j: int| 0 <= i < j < r.len() implies r[i] <= r[j] by {
            if j == r.len() - 1 {
                assert(t.to_multiset().count(t[i]) > 0);
                assert(s0.to_multiset().insert(x).count(t[i]) > 0);
                if t[i] == x {
                } else {
                    assert(s0.to_multiset().count(t[i]) > 0);
                    assert(s0.contains(t[i]));
                    let m = choose|m: int| 0 <= m < s0.len() && s0[m] == t[i];
                    assert(s[m] <= s.last());
                }
            }
        }
    }
}

proof fn lemma_insert_at_pos_u64(s: Seq<u64>, x: u64, i: int)
    requires
        sorted_u64(s),
        0 <= i <= s.len(),
        forall|j: int| 0 <= j < i ==> s[j] <= x,
        forall|j: int| i <= j < s.len() ==> !(s[j] <= x),
    ensures
        insert_sorted_u64(s, x) =~= s.subrange(0, i) + seq![x] + s.subrange(i, s.len() as int),
    decreases s.len(),
{
    if s.len() == 0 {
    } else if s.last() <= x {
        assert(i == s.len());
    } else {
        assert(i < s.len());
        let s0 = s.drop_last();
        assert(sorted_u64(s0));
        lemma_insert_at_pos_u64(s0, x, i);
    }
}

/// Sorts the keys in non-decreasing order; the result is the unique
/// sorted arrangement of the input multiset.
pub fn sort_u64(v: &Vec<u64>) -> (r: Vec<u64>)
    ensures
        sorted_u64(r@),
        r@.to_multiset() == v@.to_multiset(),
        r@.len() == v@.len(),
{
    let mut out: Vec<u64> = Vec::new();
    let mut t: usize = 0;
    proof {
        v@.to_multiset_ensures();
        out@.to_multiset_ensures();
        assert(v@.subrange(0, 0) =~= Seq::<u64>::empty());
        assert(Seq::<u64>::empty().to_multiset() =~= Multiset::<u64>::empty());
    }
    while t < v.len()
        invariant
            0 <= t <= v@.len(),
            sorted_u64(out@),
            out@.len() == t,
            out@.to_multiset() == v@.subrange(0, t as int).to_multiset(),
        decreases v@.len() - t,
    {
        let x = v[t];
        let ghost s0 = out@;
        proof {
            lemma_insert_sorted_u64_facts(s0, x);
        }
        let mut i: usize = out.len();
        while i > 0 && !(out[i - 1] <= x)
            invariant
                0 <= i <= out@.len(),
                out@ == s0,
                forall|j: int| i <= j < s0.len() ==> !(s0[j] <= x),
            decreases i,
        {
            i = i - 1;
        }
        proof {
            assert forall|j: int| 0 <= j < i implies s0[j] <= x by {
                assert(s0[i - 1] <= x);
                if j < i - 1 {
                    assert(s0[j] <= s0[i - 1]);
                }
            }
            lemma_insert_at_pos_u64(s0, x, i as int);
        }
        out.insert(i, x);
        proof {
            assert(out@ =~= s0.insert(i as int, x));
            assert(s0.insert(i as int, x) =~= s0.subrange(0, i as int) + seq![x] + s0.subrange(
                i as int,
                s0.len() as int,
            ));
            assert(out@ == insert_sorted_u64(s0, x));
            s0.to_multiset_ensures();
            assert(v@.subrange(0, t + 1).drop_last() =~= v@.subrange(0, t as int));
            v@.subrange(0, t + 1).to_multiset_ensures();
            assert(v@.subrange(0, t + 1) =~= v@.subrange(0, t as int).push(x));
            v@.subrange(0, t as int).to_multiset_ensures();
            assert(v@.subrange(0, t + 1).to_multiset() =~= v@.subrange(0, t as int)
                .to_multiset()
                .insert(x));
        }
        t = t + 1;
    }
    proof {
        assert(v@.subrange(0, v@.len() as int) =~= v@);
    }
    out
}

/// A sorted duplicate-free sequence ascends strictly.
pub proof fn lemma_sorted_no_dup_strict(s: Seq<u64>)
    requires
        sorted_u64(s),
        s.no_duplicates(),
    ensures
        forall|i: int, j: int| 0 <= i < j < s.len() ==> s[i] < s[j],
{
}

/// Inserting a fresh element keeps a sequence duplicate-free, and
/// membership grows by exactly that element.
pub proof fn lemma_insert_no_dup<A>(s: Seq<A>, pos: int, x: A)
    requires
        0 <= pos <= s.len(),
        s.no_duplicates(),
        !s.contains(x),
    ensures
        s.insert(pos, x).no_duplicates(),
        forall|y: A| s.insert(pos, x).contains(y) <==> (s.contains(y) || y == x),
{
    let t = s.insert(pos, x);
    s.insert_ensures(pos, x);
    assert forall|i: int, j: int|
        0 <= i < t.len() && 0 <= j < t.len() && i != j implies t[i] != t[j] by {
        if i == pos {
            if j < pos {
                assert(t[j] == s[j]);
                assert(s.contains(s[j]));
            } else {
                assert(t[j] == s[j - 1]);
                assert(s.contains(s[j - 1]));
            }
        } else if j == pos {
            if i < pos {
                assert(t[i] == s[i]);
                assert(s.contains(s[i]));
            } else {
                assert(t[i] == s[i - 1]);
                assert(s.contains(s[i - 1]));
            }
        } else {
            let si = if i < pos { i } else { i - 1 };
            let sj = if j < pos { j } else { j - 1 };
            assert(t[i] == s[si] && t[j] == s[sj]);
        }
    }
    assert forall|y: A| t.contains(y) <==> (s.contains(y) || y == x) by {
        if t.contains(y) {
            let i = choose|i: int| 0 <= i < t.len() && t[i] == y;
            if i == pos {
            } else if i < pos {
                assert(s[i] == y);
                assert(s.contains(s[i]));
            } else {
                assert(s[i - 1] == y);
                assert(s.contains(s[i - 1]));
            }
        }
        if s.contains(y) {
            let i = choose|i: int| 0 <= i < s.len() && s[i] == y;
            if i < pos {
                assert(t[i] == y);
            } else {
                assert(t[i + 1] == y);
            }
        }
        if y == x {
            assert(t[pos] == y);
        }
    }
}

/// Two sorted sequences with the same multiset are the same sequence.
pub proof fn lemma_sorted_multiset_unique(s1: Seq<u64>, s2: Seq<u64>)
    requires
        sorted_u64(s1),
        sorted_u64(s2),
        s1.to_multiset() == s2.to_multiset(),
    ensures
        s1 =~= s2,
    decreases s1.len(),
{
    s1.to_multiset_ensures();
    s2.to_multiset_ensures();
    if s1.len() == 0 {
        if s2.len() != 0 {
            assert(s2.to_multiset().count(s2[0]) > 0);
            assert(s1.to_multiset().count(s2[0]) == 0);
        }
    } else {
        assert(s2.len() == s1.len());
        // the heads are both the least element of the common multiset
        assert(s1.contains(s1[0]));
        assert(s1.to_multiset().count(s1[0]) > 0);
        assert(s2.to_multiset().count(s1[0]) > 0);
        assert(s2.contains(s1[0]));
        let j1 = choose|j: int| 0 <= j < s2.len() && s2[j] == s1[0];
        assert(s2[0] <= s2[j1] || j1 == 0);
        assert(s2.contains(s2[0]));
        assert(s2.to_multiset().count(s2[0]) > 0);
        assert(s1.to_multiset().count(s2[0]) > 0);
        assert(s1.contains(s2[0]));
        let j2 = choose|j: int| 0 <= j < s1.len() && s1[j] == s2[0];
        assert(s1[0] <= s1[j2] || j2 == 0);
        assert(s1[0] == s2[0]);
        let t1 = s1.drop_first();
        let t2 = s2.drop_first();
        assert(t1.to_multiset() == t2.to_multiset()) by {
            assert(s1.remove(0) =~= t1);
            assert(s2.remove(0) =~= t2);
            assert(t1.to_multiset() =~= s1.to_multiset().remove(s1[0]));
            assert(t2.to_multiset() =~= s2.to_multiset().remove(s2[0]));
        }
        assert(sorted_u64(t1) && sorted_u64(t2)) by {
            assert(forall|i: int, j: int|
                0 <= i < j < t1.len() ==> t1[i] == s1[i + 1] && t1[j] == s1[j + 1]);
            assert(forall|i: int, j: int|
                0 <= i < j < t2.len() ==> t2[i] == s2[i + 1] && t2[j] == s2[j + 1]);
        }
        lemma_sorted_multiset_unique(t1, t2);
        assert(s1 =~= seq![s1[0]] + t1);
        assert(s2 =~= seq![s2[0]] + t2);
    }
}

} // verus!
