//! Fixed-capacity top-k accumulator with a running threshold.
//!
//! The accumulator keeps the k best (document, score) pairs seen so far,
//! ordered by score with ties broken towards the smaller document id.  Its
//! `threshold` starts at a caller-chosen value and, once k entries are
//! held, equals the lowest in-heap score; it never decreases over the
//! life of a query.

use vstd::prelude::*;
use vstd::multiset::Multiset;
use crate::cursor::DocId;

verus! {

/// One retained result: a document and its 16-bit score.
#[derive(Debug, Clone, Copy, PartialEq, Eq, Structural)]
pub struct Entry {
    pub doc_id: DocId,
    pub score: u16,
}

/// Total order on entries, worst first: lower score first, and among
/// equal scores the larger document id first (so that the best-to-worst
/// listing breaks ties by ascending document id).
pub open spec fn entry_le(a: Entry, b: Entry) -> bool {
    a.score < b.score || (a.score == b.score && a.doc_id.0 >= b.doc_id.0)
}

/// `s` is sorted worst-first.
pub open spec fn entries_sorted(s: Seq<Entry>) -> bool {
    forall|i: int, j: int| 0 <= i < j < s.len() ==> entry_le(s[i], s[j])
}

/// Insertion of `e` into an (assumed sorted) sequence, keeping order.
pub open spec fn insert_sorted(s: Seq<Entry>, e: Entry) -> Seq<Entry>
    decreases s.len(),
{
    if s.len() == 0 {
        seq![e]
    } else if entry_le(s.last(), e) {
        s.push(e)
    } else {
        insert_sorted(s.drop_last(), e).push(s.last())
    }
}

pub proof fn lemma_insert_sorted_facts(s: Seq<Entry>, e: Entry)
    requires
        entries_sorted(s),
    ensures
        insert_sorted(s, e).len() == s.len() + 1,
        entries_sorted(insert_sorted(s, e)),
        forall|i: int|
            0 <= i < insert_sorted(s, e).len() ==> (s.contains(insert_sorted(s, e)[i])
                || insert_sorted(s, e)[i] == e),
        insert_sorted(s, e).to_multiset() == s.to_multiset().insert(e),
    decreases s.len(),
{
    s.to_multiset_ensures();
    insert_sorted(s, e).to_multiset_ensures();
    if s.len() == 0 {
        assert(insert_sorted(s, e) =~= seq![e]);
        assert(seq![e] =~= Seq::<Entry>::empty().push(e));
        Seq::<Entry>::empty().to_multiset_ensures();
        assert(Seq::<Entry>::empty().to_multiset() =~= Multiset::<Entry>::empty());
        assert(insert_sorted(s, e).to_multiset() =~= s.to_multiset().insert(e));
    } else if entry_le(s.last(), e) {
        assert forall|i: int| 0 <= i < s.push(e).len() implies (s.contains(s.push(e)[i]) || s.push(
            e,
        )[i] == e) by {
            if i < s.len() {
                assert(s.push(e)[i] == s[i]);
                assert(s.contains(s[i]));
            }
        }
        assert forall|i: int, j: int| 0 <= i < j < s.push(e).len() implies entry_le(
            s.push(e)[i],
            s.push(e)[j],
        ) by {
            if j == s.len() {
                if i < s.len() - 1 {
                    assert(entry_le(s[i], s.last()));
                }
            }
        }
    } else {
        let s0 = s.drop_last();
        assert(entries_sorted(s0)) by {
            assert(forall|i: int, j: int|
                0 <= i < j < s0.len() ==> s0[i] == s[i] && s0[j] == s[j]);
        }
        lemma_insert_sorted_facts(s0, e);
        let t = insert_sorted(s0, e);
        let r = t.push(s.last());
        s0.to_multiset_ensures();
        t.to_multiset_ensures();
        assert(s0.push(s.last()) =~= s);
        // multiset: r.to_multiset() == t.to_multiset().insert(s.last())
        //         == s0.to_multiset().insert(e).insert(s.last())
        //         == s.to_multiset().insert(e)
        assert(r.to_multiset() =~= t.to_multiset().insert(s.last()));
        assert(s.to_multiset() =~= s0.to_multiset().insert(s.last())) by {
            assert(s =~= s0.push(s.last()));
        }
        assert(r.to_multiset() =~= s.to_multiset().insert(e));
        // membership
        assert forall|i: int| 0 <= i < r.len() implies (s.contains(r[i]) || r[i] == e) by {
            if i < t.len() {
                assert(s0.contains(t[i]) || t[i] == e);
                if s0.contains(t[i]) {
                    let j = choose|j: int| 0 <= j < s0.len() && s0[j] == t[i];
                    assert(s[j] == t[i]);
                }
            } else {
                assert(r[i] == s.last());
                assert(s.contains(s.last()));
            }
        }
        // sortedness: t sorted; every element of t is either from s0 (all
        // entry_le s.last() by sortedness of s) or e (entry_le s.last()
        // because !entry_le(s.last(), e) and the order is total).
        assert(!entry_le(s.last(), e));
        assert(entry_le(e, s.last()));
        assert forall|i: int, j: int| 0 <= i < j < r.len() implies entry_le(r[i], r[j]) by {
            if j == r.len() - 1 {
                assert(r[j] == s.last());
                assert(s0.contains(t[i]) || t[i] == e);
                if s0.contains(t[i]) {
                    let m = choose|m: int| 0 <= m < s0.len() && s0[m] == t[i];
                    assert(entry_le(s[m], s.last()));
                }
            }
        }
    }
}

/// The model-level insertion step: what `TopKHeap::insert` does to the
/// threshold, the retained entries, and the returned threshold update.
pub open spec fn spec_heap_insert(k: int, threshold: u16, entries: Seq<Entry>, doc_id: u32, score: u16)
    -> (u16, Seq<Entry>, Option<u16>) {
    if score <= threshold {
        (threshold, entries, None)
    } else {
        let grown = insert_sorted(entries, Entry { doc_id: DocId(doc_id), score });
        if grown.len() < k {
            (threshold, grown, None)
        } else if grown.len() == k {
            (grown[0].score, grown, Some(grown[0].score))
        } else {
            let kept = grown.drop_first();
            (kept[0].score, kept, Some(kept[0].score))
        }
    }
}

/// Maintains the k best (document id, score) pairs with a running
/// threshold.
#[derive(Debug, Clone)]
pub struct TopKHeap {
    entries: Vec<Entry>,
    threshold: u16,
    k: usize,
}

impl TopKHeap {
    /// The configured capacity.
    pub closed spec fn spec_k(self) -> int {
        self.k as int
    }

    /// The current threshold.
    pub closed spec fn spec_threshold(self) -> u16 {
        self.threshold
    }

    /// The retained entries, worst first.
    pub closed spec fn spec_entries(self) -> Seq<Entry> {
        self.entries@
    }

    /// Well-formedness: at most k entries, kept sorted worst-first; when
    /// full the threshold is the worst retained score, before that every
    /// retained score is above the threshold.
    pub open spec fn wf(self) -> bool {
        &&& self.spec_k() >= 1
        &&& self.spec_entries().len() <= self.spec_k()
        &&& entries_sorted(self.spec_entries())
        &&& (self.spec_entries().len() == self.spec_k() ==> self.spec_threshold()
            == self.spec_entries()[0].score)
        &&& (self.spec_entries().len() < self.spec_k() ==> forall|i: int|
            0 <= i < self.spec_entries().len() ==> self.spec_entries()[i].score
                > self.spec_threshold())
    }

    /// Creates a new `TopKHeap` with the specified capacity and an
    /// initial threshold of zero.
    pub fn new(k: usize) -> (r: TopKHeap)
        requires
            k >= 1,
        ensures
            r.wf(),
            r.spec_k() == k,
            r.spec_threshold() == 0,
            r.spec_entries() =~= Seq::<Entry>::empty(),
    {
        Self::with_threshold(k, 0)
    }

    /// Creates a new `TopKHeap` with the specified capacity and initial
    /// threshold.
    pub fn with_threshold(k: usize, threshold: u16) -> (r: TopKHeap)
        requires
            k >= 1,
        ensures
            r.wf(),
            r.spec_k() == k,
            r.spec_threshold() == threshold,
            r.spec_entries() =~= Seq::<Entry>::empty(),
    {
        TopKHeap { entries: Vec::new(), threshold, k }
    }

    /// The current threshold: the lowest retained score once k entries
    /// are held, the initial threshold before that.
    pub fn threshold(&self) -> (r: u16)
        ensures
            r == self.spec_threshold(),
    {
        self.threshold
    }

    /// Whether a score would qualify for entry into the top k.
    pub fn would_enter(&self, score: u16) -> (r: bool)
        ensures
            r == (score > self.spec_threshold()),
    {
        score > self.threshold
    }

    /// Inserts a document with its score.
    ///
    /// A score at or below the threshold is a no-op returning `None`.
    /// Otherwise the entry is retained and, if the accumulator holds k
    /// entries after dropping any overflow, the new threshold (the lowest
    /// retained score) is set and returned.  The threshold never
    /// decreases.
    pub fn insert(&mut self, doc_id: DocId, score: u16) -> (r: Option<u16>)
        requires
            old(self).wf(),
        ensures
            final(self).wf(),
            final(self).spec_k() == old(self).spec_k(),
            final(self).spec_threshold() == spec_heap_insert(
                old(self).spec_k(),
                old(self).spec_threshold(),
                old(self).spec_entries(),
                doc_id.0,
                score,
            ).0,
            final(self).spec_entries() == spec_heap_insert(
                old(self).spec_k(),
                old(self).spec_threshold(),
                old(self).spec_entries(),
                doc_id.0,
                score,
            ).1,
            r == spec_heap_insert(
                old(self).spec_k(),
                old(self).spec_threshold(),
                old(self).spec_entries(),
                doc_id.0,
                score,
            ).2,
            final(self).spec_threshold() >= old(self).spec_threshold(),
    {
        if !self.would_enter(score) {
            return None;
        }
        let e = Entry { doc_id, score };
        let ghost s0 = self.entries@;
        proof {
            lemma_insert_sorted_facts(s0, e);
        }
        // find the insertion point from the right
        let mut i: usize = self.entries.len();
        while i > 0 && !entry_le_exec(&self.entries[i - 1], &e)
            invariant
                0 <= i <= self.entries@.len(),
                self.entries@ == s0,
                forall|j: int| i <= j < s0.len() ==> !entry_le(s0[j], e),
            decreases i,
        {
            i = i - 1;
        }
        proof {
            assert forall|j: int| 0 <= j < i implies entry_le(s0[j], e) by {
                assert(entry_le(s0[i - 1], e));
                if j < i - 1 {
                    assert(entry_le(s0[j], s0[i - 1]));
                }
            }
            lemma_insert_at_pos(s0, e, i as int);
        }
        self.entries.insert(i, e);
        proof {
            assert(self.entries@ =~= s0.insert(i as int, e));
            assert(s0.insert(i as int, e) =~= s0.subrange(0, i as int) + seq![e] + s0.subrange(
                i as int,
                s0.len() as int,
            ));
            assert(self.entries@ == insert_sorted(s0, e));
        }
        if self.entries.len() <= self.k {
            if self.entries.len() == self.k {
                self.threshold = self.entries[0].score;
                proof {
                    lemma_new_min_at_least(s0, e, old(self).threshold);
                }
                Some(self.threshold)
            } else {
                None
            }
        } else {
            let ghost s1 = self.entries@;
            self.entries.remove(0);
            proof {
                assert(self.entries@ =~= s1.drop_first());
                assert forall|a: int, b: int|
                    0 <= a < b < self.entries@.len() implies entry_le(
                    self.entries@[a],
                    self.entries@[b],
                ) by {
                    assert(self.entries@[a] == s1[a + 1]);
                    assert(self.entries@[b] == s1[b + 1]);
                    assert(entry_le(s1[a + 1], s1[b + 1]));
                }
            }
            self.threshold = self.entries[0].score;
            proof {
                // the new minimum is an element of the old entries or e,
                // all of which score at least the old threshold
                assert(s1[1] == self.entries@[0]);
                assert(s0.contains(s1[1]) || s1[1] == e);
                if s0.contains(s1[1]) {
                    let m = choose|m: int| 0 <= m < s0.len() && s0[m] == s1[1];
                    assert(entry_le(s0[0], s0[m]) || m == 0);
                }
            }
            Some(self.threshold)
        }
    }

    /// Destructively returns the retained entries in descending score
    /// order, ties broken by ascending document id.
    pub fn to_sorted_vec(&mut self) -> (r: Vec<Entry>)
        ensures
            r@ == old(self).spec_entries().reverse(),
            final(self).spec_entries() =~= Seq::<Entry>::empty(),
            final(self).spec_threshold() == old(self).spec_threshold(),
            final(self).spec_k() == old(self).spec_k(),
            old(self).wf() ==> final(self).wf(),
    {
        let ghost s0 = self.entries@;
        let n = self.entries.len();
        let mut out: Vec<Entry> = Vec::new();
        let mut idx: usize = 0;
        while idx < n
            invariant
                self.entries@ == s0,
                n == s0.len(),
                0 <= idx <= n,
                out@.len() == idx,
                forall|j: int| 0 <= j < idx ==> out@[j] == s0[n - 1 - j],
            decreases n - idx,
        {
            let e = self.entries[n - 1 - idx];
            out.push(e);
            idx = idx + 1;
        }
        self.entries.clear();
        proof {
            assert(out@ =~= s0.reverse());
        }
        out
    }
}

/// Executable form of the worst-first entry order.
pub fn entry_le_exec(a: &Entry, b: &Entry) -> (r: bool)
    ensures
        r == entry_le(*a, *b),
{
    a.score < b.score || (a.score == b.score && a.doc_id.0 >= b.doc_id.0)
}

proof fn lemma_insert_at_pos(s: Seq<Entry>, e: Entry, i: int)
    requires
        entries_sorted(s),
        0 <= i <= s.len(),
        forall|j: int| 0 <= j < i ==> entry_le(s[j], e),
        forall|j: int| i <= j < s.len() ==> !entry_le(s[j], e),
    ensures
        insert_sorted(s, e) =~= s.subrange(0, i) + seq![e] + s.subrange(i, s.len() as int),
    decreases s.len(),
{
    if s.len() == 0 {
    } else if entry_le(s.last(), e) {
        assert(i == s.len());
    } else {
        assert(i < s.len());
        let s0 = s.drop_last();
        assert(entries_sorted(s0));
        lemma_insert_at_pos(s0, e, i);
    }
}

proof fn lemma_new_min_at_least(s0: Seq<Entry>, e: Entry, threshold: u16)
    requires
        entries_sorted(s0),
        forall|i: int| 0 <= i < s0.len() ==> s0[i].score > threshold,
        e.score > threshold,
    ensures
        insert_sorted(s0, e).len() > 0 ==> insert_sorted(s0, e)[0].score > threshold,
{
    lemma_insert_sorted_facts(s0, e);
    let t = insert_sorted(s0, e);
    if t.len() > 0 {
        assert(s0.contains(t[0]) || t[0] == e);
    }
}

} // verus!
