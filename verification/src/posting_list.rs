//! Per-term posting-list data: block maxima and quantile scores.

use vstd::prelude::*;
use crate::cursor::{Cursor, RangeMaxScore, RangeMaxScoreCursor};

verus! {

/// One term's per-block maxima: either one 8-bit maximum per block, or
/// super-blocks of 256 consecutive blocks keeping only the non-zero
/// entries as (offset, maximum) pairs.
#[derive(Debug)]
pub enum BlockData {
    Compressed(Vec<CompressedBlock>),
    Raw(Vec<u8>),
}

impl Default for BlockData {
    fn default() -> (r: Self)
        ensures
            r matches BlockData::Raw(v) && v@ =~= Seq::<u8>::empty(),
    {
        BlockData::Raw(Vec::new())
    }
}

/// One super-block of 256 consecutive block maxima, keeping only the
/// non-zero entries as (offset within super-block, maximum) pairs.
#[derive(Debug)]
pub struct CompressedBlock {
    pub max_scores: Vec<(usize, u8)>,
}

/// The per-term record of the inverted index: block maxima plus the
/// 10th, 100th and 1000th largest raw scores of the list.
#[derive(Debug)]
pub struct PostingList {
    range_maxes: BlockData,
    kth_score: Vec<u8>,
}

/// The threshold seed looked up by `kth`: the stored quantile for
/// k exactly 10, 100 or 1000 (0 when the slot is absent), and 0 for any
/// other k.
pub open spec fn spec_kth_value(kth: Seq<u8>, k: int) -> u8 {
    if k == 10 {
        if kth.len() > 0 { kth[0] } else { 0 }
    } else if k == 100 {
        if kth.len() > 1 { kth[1] } else { 0 }
    } else if k == 1000 {
        if kth.len() > 2 { kth[2] } else { 0 }
    } else {
        0
    }
}

/// A query weight is carried as 32 bits but spent as its low 8 bits.
pub open spec fn weight_u8(w: u32) -> u8 {
    (w % 256) as u8
}

impl PostingList {
    /// The stored block maxima.
    pub closed spec fn spec_range_maxes(&self) -> BlockData {
        self.range_maxes
    }

    /// The stored quantile scores.
    pub closed spec fn spec_kth_score(&self) -> Seq<u8> {
        self.kth_score@
    }

    pub fn new(range_maxes: BlockData, kth_score: Vec<u8>) -> (r: Self)
        ensures
            r.spec_range_maxes() == range_maxes,
            r.spec_kth_score() == kth_score@,
    {
        PostingList { range_maxes, kth_score }
    }

    /// The quantile score used to seed the initial threshold: the k-th
    /// largest raw score of the list for k in {10, 100, 1000}, and 0 for
    /// every other k.
    pub fn kth(&self, k: usize) -> (r: u8)
        ensures
            r == spec_kth_value(self.spec_kth_score(), k as int),
    {
        let idx: usize = if k == 10 {
            0
        } else if k == 100 {
            1
        } else if k == 1000 {
            2
        } else {
            3
        };
        if idx < 3 && idx < self.kth_score.len() {
            self.kth_score[idx]
        } else {
            0
        }
    }

    /// The stored block maxima, by reference.
    pub fn range_data(&self) -> (r: &BlockData)
        ensures
            *r == self.spec_range_maxes(),
    {
        &self.range_maxes
    }

    /// The stored quantile scores, by reference.
    pub fn kth_scores(&self) -> (r: &Vec<u8>)
        ensures
            r@ == self.spec_kth_score(),
    {
        &self.kth_score
    }

    /// A cursor over this list for one query term.
    pub fn iter<'a>(&'a self, term_id: u32, term_weight: u32) -> (r: PostingListIterator<'a>)
        ensures
            r.spec_list() == *self,
            r.spec_term_id() == term_id,
            r.spec_term_weight() == term_weight,
            r.spec_position() == usize::MAX,
    {
        PostingListIterator::new(self, term_id, term_weight)
    }
}

/// A cursor over one posting list, carrying the query term's id and
/// weight.
#[derive(Debug, Clone, Copy)]
pub struct PostingListIterator<'a> {
    posting_list: &'a PostingList,
    current: usize,
    term_id: u32,
    term_weight: u32,
}

impl<'a> PostingListIterator<'a> {
    /// The posting list this cursor walks.
    pub closed spec fn spec_list(&self) -> PostingList {
        *self.posting_list
    }

    pub closed spec fn spec_term_id(&self) -> u32 {
        self.term_id
    }

    pub closed spec fn spec_term_weight(&self) -> u32 {
        self.term_weight
    }

    pub closed spec fn spec_position(&self) -> usize {
        self.current
    }

    pub fn new(posting_list: &'a PostingList, term_id: u32, term_weight: u32) -> (r: Self)
        ensures
            r.spec_list() == *posting_list,
            r.spec_term_id() == term_id,
            r.spec_term_weight() == term_weight,
            r.spec_position() == usize::MAX,
    {
        PostingListIterator { posting_list, current: usize::MAX, term_id, term_weight }
    }

    /// The quantile score of the underlying list (see `PostingList::kth`).
    pub fn kth(&self, k: usize) -> (r: u8)
        ensures
            r == spec_kth_value(self.spec_list().spec_kth_score(), k as int),
    {
        self.posting_list.kth(k)
    }

    /// The query weight of this term, narrowed to 8 bits.
    pub fn term_weight(&self) -> (r: u8)
        ensures
            r == weight_u8(self.spec_term_weight()),
    {
        (self.term_weight % 256) as u8
    }

    /// The internal id of this term.
    pub fn term_id(&self) -> (r: u32)
        ensures
            r == self.spec_term_id(),
    {
        self.term_id
    }

    /// The cursor position (`usize::MAX` before the first advance).
    pub fn position(&self) -> (r: usize)
        ensures
            r == self.spec_position(),
    {
        self.current
    }

    /// The per-block maxima of the underlying list.
    pub fn range_maxes<'b>(&'b self) -> (r: RangeMaxScore<'b>)
        ensures
            (match r {
                RangeMaxScore::Compressed(c) => self.spec_list().spec_range_maxes()
                    matches BlockData::Compressed(v) && c@ == v@,
                RangeMaxScore::Raw(b) => self.spec_list().spec_range_maxes()
                    matches BlockData::Raw(v) && b@ == v@,
            }),
    {
        match &self.posting_list.range_maxes {
            BlockData::Compressed(compressed_block) => RangeMaxScore::Compressed(
                compressed_block.as_slice(),
            ),
            BlockData::Raw(raw_bytes) => RangeMaxScore::Raw(raw_bytes.as_slice()),
        }
    }
}

impl<'a> Cursor for PostingListIterator<'a> {
    type Value = u32;

    type Error = ();

    fn reset(&mut self) {
        self.current = usize::MAX;
    }
}

impl<'a> RangeMaxScoreCursor for PostingListIterator<'a> {
    fn range_max_scores<'b>(&'b self) -> RangeMaxScore<'b> {
        self.range_maxes()
    }
}

} // verus!
