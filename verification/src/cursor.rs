//! Cursors over posting lists.

use vstd::prelude::*;
use crate::posting_list::CompressedBlock;

verus! {

/// A type-safe representation of a document ID.
#[derive(Debug, Copy, Clone, PartialEq, Eq, Structural)]
pub struct DocId(pub u32);

/// Cursor over a posting list.
pub trait Cursor {
    type Value;

    type Error;

    fn reset(&mut self);
}

/// Borrowed view of one term's per-block maxima, in whichever layout the
/// index stores them.
pub enum RangeMaxScore<'a> {
    Compressed(&'a [CompressedBlock]),
    Raw(&'a [u8]),
}

/// A cursor that exposes the per-block maxima of its posting list.
pub trait RangeMaxScoreCursor: Cursor {
    fn range_max_scores<'a>(&'a self) -> RangeMaxScore<'a>;
}

} // verus!
