//! A block-max pruning (BMP) top-k retrieval engine for sparse learned
//! lexical indexes.
//!
//! A collection of documents, each a sparse vector of (term, impact score)
//! pairs, is laid out as an inverted index of per-term block upper bounds
//! together with a blocked forward index.  A query, a weighted bag of
//! terms, is answered by visiting blocks in decreasing order of their
//! upper-bound score and skipping every block that can no longer place a
//! document in the current top k.

pub mod arith;
pub mod ciff;
pub mod codec;
pub mod cursor;
pub mod errors;
pub mod forward_index;
pub mod inverted_index;
pub mod lexorder;
pub mod live_block;
pub mod posting_list;
pub mod query;
pub mod search;
pub mod sorting;
pub mod text;
pub mod topk_heap;
pub mod util;

pub use ciff::CiffToBmp;
