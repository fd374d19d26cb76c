//! A personal library of documents: a deduplicating store of document
//! metadata and a gram index that ranks documents against free-text queries.
use vstd::prelude::*;

pub mod codec;
pub mod document;
pub mod domain;
pub mod gram;
pub mod index;
pub mod rank;
pub mod storage;

verus! {

} // verus!
