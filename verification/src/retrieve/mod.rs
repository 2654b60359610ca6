//! Reading storage ids back out of the postings of an index.

pub mod builder;
pub mod options;
pub mod retriever;
