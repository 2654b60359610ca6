//! An inverted index held in memory: a dictionary interns terms, a storage keeps
//! payloads, and postings map each (posting list, term) to the storage ids filed
//! under it. A bulk editor stages insertions and commits them in three phases;
//! retrievers stream storage ids back out of the postings.

pub mod edit;
pub mod error;
pub mod index;
pub mod retrieve;
pub mod traits;
