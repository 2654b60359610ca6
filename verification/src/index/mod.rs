//! The three parts of an index and the presets that combine them.

pub mod dict;
pub mod posting;
pub mod preset;
pub mod storage;
pub mod traits;

use vstd::prelude::*;

verus! {

/// The place of the dictionary among the parts of a stored index.
pub const DICT_INDEX: usize = 0;

/// The place of the storage among the parts of a stored index.
pub const STORAGE_INDEX: usize = 1;

/// The place of the postings among the parts of a stored index.
pub const POSTINGS_INDEX: usize = 2;

} // verus!
