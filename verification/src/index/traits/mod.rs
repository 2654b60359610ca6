//! What an index is made of, and what it hands out.

pub mod editable_index;
pub mod helper;
pub mod index;
