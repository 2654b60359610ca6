//! Traits that terms and payloads implement.

pub mod deser;
