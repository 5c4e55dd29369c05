//! Compares two snapshots of a game's files and says what changed between
//! them: which files came and went, and what differs inside the files that
//! both snapshots have.
//!
//! Structured documents are compared value by value (`json_diff`), the
//! trees of container files node by node (`unity`), texts line by line
//! (`diff`). Each function is verified against the contract in its
//! header; the modules `json_laws`, `unity_laws` and `order` hold what
//! follows from the contracts.

pub mod cs;
pub mod depotdownloader_manifest;
pub mod diff;
pub mod json;
pub mod json_diff;
pub mod json_laws;
pub mod names;
pub mod old_new;
pub mod order;
pub mod snapshot;
pub mod text;
pub mod unity;
pub mod unity_laws;
