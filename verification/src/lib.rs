//! An external k-way merge of many individually sorted, delimited text files
//! (plain, gzip or bzip2) into one globally ordered stream, keyed by a
//! configurable column holding an unsigned integer, a signed integer or raw
//! text. A persisted manifest records each file's observed key range and
//! size, so repeated runs over a slowly growing file set can skip re-scanning
//! files whose contents have not changed.
//!
//! The merge engine, the typed keys, the manifest format and the working-set
//! rules live here, with their behaviour stated in contracts; file and
//! terminal I/O stay with the caller, which hands in raw bytes and takes back
//! records.

use vstd::prelude::*;

pub mod keys;
pub mod laws;
pub mod lines;
pub mod manifest;
pub mod merge;
pub mod merge_file;
pub mod merge_file_manager;
pub mod settings;
pub mod working_set;

verus! {

} // verus!
