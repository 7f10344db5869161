//! An embeddable, ordered key-value storage core: an in-memory
//! left-leaning red-black index with per-key version chains (LSM mode),
//! an immutable bottoms-up B-tree laid out in fixed-size blocks, and a
//! sharded write-ahead-log codec, all tied together by a shared entry
//! model and its merge algebra.

pub mod base;
pub mod bubt_config;
pub mod dlog_entry;
pub mod entry;
mod error;
pub mod llrb;
pub mod llrb_util;
pub mod mvcc;
pub mod no_disk;
pub mod nodisk;
pub mod panic;
pub mod robt_build;
pub mod robt_indx;
pub mod scans;
pub mod type_bytes;
pub mod types;
mod util;
pub mod vlog;
pub mod wal;

pub use error::Error;

use vstd::prelude::*;

verus! {

/// Result alias used across the crate.
pub type Result<T> = core::result::Result<T, Error>;

} // verus!
