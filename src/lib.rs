//! A weighted least-recently-used cache, in memory and over a directory of files.
//!
//! [`LruCache`] maps keys to values under a bound on the total weight of its entries, which a
//! [`Meter`] gives each entry when it is inserted. [`LruDiskCache`] keeps the bookkeeping of a
//! cache of files under one root directory, weighing each file by its length.
use vstd::prelude::*;

pub mod disk_cache;
pub mod key;
pub mod memory_cache;
pub mod meter;

pub use disk_cache::{Error, FoundFile, LruDiskCache, Removal};
pub use key::CacheKey;
pub use memory_cache::{Entry, LruCache};
pub use meter::{Count, FileSize, Meter, VecLen};

verus! {

} // verus!
