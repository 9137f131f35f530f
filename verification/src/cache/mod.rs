//! Caching of parsed vault data.

pub mod index;
pub mod types;

use vstd::prelude::*;
use crate::config::CacheConfig;
use crate::text::{join_path, path_join};

verus! {

/// Whether a vault of `note_count` notes should use the cache without being
/// asked to: caching is enabled and the vault reaches the threshold.
pub fn should_auto_enable_cache(note_count: usize, config: &CacheConfig) -> (r: bool)
    ensures
        r == (config.enabled && note_count >= config.auto_threshold),
{
    config.enabled && note_count >= config.auto_threshold
}

/// Path of the lock file inside a cache directory.
pub fn lock_file_path(cache_dir: &str) -> (r: String)
    ensures
        r@ == path_join(cache_dir@, "cache.lock"@),
{
    join_path(cache_dir, "cache.lock")
}

/// A held cache lock: the path of its lock file, which the holder removes
/// when it is done.
#[derive(Debug)]
pub struct CacheLock {
    /// Path of the lock file.
    pub path: String,
}

} // verus!
