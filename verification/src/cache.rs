//! What a scan of the local hub cache found.

use crate::path::CachePath;
use vstd::prelude::*;

verus! {

/// One file of a cached revision.
#[derive(Debug)]
pub struct CachedFileInfo {
    /// File name relative to the revision's snapshot.
    pub file_name: String,
    /// Entry in the snapshot directory.
    pub file_path: CachePath,
    /// Blob that the entry points at.
    pub blob_path: CachePath,
    /// Size of the blob in bytes.
    pub size_on_disk: u64,
}

/// One cached revision of a repository.
#[derive(Debug)]
pub struct CachedRevisionInfo {
    /// Commit hash that names the revision.
    pub commit_hash: String,
    /// Snapshot directory of the revision.
    pub snapshot_path: CachePath,
    /// Files of the revision.
    pub files: Vec<CachedFileInfo>,
    /// Size of the files in bytes.
    pub size_on_disk: u64,
    /// Names of the refs that point at the revision.
    pub refs: Vec<String>,
}

/// One cached repository.
#[derive(Debug)]
pub struct CachedRepoInfo {
    /// Repository id, `owner/name`.
    pub repo_id: String,
    /// `model`, `dataset` or `space`.
    pub repo_type: String,
    /// Directory of the repository in the cache.
    pub repo_path: CachePath,
    /// Cached revisions.
    pub revisions: Vec<CachedRevisionInfo>,
    /// How many blobs the repository holds.
    pub nb_files: usize,
    /// Size of the blobs in bytes, each counted once.
    pub size_on_disk: u64,
}

/// The whole cache.
#[derive(Debug)]
pub struct HFCacheInfo {
    /// Directory of the cache.
    pub cache_dir: CachePath,
    /// Cached repositories, in the order of the scan.
    pub repos: Vec<CachedRepoInfo>,
    /// Size of all repositories in bytes.
    pub size_on_disk: u64,
    /// What the scan could not read.
    pub warnings: Vec<String>,
}

} // verus!
