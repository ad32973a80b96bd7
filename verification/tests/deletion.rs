use hf_hub::cache::{CachedFileInfo, CachedRepoInfo, CachedRevisionInfo, HFCacheInfo};
use hf_hub::deletion::{locks_directory_for, DeleteCacheStrategy};
use hf_hub::execution::{
    is_tolerated, remove_with_tolerance, removal_call, ExecuteResult, Failure, IoError, IoErrorKind, PathKind,
    RemovalCall,
};
use hf_hub::path::CachePath;
use hf_hub::path_set::PathSet;
use std::collections::{BTreeSet, HashSet};

fn text(path: &CachePath) -> String {
    String::from_utf8(path.bytes.clone()).unwrap()
}

fn texts(set: &PathSet) -> Vec<String> {
    (0..set.len()).map(|i| text(set.get(i))).collect()
}

fn file(blob: &str, size: u64) -> CachedFileInfo {
    CachedFileInfo {
        file_name: blob.into(),
        file_path: CachePath::new(blob),
        blob_path: CachePath::new(blob),
        size_on_disk: size,
    }
}

fn revision(repo: &str, hash: &str, files: Vec<CachedFileInfo>, refs: &[&str]) -> CachedRevisionInfo {
    CachedRevisionInfo {
        commit_hash: hash.into(),
        snapshot_path: CachePath::new(&format!("{repo}/snapshots/{hash}")),
        size_on_disk: files.iter().map(|f| f.size_on_disk).sum(),
        files,
        refs: refs.iter().map(|r| r.to_string()).collect(),
    }
}

fn repo(path: &str, size: u64, revisions: Vec<CachedRevisionInfo>) -> CachedRepoInfo {
    CachedRepoInfo {
        repo_id: "owner/repo".into(),
        repo_type: "model".into(),
        repo_path: CachePath::new(path),
        nb_files: revisions.iter().map(|r| r.files.len()).sum(),
        revisions,
        size_on_disk: size,
    }
}

fn cache(repos: Vec<CachedRepoInfo>) -> HFCacheInfo {
    HFCacheInfo {
        cache_dir: CachePath::new("/cache"),
        size_on_disk: repos.iter().map(|r| r.size_on_disk).sum(),
        repos,
        warnings: Vec::new(),
    }
}

const REPO: &str = "/cache/models--owner--repo";

/// Two revisions that share `config.json` and have one blob each of their own.
fn build_fixture() -> (Disk, HFCacheInfo) {
    let blob = |name: &str, contents: &[u8]| file(&format!("{REPO}/blobs/{name}"), contents.len() as u64);
    let a = revision(
        REPO,
        "aaaa",
        vec![blob("config.json", b"shared-config"), blob("model-a.bin", b"only-in-a")],
        &["main"],
    );
    let b = revision(
        REPO,
        "bbbb",
        vec![blob("config.json", b"shared-config"), blob("model-b.bin", b"only-in-b")],
        &[],
    );
    let dedup_size = (b"shared-config".len() + b"only-in-a".len() + b"only-in-b".len()) as u64;
    let disk = Disk::new(&[
        "/cache/models--owner--repo/blobs/config.json",
        "/cache/models--owner--repo/blobs/model-a.bin",
        "/cache/models--owner--repo/blobs/model-b.bin",
        "/cache/models--owner--repo/refs/main",
        "/cache/models--owner--repo/snapshots/aaaa/config.json",
        "/cache/models--owner--repo/snapshots/aaaa/model-a.bin",
        "/cache/models--owner--repo/snapshots/bbbb/config.json",
        "/cache/models--owner--repo/snapshots/bbbb/model-b.bin",
    ]);
    (disk, cache(vec![repo(REPO, dedup_size, vec![a, b])]))
}

/// The files of a disk; a directory is whatever has files below it.
struct Disk {
    files: BTreeSet<String>,
}

impl Disk {
    fn new(files: &[&str]) -> Disk {
        Disk {
            files: files.iter().map(|f| f.to_string()).collect(),
        }
    }

    fn is_dir(&self, path: &str) -> bool {
        self.files.iter().any(|f| f.starts_with(&format!("{path}/")))
    }

    fn has(&self, path: &str) -> bool {
        self.files.contains(path) || self.is_dir(path)
    }

    fn remove(&mut self, path: &str) -> Result<(), IoError<String>> {
        match removal_call(self.is_dir(path)) {
            RemovalCall::RemoveDirAll => {
                self.files.retain(|f| !f.starts_with(&format!("{path}/")));
                Ok(())
            },
            RemovalCall::RemoveFile => {
                if self.files.remove(path) {
                    Ok(())
                } else {
                    Err(IoError {
                        kind: IoErrorKind::NotFound,
                        source: format!("no {path}"),
                    })
                }
            },
        }
    }

    fn run(&mut self, strategy: &DeleteCacheStrategy) -> Result<ExecuteResult<String>, IoError<String>> {
        let mut execution = strategy.execute();
        while let Some(removal) = execution.next_removal() {
            let outcome = self.remove(&text(&removal.path));
            execution = execution.record(outcome)?;
        }
        Ok(execution.finish())
    }
}

fn hashes(list: &[&str]) -> Vec<String> {
    list.iter().map(|h| h.to_string()).collect()
}

fn plan(info: &HFCacheInfo, list: &[&str]) -> DeleteCacheStrategy {
    info.delete_revisions(&hashes(list), &PathSet::new())
}

#[test]
fn delete_single_revision_keeps_shared_blob() {
    let (_disk, info) = build_fixture();
    let strategy = plan(&info, &["aaaa"]);
    assert!(strategy.repos.is_empty(), "single-revision delete should not wipe the repo dir");
    assert_eq!(strategy.snapshots.len(), 1, "snapshot for the deleted revision");
    assert_eq!(strategy.refs.len(), 1, "ref pointing at the deleted revision");
    // Only revision-A's unique blob `model-a.bin` should be queued;
    // `config.json` is shared with revision B and survives.
    assert_eq!(strategy.blobs.len(), 1, "shared blob must survive: {:?}", strategy.blobs);
    assert_eq!(strategy.expected_freed_size, b"only-in-a".len() as u64);
    assert!(strategy.locks.is_empty(), "per-revision delete does not wipe locks");
    assert!(strategy.missing_revisions.is_empty());
    assert_eq!(texts(&strategy.snapshots), [format!("{REPO}/snapshots/aaaa")]);
    assert_eq!(texts(&strategy.refs), [format!("{REPO}/refs/main")]);
    assert_eq!(texts(&strategy.blobs), [format!("{REPO}/blobs/model-a.bin")]);
}

#[test]
fn delete_all_revisions_wipes_repo() {
    let (_disk, info) = build_fixture();
    let strategy = plan(&info, &["aaaa", "bbbb"]);
    assert_eq!(strategy.repos.len(), 1);
    assert!(strategy.snapshots.is_empty());
    assert!(strategy.refs.is_empty());
    assert!(strategy.blobs.is_empty());
    let expected_size = info.repos[0].size_on_disk;
    assert_eq!(strategy.expected_freed_size, expected_size);
    assert!(strategy.missing_revisions.is_empty());
    assert_eq!(texts(&strategy.repos), [REPO]);
}

#[test]
fn missing_revisions_are_reported() {
    let (_disk, info) = build_fixture();
    let strategy = plan(&info, &["aaaa", "ffff", "9999"]);
    // Only `aaaa` exists; the other two are reported as missing.
    let missing: HashSet<&str> = strategy.missing_revisions.iter().map(String::as_str).collect();
    assert!(missing.contains("ffff"));
    assert!(missing.contains("9999"));
    assert_eq!(strategy.missing_revisions.len(), 2);
}

#[test]
fn execute_removes_the_targeted_paths() {
    let (mut disk, info) = build_fixture();
    let repo_path = text(&info.repos[0].repo_path);
    let strategy = plan(&info, &["aaaa", "bbbb"]);
    let result = disk.run(&strategy).unwrap();
    assert!(result.failures.is_empty(), "no failures expected: {:?}", result.failures);
    assert!(!disk.has(&repo_path));
}

#[test]
fn execute_is_idempotent_via_failure_reporting() {
    let (mut disk, info) = build_fixture();
    let strategy = plan(&info, &["aaaa", "bbbb"]);
    disk.run(&strategy).unwrap();
    // Re-running the same plan should not error; every path now
    // produces a NotFound entry in `failures`.
    let second = disk.run(&strategy).unwrap();
    assert!(!second.failures.is_empty(), "second run should report tolerated NotFound failures");
    assert!(
        second.failures.iter().all(|f| matches!(f.kind, PathKind::Repo)),
        "only the repo path was queued for deletion"
    );
    assert!(second.failures.iter().all(|f| f.error.kind == IoErrorKind::NotFound));
}

#[test]
fn running_a_revision_plan_leaves_the_others_whole() {
    let (mut disk, info) = build_fixture();
    let strategy = plan(&info, &["aaaa"]);
    let result = disk.run(&strategy).unwrap();
    assert!(result.failures.is_empty());
    let left: Vec<&str> = disk.files.iter().map(String::as_str).collect();
    assert_eq!(
        left,
        [
            "/cache/models--owner--repo/blobs/config.json",
            "/cache/models--owner--repo/blobs/model-b.bin",
            "/cache/models--owner--repo/snapshots/bbbb/config.json",
            "/cache/models--owner--repo/snapshots/bbbb/model-b.bin",
        ]
    );
    // A second run reports every path of the plan, phase by phase.
    let second = disk.run(&strategy).unwrap();
    let reported: Vec<(String, PathKind)> = second.failures.iter().map(|f| (text(&f.path), f.kind)).collect();
    assert_eq!(
        reported,
        [
            (format!("{REPO}/snapshots/aaaa"), PathKind::Snapshot),
            (format!("{REPO}/refs/main"), PathKind::Ref),
            (format!("{REPO}/blobs/model-a.bin"), PathKind::Blob),
        ]
    );
    assert_eq!(second.failures[0].error.source, format!("no {REPO}/snapshots/aaaa"));
}

/// Any layout will do whose paths are apart from each other.
#[test]
fn survivors_stay_whole_in_other_layouts() {
    let mut gone = revision(REPO, "aaaa", vec![file("/pool/x/shared", 2), file("/pool/x/own", 1)], &["main"]);
    gone.snapshot_path = CachePath::new("/trees/one");
    let mut kept = revision(REPO, "bbbb", vec![file("/pool/x/shared", 2)], &[]);
    kept.snapshot_path = CachePath::new("/trees/two/deeper");
    let info = cache(vec![repo("/records/repo", 3, vec![gone, kept])]);
    let mut disk = Disk::new(&[
        "/pool/x/own",
        "/pool/x/shared",
        "/records/repo/refs/main",
        "/trees/one/file",
        "/trees/two/deeper/file",
    ]);
    assert!(disk.run(&plan(&info, &["aaaa"])).unwrap().failures.is_empty());
    let left: Vec<&str> = disk.files.iter().map(String::as_str).collect();
    assert_eq!(left, ["/pool/x/shared", "/trees/two/deeper/file"]);
}

/// A ref with a rooted name is a path of its own, so it can reach a survivor.
#[test]
fn a_rooted_ref_name_can_reach_a_survivor() {
    let survivor = format!("{REPO}/snapshots/bbbb");
    let gone = revision(REPO, "aaaa", vec![], &[&survivor]);
    let kept = revision(REPO, "bbbb", vec![], &[]);
    let strategy = plan(&cache(vec![repo(REPO, 0, vec![gone, kept])]), &["aaaa"]);
    assert_eq!(texts(&strategy.refs), [survivor]);
}

#[test]
fn plans_of_unrelated_caches_add_up() {
    let left = || {
        let goes = revision("/cache/models--a", "a1", vec![file("/cache/models--a/blobs/x", 5)], &["main"]);
        let stays = revision("/cache/models--a", "a2", vec![], &[]);
        repo("/cache/models--a", 5, vec![goes, stays])
    };
    let right = || {
        let goes = revision("/cache/models--b", "b1", vec![file("/cache/models--b/blobs/y", 7)], &[]);
        repo("/cache/models--b", 8, vec![goes])
    };
    let request = ["a1", "b1", "none"];
    let whole = plan(&cache(vec![left(), right()]), &request);
    let first = plan(&cache(vec![left()]), &request);
    let second = plan(&cache(vec![right()]), &request);
    assert_eq!(whole.expected_freed_size, 5 + 8);
    assert_eq!(first.expected_freed_size, 5);
    assert_eq!(second.expected_freed_size, 8);
    assert_eq!(texts(&whole.repos), texts(&second.repos));
    assert_eq!(texts(&whole.snapshots), texts(&first.snapshots));
    assert_eq!(texts(&whole.refs), texts(&first.refs));
    assert_eq!(texts(&whole.blobs), texts(&first.blobs));
    assert_eq!(whole.missing_revisions, ["none"]);
    assert_eq!(first.missing_revisions, ["b1", "none"]);
    assert_eq!(second.missing_revisions, ["a1", "none"]);
}

#[test]
fn missing_hashes_are_sorted_and_listed_once() {
    let (_disk, info) = build_fixture();
    let request = ["zz", "aaaa", "é", "Z", "zz", "z", "\u{10000}", "\u{ffff}", "aaaa"];
    let strategy = plan(&info, &request);
    let mut expected = hashes(&["zz", "é", "Z", "z", "\u{10000}", "\u{ffff}"]);
    expected.sort();
    assert_eq!(strategy.missing_revisions, expected);
    // What is missing changes nothing about what is removed.
    let alone = plan(&info, &["aaaa"]);
    assert_eq!(texts(&strategy.blobs), texts(&alone.blobs));
    assert_eq!(texts(&strategy.snapshots), texts(&alone.snapshots));
    assert_eq!(strategy.expected_freed_size, alone.expected_freed_size);
}

#[test]
fn unknown_hashes_plan_nothing() {
    let (_disk, info) = build_fixture();
    let strategy = plan(&info, &["ffff"]);
    assert_eq!(strategy.expected_freed_size, 0);
    assert!(strategy.repos.is_empty() && strategy.snapshots.is_empty() && strategy.refs.is_empty());
    assert!(strategy.blobs.is_empty() && strategy.locks.is_empty());
    assert_eq!(strategy.missing_revisions, ["ffff"]);
    assert_eq!(plan(&info, &[]).expected_freed_size, 0);
}

#[test]
fn a_hash_belongs_to_the_first_repository_that_has_it() {
    let info = cache(vec![
        repo("/cache/one", 10, vec![revision("/cache/one", "same", vec![file("/cache/one/b", 10)], &[])]),
        repo("/cache/two", 20, vec![revision("/cache/two", "same", vec![file("/cache/two/b", 20)], &[])]),
    ]);
    let strategy = plan(&info, &["same"]);
    assert_eq!(texts(&strategy.repos), ["/cache/one"]);
    assert_eq!(strategy.expected_freed_size, 10);
    assert!(strategy.missing_revisions.is_empty());
}

#[test]
fn blobs_shared_by_deleted_revisions_count_once() {
    let shared = "/cache/r/blobs/shared";
    let info = cache(vec![repo(
        "/cache/r",
        100,
        vec![
            revision("/cache/r", "a", vec![file(shared, 7), file(shared, 7)], &["main", "pr/1"]),
            revision("/cache/r", "b", vec![file("/cache/r//blobs/shared", 9), file("/cache/r/blobs/b", 5)], &[]),
            revision("/cache/r", "c", vec![file("/cache/r/blobs/c", 1)], &[]),
        ],
    )]);
    let strategy = plan(&info, &["b", "a"]);
    // The size is that of the first file, and the spelling too.
    assert_eq!(strategy.expected_freed_size, 7 + 5);
    assert_eq!(texts(&strategy.blobs), [shared, "/cache/r/blobs/b"]);
    assert_eq!(texts(&strategy.refs), ["/cache/r/refs/main", "/cache/r/refs/pr/1"]);
    assert_eq!(strategy.snapshots.len(), 2);
    let copy = strategy.clone();
    assert_eq!(texts(&copy.blobs), texts(&strategy.blobs));
    assert_eq!(copy.expected_freed_size, 12);
}

#[test]
fn paths_keep_their_first_spelling() {
    let info = cache(vec![
        repo("/cache/one//", 1, vec![revision("/cache/one", "a", vec![], &[])]),
        repo("/cache/one", 1, vec![revision("/cache/one", "b", vec![], &[])]),
        repo(
            "/cache/two",
            1,
            vec![
                revision("/cache/./two", "c", vec![], &["./main", "main"]),
                CachedRevisionInfo {
                    snapshot_path: CachePath::new("/cache/two/snapshots/c"),
                    ..revision("/cache/two", "d", vec![], &[])
                },
                revision("/cache/two", "e", vec![], &[]),
            ],
        ),
    ]);
    let request = hashes(&["d", "c", "b", "a"]);
    let strategy = info.delete_revisions(&request, &info.lock_directories(&request));
    assert_eq!(texts(&strategy.repos), ["/cache/one//"]);
    assert_eq!(texts(&strategy.snapshots), ["/cache/./two/snapshots/c"]);
    assert_eq!(texts(&strategy.refs), ["/cache/two/refs/./main"]);
    assert_eq!(texts(&strategy.locks), ["/cache/.locks/one"]);
}

#[test]
fn a_repeated_hash_is_not_a_survivor() {
    // The second revision has the hash of the deleted one: it keeps the
    // repository, but not the blob.
    let info = cache(vec![repo(
        "/cache/r",
        100,
        vec![
            revision("/cache/r", "a", vec![file("/cache/r/blobs/x", 3)], &[]),
            revision("/cache/r", "a", vec![file("/cache/r/blobs/x", 3)], &[]),
        ],
    )]);
    let strategy = plan(&info, &["a"]);
    assert!(strategy.repos.is_empty());
    assert_eq!(texts(&strategy.blobs), ["/cache/r/blobs/x"]);
    assert_eq!(strategy.expected_freed_size, 3);
}

#[test]
fn only_existing_lock_directories_are_planned() {
    let (_disk, info) = build_fixture();
    let both = hashes(&["aaaa", "bbbb"]);
    let candidates = info.lock_directories(&both);
    assert_eq!(texts(&candidates), ["/cache/.locks/models--owner--repo"]);
    assert!(info.lock_directories(&hashes(&["aaaa"])).is_empty());
    assert!(info.delete_revisions(&both, &PathSet::new()).locks.is_empty());
    let strategy = info.delete_revisions(&both, &candidates);
    assert_eq!(texts(&strategy.locks), ["/cache/.locks/models--owner--repo"]);
    // Lock directories of repositories that stay are not touched.
    assert!(info.delete_revisions(&hashes(&["aaaa"]), &candidates).locks.is_empty());
}

#[test]
fn repositories_without_a_name_have_no_lock_directory() {
    let cache_dir = CachePath::new("/cache");
    assert!(locks_directory_for(&repo("/", 0, vec![]), &cache_dir).is_none());
    assert!(locks_directory_for(&repo("a/..", 0, vec![]), &cache_dir).is_none());
    let lock_dir = locks_directory_for(&repo("/cache/spaces--a/", 0, vec![]), &cache_dir).unwrap();
    assert_eq!(text(&lock_dir), "/cache/.locks/spaces--a");
}

#[test]
fn sizes_that_do_not_fit_are_refused() {
    let mut info = cache(vec![
        repo("/cache/one", 0, vec![revision("/cache/one", "a", vec![], &[])]),
        repo("/cache/two", 1, vec![revision("/cache/two", "b", vec![], &[])]),
    ]);
    info.repos[0].size_on_disk = u64::MAX;
    assert!(DeleteCacheStrategy::compute(&info, &hashes(&["a", "b"]), &PathSet::new()).is_none());
    let strategy = DeleteCacheStrategy::compute(&info, &hashes(&["a"]), &PathSet::new()).unwrap();
    assert_eq!(strategy.expected_freed_size, u64::MAX);
}

#[test]
fn phases_run_in_order() {
    let info = cache(vec![
        repo("/cache/gone", 1, vec![revision("/cache/gone", "g", vec![file("/cache/gone/blobs/g", 1)], &["main"])]),
        repo(
            "/cache/kept",
            2,
            vec![
                revision("/cache/kept", "a", vec![file("/cache/kept/blobs/a", 1)], &["main"]),
                revision("/cache/kept", "b", vec![file("/cache/kept/blobs/b", 1)], &[]),
            ],
        ),
    ]);
    let request = hashes(&["a", "g"]);
    let strategy = info.delete_revisions(&request, &info.lock_directories(&request));
    let mut execution = strategy.execute::<()>();
    let mut seen = Vec::new();
    while let Some(removal) = execution.next_removal() {
        seen.push((text(&removal.path), removal.kind));
        execution = execution.record(Ok(())).unwrap();
    }
    assert_eq!(
        seen,
        [
            ("/cache/gone".to_string(), PathKind::Repo),
            ("/cache/kept/snapshots/a".to_string(), PathKind::Snapshot),
            ("/cache/kept/refs/main".to_string(), PathKind::Ref),
            ("/cache/kept/blobs/a".to_string(), PathKind::Blob),
            ("/cache/.locks/gone".to_string(), PathKind::Locks),
        ]
    );
    assert!(execution.finish().failures.is_empty());
}

#[test]
fn errors_that_are_not_tolerated_abort_the_run() {
    let (_disk, info) = build_fixture();
    let strategy = plan(&info, &["aaaa"]);
    let execution = strategy.execute::<u8>();
    let execution = execution
        .record(Err(IoError {
            kind: IoErrorKind::PermissionDenied,
            source: 1,
        }))
        .unwrap();
    let error = execution
        .record(Err(IoError {
            kind: IoErrorKind::Other,
            source: 2,
        }))
        .err()
        .unwrap();
    assert_eq!((error.kind, error.source), (IoErrorKind::Other, 2));
}

#[test]
fn not_found_and_permission_denied_are_tolerated() {
    assert!(is_tolerated(IoErrorKind::NotFound));
    assert!(is_tolerated(IoErrorKind::PermissionDenied));
    assert!(!is_tolerated(IoErrorKind::Other));
    let path = CachePath::new("/x");
    let mut failures: Vec<Failure<u8>> = Vec::new();
    assert!(remove_with_tolerance(&path, PathKind::Ref, Ok(()), &mut failures).is_ok());
    assert!(failures.is_empty());
    let denied = IoError {
        kind: IoErrorKind::PermissionDenied,
        source: 3,
    };
    assert!(remove_with_tolerance(&path, PathKind::Ref, Err(denied), &mut failures).is_ok());
    assert_eq!(failures.len(), 1);
    assert_eq!((text(&failures[0].path), failures[0].kind), ("/x".to_string(), PathKind::Ref));
    assert_eq!((failures[0].error.kind, failures[0].error.source), (IoErrorKind::PermissionDenied, 3));
    let other = IoError {
        kind: IoErrorKind::Other,
        source: 4,
    };
    assert_eq!(remove_with_tolerance(&path, PathKind::Ref, Err(other), &mut failures).err().unwrap().source, 4);
    assert_eq!(failures.len(), 1);
}
