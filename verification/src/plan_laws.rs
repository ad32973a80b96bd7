//! What a deletion plan lists, told from the records of the cache and the
//! request alone.
//!
//! Repositories, revisions, refs and files are named by their places in the
//! cache; paths are compared by what their bytes spell.

use crate::cache::{CachedFileInfo, CachedRepoInfo, CachedRevisionInfo, HFCacheInfo};
use crate::deletion::DeleteCacheStrategy;
#[allow(unused_imports)]
use crate::deletion::{file_precedes, precedes, targets_of, written_as};
use crate::order;
use crate::path;
use crate::path::PathKey;
use vstd::prelude::*;
#[allow(unused_imports)]
use vstd::string::*;
#[allow(unused_imports)]
use vstd::utf8::*;

verus! {

/// Whether a request names `hash`.
pub open spec fn asked(request: Seq<String>, hash: Seq<char>) -> bool {
    exists|n: int| 0 <= n < request.len() && (#[trigger] request[n])@ == hash
}

/// Whether revision `i` of repository `r` is deleted: the request names its
/// hash, and no revision before it, in this repository or an earlier one, has
/// the same hash.
pub open spec fn goes(cache: HFCacheInfo, request: Seq<String>, r: int, i: int) -> bool {
    &&& 0 <= r < cache.repos@.len()
    &&& 0 <= i < cache.repos@[r].revisions@.len()
    &&& asked(request, cache.repos@[r].revisions@[i].commit_hash@)
    &&& forall|s: int, j: int|
        0 <= s <= r && 0 <= j < cache.repos@[s].revisions@.len() && (s < r || j < i) ==> (
        #[trigger] cache.repos@[s].revisions@[j]).commit_hash@
            != cache.repos@[r].revisions@[i].commit_hash@
}

/// Whether repository `r` goes as a whole: it has revisions, and all of them are
/// deleted.
pub open spec fn empties(cache: HFCacheInfo, request: Seq<String>, r: int) -> bool {
    &&& 0 <= r < cache.repos@.len()
    &&& cache.repos@[r].revisions@.len() > 0
    &&& forall|i: int|
        0 <= i < cache.repos@[r].revisions@.len() ==> #[trigger] goes(cache, request, r, i)
}

/// Whether revision `i` of repository `r` is deleted while the repository stays.
pub open spec fn goes_alone(cache: HFCacheInfo, request: Seq<String>, r: int, i: int) -> bool {
    goes(cache, request, r, i) && !empties(cache, request, r)
}

/// Whether some revision of repository `r`, whose hash is not that of a deleted
/// revision of the repository, has a file with this blob.
pub open spec fn is_kept(
    cache: HFCacheInfo,
    request: Seq<String>,
    r: int,
    blob: PathKey,
) -> bool {
    exists|j: int, l: int|
        0 <= j < cache.repos@[r].revisions@.len() && 0 <= l
            < cache.repos@[r].revisions@[j].files@.len() && path::path_key(
            (#[trigger] cache.repos@[r].revisions@[j].files@[l]).blob_path.bytes@,
        ) == blob && forall|i: int| #[trigger]
            goes(cache, request, r, i) ==> cache.repos@[r].revisions@[i].commit_hash@
                != cache.repos@[r].revisions@[j].commit_hash@
}

/// Whether file `k` of revision `i` of repository `r` gives its blob up.
pub open spec fn gives_up(
    cache: HFCacheInfo,
    request: Seq<String>,
    r: int,
    i: int,
    k: int,
) -> bool {
    &&& goes_alone(cache, request, r, i)
    &&& 0 <= k < cache.repos@[r].revisions@[i].files@.len()
    &&& !is_kept(
        cache,
        request,
        r,
        path::path_key(cache.repos@[r].revisions@[i].files@[k].blob_path.bytes@),
    )
}

/// Whether no file before that one gives the same blob up.
pub open spec fn gives_up_first(
    cache: HFCacheInfo,
    request: Seq<String>,
    r: int,
    i: int,
    k: int,
) -> bool {
    &&& gives_up(cache, request, r, i, k)
    &&& forall|s: int, j: int, l: int| #[trigger]
        gives_up(cache, request, s, j, l) && (s < r || (s == r && (j < i || (j == i && l < k))))
            ==> path::path_key(cache.repos@[s].revisions@[j].files@[l].blob_path.bytes@)
            != path::path_key(cache.repos@[r].revisions@[i].files@[k].blob_path.bytes@)
}

/// The file `refs/<name>` of a repository.
pub open spec fn ref_file(repo: CachedRepoInfo, name: Seq<char>) -> Seq<u8> {
    path::joined(
        path::joined(repo.repo_path.bytes@, encode_utf8("refs"@)),
        encode_utf8(name),
    )
}

/// The directory `.locks/<folder>` of the cache.
pub open spec fn lock_directory(cache: HFCacheInfo, folder: Seq<u8>) -> Seq<u8> {
    path::joined(path::joined(cache.cache_dir.bytes@, encode_utf8(".locks"@)), folder)
}

/// The two ways to tell what is deleted agree.
proof fn lemma_selected(cache: HFCacheInfo, request: Seq<String>)
    ensures
        forall|hash: Seq<char>| #[trigger]
            targets_of(request).contains(hash) == asked(request, hash),
        forall|r: int, i: int| #[trigger]
            cache.selects(targets_of(request), r, i) == goes(cache, request, r, i),
        forall|r: int| #[trigger]
            cache.wipes(targets_of(request), r) == empties(cache, request, r),
        forall|r: int, i: int| #[trigger]
            cache.prunes(targets_of(request), r, i) == goes_alone(cache, request, r, i),
{
    let targets = targets_of(request);
    assert forall|hash: Seq<char>| #[trigger] targets.contains(hash) == asked(request, hash) by {
        let texts = order::texts_of(request);
        if targets.contains(hash) {
            let n = choose|n: int| 0 <= n < texts.len() && texts[n] == hash;
            assert(request[n]@ == hash);
        }
        if asked(request, hash) {
            let n = choose|n: int| 0 <= n < request.len() && (#[trigger] request[n])@ == hash;
            assert(texts[n] == hash);
        }
    }
    assert forall|r: int, i: int| #[trigger] cache.selects(targets, r, i) == goes(
        cache,
        request,
        r,
        i,
    ) by {
        if cache.has_revision(r, i) {
            let hash = cache.hash_at(r, i);
            if cache.selects(targets, r, i) {
                assert forall|s: int, j: int|
                    0 <= s <= r && 0 <= j < cache.repos@[s].revisions@.len() && (s < r || j
                        < i) implies (#[trigger] cache.repos@[s].revisions@[j]).commit_hash@
                    != hash by {
                    assert(cache.has_revision(s, j) && precedes(s, j, r, i));
                    if cache.repos@[s].revisions@[j].commit_hash@ == hash {
                        assert(cache.hash_at(s, j) == hash);
                        assert(cache.seen_before(hash, r, i));
                    }
                }
            }
            if goes(cache, request, r, i) && cache.seen_before(hash, r, i) {
                let (s, j) = choose|s: int, j: int| #[trigger]
                    cache.has_revision(s, j) && precedes(s, j, r, i) && cache.hash_at(s, j) == hash;
                assert(cache.repos@[s].revisions@[j].commit_hash@ == hash);
            }
        }
    }
    assert forall|r: int| #[trigger] cache.wipes(targets, r) == empties(cache, request, r) by {
        if cache.wipes(targets, r) {
            assert forall|i: int| 0 <= i < cache.repos@[r].revisions@.len() implies #[trigger] goes(
                cache,
                request,
                r,
                i,
            ) by {
                assert(cache.selects(targets, r, i));
            }
        }
        if empties(cache, request, r) {
            assert forall|i: int| 0 <= i < cache.repos@[r].revisions@.len() implies #[trigger]
            cache.selects(targets, r, i) by {
                assert(goes(cache, request, r, i));
            }
        }
    }
}

/// The two ways to tell which blobs go agree.
proof fn lemma_freed(cache: HFCacheInfo, request: Seq<String>)
    ensures
        forall|r: int, i: int, k: int| #[trigger]
            cache.frees(targets_of(request), r, i, k) == gives_up(cache, request, r, i, k),
        forall|r: int, i: int, k: int| #[trigger]
            cache.counts(targets_of(request), r, i, k) == gives_up_first(cache, request, r, i, k),
{
    let targets = targets_of(request);
    lemma_selected(cache, request);
    assert forall|r: int, j: int|
        cache.has_revision(r, j) implies (#[trigger] cache.survives(targets, r, j)) == (forall|i: int|
     #[trigger]
        goes(cache, request, r, i) ==> cache.repos@[r].revisions@[i].commit_hash@
            != cache.repos@[r].revisions@[j].commit_hash@) by {
        if cache.survives(targets, r, j) {
            assert forall|i: int| #[trigger] goes(cache, request, r, i) implies (
            cache.repos@[r].revisions@[i].commit_hash@
                != cache.repos@[r].revisions@[j].commit_hash@) by {
                assert(cache.selects(targets, r, i));
                assert(cache.hash_at(r, i) != cache.hash_at(r, j));
            }
        }
        if forall|i: int| #[trigger]
            goes(cache, request, r, i) ==> cache.repos@[r].revisions@[i].commit_hash@
                != cache.repos@[r].revisions@[j].commit_hash@ {
            assert forall|i: int| #[trigger] cache.selects(targets, r, i) implies cache.hash_at(
                r,
                i,
            ) != cache.hash_at(r, j) by {
                assert(goes(cache, request, r, i));
            }
        }
    }
    assert forall|r: int, blob: PathKey|
        0 <= r < cache.repos@.len() implies (#[trigger] cache.still_referenced(targets, r, blob))
            == is_kept(cache, request, r, blob) by {
        if cache.still_referenced(targets, r, blob) {
            let (j, l) = choose|j: int, l: int| #[trigger]
                cache.has_file(r, j, l) && cache.survives(targets, r, j) && cache.blob_at(r, j, l)
                    == blob;
            assert(path::path_key(cache.repos@[r].revisions@[j].files@[l].blob_path.bytes@)
                == blob);
        }
        if is_kept(cache, request, r, blob) {
            let (j, l) = choose|j: int, l: int|
                0 <= j < cache.repos@[r].revisions@.len() && 0 <= l
                    < cache.repos@[r].revisions@[j].files@.len() && path::path_key(
                    (#[trigger] cache.repos@[r].revisions@[j].files@[l]).blob_path.bytes@,
                ) == blob && forall|i: int| #[trigger]
                    goes(cache, request, r, i) ==> cache.repos@[r].revisions@[i].commit_hash@
                        != cache.repos@[r].revisions@[j].commit_hash@;
            assert(cache.has_file(r, j, l));
            assert(cache.survives(targets, r, j));
            assert(cache.blob_at(r, j, l) == blob);
        }
    }
    assert forall|r: int, i: int, k: int| #[trigger] cache.frees(targets, r, i, k) == gives_up(
        cache,
        request,
        r,
        i,
        k,
    ) by {
        assert(cache.prunes(targets, r, i) == goes_alone(cache, request, r, i));
        if cache.has_file(r, i, k) {
            let blob = cache.blob_at(r, i, k);
            assert(cache.still_referenced(targets, r, blob) == is_kept(cache, request, r, blob));
        }
    }
    assert forall|r: int, i: int, k: int| #[trigger] cache.counts(targets, r, i, k)
        == gives_up_first(cache, request, r, i, k) by {
        let blob = cache.blob_at(r, i, k);
        if cache.counts(targets, r, i, k) {
            assert forall|s: int, j: int, l: int| #[trigger]
                gives_up(cache, request, s, j, l) && (s < r || (s == r && (j < i || (j == i && l
                    < k)))) implies path::path_key(
                cache.repos@[s].revisions@[j].files@[l].blob_path.bytes@,
            ) != path::path_key(cache.repos@[r].revisions@[i].files@[k].blob_path.bytes@) by {
                assert(cache.frees(targets, s, j, l) && file_precedes(s, j, l, r, i, k));
                if cache.blob_at(s, j, l) == blob {
                    assert(cache.freed_before(targets, blob, r, i, k));
                }
            }
        }
        if gives_up_first(cache, request, r, i, k) {
            assert(cache.frees(targets, r, i, k));
            if cache.freed_before(targets, blob, r, i, k) {
                let (s, j, l) = choose|s: int, j: int, l: int| #[trigger]
                    cache.frees(targets, s, j, l) && file_precedes(s, j, l, r, i, k)
                        && cache.blob_at(s, j, l) == blob;
                assert(gives_up(cache, request, s, j, l));
            }
        }
    }
}

/// A plan lists the directory of a repository exactly if the repository goes as
/// a whole.
pub proof fn emptied_repositories_are_listed(
    plan: DeleteCacheStrategy,
    cache: HFCacheInfo,
    request: Seq<String>,
    lock_dirs: Set<PathKey>,
    key: PathKey,
)
    requires
        plan.is_plan(cache, targets_of(request), lock_dirs),
    ensures
        plan.repos@.contains(key) <==> exists|r: int| #[trigger]
            empties(cache, request, r) && path::path_key(cache.repos@[r].repo_path.bytes@) == key,
{
    lemma_selected(cache, request);
    let targets = targets_of(request);
    if plan.repos@.contains(key) {
        let r = choose|r: int| #[trigger]
            cache.wipes(targets, r) && cache.repos@[r].repo_path.key() == key;
        assert(empties(cache, request, r));
    }
    if exists|r: int| #[trigger]
        empties(cache, request, r) && path::path_key(cache.repos@[r].repo_path.bytes@) == key {
        let r = choose|r: int| #[trigger]
            empties(cache, request, r) && path::path_key(cache.repos@[r].repo_path.bytes@) == key;
        assert(cache.wipes(targets, r));
        assert(cache.repos@[r].repo_path.key() == key);
    }
}

/// A plan lists the snapshot directory of a revision exactly if the revision is
/// deleted while its repository stays.
pub proof fn deleted_snapshots_are_listed(
    plan: DeleteCacheStrategy,
    cache: HFCacheInfo,
    request: Seq<String>,
    lock_dirs: Set<PathKey>,
    key: PathKey,
)
    requires
        plan.is_plan(cache, targets_of(request), lock_dirs),
    ensures
        plan.snapshots@.contains(key) <==> exists|r: int, i: int| #[trigger]
            goes_alone(cache, request, r, i) && path::path_key(
                cache.repos@[r].revisions@[i].snapshot_path.bytes@,
            ) == key,
{
    lemma_selected(cache, request);
    let targets = targets_of(request);
    if plan.snapshots@.contains(key) {
        let (r, i) = choose|r: int, i: int| #[trigger]
            cache.prunes(targets, r, i) && cache.revision_at(r, i).snapshot_path.key() == key;
        assert(goes_alone(cache, request, r, i));
    }
    if exists|r: int, i: int| #[trigger]
        goes_alone(cache, request, r, i) && path::path_key(
            cache.repos@[r].revisions@[i].snapshot_path.bytes@,
        ) == key {
        let (r, i) = choose|r: int, i: int| #[trigger]
            goes_alone(cache, request, r, i) && path::path_key(
                cache.repos@[r].revisions@[i].snapshot_path.bytes@,
            ) == key;
        assert(cache.prunes(targets, r, i));
        assert(cache.revision_at(r, i).snapshot_path.key() == key);
    }
}

/// Whether ref `k` of revision `i` of repository `r` goes with its revision
/// alone.
pub open spec fn drops_ref(
    cache: HFCacheInfo,
    request: Seq<String>,
    r: int,
    i: int,
    k: int,
) -> bool {
    goes_alone(cache, request, r, i) && 0 <= k < cache.repos@[r].revisions@[i].refs@.len()
}

/// A plan lists `<repo>/refs/<name>` exactly if the name is one of the refs of a
/// revision that is deleted while its repository stays.
pub proof fn refs_of_deleted_revisions_are_listed(
    plan: DeleteCacheStrategy,
    cache: HFCacheInfo,
    request: Seq<String>,
    lock_dirs: Set<PathKey>,
    key: PathKey,
)
    requires
        plan.is_plan(cache, targets_of(request), lock_dirs),
    ensures
        plan.refs@.contains(key) <==> exists|r: int, i: int, k: int| #[trigger]
            drops_ref(cache, request, r, i, k) && path::path_key(
                ref_file(cache.repos@[r], cache.repos@[r].revisions@[i].refs@[k]@),
            ) == key,
{
    lemma_selected(cache, request);
    let targets = targets_of(request);
    if plan.refs@.contains(key) {
        let (r, i, k) = choose|r: int, i: int, k: int| #[trigger]
            cache.has_ref(r, i, k) && cache.prunes(targets, r, i) && cache.ref_at(r, i, k) == key;
        assert(drops_ref(cache, request, r, i, k));
    }
    if exists|r: int, i: int, k: int| #[trigger]
        drops_ref(cache, request, r, i, k) && path::path_key(
            ref_file(cache.repos@[r], cache.repos@[r].revisions@[i].refs@[k]@),
        ) == key {
        let (r, i, k) = choose|r: int, i: int, k: int| #[trigger]
            drops_ref(cache, request, r, i, k) && path::path_key(
                ref_file(cache.repos@[r], cache.repos@[r].revisions@[i].refs@[k]@),
            ) == key;
        assert(cache.prunes(targets, r, i));
        assert(cache.has_ref(r, i, k));
        assert(cache.ref_at(r, i, k) == key);
    }
}

/// A plan lists a blob exactly if some file of a revision that is deleted while
/// its repository stays has it, whichever file it is, and no file of a revision
/// of that repository whose hash is not deleted has it too.
pub proof fn blobs_that_nothing_keeps_are_listed(
    plan: DeleteCacheStrategy,
    cache: HFCacheInfo,
    request: Seq<String>,
    lock_dirs: Set<PathKey>,
    key: PathKey,
)
    requires
        plan.is_plan(cache, targets_of(request), lock_dirs),
    ensures
        plan.blobs@.contains(key) <==> exists|r: int, i: int, k: int| #[trigger]
            gives_up(cache, request, r, i, k) && path::path_key(
                cache.repos@[r].revisions@[i].files@[k].blob_path.bytes@,
            ) == key,
{
    lemma_freed(cache, request);
    let targets = targets_of(request);
    if plan.blobs@.contains(key) {
        let (r, i, k) = choose|r: int, i: int, k: int| #[trigger]
            cache.frees(targets, r, i, k) && cache.blob_at(r, i, k) == key;
        assert(gives_up(cache, request, r, i, k));
    }
    if exists|r: int, i: int, k: int| #[trigger]
        gives_up(cache, request, r, i, k) && path::path_key(
            cache.repos@[r].revisions@[i].files@[k].blob_path.bytes@,
        ) == key {
        let (r, i, k) = choose|r: int, i: int, k: int| #[trigger]
            gives_up(cache, request, r, i, k) && path::path_key(
                cache.repos@[r].revisions@[i].files@[k].blob_path.bytes@,
            ) == key;
        assert(cache.frees(targets, r, i, k));
        assert(cache.blob_at(r, i, k) == key);
    }
}

/// The lock directories to look for are those of the repositories that go as a
/// whole and have a name.
pub proof fn locks_of_emptied_repositories_are_looked_for(
    cache: HFCacheInfo,
    request: Seq<String>,
    key: PathKey,
)
    ensures
        cache.planned_locks(targets_of(request)).contains(key) <==> exists|r: int| #[trigger]
            empties(cache, request, r) && (path::final_name(
                path::path_key(cache.repos@[r].repo_path.bytes@),
            ) matches Some(folder) && path::path_key(lock_directory(cache, folder)) == key),
{
    lemma_selected(cache, request);
    let targets = targets_of(request);
    if cache.planned_locks(targets).contains(key) {
        let r = choose|r: int| #[trigger]
            cache.wipes(targets, r) && (cache.repos@[r].lock_text(cache.cache_dir@) matches Some(
                text,
            ) && path::path_key(text) == key);
        assert(empties(cache, request, r));
    }
    if exists|r: int| #[trigger]
        empties(cache, request, r) && (path::final_name(
            path::path_key(cache.repos@[r].repo_path.bytes@),
        ) matches Some(folder) && path::path_key(lock_directory(cache, folder)) == key) {
        let r = choose|r: int| #[trigger]
            empties(cache, request, r) && (path::final_name(
                path::path_key(cache.repos@[r].repo_path.bytes@),
            ) matches Some(folder) && path::path_key(lock_directory(cache, folder)) == key);
        assert(cache.wipes(targets, r));
        assert(cache.repos@[r].lock_text(cache.cache_dir@) is Some);
    }
}

/// A plan lists a lock directory exactly if it exists and is that of a
/// repository that goes as a whole.
pub proof fn existing_locks_of_emptied_repositories_are_listed(
    plan: DeleteCacheStrategy,
    cache: HFCacheInfo,
    request: Seq<String>,
    lock_dirs: Set<PathKey>,
    key: PathKey,
)
    requires
        plan.is_plan(cache, targets_of(request), lock_dirs),
    ensures
        plan.locks@.contains(key) <==> lock_dirs.contains(key) && exists|r: int| #[trigger]
            empties(cache, request, r) && (path::final_name(
                path::path_key(cache.repos@[r].repo_path.bytes@),
            ) matches Some(folder) && path::path_key(lock_directory(cache, folder)) == key),
{
    locks_of_emptied_repositories_are_looked_for(cache, request, key);
}

/// The lock directory of one repository.
pub proof fn locks_stand_beside_the_repositories(repo: CachedRepoInfo, cache: HFCacheInfo)
    ensures
        match path::final_name(path::path_key(repo.repo_path.bytes@)) {
            Some(folder) => repo.lock_text(cache.cache_dir.bytes@) == Some(
                lock_directory(cache, folder),
            ),
            None => repo.lock_text(cache.cache_dir.bytes@) is None,
        },
{
}

/// A hash is missing exactly if the request names it and no revision has it.
pub proof fn hashes_without_a_revision_are_missing(
    plan: DeleteCacheStrategy,
    cache: HFCacheInfo,
    request: Seq<String>,
    lock_dirs: Set<PathKey>,
    hash: Seq<char>,
)
    requires
        plan.is_plan(cache, targets_of(request), lock_dirs),
    ensures
        (exists|n: int|
            0 <= n < plan.missing_revisions@.len() && (#[trigger] plan.missing_revisions@[n])@
                == hash) <==> asked(request, hash) && (forall|r: int, i: int|
            0 <= r < cache.repos@.len() && 0 <= i < cache.repos@[r].revisions@.len() ==> (
            #[trigger] cache.repos@[r].revisions@[i]).commit_hash@ != hash),
{
    lemma_selected(cache, request);
    let texts = order::texts_of(plan.missing_revisions@);
    assert(texts.contains(hash) <==> targets_of(request).contains(hash) && !cache.holds(hash));
    if texts.contains(hash) {
        let n = choose|n: int| 0 <= n < texts.len() && texts[n] == hash;
        assert(plan.missing_revisions@[n]@ == hash);
    }
    if exists|n: int|
        0 <= n < plan.missing_revisions@.len() && (#[trigger] plan.missing_revisions@[n])@
            == hash {
        let n = choose|n: int|
            0 <= n < plan.missing_revisions@.len() && (#[trigger] plan.missing_revisions@[n])@
                == hash;
        assert(texts[n] == hash);
    }
    if !cache.holds(hash) {
        assert forall|r: int, i: int|
            0 <= r < cache.repos@.len() && 0 <= i < cache.repos@[r].revisions@.len() implies (
        #[trigger] cache.repos@[r].revisions@[i]).commit_hash@ != hash by {
            assert(cache.has_revision(r, i));
            assert(cache.hash_at(r, i) != hash);
        }
    } else {
        let (r, i) = choose|r: int, i: int| #[trigger]
            cache.has_revision(r, i) && cache.hash_at(r, i) == hash;
        assert(cache.repos@[r].revisions@[i].commit_hash@ == hash);
    }
}

/// The missing hashes are listed in the order of their bytes, none of them
/// twice.
pub proof fn missing_hashes_are_in_order(
    plan: DeleteCacheStrategy,
    cache: HFCacheInfo,
    request: Seq<String>,
    lock_dirs: Set<PathKey>,
    m: int,
    n: int,
)
    requires
        plan.is_plan(cache, targets_of(request), lock_dirs),
        0 <= m < n < plan.missing_revisions@.len(),
    ensures
        order::bytes_before(
            encode_utf8(plan.missing_revisions@[m]@),
            encode_utf8(plan.missing_revisions@[n]@),
        ),
{
    let texts = order::texts_of(plan.missing_revisions@);
    assert(order::text_before(texts[m], texts[n]));
}

/// Every path on the lists of a plan is written as the cache writes it first
/// among the repositories, revisions, refs and files that put it there.
pub proof fn listed_paths_are_written_as_found_first(
    plan: DeleteCacheStrategy,
    cache: HFCacheInfo,
    request: Seq<String>,
    lock_dirs: Set<PathKey>,
    n: int,
)
    requires
        plan.is_plan(cache, targets_of(request), lock_dirs),
        0 <= n,
    ensures
        n < plan.repos.spellings().len() ==> exists|r: int| #[trigger]
            empties(cache, request, r) && cache.repos@[r].repo_path.bytes@
                == plan.repos.spellings()[n] && forall|s: int| #[trigger]
                empties(cache, request, s) && s < r ==> path::path_key(
                    cache.repos@[s].repo_path.bytes@,
                ) != path::path_key(cache.repos@[r].repo_path.bytes@),
        n < plan.snapshots.spellings().len() ==> exists|r: int, i: int| #[trigger]
            goes_alone(cache, request, r, i) && cache.repos@[r].revisions@[i].snapshot_path.bytes@
                == plan.snapshots.spellings()[n] && forall|s: int, j: int| #[trigger]
                goes_alone(cache, request, s, j) && (s < r || (s == r && j < i)) ==> path::path_key(
                    cache.repos@[s].revisions@[j].snapshot_path.bytes@,
                ) != path::path_key(cache.repos@[r].revisions@[i].snapshot_path.bytes@),
        n < plan.refs.spellings().len() ==> exists|r: int, i: int, k: int| #[trigger]
            drops_ref(cache, request, r, i, k) && ref_file(
                cache.repos@[r],
                cache.repos@[r].revisions@[i].refs@[k]@,
            ) == plan.refs.spellings()[n] && forall|s: int, j: int, l: int| #[trigger]
                drops_ref(cache, request, s, j, l) && (s < r || (s == r && (j < i || (j == i && l
                    < k)))) ==> path::path_key(
                    ref_file(cache.repos@[s], cache.repos@[s].revisions@[j].refs@[l]@),
                ) != path::path_key(
                    ref_file(cache.repos@[r], cache.repos@[r].revisions@[i].refs@[k]@),
                ),
        n < plan.blobs.spellings().len() ==> exists|r: int, i: int, k: int| #[trigger]
            gives_up_first(cache, request, r, i, k)
                && cache.repos@[r].revisions@[i].files@[k].blob_path.bytes@
                == plan.blobs.spellings()[n],
        n < plan.locks.spellings().len() ==> exists|r: int| #[trigger]
            empties(cache, request, r) && (path::final_name(
                path::path_key(cache.repos@[r].repo_path.bytes@),
            ) matches Some(folder) && lock_directory(cache, folder) == plan.locks.spellings()[n]),
{
    lemma_freed(cache, request);
    lemma_selected(cache, request);
    let targets = targets_of(request);
    if n < plan.repos.spellings().len() {
        let text = plan.repos.spellings()[n];
        assert(cache.repo_texts(targets).contains(text));
        let r = choose|r: int| #[trigger]
            cache.names_repo(targets, r) && cache.repos@[r].repo_path@ == text;
        assert(empties(cache, request, r));
        assert forall|s: int| #[trigger]
            empties(cache, request, s) && s < r implies path::path_key(
            cache.repos@[s].repo_path.bytes@,
        ) != path::path_key(cache.repos@[r].repo_path.bytes@) by {
            assert(cache.wipes(targets, s));
        }
    }
    if n < plan.snapshots.spellings().len() {
        let text = plan.snapshots.spellings()[n];
        assert(cache.snapshot_texts(targets).contains(text));
        let (r, i) = choose|r: int, i: int| #[trigger]
            cache.names_snapshot(targets, r, i) && cache.revision_at(r, i).snapshot_path@ == text;
        assert(goes_alone(cache, request, r, i));
        assert forall|s: int, j: int| #[trigger]
            goes_alone(cache, request, s, j) && (s < r || (s == r && j < i)) implies path::path_key(
            cache.repos@[s].revisions@[j].snapshot_path.bytes@,
        ) != path::path_key(cache.repos@[r].revisions@[i].snapshot_path.bytes@) by {
            assert(cache.prunes(targets, s, j) && precedes(s, j, r, i));
            assert(cache.revision_at(s, j).snapshot_path.key() != cache.revision_at(
                r,
                i,
            ).snapshot_path.key());
        }
    }
    if n < plan.refs.spellings().len() {
        let text = plan.refs.spellings()[n];
        assert(cache.ref_texts(targets).contains(text));
        let (r, i, k) = choose|r: int, i: int, k: int| #[trigger]
            cache.names_ref(targets, r, i, k) && cache.repos@[r].ref_text(
                cache.revision_at(r, i).refs@[k]@,
            ) == text;
        assert(drops_ref(cache, request, r, i, k));
        assert forall|s: int, j: int, l: int| #[trigger]
            drops_ref(cache, request, s, j, l) && (s < r || (s == r && (j < i || (j == i && l
                < k)))) implies path::path_key(
            ref_file(cache.repos@[s], cache.repos@[s].revisions@[j].refs@[l]@),
        ) != path::path_key(
            ref_file(cache.repos@[r], cache.repos@[r].revisions@[i].refs@[k]@),
        ) by {
            assert(cache.prunes(targets, s, j));
            assert(cache.has_ref(s, j, l) && file_precedes(s, j, l, r, i, k));
            assert(cache.ref_at(s, j, l) != cache.ref_at(r, i, k));
        }
    }
    if n < plan.blobs.spellings().len() {
        let text = plan.blobs.spellings()[n];
        assert(cache.blob_texts(targets).contains(text));
        let (r, i, k) = choose|r: int, i: int, k: int| #[trigger]
            cache.counts(targets, r, i, k) && cache.file_at(r, i, k).blob_path@ == text;
        assert(gives_up_first(cache, request, r, i, k));
    }
    if n < plan.locks.spellings().len() {
        let text = plan.locks.spellings()[n];
        assert(cache.lock_texts(targets).contains(text));
        let r = choose|r: int| #[trigger]
            cache.names_lock(targets, r) && cache.repos@[r].lock_text(cache.cache_dir@) == Some(
                text,
            );
        assert(empties(cache, request, r));
    }
}

/// The sum of the sizes of some paths.
pub open spec fn total_size(paths: Set<PathKey>, size: spec_fn(PathKey) -> int) -> int {
    paths.fold(0int, |total: int, path: PathKey| total + size(path))
}

/// The sum of the sizes of those of the first `n` repositories that go as a
/// whole.
pub open spec fn emptied_size(cache: HFCacheInfo, request: Seq<String>, n: nat) -> int {
    Seq::new(
        n,
        |r: int|
            if empties(cache, request, r) {
                cache.repos@[r].size_on_disk as int
            } else {
                0
            },
    ).fold_left(0int, |total: int, more: int| total + more)
}

/// The blobs that files before `(r, i, k)` give up.
spec fn given_up_before(
    cache: HFCacheInfo,
    request: Seq<String>,
    r: int,
    i: int,
    k: int,
) -> Set<PathKey> {
    Set::new(|blob: PathKey| cache.freed_before(targets_of(request), blob, r, i, k))
}

/// Whether `size` gives every blob the size of the file that gives it up first.
pub open spec fn sizes_blobs(
    cache: HFCacheInfo,
    request: Seq<String>,
    size: spec_fn(PathKey) -> int,
) -> bool {
    forall|r: int, i: int, k: int| #[trigger]
        gives_up_first(cache, request, r, i, k) ==> size(
            path::path_key(cache.repos@[r].revisions@[i].files@[k].blob_path.bytes@),
        ) == cache.repos@[r].revisions@[i].files@[k].size_on_disk
}

proof fn lemma_total_insert(paths: Set<PathKey>, size: spec_fn(PathKey) -> int, path: PathKey)
    requires
        paths.finite(),
        !paths.contains(path),
    ensures
        total_size(paths.insert(path), size) == total_size(paths, size) + size(path),
{
    let f = |total: int, path: PathKey| total + size(path);
    assert(vstd::set::fold::is_fun_commutative(f));
    vstd::set::fold::lemma_fold_insert(paths, 0int, f, path);
}

proof fn lemma_files_add_up(
    cache: HFCacheInfo,
    request: Seq<String>,
    size: spec_fn(PathKey) -> int,
    r: int,
    i: int,
    k: int,
)
    requires
        sizes_blobs(cache, request, size),
        cache.has_revision(r, i),
        0 <= k <= cache.revision_at(r, i).files@.len(),
        given_up_before(cache, request, r, i, 0).finite(),
    ensures
        given_up_before(cache, request, r, i, k).finite(),
        total_size(given_up_before(cache, request, r, i, k), size) == total_size(
            given_up_before(cache, request, r, i, 0),
            size,
        ) + cache.file_gain(targets_of(request), r, i, k),
    decreases k,
{
    let targets = targets_of(request);
    if k > 0 {
        lemma_files_add_up(cache, request, size, r, i, k - 1);
        lemma_freed(cache, request);
        let before = given_up_before(cache, request, r, i, k - 1);
        let after = given_up_before(cache, request, r, i, k);
        let blob = cache.blob_at(r, i, k - 1);
        assert(cache.has_file(r, i, k - 1));
        if cache.frees(targets, r, i, k - 1) {
            assert(after =~= before.insert(blob));
            if cache.counts(targets, r, i, k - 1) {
                assert(gives_up_first(cache, request, r, i, k - 1));
                assert(!before.contains(blob));
                lemma_total_insert(before, size, blob);
            } else {
                assert(before.contains(blob));
                assert(after =~= before);
            }
        } else {
            assert(!cache.counts(targets, r, i, k - 1));
            assert(after =~= before);
        }
    }
}

proof fn lemma_revisions_add_up(
    cache: HFCacheInfo,
    request: Seq<String>,
    size: spec_fn(PathKey) -> int,
    r: int,
    i: int,
)
    requires
        sizes_blobs(cache, request, size),
        0 <= r < cache.repos@.len(),
        0 <= i <= cache.repos@[r].revisions@.len(),
        given_up_before(cache, request, r, 0, 0).finite(),
    ensures
        given_up_before(cache, request, r, i, 0).finite(),
        total_size(given_up_before(cache, request, r, i, 0), size) == total_size(
            given_up_before(cache, request, r, 0, 0),
            size,
        ) + cache.revision_gain(targets_of(request), r, i),
    decreases i,
{
    if i > 0 {
        lemma_revisions_add_up(cache, request, size, r, i - 1);
        let n = cache.revision_at(r, i - 1).files@.len() as int;
        assert(cache.has_revision(r, i - 1));
        lemma_files_add_up(cache, request, size, r, i - 1, n);
        assert(given_up_before(cache, request, r, i, 0) =~= given_up_before(
            cache,
            request,
            r,
            i - 1,
            n,
        ));
    }
}

proof fn lemma_repositories_add_up(
    cache: HFCacheInfo,
    request: Seq<String>,
    size: spec_fn(PathKey) -> int,
    r: nat,
)
    requires
        sizes_blobs(cache, request, size),
        r <= cache.repos@.len(),
    ensures
        given_up_before(cache, request, r as int, 0, 0).finite(),
        cache.repo_gain(targets_of(request), r as int) == emptied_size(cache, request, r)
            + total_size(given_up_before(cache, request, r as int, 0, 0), size),
    decreases r,
{
    let targets = targets_of(request);
    let f = |total: int, more: int| total + more;
    let g = |s: int|
        if empties(cache, request, s) {
            cache.repos@[s].size_on_disk as int
        } else {
            0
        };
    let whole = Seq::new(r, g);
    if r > 0 {
        let last = (r - 1) as nat;
        lemma_repositories_add_up(cache, request, size, last);
        lemma_selected(cache, request);
        let n = cache.repos@[last as int].revisions@.len() as int;
        assert(whole.drop_last() =~= Seq::new(last, g));
        assert(whole.last() == g(last as int));
        let before = given_up_before(cache, request, last as int, 0, 0);
        let after = given_up_before(cache, request, r as int, 0, 0);
        assert(cache.wipes(targets, last as int) == empties(cache, request, last as int));
        if cache.wipes(targets, last as int) {
            assert(after =~= before);
        } else {
            lemma_revisions_add_up(cache, request, size, last as int, n);
            assert(after =~= given_up_before(cache, request, last as int, n, 0));
        }
    } else {
        assert(given_up_before(cache, request, 0, 0, 0) =~= Set::empty());
        vstd::set::fold::lemma_fold_empty(
            0int,
            |total: int, path: PathKey| total + size(path),
        );
        assert(whole =~= Seq::empty());
    }
}

/// What a request frees is the sizes of the repositories that go as a whole, and
/// for every other blob that is given up, once, the size of the first file that
/// gives it up.
pub proof fn freed_bytes_are_those_of_repositories_and_blobs(
    cache: HFCacheInfo,
    request: Seq<String>,
    blobs: Set<PathKey>,
    size: spec_fn(PathKey) -> int,
)
    requires
        forall|key: PathKey| #[trigger]
            blobs.contains(key) <==> exists|r: int, i: int, k: int| #[trigger]
                gives_up(cache, request, r, i, k) && path::path_key(
                    cache.repos@[r].revisions@[i].files@[k].blob_path.bytes@,
                ) == key,
        sizes_blobs(cache, request, size),
    ensures
        cache.freed_size(targets_of(request)) == emptied_size(cache, request, cache.repos@.len())
            + total_size(blobs, size),
{
    let n = cache.repos@.len();
    let targets = targets_of(request);
    lemma_repositories_add_up(cache, request, size, n);
    lemma_freed(cache, request);
    let all = given_up_before(cache, request, n as int, 0, 0);
    assert forall|key: PathKey| all.contains(key) == blobs.contains(key) by {
        if all.contains(key) {
            let (r, i, k) = choose|r: int, i: int, k: int| #[trigger]
                cache.frees(targets, r, i, k) && file_precedes(r, i, k, n as int, 0, 0)
                    && cache.blob_at(r, i, k) == key;
            assert(gives_up(cache, request, r, i, k));
        }
        if blobs.contains(key) {
            let (r, i, k) = choose|r: int, i: int, k: int| #[trigger]
                gives_up(cache, request, r, i, k) && path::path_key(
                    cache.repos@[r].revisions@[i].files@[k].blob_path.bytes@,
                ) == key;
            assert(cache.frees(targets, r, i, k));
            assert(file_precedes(r, i, k, n as int, 0, 0));
        }
    }
    assert(all =~= blobs);
}

/// The size that a plan announces is the sizes of the repositories that go as a
/// whole, and the size of every blob on its list, each counted once.
pub proof fn announced_bytes_are_those_of_the_lists(
    plan: DeleteCacheStrategy,
    cache: HFCacheInfo,
    request: Seq<String>,
    lock_dirs: Set<PathKey>,
    size: spec_fn(PathKey) -> int,
)
    requires
        plan.is_plan(cache, targets_of(request), lock_dirs),
        sizes_blobs(cache, request, size),
    ensures
        plan.expected_freed_size == emptied_size(cache, request, cache.repos@.len()) + total_size(
            plan.blobs@,
            size,
        ),
{
    assert forall|key: PathKey| #[trigger]
        plan.blobs@.contains(key) <==> exists|r: int, i: int, k: int| #[trigger]
            gives_up(cache, request, r, i, k) && path::path_key(
                cache.repos@[r].revisions@[i].files@[k].blob_path.bytes@,
            ) == key by {
        blobs_that_nothing_keeps_are_listed(plan, cache, request, lock_dirs, key);
    }
    freed_bytes_are_those_of_repositories_and_blobs(cache, request, plan.blobs@, size);
}

/// Whatever file it is, and wherever it stands in its revision: the blob of a
/// file of a deleted revision is listed, if the repository stays and no file of
/// a revision with a hash that is not deleted has the same blob.
pub proof fn every_unshared_blob_is_listed(
    plan: DeleteCacheStrategy,
    cache: HFCacheInfo,
    request: Seq<String>,
    lock_dirs: Set<PathKey>,
    repo: CachedRepoInfo,
    revision: CachedRevisionInfo,
    file: CachedFileInfo,
    r: int,
    i: int,
    k: int,
)
    requires
        plan.is_plan(cache, targets_of(request), lock_dirs),
        0 <= r < cache.repos@.len(),
        repo == cache.repos@[r],
        0 <= i < repo.revisions@.len(),
        revision == repo.revisions@[i],
        0 <= k < revision.files@.len(),
        file == revision.files@[k],
        goes(cache, request, r, i),
        exists|j: int| 0 <= j < repo.revisions@.len() && !#[trigger] goes(cache, request, r, j),
        forall|j: int, l: int|
            0 <= j < repo.revisions@.len() && 0 <= l < repo.revisions@[j].files@.len()
                && path::path_key((#[trigger] repo.revisions@[j].files@[l]).blob_path.bytes@)
                == path::path_key(file.blob_path.bytes@) ==> exists|m: int| #[trigger]
                goes(cache, request, r, m) && repo.revisions@[m].commit_hash@
                    == repo.revisions@[j].commit_hash@,
    ensures
        plan.blobs@.contains(path::path_key(file.blob_path.bytes@)),
{
    let blob = path::path_key(file.blob_path.bytes@);
    let j = choose|j: int| 0 <= j < repo.revisions@.len() && !#[trigger] goes(cache, request, r, j);
    assert(!empties(cache, request, r));
    if is_kept(cache, request, r, blob) {
        let (m, l) = choose|m: int, l: int|
            0 <= m < cache.repos@[r].revisions@.len() && 0 <= l
                < cache.repos@[r].revisions@[m].files@.len() && path::path_key(
                (#[trigger] cache.repos@[r].revisions@[m].files@[l]).blob_path.bytes@,
            ) == blob && forall|i: int| #[trigger]
                goes(cache, request, r, i) ==> cache.repos@[r].revisions@[i].commit_hash@
                    != cache.repos@[r].revisions@[m].commit_hash@;
        assert(path::path_key(repo.revisions@[m].files@[l].blob_path.bytes@) == blob);
    }
    assert(gives_up(cache, request, r, i, k));
    blobs_that_nothing_keeps_are_listed(plan, cache, request, lock_dirs, blob);
}

} // verus!
