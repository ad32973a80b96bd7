//! What holds of every deletion plan.

use crate::cache::{CachedRepoInfo, HFCacheInfo};
use crate::deletion::DeleteCacheStrategy;
#[allow(unused_imports)]
use crate::deletion::{file_precedes, precedes, targets_of, written_as};
use crate::order;
use crate::path::{CachePath, PathKey};
use crate::path_set::PathSet;
use vstd::prelude::*;
#[allow(unused_imports)]
use vstd::string::*;
#[allow(unused_imports)]
use vstd::utf8::*;

verus! {

/// A hash is deleted in one place only: the first where it occurs.
pub proof fn each_hash_is_deleted_once(
    cache: HFCacheInfo,
    targets: Set<Seq<char>>,
    r: int,
    i: int,
    s: int,
    j: int,
)
    requires
        cache.selects(targets, r, i),
        cache.has_revision(s, j),
        cache.hash_at(r, i) == cache.hash_at(s, j),
    ensures
        (r, i) == (s, j) || precedes(r, i, s, j),
        cache.selects(targets, s, j) ==> (r, i) == (s, j),
{
    if precedes(s, j, r, i) {
        assert(cache.seen_before(cache.hash_at(r, i), r, i));
    }
    if precedes(r, i, s, j) {
        assert(cache.seen_before(cache.hash_at(s, j), s, j));
    }
}

/// Some revision is the first with its hash.
proof fn lemma_first_with_hash(cache: HFCacheInfo, hash: Seq<char>, r: int, i: int)
    requires
        cache.has_revision(r, i),
        cache.hash_at(r, i) == hash,
    ensures
        exists|s: int, j: int| #[trigger]
            cache.has_revision(s, j) && cache.hash_at(s, j) == hash && !cache.seen_before(
                hash,
                s,
                j,
            ),
    decreases r, i,
{
    if cache.seen_before(hash, r, i) {
        let (s, j) = choose|s: int, j: int| #[trigger]
            cache.has_revision(s, j) && precedes(s, j, r, i) && cache.hash_at(
                s,
                j,
            ) == hash;
        lemma_first_with_hash(cache, hash, s, j);
    }
}

/// Every requested hash is deleted, or it is reported as missing; never both.
pub proof fn every_target_is_deleted_or_missing(
    cache: HFCacheInfo,
    targets: Set<Seq<char>>,
    missing: Seq<Seq<char>>,
    hash: Seq<char>,
)
    requires
        cache.lists_missing(targets, missing),
        targets.contains(hash),
    ensures
        missing.contains(hash) <==> !(exists|r: int, i: int| #[trigger]
            cache.selects(targets, r, i) && cache.hash_at(r, i) == hash),
{
    if cache.holds(hash) {
        let (r, i) = choose|r: int, i: int| #[trigger]
            cache.has_revision(r, i) && cache.hash_at(r, i) == hash;
        lemma_first_with_hash(cache, hash, r, i);
        let (s, j) = choose|s: int, j: int| #[trigger]
            cache.has_revision(s, j) && cache.hash_at(s, j) == hash && !cache.seen_before(
                hash,
                s,
                j,
            );
        assert(cache.selects(targets, s, j));
    }
}

/// A blob that a surviving revision points at stays, if no other repository
/// points into this one's blobs.
pub proof fn surviving_revisions_keep_their_blobs(
    cache: HFCacheInfo,
    targets: Set<Seq<char>>,
    r: int,
    j: int,
    k: int,
)
    requires
        cache.survives(targets, r, j),
        cache.has_file(r, j, k),
        forall|s: int, i: int, l: int|
            s != r && #[trigger] cache.has_file(s, i, l) ==> cache.blob_at(s, i, l)
                != cache.blob_at(r, j, k),
    ensures
        !cache.planned_blobs(targets).contains(cache.blob_at(r, j, k)),
{
    let blob = cache.blob_at(r, j, k);
    if cache.planned_blobs(targets).contains(blob) {
        let (s, i, l) = choose|s: int, i: int, l: int| #[trigger]
            cache.frees(targets, s, i, l) && cache.blob_at(s, i, l) == blob;
        assert(cache.has_file(s, i, l));
        assert(cache.still_referenced(targets, r, blob));
    }
}

/// A blob is listed only on behalf of a repository that stays and in which no
/// surviving revision points at it.
pub proof fn planned_blobs_are_not_referenced(
    cache: HFCacheInfo,
    targets: Set<Seq<char>>,
    blob: PathKey,
)
    requires
        cache.planned_blobs(targets).contains(blob),
    ensures
        exists|r: int, i: int, k: int| #[trigger]
            cache.has_file(r, i, k) && cache.blob_at(r, i, k) == blob && cache.prunes(
                targets,
                r,
                i,
            ) && (forall|j: int, l: int| #[trigger]
                cache.has_file(r, j, l) && cache.survives(targets, r, j) ==> cache.blob_at(r, j, l)
                    != blob),
{
    let (r, i, k) = choose|r: int, i: int, k: int| #[trigger]
        cache.frees(targets, r, i, k) && cache.blob_at(r, i, k) == blob;
    assert(cache.has_file(r, i, k));
}

/// A revision that is not deleted keeps its snapshot directory, if it shares
/// the directory with no other revision.
pub proof fn kept_revisions_keep_their_snapshots(
    cache: HFCacheInfo,
    targets: Set<Seq<char>>,
    r: int,
    j: int,
)
    requires
        cache.has_revision(r, j),
        !cache.selects(targets, r, j),
        forall|s: int, i: int| #[trigger]
            cache.has_revision(s, i) && (s, i) != (r, j) ==> cache.revision_at(
                s,
                i,
            ).snapshot_path.key() != cache.revision_at(r, j).snapshot_path.key(),
    ensures
        !cache.planned_snapshots(targets).contains(
            cache.revision_at(r, j).snapshot_path.key(),
        ),
{
    let snapshot = cache.revision_at(r, j).snapshot_path.key();
    if cache.planned_snapshots(targets).contains(snapshot) {
        let (s, i) = choose|s: int, i: int| #[trigger]
            cache.prunes(targets, s, i) && cache.revision_at(s, i).snapshot_path.key()
                == snapshot;
        assert(cache.has_revision(s, i));
    }
}

/// Every planned blob is counted exactly once in the freed size.
pub proof fn planned_blobs_are_counted_once(
    cache: HFCacheInfo,
    targets: Set<Seq<char>>,
    blob: PathKey,
)
    ensures
        cache.planned_blobs(targets).contains(blob) <==> exists|r: int, i: int, k: int| #[trigger]
            cache.counts(targets, r, i, k) && cache.blob_at(r, i, k) == blob,
        forall|r: int, i: int, k: int, s: int, j: int, l: int| #[trigger]
            cache.counts(targets, r, i, k) && #[trigger] cache.counts(targets, s, j, l)
                && cache.blob_at(r, i, k) == blob && cache.blob_at(s, j, l) == blob ==> (r, i, k)
                == (s, j, l),
{
    if cache.planned_blobs(targets).contains(blob) {
        let (r, i, k) = choose|r: int, i: int, k: int| #[trigger]
            cache.frees(targets, r, i, k) && cache.blob_at(r, i, k) == blob;
        lemma_first_to_free(cache, targets, blob, r, i, k);
    }
    assert forall|r: int, i: int, k: int, s: int, j: int, l: int| #[trigger]
        cache.counts(targets, r, i, k) && #[trigger] cache.counts(targets, s, j, l)
            && cache.blob_at(r, i, k) == blob && cache.blob_at(s, j, l) == blob implies (r, i, k)
        == (s, j, l) by {
        if file_precedes(r, i, k, s, j, l) {
            assert(cache.freed_before(targets, blob, s, j, l));
        }
        if file_precedes(s, j, l, r, i, k) {
            assert(cache.freed_before(targets, blob, r, i, k));
        }
    }
}

/// Some file is the first that gives a blob up.
proof fn lemma_first_to_free(
    cache: HFCacheInfo,
    targets: Set<Seq<char>>,
    blob: PathKey,
    r: int,
    i: int,
    k: int,
)
    requires
        cache.frees(targets, r, i, k),
        cache.blob_at(r, i, k) == blob,
    ensures
        exists|s: int, j: int, l: int| #[trigger]
            cache.counts(targets, s, j, l) && cache.blob_at(s, j, l) == blob,
    decreases r, i, k,
{
    if cache.freed_before(targets, blob, r, i, k) {
        let (s, j, l) = choose|s: int, j: int, l: int| #[trigger]
            cache.frees(targets, s, j, l) && file_precedes(s, j, l, r, i, k)
                && cache.blob_at(s, j, l) == blob;
        lemma_first_to_free(cache, targets, blob, s, j, l);
    } else {
        assert(cache.counts(targets, r, i, k));
    }
}

/// A repository goes as a whole or revision by revision, never both.
pub proof fn whole_or_by_revision(cache: HFCacheInfo, targets: Set<Seq<char>>, r: int, i: int)
    requires
        cache.selects(targets, r, i),
    ensures
        cache.wipes(targets, r) != cache.prunes(targets, r, i),
        cache.wipes(targets, r) ==> cache.planned_repos(targets).contains(
            cache.repos@[r].repo_path.key(),
        ),
        cache.prunes(targets, r, i) ==> cache.planned_snapshots(targets).contains(
            cache.revision_at(r, i).snapshot_path.key(),
        ),
{
}

/// Where no repository goes as a whole, no lock directory goes either.
pub proof fn per_revision_plans_keep_locks(
    plan: DeleteCacheStrategy,
    cache: HFCacheInfo,
    targets: Set<Seq<char>>,
    lock_dirs: Set<PathKey>,
)
    requires
        plan.is_plan(cache, targets, lock_dirs),
        forall|r: int| !cache.wipes(targets, r),
    ensures
        plan.locks@ == Set::<PathKey>::empty(),
        plan.repos@ == Set::<PathKey>::empty(),
{
    assert(plan.locks@ =~= Set::<PathKey>::empty());
    assert(plan.repos@ =~= Set::<PathKey>::empty());
}

/// Requests that agree on the hashes the cache holds select the same revisions.
proof fn lemma_same_selection(cache: HFCacheInfo, a: Set<Seq<char>>, b: Set<Seq<char>>)
    requires
        forall|hash: Seq<char>| #[trigger]
            cache.holds(hash) ==> a.contains(hash) == b.contains(hash),
    ensures
        forall|r: int, i: int| cache.selects(a, r, i) == cache.selects(b, r, i),
        forall|r: int| cache.wipes(a, r) == cache.wipes(b, r),
        forall|r: int, i: int| cache.prunes(a, r, i) == cache.prunes(b, r, i),
        forall|r: int, i: int, k: int| cache.frees(a, r, i, k) == cache.frees(b, r, i, k),
        forall|r: int, i: int, k: int| cache.counts(a, r, i, k) == cache.counts(b, r, i, k),
{
    assert forall|r: int, i: int| cache.selects(a, r, i) == cache.selects(b, r, i) by {
        if cache.has_revision(r, i) {
            assert(cache.holds(cache.hash_at(r, i)));
        }
    }
    assert forall|r: int| cache.wipes(a, r) == cache.wipes(b, r) by {
        if cache.wipes(a, r) {
            assert forall|i: int| 0 <= i < cache.repos@[r].revisions@.len() implies #[trigger]
            cache.selects(b, r, i) by {
                assert(cache.selects(a, r, i));
            }
        }
        if cache.wipes(b, r) {
            assert forall|i: int| 0 <= i < cache.repos@[r].revisions@.len() implies #[trigger]
            cache.selects(a, r, i) by {
                assert(cache.selects(b, r, i));
            }
        }
    }
    assert forall|r: int, j: int| cache.survives(a, r, j) == cache.survives(b, r, j) by {
        if cache.survives(a, r, j) {
            assert forall|i: int| #[trigger] cache.selects(b, r, i) implies cache.hash_at(r, i)
                != cache.hash_at(r, j) by {
                assert(cache.selects(a, r, i));
            }
        }
        if cache.survives(b, r, j) {
            assert forall|i: int| #[trigger] cache.selects(a, r, i) implies cache.hash_at(r, i)
                != cache.hash_at(r, j) by {
                assert(cache.selects(b, r, i));
            }
        }
    }
    assert forall|r: int, blob: PathKey|
        cache.still_referenced(a, r, blob) == cache.still_referenced(b, r, blob) by {
        if cache.still_referenced(a, r, blob) {
            let (j, k) = choose|j: int, k: int| #[trigger]
                cache.has_file(r, j, k) && cache.survives(a, r, j) && cache.blob_at(r, j, k)
                    == blob;
            assert(cache.has_file(r, j, k) && cache.survives(b, r, j));
        }
        if cache.still_referenced(b, r, blob) {
            let (j, k) = choose|j: int, k: int| #[trigger]
                cache.has_file(r, j, k) && cache.survives(b, r, j) && cache.blob_at(r, j, k)
                    == blob;
            assert(cache.has_file(r, j, k) && cache.survives(a, r, j));
        }
    }
    assert forall|r: int, i: int, k: int| cache.counts(a, r, i, k) == cache.counts(
        b,
        r,
        i,
        k,
    ) by {
        let blob = cache.blob_at(r, i, k);
        if cache.freed_before(a, blob, r, i, k) {
            let (s, j, l) = choose|s: int, j: int, l: int| #[trigger]
                cache.frees(a, s, j, l) && file_precedes(s, j, l, r, i, k)
                    && cache.blob_at(s, j, l) == blob;
            assert(cache.frees(b, s, j, l));
        }
        if cache.freed_before(b, blob, r, i, k) {
            let (s, j, l) = choose|s: int, j: int, l: int| #[trigger]
                cache.frees(b, s, j, l) && file_precedes(s, j, l, r, i, k)
                    && cache.blob_at(s, j, l) == blob;
            assert(cache.frees(a, s, j, l));
        }
    }
}

proof fn lemma_same_file_gain(
    cache: HFCacheInfo,
    a: Set<Seq<char>>,
    b: Set<Seq<char>>,
    r: int,
    i: int,
    k: int,
)
    requires
        forall|r: int, i: int, k: int| cache.counts(a, r, i, k) == cache.counts(b, r, i, k),
    ensures
        cache.file_gain(a, r, i, k) == cache.file_gain(b, r, i, k),
    decreases k,
{
    if k > 0 {
        lemma_same_file_gain(cache, a, b, r, i, k - 1);
        assert(cache.counts(a, r, i, k - 1) == cache.counts(b, r, i, k - 1));
    }
}

proof fn lemma_same_revision_gain(
    cache: HFCacheInfo,
    a: Set<Seq<char>>,
    b: Set<Seq<char>>,
    r: int,
    i: int,
)
    requires
        forall|r: int, i: int, k: int| cache.counts(a, r, i, k) == cache.counts(b, r, i, k),
    ensures
        cache.revision_gain(a, r, i) == cache.revision_gain(b, r, i),
    decreases i,
{
    if i > 0 {
        lemma_same_revision_gain(cache, a, b, r, i - 1);
        lemma_same_file_gain(
            cache,
            a,
            b,
            r,
            i - 1,
            cache.revision_at(r, i - 1).files@.len() as int,
        );
    }
}

proof fn lemma_same_repo_gain(cache: HFCacheInfo, a: Set<Seq<char>>, b: Set<Seq<char>>, r: int)
    requires
        forall|r: int, i: int, k: int| cache.counts(a, r, i, k) == cache.counts(b, r, i, k),
        forall|r: int| cache.wipes(a, r) == cache.wipes(b, r),
    ensures
        cache.repo_gain(a, r) == cache.repo_gain(b, r),
    decreases r,
{
    if r > 0 {
        lemma_same_repo_gain(cache, a, b, r - 1);
        assert(cache.wipes(a, r - 1) == cache.wipes(b, r - 1));
        lemma_same_revision_gain(
            cache,
            a,
            b,
            r - 1,
            cache.repos@[r - 1].revisions@.len() as int,
        );
    }
}

/// Hashes that the cache does not hold change nothing about what is removed.
pub proof fn missing_hashes_do_not_matter(
    cache: HFCacheInfo,
    a: Set<Seq<char>>,
    b: Set<Seq<char>>,
)
    requires
        forall|hash: Seq<char>| #[trigger]
            cache.holds(hash) ==> a.contains(hash) == b.contains(hash),
    ensures
        cache.freed_size(a) == cache.freed_size(b),
        cache.planned_repos(a) == cache.planned_repos(b),
        cache.planned_locks(a) == cache.planned_locks(b),
        cache.planned_snapshots(a) == cache.planned_snapshots(b),
        cache.planned_refs(a) == cache.planned_refs(b),
        cache.planned_blobs(a) == cache.planned_blobs(b),
{
    lemma_same_selection(cache, a, b);
    lemma_same_repo_gain(cache, a, b, cache.repos@.len() as int);
    assert forall|p: PathKey| cache.planned_repos(a).contains(p) == cache.planned_repos(
        b,
    ).contains(p) by {
        if cache.planned_repos(a).contains(p) {
            let r = choose|r: int| #[trigger]
                cache.wipes(a, r) && cache.repos@[r].repo_path.key() == p;
            assert(cache.wipes(b, r));
        }
        if cache.planned_repos(b).contains(p) {
            let r = choose|r: int| #[trigger]
                cache.wipes(b, r) && cache.repos@[r].repo_path.key() == p;
            assert(cache.wipes(a, r));
        }
    }
    assert(cache.planned_repos(a) =~= cache.planned_repos(b));
    assert forall|p: PathKey| cache.planned_locks(a).contains(p) == cache.planned_locks(
        b,
    ).contains(p) by {
        if cache.planned_locks(a).contains(p) {
            let r = choose|r: int| #[trigger]
                cache.wipes(a, r) && (cache.repos@[r].lock_text(cache.cache_dir@) matches Some(
                    text,
                ) && crate::path::path_key(text) == p);
            assert(cache.wipes(b, r));
        }
        if cache.planned_locks(b).contains(p) {
            let r = choose|r: int| #[trigger]
                cache.wipes(b, r) && (cache.repos@[r].lock_text(cache.cache_dir@) matches Some(
                    text,
                ) && crate::path::path_key(text) == p);
            assert(cache.wipes(a, r));
        }
    }
    assert(cache.planned_locks(a) =~= cache.planned_locks(b));
    assert forall|p: PathKey| cache.planned_snapshots(a).contains(p) == cache.planned_snapshots(
        b,
    ).contains(p) by {
        if cache.planned_snapshots(a).contains(p) {
            let (r, i) = choose|r: int, i: int| #[trigger]
                cache.prunes(a, r, i) && cache.revision_at(r, i).snapshot_path.key() == p;
            assert(cache.prunes(b, r, i));
        }
        if cache.planned_snapshots(b).contains(p) {
            let (r, i) = choose|r: int, i: int| #[trigger]
                cache.prunes(b, r, i) && cache.revision_at(r, i).snapshot_path.key() == p;
            assert(cache.prunes(a, r, i));
        }
    }
    assert(cache.planned_snapshots(a) =~= cache.planned_snapshots(b));
    assert(cache.planned_refs(a) =~= cache.planned_refs(b));
    assert forall|p: PathKey| cache.planned_blobs(a).contains(p) == cache.planned_blobs(
        b,
    ).contains(p) by {
        if cache.planned_blobs(a).contains(p) {
            let (r, i, k) = choose|r: int, i: int, k: int| #[trigger]
                cache.frees(a, r, i, k) && cache.blob_at(r, i, k) == p;
            assert(cache.frees(b, r, i, k));
        }
        if cache.planned_blobs(b).contains(p) {
            let (r, i, k) = choose|r: int, i: int, k: int| #[trigger]
                cache.frees(b, r, i, k) && cache.blob_at(r, i, k) == p;
            assert(cache.frees(a, r, i, k));
        }
    }
    assert(cache.planned_blobs(a) =~= cache.planned_blobs(b));
}

/// A request that names only unknown hashes removes nothing and reports all of
/// them.
pub proof fn unknown_hashes_remove_nothing(
    plan: DeleteCacheStrategy,
    cache: HFCacheInfo,
    targets: Set<Seq<char>>,
    lock_dirs: Set<PathKey>,
)
    requires
        plan.is_plan(cache, targets, lock_dirs),
        forall|hash: Seq<char>| targets.contains(hash) ==> !#[trigger] cache.holds(hash),
    ensures
        plan.expected_freed_size == 0,
        plan.repos@ == Set::<PathKey>::empty(),
        plan.snapshots@ == Set::<PathKey>::empty(),
        plan.refs@ == Set::<PathKey>::empty(),
        plan.blobs@ == Set::<PathKey>::empty(),
        plan.locks@ == Set::<PathKey>::empty(),
        forall|hash: Seq<char>| #[trigger]
            order::texts_of(plan.missing_revisions@).contains(hash) <==> targets.contains(hash),
{
    assert forall|r: int, i: int| !#[trigger] cache.selects(targets, r, i) by {
        if cache.has_revision(r, i) {
            assert(cache.holds(cache.hash_at(r, i)));
        }
    }
    assert forall|r: int| !#[trigger] cache.wipes(targets, r) by {
        if cache.wipes(targets, r) {
            assert(cache.selects(targets, r, 0));
        }
    }
    lemma_nothing_gained(cache, targets, cache.repos@.len() as int);
    assert(plan.repos@ =~= Set::<PathKey>::empty());
    assert(plan.snapshots@ =~= Set::<PathKey>::empty());
    assert(plan.refs@ =~= Set::<PathKey>::empty());
    assert(plan.blobs@ =~= Set::<PathKey>::empty());
    assert(plan.locks@ =~= Set::<PathKey>::empty());
}

proof fn lemma_nothing_gained(cache: HFCacheInfo, targets: Set<Seq<char>>, r: int)
    requires
        forall|r: int, i: int| !#[trigger] cache.selects(targets, r, i),
        forall|r: int| !#[trigger] cache.wipes(targets, r),
    ensures
        cache.repo_gain(targets, r) == 0,
    decreases r,
{
    if r > 0 {
        lemma_nothing_gained(cache, targets, r - 1);
        assert(!cache.wipes(targets, r - 1));
        lemma_nothing_gained_in_repo(
            cache,
            targets,
            r - 1,
            cache.repos@[r - 1].revisions@.len() as int,
        );
    }
}

proof fn lemma_nothing_gained_in_repo(
    cache: HFCacheInfo,
    targets: Set<Seq<char>>,
    r: int,
    i: int,
)
    requires
        forall|r: int, i: int| !#[trigger] cache.selects(targets, r, i),
    ensures
        cache.revision_gain(targets, r, i) == 0,
    decreases i,
{
    if i > 0 {
        lemma_nothing_gained_in_repo(cache, targets, r, i - 1);
        crate::deletion::lemma_no_file_gain(
            cache,
            targets,
            r,
            i - 1,
            cache.revision_at(r, i - 1).files@.len() as int,
        );
    }
}

/// Whether no path is written in two ways.
spec fn one_text_each(texts: Set<Seq<u8>>) -> bool {
    forall|t: Seq<u8>, u: Seq<u8>| #[trigger]
        texts.contains(t) && #[trigger] texts.contains(u) && crate::path::path_key(t)
            == crate::path::path_key(u) ==> t == u
}

/// Sets with the same paths, each written in its one way, have the same texts.
proof fn lemma_same_texts(a: PathSet, b: PathSet, texts: Set<Seq<u8>>)
    requires
        a@ == b@,
        written_as(a, texts),
        written_as(b, texts),
        one_text_each(texts),
    ensures
        a.spellings().to_set() == b.spellings().to_set(),
{
    assert forall|t: Seq<u8>| a.spellings().contains(t) implies b.spellings().contains(t) by {
        lemma_text_found(a, b, texts, t);
    }
    assert forall|t: Seq<u8>| b.spellings().contains(t) implies a.spellings().contains(t) by {
        lemma_text_found(b, a, texts, t);
    }
    assert(a.spellings().to_set() =~= b.spellings().to_set());
}

proof fn lemma_text_found(a: PathSet, b: PathSet, texts: Set<Seq<u8>>, t: Seq<u8>)
    requires
        a@ == b@,
        written_as(a, texts),
        written_as(b, texts),
        one_text_each(texts),
        a.spellings().contains(t),
    ensures
        b.spellings().contains(t),
{
    let n = choose|n: int| 0 <= n < a.spellings().len() && a.spellings()[n] == t;
    let key = crate::path::path_key(t);
    assert(a.keys()[n] == key);
    assert(a.keys().contains(key));
    assert(a@.contains(key));
    let m = choose|m: int| 0 <= m < b.keys().len() && b.keys()[m] == key;
    let u = b.spellings()[m];
    assert(texts.contains(u) && texts.contains(a.spellings()[n]));
    assert(u == t);
}

/// The first to name a path is one, so a plan has one way to write it.
proof fn lemma_one_text_each(cache: HFCacheInfo, targets: Set<Seq<char>>)
    ensures
        one_text_each(cache.repo_texts(targets)),
        one_text_each(cache.lock_texts(targets)),
        one_text_each(cache.snapshot_texts(targets)),
        one_text_each(cache.ref_texts(targets)),
        one_text_each(cache.blob_texts(targets)),
{
    assert forall|t: Seq<u8>, u: Seq<u8>| #[trigger]
        cache.repo_texts(targets).contains(t) && #[trigger] cache.repo_texts(targets).contains(u)
            && crate::path::path_key(t) == crate::path::path_key(u) implies t == u by {
        let r = choose|r: int| #[trigger]
            cache.names_repo(targets, r) && cache.repos@[r].repo_path@ == t;
        let s = choose|s: int| #[trigger]
            cache.names_repo(targets, s) && cache.repos@[s].repo_path@ == u;
        assert(cache.wipes(targets, r) && cache.wipes(targets, s));
    }
    assert forall|t: Seq<u8>, u: Seq<u8>| #[trigger]
        cache.lock_texts(targets).contains(t) && #[trigger] cache.lock_texts(targets).contains(u)
            && crate::path::path_key(t) == crate::path::path_key(u) implies t == u by {
        let r = choose|r: int| #[trigger]
            cache.names_lock(targets, r) && cache.repos@[r].lock_text(cache.cache_dir@) == Some(t);
        let s = choose|s: int| #[trigger]
            cache.names_lock(targets, s) && cache.repos@[s].lock_text(cache.cache_dir@) == Some(u);
        assert(cache.wipes(targets, r) && cache.wipes(targets, s));
    }
    assert forall|t: Seq<u8>, u: Seq<u8>| #[trigger]
        cache.snapshot_texts(targets).contains(t) && #[trigger] cache.snapshot_texts(
            targets,
        ).contains(u) && crate::path::path_key(t) == crate::path::path_key(u) implies t == u by {
        let (r, i) = choose|r: int, i: int| #[trigger]
            cache.names_snapshot(targets, r, i) && cache.revision_at(r, i).snapshot_path@ == t;
        let (s, j) = choose|s: int, j: int| #[trigger]
            cache.names_snapshot(targets, s, j) && cache.revision_at(s, j).snapshot_path@ == u;
        assert(cache.prunes(targets, r, i) && cache.prunes(targets, s, j));
    }
    assert forall|t: Seq<u8>, u: Seq<u8>| #[trigger]
        cache.ref_texts(targets).contains(t) && #[trigger] cache.ref_texts(targets).contains(u)
            && crate::path::path_key(t) == crate::path::path_key(u) implies t == u by {
        let (r, i, k) = choose|r: int, i: int, k: int| #[trigger]
            cache.names_ref(targets, r, i, k) && cache.repos@[r].ref_text(
                cache.revision_at(r, i).refs@[k]@,
            ) == t;
        let (s, j, l) = choose|s: int, j: int, l: int| #[trigger]
            cache.names_ref(targets, s, j, l) && cache.repos@[s].ref_text(
                cache.revision_at(s, j).refs@[l]@,
            ) == u;
        assert(cache.has_ref(r, i, k) && cache.has_ref(s, j, l));
    }
    assert forall|t: Seq<u8>, u: Seq<u8>| #[trigger]
        cache.blob_texts(targets).contains(t) && #[trigger] cache.blob_texts(targets).contains(u)
            && crate::path::path_key(t) == crate::path::path_key(u) implies t == u by {
        let (r, i, k) = choose|r: int, i: int, k: int| #[trigger]
            cache.counts(targets, r, i, k) && cache.file_at(r, i, k).blob_path@ == t;
        let (s, j, l) = choose|s: int, j: int, l: int| #[trigger]
            cache.counts(targets, s, j, l) && cache.file_at(s, j, l).blob_path@ == u;
        planned_blobs_are_counted_once(cache, targets, crate::path::path_key(t));
    }
}

/// Plans for one request agree, also in how they write each path: neither the
/// order nor the repetition of hashes in the request shows in the plan.
pub proof fn plans_for_one_request_agree(
    a: DeleteCacheStrategy,
    b: DeleteCacheStrategy,
    cache: HFCacheInfo,
    first: Seq<String>,
    second: Seq<String>,
    lock_dirs: Set<PathKey>,
)
    requires
        a.is_plan(cache, targets_of(first), lock_dirs),
        b.is_plan(cache, targets_of(second), lock_dirs),
        forall|hash: Seq<char>| #[trigger]
            order::texts_of(first).contains(hash) <==> order::texts_of(second).contains(hash),
    ensures
        a.expected_freed_size == b.expected_freed_size,
        a.repos@ == b.repos@,
        a.snapshots@ == b.snapshots@,
        a.refs@ == b.refs@,
        a.blobs@ == b.blobs@,
        a.locks@ == b.locks@,
        a.repos.spellings().to_set() == b.repos.spellings().to_set(),
        a.snapshots.spellings().to_set() == b.snapshots.spellings().to_set(),
        a.refs.spellings().to_set() == b.refs.spellings().to_set(),
        a.blobs.spellings().to_set() == b.blobs.spellings().to_set(),
        a.locks.spellings().to_set() == b.locks.spellings().to_set(),
        order::texts_of(a.missing_revisions@) == order::texts_of(b.missing_revisions@),
{
    assert(targets_of(first) =~= targets_of(second));
    let targets = targets_of(first);
    lemma_one_text_each(cache, targets);
    lemma_same_texts(a.repos, b.repos, cache.repo_texts(targets));
    lemma_same_texts(a.snapshots, b.snapshots, cache.snapshot_texts(targets));
    lemma_same_texts(a.refs, b.refs, cache.ref_texts(targets));
    lemma_same_texts(a.blobs, b.blobs, cache.blob_texts(targets));
    lemma_same_texts(a.locks, b.locks, cache.lock_texts(targets));
    order::sorted_lists_agree(
        order::texts_of(a.missing_revisions@),
        order::texts_of(b.missing_revisions@),
    );
}

/// The lock directory of a repository stands in the cache under `.locks`, and
/// has the name of the repository's own directory.
pub proof fn lock_directories_stand_under_locks(cache_dir: CachePath, repo: CachedRepoInfo)
    requires
        repo.lock_text(cache_dir@) is Some,
    ensures
        crate::path::path_key(repo.lock_text(cache_dir@)->0) == (PathKey {
            rooted: cache_dir.key().rooted,
            names: cache_dir.key().names.push(encode_utf8(".locks"@)).push(
                repo.repo_path.key().names.last(),
            ),
        }),
{
    let locks = encode_utf8(".locks"@);
    reveal_strlit(".locks");
    assert(is_ascii_chars(".locks"@));
    is_ascii_chars_encode_utf8(".locks"@);
    assert forall|i: int| 0 <= i < locks.len() implies (#[trigger] locks[i])
        != crate::path::SEPARATOR by {
        assert(".locks"@[i] as u8 == locks[i]);
    }
    crate::path::joining_a_name_adds_a_component(cache_dir@, locks);
    let names = repo.repo_path.key().names;
    crate::path::components_are_plain(repo.repo_path@, names.len() - 1);
    crate::path::joining_a_name_adds_a_component(
        crate::path::joined(cache_dir@, locks),
        names.last(),
    );
}

/// Asking for every hash of a repository wipes it, if no hash occurs twice in
/// it and none belongs to an earlier repository.
pub proof fn asking_for_every_revision_wipes_the_repository(
    cache: HFCacheInfo,
    targets: Set<Seq<char>>,
    r: int,
)
    requires
        0 <= r < cache.repos@.len(),
        cache.repos@[r].revisions@.len() > 0,
        forall|i: int| #[trigger]
            cache.has_revision(r, i) ==> targets.contains(cache.hash_at(r, i)),
        forall|i: int, s: int, j: int| #[trigger]
            cache.has_revision(r, i) && #[trigger] cache.has_revision(s, j) && precedes(
                s,
                j,
                r,
                i,
            ) ==> cache.hash_at(s, j) != cache.hash_at(r, i),
    ensures
        cache.wipes(targets, r),
        cache.planned_repos(targets).contains(cache.repos@[r].repo_path.key()),
{
    assert forall|i: int| 0 <= i < cache.repos@[r].revisions@.len() implies #[trigger]
    cache.selects(targets, r, i) by {
        assert(cache.has_revision(r, i));
    }
}

} // verus!
