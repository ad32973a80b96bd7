//! What a run of a deletion plan leaves on disk.
//!
//! A disk is taken as its directories and files, each known by the components
//! of its path; links and `..` are not followed.

use crate::cache::HFCacheInfo;
use crate::deletion::DeleteCacheStrategy;
use crate::execution::PathKind;
use crate::execution_laws;
use crate::path;
use crate::path::PathKey;
#[allow(unused_imports)]
use crate::path::{child, lies_in};
use vstd::prelude::*;
#[allow(unused_imports)]
use vstd::string::*;
#[allow(unused_imports)]
use vstd::utf8::*;

verus! {

/// What stands at a path.
pub enum Entry {
    Directory,
    File(Seq<u8>),
}

/// All that stands on a disk.
pub type Disk = Map<PathKey, Entry>;

/// Whether a removal of `path` can turn `before` into `after`: it leaves alone
/// what is not at or below the path, it creates and changes nothing, and if it
/// succeeded nothing is left there.
pub open spec fn removes(before: Disk, after: Disk, path: PathKey, succeeded: bool) -> bool {
    &&& forall|key: PathKey| #[trigger]
        after.contains_key(key) ==> before.contains_key(key) && after[key] == before[key]
    &&& forall|key: PathKey| #[trigger]
        before.contains_key(key) && !lies_in(key, path) ==> after.contains_key(key)
    &&& succeeded ==> forall|key: PathKey| #[trigger] after.contains_key(key) ==> !lies_in(key, path)
}

/// Whether `disks` are the disks before, between and after the first removals
/// of a plan, where `succeeded` says which of them succeeded.
pub open spec fn is_run(
    plan: DeleteCacheStrategy,
    disks: Seq<Disk>,
    succeeded: Seq<bool>,
) -> bool {
    &&& disks.len() == succeeded.len() + 1
    &&& succeeded.len() <= plan.removals().len()
    &&& forall|n: int|
        0 <= n < succeeded.len() ==> removes(
            disks[n],
            disks[n + 1],
            path::path_key(plan.removals()[n].0),
            #[trigger] succeeded[n],
        )
}

/// Whether neither path stands at or below the other.
pub open spec fn apart(a: PathKey, b: PathKey) -> bool {
    !lies_in(a, b) && !lies_in(b, a)
}

/// The directory of repository `r`.
pub open spec fn repo_root(cache: HFCacheInfo, r: int) -> PathKey {
    cache.repos@[r].repo_path.key()
}

/// Whether the cache is laid out as the Hub's clients do it: repositories are
/// apart from each other and from the lock directories, snapshots are
/// `<repo>/snapshots/<commit>`, blobs are `<repo>/blobs/<name>`, and no ref has
/// a rooted name.
pub open spec fn laid_out(cache: HFCacheInfo) -> bool {
    &&& forall|r: int, s: int|
        0 <= r < cache.repos@.len() && 0 <= s < cache.repos@.len() && r != s ==> apart(
            #[trigger] repo_root(cache, r),
            #[trigger] repo_root(cache, s),
        )
    &&& forall|r: int|
        0 <= r < cache.repos@.len() ==> apart(
            child(cache.cache_dir.key(), encode_utf8(".locks"@)),
            #[trigger] repo_root(cache, r),
        )
    &&& forall|r: int, i: int| #[trigger]
        cache.has_revision(r, i) ==> cache.revision_at(r, i).snapshot_path.key() == child(
            child(repo_root(cache, r), encode_utf8("snapshots"@)),
            encode_utf8(cache.hash_at(r, i)),
        )
    &&& forall|r: int, i: int, k: int| #[trigger]
        cache.has_file(r, i, k) ==> lies_in(
            cache.blob_at(r, i, k),
            child(repo_root(cache, r), encode_utf8("blobs"@)),
        ) && cache.blob_at(r, i, k).names.len() == repo_root(cache, r).names.len() + 2
    &&& forall|r: int, i: int, k: int| #[trigger]
        cache.has_ref(r, i, k) ==> !path::is_rooted(
            encode_utf8(cache.revision_at(r, i).refs@[k]@),
        )
}

/// Whether a removal of `path` leaves revision `(r, j)` alone: the path is apart
/// from the revision's snapshot, and it is at or above none of its blobs.
pub open spec fn spares(cache: HFCacheInfo, path: PathKey, r: int, j: int) -> bool {
    &&& apart(path, cache.revision_at(r, j).snapshot_path.key())
    &&& forall|l: int| #[trigger]
        cache.has_file(r, j, l) ==> !lies_in(cache.blob_at(r, j, l), path)
}

/// Whether `path` is the blob of a file of revision `(r, j)`.
pub open spec fn is_blob_of(cache: HFCacheInfo, path: PathKey, r: int, j: int) -> bool {
    exists|l: int| #[trigger] cache.has_file(r, j, l) && cache.blob_at(r, j, l) == path
}

/// Whether what a cache records is kept apart on disk: the directory and the
/// lock directory of a repository spare the revisions of every other
/// repository, and the snapshot, the refs and the blobs of a revision spare
/// every revision of another hash, save that revisions of one repository may
/// share blobs.
pub open spec fn untangled(cache: HFCacheInfo) -> bool {
    &&& forall|s: int, r: int, j: int|
        0 <= s < cache.repos@.len() && s != r && cache.has_revision(r, j) ==> #[trigger] spares(
            cache,
            repo_root(cache, s),
            r,
            j,
        )
    &&& forall|s: int, r: int, j: int|
        #![trigger cache.repos@[s], cache.has_revision(r, j)]
        0 <= s < cache.repos@.len() && s != r && cache.has_revision(r, j) ==> (
        cache.repos@[s].lock_text(cache.cache_dir@) matches Some(text) ==> spares(
            cache,
            path::path_key(text),
            r,
            j,
        ))
    &&& forall|s: int, i: int, r: int, j: int| #[trigger]
        cache.has_revision(s, i) && #[trigger] cache.has_revision(r, j) && cache.hash_at(s, i)
            != cache.hash_at(r, j) ==> spares(
            cache,
            cache.revision_at(s, i).snapshot_path.key(),
            r,
            j,
        )
    &&& forall|s: int, i: int, k: int, r: int, j: int| #[trigger]
        cache.has_ref(s, i, k) && #[trigger] cache.has_revision(r, j) && cache.hash_at(s, i)
            != cache.hash_at(r, j) ==> spares(cache, cache.ref_at(s, i, k), r, j)
    &&& forall|s: int, i: int, k: int, r: int, j: int| #[trigger]
        cache.has_file(s, i, k) && #[trigger] cache.has_revision(r, j) && cache.hash_at(s, i)
            != cache.hash_at(r, j) ==> spares(cache, cache.blob_at(s, i, k), r, j) || (s == r
            && is_blob_of(cache, cache.blob_at(s, i, k), r, j))
}

/// Whether `key` is needed by revision `(r, j)`: it stands in the revision's
/// snapshot, or it is the blob of one of its files.
pub open spec fn belongs_to(cache: HFCacheInfo, r: int, j: int, key: PathKey) -> bool {
    ||| lies_in(key, cache.revision_at(r, j).snapshot_path.key())
    ||| is_blob_of(cache, key, r, j)
}

/// What lies in one of two places that are apart is not in or below what lies
/// in the other.
proof fn lemma_apart(a: PathKey, b: PathKey, p: PathKey, q: PathKey)
    requires
        apart(a, b),
        lies_in(p, a),
        lies_in(q, b),
    ensures
        !lies_in(q, p),
{
    if lies_in(q, p) {
        assert forall|i: int| 0 <= i < a.names.len() implies q.names[i] == #[trigger] a.names[i] by {
            assert(p.names[i] == a.names[i]);
        }
        if a.names.len() <= b.names.len() {
            assert forall|i: int| 0 <= i < a.names.len() implies b.names[i]
                == #[trigger] a.names[i] by {
                assert(q.names[i] == b.names[i]);
            }
            assert(lies_in(b, a));
        } else {
            assert forall|i: int| 0 <= i < b.names.len() implies a.names[i]
                == #[trigger] b.names[i] by {
                assert(q.names[i] == b.names[i]);
                assert(q.names[i] == a.names[i]);
            }
            assert(lies_in(a, b));
        }
    }
}

proof fn lemma_lies_in_chain(key: PathKey, middle: PathKey, root: PathKey)
    requires
        lies_in(key, middle),
        lies_in(middle, root),
    ensures
        lies_in(key, root),
{
    assert forall|i: int| 0 <= i < root.names.len() implies key.names[i]
        == #[trigger] root.names[i] by {
        assert(middle.names[i] == root.names[i]);
    }
}

/// Entries of different names are apart.
proof fn lemma_children_apart(root: PathKey, a: Seq<u8>, b: Seq<u8>)
    requires
        a != b,
    ensures
        apart(child(root, a), child(root, b)),
{
    let n = root.names.len() as int;
    assert(child(root, a).names[n] == a);
    assert(child(root, b).names[n] == b);
}

proof fn lemma_texts_differ(a: Seq<char>, b: Seq<char>)
    requires
        a != b,
    ensures
        encode_utf8(a) != encode_utf8(b),
{
    encode_utf8_decode_utf8(a);
    encode_utf8_decode_utf8(b);
}

/// The directories of a repository are different.
proof fn lemma_directory_names()
    ensures
        encode_utf8("snapshots"@) != encode_utf8("blobs"@),
        encode_utf8("snapshots"@) != encode_utf8("refs"@),
        encode_utf8("blobs"@) != encode_utf8("refs"@),
{
    reveal_strlit("snapshots");
    reveal_strlit("blobs");
    reveal_strlit("refs");
    assert("snapshots"@.len() == 9 && "blobs"@.len() == 5 && "refs"@.len() == 4);
    lemma_texts_differ("snapshots"@, "blobs"@);
    lemma_texts_differ("snapshots"@, "refs"@);
    lemma_texts_differ("blobs"@, "refs"@);
}

/// The file of a ref stands below `<repo>/refs`.
proof fn lemma_refs_lie_in_refs(cache: HFCacheInfo, r: int, i: int, k: int)
    requires
        laid_out(cache),
        cache.has_ref(r, i, k),
    ensures
        lies_in(cache.ref_at(r, i, k), child(repo_root(cache, r), encode_utf8("refs"@))),
{
    let refs = encode_utf8("refs"@);
    reveal_strlit("refs");
    assert(is_ascii_chars("refs"@));
    is_ascii_chars_encode_utf8("refs"@);
    assert forall|n: int| 0 <= n < refs.len() implies (#[trigger] refs[n]) != path::SEPARATOR by {
        assert("refs"@[n] as u8 == refs[n]);
    }
    let repo_path = cache.repos@[r].repo_path@;
    path::joining_a_name_adds_a_component(repo_path, refs);
    path::joining_stays_below(
        path::joined(repo_path, refs),
        encode_utf8(cache.revision_at(r, i).refs@[k]@),
    );
}

/// All that a revision needs stands in the directory of its repository, in
/// `snapshots` or in `blobs`.
proof fn lemma_needs_lie_in_repo(cache: HFCacheInfo, r: int, j: int, key: PathKey)
    requires
        laid_out(cache),
        cache.has_revision(r, j),
        belongs_to(cache, r, j, key),
    ensures
        lies_in(key, repo_root(cache, r)),
        lies_in(key, cache.revision_at(r, j).snapshot_path.key()) ==> lies_in(
            key,
            child(repo_root(cache, r), encode_utf8("snapshots"@)),
        ),
        !lies_in(key, cache.revision_at(r, j).snapshot_path.key()) ==> lies_in(
            key,
            child(repo_root(cache, r), encode_utf8("blobs"@)),
        ) && key.names.len() == repo_root(cache, r).names.len() + 2,
{
    let root = repo_root(cache, r);
    let snapshots = child(root, encode_utf8("snapshots"@));
    let blobs = child(root, encode_utf8("blobs"@));
    assert(lies_in(snapshots, root));
    assert(lies_in(blobs, root));
    if lies_in(key, cache.revision_at(r, j).snapshot_path.key()) {
        lemma_lies_in_chain(key, cache.revision_at(r, j).snapshot_path.key(), snapshots);
        lemma_lies_in_chain(key, snapshots, root);
    } else {
        lemma_lies_in_chain(key, blobs, root);
    }
}

/// What stands apart from the directory of a repository spares its revisions.
proof fn lemma_outside_repo(cache: HFCacheInfo, place: PathKey, path: PathKey, r: int, j: int)
    requires
        laid_out(cache),
        apart(place, repo_root(cache, r)),
        lies_in(path, place),
        cache.has_revision(r, j),
    ensures
        spares(cache, path, r, j),
{
    let root = repo_root(cache, r);
    let snapshot = cache.revision_at(r, j).snapshot_path.key();
    assert(belongs_to(cache, r, j, snapshot));
    lemma_needs_lie_in_repo(cache, r, j, snapshot);
    lemma_apart(place, root, path, snapshot);
    lemma_apart(root, place, snapshot, path);
    assert forall|l: int| #[trigger] cache.has_file(r, j, l) implies !lies_in(
        cache.blob_at(r, j, l),
        path,
    ) by {
        assert(is_blob_of(cache, cache.blob_at(r, j, l), r, j));
        lemma_needs_lie_in_repo(cache, r, j, cache.blob_at(r, j, l));
        lemma_apart(place, root, path, cache.blob_at(r, j, l));
    }
}

/// What stands in a repository's `refs` spares the repository's revisions.
proof fn lemma_refs_spare(cache: HFCacheInfo, path: PathKey, r: int, j: int)
    requires
        laid_out(cache),
        lies_in(path, child(repo_root(cache, r), encode_utf8("refs"@))),
        cache.has_revision(r, j),
    ensures
        spares(cache, path, r, j),
{
    let root = repo_root(cache, r);
    let snapshots = child(root, encode_utf8("snapshots"@));
    let blobs = child(root, encode_utf8("blobs"@));
    let refs = child(root, encode_utf8("refs"@));
    let snapshot = cache.revision_at(r, j).snapshot_path.key();
    lemma_directory_names();
    lemma_children_apart(root, encode_utf8("snapshots"@), encode_utf8("refs"@));
    lemma_children_apart(root, encode_utf8("blobs"@), encode_utf8("refs"@));
    assert(lies_in(snapshot, snapshots));
    lemma_apart(refs, snapshots, path, snapshot);
    lemma_apart(snapshots, refs, snapshot, path);
    assert forall|l: int| #[trigger] cache.has_file(r, j, l) implies !lies_in(
        cache.blob_at(r, j, l),
        path,
    ) by {
        lemma_apart(refs, blobs, path, cache.blob_at(r, j, l));
    }
}

/// A snapshot spares the revisions of the same repository that have another
/// hash.
proof fn lemma_snapshots_spare(cache: HFCacheInfo, i: int, r: int, j: int)
    requires
        laid_out(cache),
        cache.has_revision(r, i),
        cache.has_revision(r, j),
        cache.hash_at(r, i) != cache.hash_at(r, j),
    ensures
        spares(cache, cache.revision_at(r, i).snapshot_path.key(), r, j),
{
    let root = repo_root(cache, r);
    let snapshots = child(root, encode_utf8("snapshots"@));
    let blobs = child(root, encode_utf8("blobs"@));
    let path = cache.revision_at(r, i).snapshot_path.key();
    lemma_texts_differ(cache.hash_at(r, i), cache.hash_at(r, j));
    lemma_children_apart(
        snapshots,
        encode_utf8(cache.hash_at(r, i)),
        encode_utf8(cache.hash_at(r, j)),
    );
    lemma_directory_names();
    lemma_children_apart(root, encode_utf8("snapshots"@), encode_utf8("blobs"@));
    assert(lies_in(path, snapshots));
    assert forall|l: int| #[trigger] cache.has_file(r, j, l) implies !lies_in(
        cache.blob_at(r, j, l),
        path,
    ) by {
        lemma_apart(snapshots, blobs, path, cache.blob_at(r, j, l));
    }
}

/// A blob spares the revisions of the same repository that do not have it.
proof fn lemma_blobs_spare(cache: HFCacheInfo, i: int, k: int, r: int, j: int)
    requires
        laid_out(cache),
        cache.has_file(r, i, k),
        cache.has_revision(r, j),
        !is_blob_of(cache, cache.blob_at(r, i, k), r, j),
    ensures
        spares(cache, cache.blob_at(r, i, k), r, j),
{
    let root = repo_root(cache, r);
    let snapshots = child(root, encode_utf8("snapshots"@));
    let blobs = child(root, encode_utf8("blobs"@));
    let path = cache.blob_at(r, i, k);
    let snapshot = cache.revision_at(r, j).snapshot_path.key();
    lemma_directory_names();
    lemma_children_apart(root, encode_utf8("snapshots"@), encode_utf8("blobs"@));
    assert(lies_in(snapshot, snapshots));
    lemma_apart(blobs, snapshots, path, snapshot);
    lemma_apart(snapshots, blobs, snapshot, path);
    assert forall|l: int| #[trigger] cache.has_file(r, j, l) implies !lies_in(
        cache.blob_at(r, j, l),
        path,
    ) by {
        let other = cache.blob_at(r, j, l);
        if lies_in(other, path) {
            assert(other.names =~= path.names);
            assert(other == path);
            assert(is_blob_of(cache, path, r, j));
        }
    }
}

/// A cache that is laid out as the Hub's clients do it is kept apart on disk.
pub proof fn laid_out_caches_are_untangled(cache: HFCacheInfo)
    requires
        laid_out(cache),
    ensures
        untangled(cache),
{
    let locks = child(cache.cache_dir.key(), encode_utf8(".locks"@));
    assert forall|s: int, r: int, j: int|
        0 <= s < cache.repos@.len() && s != r && cache.has_revision(r, j) implies #[trigger] spares(
        cache,
        repo_root(cache, s),
        r,
        j,
    ) by {
        lemma_outside_repo(cache, repo_root(cache, s), repo_root(cache, s), r, j);
    }
    assert forall|s: int, r: int, j: int|
        #![trigger cache.repos@[s], cache.has_revision(r, j)]
        0 <= s < cache.repos@.len() && s != r && cache.has_revision(r, j) implies (
    cache.repos@[s].lock_text(cache.cache_dir@) matches Some(text) ==> spares(
        cache,
        path::path_key(text),
        r,
        j,
    )) by {
        if let Some(text) = cache.repos@[s].lock_text(cache.cache_dir@) {
            crate::deletion_laws::lock_directories_stand_under_locks(
                cache.cache_dir,
                cache.repos@[s],
            );
            assert(apart(locks, repo_root(cache, r)));
            lemma_outside_repo(cache, locks, path::path_key(text), r, j);
        }
    }
    assert forall|s: int, i: int, r: int, j: int| #[trigger]
        cache.has_revision(s, i) && #[trigger] cache.has_revision(r, j) && cache.hash_at(s, i)
            != cache.hash_at(r, j) implies spares(
        cache,
        cache.revision_at(s, i).snapshot_path.key(),
        r,
        j,
    ) by {
        if s == r {
            lemma_snapshots_spare(cache, i, r, j);
        } else {
            let snapshot = cache.revision_at(s, i).snapshot_path.key();
            assert(belongs_to(cache, s, i, snapshot));
            lemma_needs_lie_in_repo(cache, s, i, snapshot);
            lemma_outside_repo(cache, repo_root(cache, s), snapshot, r, j);
        }
    }
    assert forall|s: int, i: int, k: int, r: int, j: int| #[trigger]
        cache.has_ref(s, i, k) && #[trigger] cache.has_revision(r, j) && cache.hash_at(s, i)
            != cache.hash_at(r, j) implies spares(cache, cache.ref_at(s, i, k), r, j) by {
        lemma_refs_lie_in_refs(cache, s, i, k);
        if s == r {
            lemma_refs_spare(cache, cache.ref_at(s, i, k), r, j);
        } else {
            lemma_lies_in_chain(
                cache.ref_at(s, i, k),
                child(repo_root(cache, s), encode_utf8("refs"@)),
                repo_root(cache, s),
            );
            lemma_outside_repo(cache, repo_root(cache, s), cache.ref_at(s, i, k), r, j);
        }
    }
    assert forall|s: int, i: int, k: int, r: int, j: int| #[trigger]
        cache.has_file(s, i, k) && #[trigger] cache.has_revision(r, j) && cache.hash_at(s, i)
            != cache.hash_at(r, j) implies spares(cache, cache.blob_at(s, i, k), r, j) || (s == r
        && is_blob_of(cache, cache.blob_at(s, i, k), r, j)) by {
        let blob = cache.blob_at(s, i, k);
        if s != r {
            lemma_lies_in_chain(
                blob,
                child(repo_root(cache, s), encode_utf8("blobs"@)),
                repo_root(cache, s),
            );
            lemma_outside_repo(cache, repo_root(cache, s), blob, r, j);
        } else if !is_blob_of(cache, blob, r, j) {
            lemma_blobs_spare(cache, i, k, r, j);
        }
    }
}

/// No removal of a plan names, or names a directory above, anything that a
/// revision needs whose hash is not asked for.
pub proof fn removals_spare_what_survivors_need(
    plan: DeleteCacheStrategy,
    cache: HFCacheInfo,
    targets: Set<Seq<char>>,
    lock_dirs: Set<PathKey>,
    n: int,
    r: int,
    j: int,
    key: PathKey,
)
    requires
        plan.is_plan(cache, targets, lock_dirs),
        untangled(cache),
        0 <= n < plan.removals().len(),
        cache.has_revision(r, j),
        !targets.contains(cache.hash_at(r, j)),
        belongs_to(cache, r, j, key),
    ensures
        !lies_in(key, path::path_key(plan.removals()[n].0)),
{
    let path = path::path_key(plan.removals()[n].0);
    let kind = plan.removals()[n].1;
    execution_laws::runs_remove_what_is_planned(plan, kind, path);
    assert(execution_laws::planned(plan, kind).contains(path));
    assert(!cache.selects(targets, r, j));
    assert(!cache.wipes(targets, r));
    match kind {
        PathKind::Repo => {
            let s = choose|s: int| #[trigger]
                cache.wipes(targets, s) && cache.repos@[s].repo_path.key() == path;
            assert(spares(cache, repo_root(cache, s), r, j));
        },
        PathKind::Snapshot => {
            let (s, i) = choose|s: int, i: int| #[trigger]
                cache.prunes(targets, s, i) && cache.revision_at(s, i).snapshot_path.key() == path;
            assert(cache.has_revision(s, i));
        },
        PathKind::Ref => {
            let (s, i, k) = choose|s: int, i: int, k: int| #[trigger]
                cache.has_ref(s, i, k) && cache.prunes(targets, s, i) && cache.ref_at(s, i, k)
                    == path;
            assert(cache.has_ref(s, i, k));
        },
        PathKind::Blob => {
            let (s, i, k) = choose|s: int, i: int, k: int| #[trigger]
                cache.frees(targets, s, i, k) && cache.blob_at(s, i, k) == path;
            assert(cache.has_file(s, i, k));
            if s == r && is_blob_of(cache, path, r, j) {
                let l = choose|l: int| #[trigger]
                    cache.has_file(r, j, l) && cache.blob_at(r, j, l) == path;
                assert(cache.has_file(r, j, l) && cache.survives(targets, r, j));
                assert(cache.still_referenced(targets, r, path));
            }
        },
        PathKind::Locks => {
            let s = choose|s: int| #[trigger]
                cache.wipes(targets, s) && (cache.repos@[s].lock_text(
                    cache.cache_dir@,
                ) matches Some(text) && path::path_key(text) == path);
            assert(s != r && cache.repos@[s].lock_text(cache.cache_dir@) is Some);
        },
    }
    assert(spares(cache, path, r, j));
    let snapshot = cache.revision_at(r, j).snapshot_path.key();
    if lies_in(key, snapshot) {
        lemma_apart(path, snapshot, path, key);
    }
}

/// However far a run has come, and however its removals went, what is at or
/// below no path that the plan removes is on disk as it was.
pub proof fn unreached_paths_stay_on_disk(
    plan: DeleteCacheStrategy,
    disks: Seq<Disk>,
    succeeded: Seq<bool>,
    key: PathKey,
)
    requires
        is_run(plan, disks, succeeded),
        forall|n: int|
            0 <= n < plan.removals().len() ==> !lies_in(
                key,
                path::path_key(#[trigger] plan.removals()[n].0),
            ),
    ensures
        disks.last().contains_key(key) <==> disks.first().contains_key(key),
        disks.first().contains_key(key) ==> disks.last()[key] == disks.first()[key],
    decreases succeeded.len(),
{
    if succeeded.len() > 0 {
        let n = succeeded.len() - 1;
        let earlier = disks.drop_last();
        let outcomes = succeeded.drop_last();
        assert forall|m: int| 0 <= m < outcomes.len() implies removes(
            earlier[m],
            earlier[m + 1],
            path::path_key(plan.removals()[m].0),
            #[trigger] outcomes[m],
        ) by {
            assert(succeeded[m] == outcomes[m]);
        }
        unreached_paths_stay_on_disk(plan, earlier, outcomes, key);
        assert(removes(
            disks[n],
            disks[n + 1],
            path::path_key(plan.removals()[n].0),
            succeeded[n],
        ));
        assert(earlier.last() == disks[n]);
        assert(disks.last() == disks[n + 1]);
    }
}

/// However far a run has come, and however its removals went, all that stands
/// in the snapshot of a revision whose hash is not asked for, and every blob of
/// the revision, is on disk as it was.
pub proof fn surviving_revisions_stay_on_disk(
    plan: DeleteCacheStrategy,
    cache: HFCacheInfo,
    targets: Set<Seq<char>>,
    lock_dirs: Set<PathKey>,
    disks: Seq<Disk>,
    succeeded: Seq<bool>,
    r: int,
    j: int,
    key: PathKey,
)
    requires
        plan.is_plan(cache, targets, lock_dirs),
        untangled(cache),
        is_run(plan, disks, succeeded),
        cache.has_revision(r, j),
        !targets.contains(cache.hash_at(r, j)),
        belongs_to(cache, r, j, key),
    ensures
        disks.last().contains_key(key) <==> disks.first().contains_key(key),
        disks.first().contains_key(key) ==> disks.last()[key] == disks.first()[key],
{
    assert forall|n: int| 0 <= n < plan.removals().len() implies !lies_in(
        key,
        path::path_key(#[trigger] plan.removals()[n].0),
    ) by {
        removals_spare_what_survivors_need(plan, cache, targets, lock_dirs, n, r, j, key);
    }
    unreached_paths_stay_on_disk(plan, disks, succeeded, key);
}

/// What a removal of a run has taken away does not come back: after it has
/// succeeded, nothing stands at or below its path at the end of the run.
pub proof fn removed_paths_stay_removed(
    plan: DeleteCacheStrategy,
    disks: Seq<Disk>,
    succeeded: Seq<bool>,
    n: int,
    key: PathKey,
)
    requires
        is_run(plan, disks, succeeded),
        0 <= n < succeeded.len(),
        succeeded[n],
        lies_in(key, path::path_key(plan.removals()[n].0)),
    ensures
        !disks.last().contains_key(key),
    decreases succeeded.len(),
{
    let last = succeeded.len() - 1;
    assert(removes(
        disks[last],
        disks[last + 1],
        path::path_key(plan.removals()[last].0),
        succeeded[last],
    ));
    assert(disks.last() == disks[last + 1]);
    if n < last {
        let earlier = disks.drop_last();
        let outcomes = succeeded.drop_last();
        assert forall|m: int| 0 <= m < outcomes.len() implies removes(
            earlier[m],
            earlier[m + 1],
            path::path_key(plan.removals()[m].0),
            #[trigger] outcomes[m],
        ) by {
            assert(succeeded[m] == outcomes[m]);
        }
        removed_paths_stay_removed(plan, earlier, outcomes, n, key);
        assert(earlier.last() == disks[last]);
    }
}

} // verus!
