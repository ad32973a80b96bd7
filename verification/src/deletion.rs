//! Planning the deletion of cached revisions.
//!
//! [`HFCacheInfo::delete_revisions`] computes a [`DeleteCacheStrategy`]: all
//! that has to be removed so that the named revisions are gone, and nothing
//! that a surviving revision of the same repository still needs. The plan
//! touches no disk; running it is the business of [`crate::execution`].

use crate::cache::{CachedFileInfo, CachedRepoInfo, CachedRevisionInfo, HFCacheInfo};
use crate::order;
use crate::path;
use crate::path::{CachePath, PathKey};
use crate::path_set::PathSet;
use vstd::prelude::*;
#[allow(unused_imports)]
use vstd::string::*;
#[allow(unused_imports)]
use vstd::utf8::*;

verus! {

/// Whether revision `j` of repository `s` is walked before revision `i` of
/// repository `r`.
pub open spec fn precedes(s: int, j: int, r: int, i: int) -> bool {
    s < r || (s == r && j < i)
}

/// The same for file `l` of revision `(s, j)` and file `k` of `(r, i)`.
pub open spec fn file_precedes(s: int, j: int, l: int, r: int, i: int, k: int) -> bool {
    precedes(s, j, r, i) || (s == r && j == i && l < k)
}

impl CachedRepoInfo {
    /// The file `refs/<name>` of this repository.
    pub open spec fn ref_text(self, name: Seq<char>) -> Seq<u8> {
        path::joined(path::joined(self.repo_path@, encode_utf8("refs"@)), encode_utf8(name))
    }

    /// The directory `.locks/<folder>` beside this repository, if the
    /// repository's path has a last name.
    pub open spec fn lock_text(self, cache_dir: Seq<u8>) -> Option<Seq<u8>> {
        match path::final_name(self.repo_path.key()) {
            Some(folder) => Some(
                path::joined(path::joined(cache_dir, encode_utf8(".locks"@)), folder),
            ),
            None => None,
        }
    }
}

impl HFCacheInfo {
    /// Whether there is a revision `i` in repository `r`.
    pub open spec fn has_revision(self, r: int, i: int) -> bool {
        0 <= r < self.repos@.len() && 0 <= i < self.repos@[r].revisions@.len()
    }

    /// Revision `i` of repository `r`.
    pub open spec fn revision_at(self, r: int, i: int) -> CachedRevisionInfo {
        self.repos@[r].revisions@[i]
    }

    /// Its commit hash.
    pub open spec fn hash_at(self, r: int, i: int) -> Seq<char> {
        self.revision_at(r, i).commit_hash@
    }

    /// Whether there is a file `k` in revision `(r, i)`.
    pub open spec fn has_file(self, r: int, i: int, k: int) -> bool {
        self.has_revision(r, i) && 0 <= k < self.revision_at(r, i).files@.len()
    }

    /// File `k` of revision `(r, i)`.
    pub open spec fn file_at(self, r: int, i: int, k: int) -> CachedFileInfo {
        self.revision_at(r, i).files@[k]
    }

    /// The blob of that file.
    pub open spec fn blob_at(self, r: int, i: int, k: int) -> PathKey {
        self.file_at(r, i, k).blob_path.key()
    }

    /// Whether there is a ref `k` at revision `(r, i)`.
    pub open spec fn has_ref(self, r: int, i: int, k: int) -> bool {
        self.has_revision(r, i) && 0 <= k < self.revision_at(r, i).refs@.len()
    }

    /// The file of that ref.
    pub open spec fn ref_at(self, r: int, i: int, k: int) -> PathKey {
        path::path_key(self.repos@[r].ref_text(self.revision_at(r, i).refs@[k]@))
    }

    /// Whether the cache holds a revision with this hash.
    pub open spec fn holds(self, hash: Seq<char>) -> bool {
        exists|r: int, i: int| #[trigger] self.has_revision(r, i) && self.hash_at(r, i) == hash
    }

    /// Whether a revision walked before `(r, i)` has this hash.
    pub open spec fn seen_before(self, hash: Seq<char>, r: int, i: int) -> bool {
        exists|s: int, j: int|
            #[trigger] self.has_revision(s, j) && precedes(s, j, r, i) && self.hash_at(s, j)
                == hash
    }

    /// Whether revision `(r, i)` is to be deleted: its hash is a target, and it
    /// is the first with that hash.
    pub open spec fn selects(self, targets: Set<Seq<char>>, r: int, i: int) -> bool {
        &&& self.has_revision(r, i)
        &&& targets.contains(self.hash_at(r, i))
        &&& !self.seen_before(self.hash_at(r, i), r, i)
    }

    /// Whether all of repository `r` goes: it has revisions, and each of them is
    /// to be deleted.
    pub open spec fn wipes(self, targets: Set<Seq<char>>, r: int) -> bool {
        &&& 0 <= r < self.repos@.len()
        &&& self.repos@[r].revisions@.len() > 0
        &&& forall|i: int|
            0 <= i < self.repos@[r].revisions@.len() ==> #[trigger] self.selects(targets, r, i)
    }

    /// Whether revision `(r, i)` goes while its repository stays.
    pub open spec fn prunes(self, targets: Set<Seq<char>>, r: int, i: int) -> bool {
        self.selects(targets, r, i) && !self.wipes(targets, r)
    }

    /// Whether revision `(r, j)` shares its hash with no deleted revision of its
    /// repository.
    pub open spec fn survives(self, targets: Set<Seq<char>>, r: int, j: int) -> bool {
        &&& self.has_revision(r, j)
        &&& forall|i: int| #[trigger]
            self.selects(targets, r, i) ==> self.hash_at(r, i) != self.hash_at(r, j)
    }

    /// Whether a surviving revision of repository `r` points at `blob`.
    pub open spec fn still_referenced(
        self,
        targets: Set<Seq<char>>,
        r: int,
        blob: PathKey,
    ) -> bool {
        exists|j: int, k: int| #[trigger]
            self.has_file(r, j, k) && self.survives(targets, r, j) && self.blob_at(r, j, k) == blob
    }

    /// Whether file `(r, i, k)` gives its blob up: its revision goes on its own
    /// and no surviving revision of the repository points at the blob.
    pub open spec fn frees(self, targets: Set<Seq<char>>, r: int, i: int, k: int) -> bool {
        &&& self.has_file(r, i, k)
        &&& self.prunes(targets, r, i)
        &&& !self.still_referenced(targets, r, self.blob_at(r, i, k))
    }

    /// Whether a file walked before `(r, i, k)` gives `blob` up.
    pub open spec fn freed_before(
        self,
        targets: Set<Seq<char>>,
        blob: PathKey,
        r: int,
        i: int,
        k: int,
    ) -> bool {
        exists|s: int, j: int, l: int| #[trigger]
            self.frees(targets, s, j, l) && file_precedes(s, j, l, r, i, k) && self.blob_at(
                s,
                j,
                l,
            ) == blob
    }

    /// Whether file `(r, i, k)` is the one whose size stands for its blob: the
    /// first that gives the blob up.
    pub open spec fn counts(self, targets: Set<Seq<char>>, r: int, i: int, k: int) -> bool {
        self.frees(targets, r, i, k) && !self.freed_before(
            targets,
            self.blob_at(r, i, k),
            r,
            i,
            k,
        )
    }

    /// Bytes of the blobs counted at the first `k` files of revision `(r, i)`.
    pub open spec fn file_gain(self, targets: Set<Seq<char>>, r: int, i: int, k: int) -> nat
        decreases k,
    {
        if k <= 0 {
            0
        } else {
            self.file_gain(targets, r, i, k - 1) + if self.counts(targets, r, i, k - 1) {
                self.file_at(r, i, k - 1).size_on_disk as nat
            } else {
                0
            }
        }
    }

    /// Bytes of the blobs counted at the first `i` revisions of repository `r`.
    pub open spec fn revision_gain(self, targets: Set<Seq<char>>, r: int, i: int) -> nat
        decreases i,
    {
        if i <= 0 {
            0
        } else {
            self.revision_gain(targets, r, i - 1) + self.file_gain(
                targets,
                r,
                i - 1,
                self.revision_at(r, i - 1).files@.len() as int,
            )
        }
    }

    /// Bytes that the first `r` repositories give up: their whole size where
    /// all of the repository goes, else the blobs counted in it.
    pub open spec fn repo_gain(self, targets: Set<Seq<char>>, r: int) -> nat
        decreases r,
    {
        if r <= 0 {
            0
        } else {
            self.repo_gain(targets, r - 1) + if self.wipes(targets, r - 1) {
                self.repos@[r - 1].size_on_disk as nat
            } else {
                self.revision_gain(targets, r - 1, self.repos@[r - 1].revisions@.len() as int)
            }
        }
    }

    /// Bytes that deleting `targets` frees.
    pub open spec fn freed_size(self, targets: Set<Seq<char>>) -> nat {
        self.repo_gain(targets, self.repos@.len() as int)
    }

    /// Directories of the repositories that go as a whole.
    pub open spec fn planned_repos(self, targets: Set<Seq<char>>) -> Set<PathKey> {
        Set::new(
            |p: PathKey|
                exists|r: int| #[trigger]
                    self.wipes(targets, r) && self.repos@[r].repo_path.key() == p,
        )
    }

    /// Lock directories of those repositories.
    pub open spec fn planned_locks(self, targets: Set<Seq<char>>) -> Set<PathKey> {
        Set::new(
            |p: PathKey|
                exists|r: int| #[trigger]
                    self.wipes(targets, r) && (self.repos@[r].lock_text(self.cache_dir@) matches Some(
                        text,
                    ) && path::path_key(text) == p),
        )
    }

    /// Snapshot directories of the revisions that go on their own.
    pub open spec fn planned_snapshots(self, targets: Set<Seq<char>>) -> Set<PathKey> {
        Set::new(
            |p: PathKey|
                exists|r: int, i: int| #[trigger]
                    self.prunes(targets, r, i) && self.revision_at(r, i).snapshot_path.key() == p,
        )
    }

    /// Ref files of those revisions.
    pub open spec fn planned_refs(self, targets: Set<Seq<char>>) -> Set<PathKey> {
        Set::new(
            |p: PathKey|
                exists|r: int, i: int, k: int| #[trigger]
                    self.has_ref(r, i, k) && self.prunes(targets, r, i) && self.ref_at(r, i, k)
                        == p,
        )
    }

    /// Blobs that those revisions give up.
    pub open spec fn planned_blobs(self, targets: Set<Seq<char>>) -> Set<PathKey> {
        Set::new(
            |p: PathKey|
                exists|r: int, i: int, k: int| #[trigger]
                    self.frees(targets, r, i, k) && self.blob_at(r, i, k) == p,
        )
    }

    /// Whether repository `r` goes as a whole and is the first of those with its
    /// path.
    pub open spec fn names_repo(self, targets: Set<Seq<char>>, r: int) -> bool {
        &&& self.wipes(targets, r)
        &&& forall|s: int| #[trigger]
            self.wipes(targets, s) && s < r ==> self.repos@[s].repo_path.key()
                != self.repos@[r].repo_path.key()
    }

    /// Whether repository `r` goes as a whole and is the first of those with its
    /// lock directory.
    pub open spec fn names_lock(self, targets: Set<Seq<char>>, r: int) -> bool {
        &&& self.wipes(targets, r)
        &&& self.repos@[r].lock_text(self.cache_dir@) is Some
        &&& forall|s: int| #[trigger]
            self.wipes(targets, s) && s < r ==> !(self.repos@[s].lock_text(
                self.cache_dir@,
            ) matches Some(text) && path::path_key(text) == path::path_key(
                self.repos@[r].lock_text(self.cache_dir@)->0,
            ))
    }

    /// Whether revision `(r, i)` goes on its own and is the first of those with
    /// its snapshot directory.
    pub open spec fn names_snapshot(self, targets: Set<Seq<char>>, r: int, i: int) -> bool {
        &&& self.prunes(targets, r, i)
        &&& forall|s: int, j: int| #[trigger]
            self.prunes(targets, s, j) && precedes(s, j, r, i) ==> self.revision_at(
                s,
                j,
            ).snapshot_path.key() != self.revision_at(r, i).snapshot_path.key()
    }

    /// Whether ref `k` of revision `(r, i)` goes and is the first of those with
    /// its file.
    pub open spec fn names_ref(self, targets: Set<Seq<char>>, r: int, i: int, k: int) -> bool {
        &&& self.has_ref(r, i, k)
        &&& self.prunes(targets, r, i)
        &&& forall|s: int, j: int, l: int| #[trigger]
            self.has_ref(s, j, l) && self.prunes(targets, s, j) && file_precedes(s, j, l, r, i, k)
                ==> self.ref_at(s, j, l) != self.ref_at(r, i, k)
    }

    /// How the directories in `planned_repos` are written: as the cache writes
    /// each of them first.
    pub open spec fn repo_texts(self, targets: Set<Seq<char>>) -> Set<Seq<u8>> {
        Set::new(
            |t: Seq<u8>|
                exists|r: int| #[trigger]
                    self.names_repo(targets, r) && self.repos@[r].repo_path@ == t,
        )
    }

    /// How the directories in `planned_locks` are written: as for the first
    /// repository that has them.
    pub open spec fn lock_texts(self, targets: Set<Seq<char>>) -> Set<Seq<u8>> {
        Set::new(
            |t: Seq<u8>|
                exists|r: int| #[trigger]
                    self.names_lock(targets, r) && self.repos@[r].lock_text(self.cache_dir@)
                        == Some(t),
        )
    }

    /// How the directories in `planned_snapshots` are written: as the cache
    /// writes each of them first.
    pub open spec fn snapshot_texts(self, targets: Set<Seq<char>>) -> Set<Seq<u8>> {
        Set::new(
            |t: Seq<u8>|
                exists|r: int, i: int| #[trigger]
                    self.names_snapshot(targets, r, i) && self.revision_at(r, i).snapshot_path@
                        == t,
        )
    }

    /// How the files in `planned_refs` are written: as for the first ref that
    /// has them.
    pub open spec fn ref_texts(self, targets: Set<Seq<char>>) -> Set<Seq<u8>> {
        Set::new(
            |t: Seq<u8>|
                exists|r: int, i: int, k: int| #[trigger]
                    self.names_ref(targets, r, i, k) && self.repos@[r].ref_text(
                        self.revision_at(r, i).refs@[k]@,
                    ) == t,
        )
    }

    /// How the files in `planned_blobs` are written: as the cache writes each
    /// of them first among the files that give it up.
    pub open spec fn blob_texts(self, targets: Set<Seq<char>>) -> Set<Seq<u8>> {
        Set::new(
            |t: Seq<u8>|
                exists|r: int, i: int, k: int| #[trigger]
                    self.counts(targets, r, i, k) && self.file_at(r, i, k).blob_path@ == t,
        )
    }

    /// Whether `list` names the targets that the cache does not hold, each once
    /// and in byte order.
    pub open spec fn lists_missing(
        self,
        targets: Set<Seq<char>>,
        list: Seq<Seq<char>>,
    ) -> bool {
        &&& order::strictly_sorted(list)
        &&& forall|hash: Seq<char>| #[trigger]
            list.contains(hash) <==> targets.contains(hash) && !self.holds(hash)
    }
}

/// The hashes that a request names.
pub open spec fn targets_of(commit_hashes: Seq<String>) -> Set<Seq<char>> {
    order::texts_of(commit_hashes).to_set()
}

/// Whether `flags` marks exactly the revisions that are to be deleted.
spec fn marks(cache: HFCacheInfo, targets: Set<Seq<char>>, flags: Seq<Vec<bool>>) -> bool {
    &&& flags.len() == cache.repos@.len()
    &&& forall|r: int| 0 <= r < flags.len() ==> marks_repo(cache, targets, r, #[trigger] flags[r])
}

/// The same for repository `r` alone.
spec fn marks_repo(
    cache: HFCacheInfo,
    targets: Set<Seq<char>>,
    r: int,
    flags: Vec<bool>,
) -> bool {
    &&& flags@.len() == cache.repos@[r].revisions@.len()
    &&& forall|i: int|
        0 <= i < flags@.len() ==> (#[trigger] flags@[i]) == cache.selects(targets, r, i)
}

/// Moving past a revision adds its hash to those seen.
proof fn lemma_seen_step(cache: HFCacheInfo, hash: Seq<char>, r: int, i: int)
    requires
        cache.has_revision(r, i),
    ensures
        cache.seen_before(hash, r, i + 1) == (cache.seen_before(hash, r, i) || cache.hash_at(r, i)
            == hash),
{
    if cache.seen_before(hash, r, i) {
        let (s, j) = choose|s: int, j: int| #[trigger]
            cache.has_revision(s, j) && precedes(s, j, r, i) && cache.hash_at(s, j) == hash;
        assert(cache.has_revision(s, j) && precedes(s, j, r, i + 1));
    }
    if cache.hash_at(r, i) == hash {
        assert(cache.has_revision(r, i) && precedes(r, i, r, i + 1));
    }
}

/// Moving on to the next repository sees nothing new.
proof fn lemma_seen_next_repo(cache: HFCacheInfo, hash: Seq<char>, r: int)
    requires
        0 <= r < cache.repos@.len(),
    ensures
        cache.seen_before(hash, r + 1, 0) == cache.seen_before(
            hash,
            r,
            cache.repos@[r].revisions@.len() as int,
        ),
{
    let n = cache.repos@[r].revisions@.len() as int;
    if cache.seen_before(hash, r, n) {
        let (s, j) = choose|s: int, j: int| #[trigger]
            cache.has_revision(s, j) && precedes(s, j, r, n) && cache.hash_at(s, j) == hash;
        assert(cache.has_revision(s, j) && precedes(s, j, r + 1, 0));
    }
    if cache.seen_before(hash, r + 1, 0) {
        let (s, j) = choose|s: int, j: int| #[trigger]
            cache.has_revision(s, j) && precedes(s, j, r + 1, 0) && cache.hash_at(s, j) == hash;
        assert(cache.has_revision(s, j) && precedes(s, j, r, n));
    }
}

/// At the end of the walk every hash of the cache has been seen.
proof fn lemma_seen_all(cache: HFCacheInfo, hash: Seq<char>)
    ensures
        cache.seen_before(hash, cache.repos@.len() as int, 0) == cache.holds(hash),
{
    if cache.holds(hash) {
        let (s, j) = choose|s: int, j: int| #[trigger]
            cache.has_revision(s, j) && cache.hash_at(s, j) == hash;
        assert(cache.has_revision(s, j) && precedes(s, j, cache.repos@.len() as int, 0));
    }
}

/// The request without repetitions, in the order of first mention.
fn distinct(commit_hashes: &[String]) -> (working: Vec<String>)
    ensures
        order::texts_of(working@).no_duplicates(),
        targets_of(working@) == targets_of(commit_hashes@),
{
    let mut working: Vec<String> = Vec::new();
    let mut n: usize = 0;
    assert(order::texts_of(commit_hashes@.take(0)) =~= Seq::empty());
    assert(targets_of(working@) =~= targets_of(commit_hashes@.take(0)));
    while n < commit_hashes.len()
        invariant
            n <= commit_hashes@.len(),
            order::texts_of(working@).no_duplicates(),
            targets_of(working@) == targets_of(commit_hashes@.take(n as int)),
        decreases commit_hashes.len() - n,
    {
        let ghost so_far = order::texts_of(commit_hashes@.take(n as int));
        let ghost next = order::texts_of(commit_hashes@.take(n + 1));
        let ghost kept = order::texts_of(working@);
        let ghost hash = commit_hashes@[n as int]@;
        proof {
            assert(next =~= so_far.push(hash));
            assert forall|other: Seq<char>|
                next.contains(other) == (so_far.contains(other) || other == hash) by {
                if so_far.contains(other) {
                    let i = choose|i: int| 0 <= i < so_far.len() && so_far[i] == other;
                    assert(next[i] == other);
                }
                assert(next[so_far.len() as int] == hash);
            }
            assert(forall|other: Seq<char>|
                kept.contains(other) == targets_of(working@).contains(other));
            assert(forall|other: Seq<char>|
                so_far.contains(other) == targets_of(commit_hashes@.take(n as int)).contains(
                    other,
                ));
        }
        match order::position_of(&working, &commit_hashes[n]) {
            Some(found) => {
                assert(kept[found as int] == hash);
                assert(kept.contains(hash));
                assert(targets_of(working@) =~= targets_of(commit_hashes@.take(n + 1)));
            },
            None => {
                working.push(commit_hashes[n].clone());
                proof {
                    let after = order::texts_of(working@);
                    assert(after =~= kept.push(hash));
                    assert forall|other: Seq<char>|
                        after.contains(other) == (kept.contains(other) || other == hash) by {
                        if kept.contains(other) {
                            let i = choose|i: int| 0 <= i < kept.len() && kept[i] == other;
                            assert(after[i] == other);
                        }
                        assert(after[kept.len() as int] == hash);
                    }
                    assert(targets_of(working@) =~= targets_of(commit_hashes@.take(n + 1)));
                }
            },
        }
        n += 1;
    }
    assert(commit_hashes@.take(n as int) =~= commit_hashes@);
    working
}

/// Marks the revisions that are to be deleted, and says of each wanted hash
/// whether the cache holds it.
fn select(cache: &HFCacheInfo, working: &Vec<String>) -> (selection: (Vec<Vec<bool>>, Vec<bool>))
    requires
        order::texts_of(working@).no_duplicates(),
    ensures
        marks(*cache, targets_of(working@), selection.0@),
        selection.1@.len() == working@.len(),
        forall|w: int|
            0 <= w < working@.len() ==> (#[trigger] selection.1@[w]) == cache.holds(working@[w]@),
{
    let ghost targets = targets_of(working@);
    let mut taken: Vec<bool> = Vec::new();
    let mut w: usize = 0;
    while w < working.len()
        invariant
            w <= working@.len(),
            taken@.len() == w,
            forall|v: int| 0 <= v < w ==> !(#[trigger] taken@[v]),
        decreases working.len() - w,
    {
        taken.push(false);
        w += 1;
    }
    proof {
        assert forall|v: int| 0 <= v < working@.len() implies (#[trigger] taken@[v])
            == cache.seen_before(working@[v]@, 0, 0) by {
            assert(!cache.seen_before(working@[v]@, 0, 0));
        }
    }
    let mut flags: Vec<Vec<bool>> = Vec::new();
    let mut r: usize = 0;
    while r < cache.repos.len()
        invariant
            r <= cache.repos@.len(),
            targets == targets_of(working@),
            order::texts_of(working@).no_duplicates(),
            flags@.len() == r,
            forall|s: int| 0 <= s < r ==> marks_repo(*cache, targets, s, #[trigger] flags@[s]),
            taken@.len() == working@.len(),
            forall|v: int|
                0 <= v < working@.len() ==> (#[trigger] taken@[v]) == cache.seen_before(
                    working@[v]@,
                    r as int,
                    0,
                ),
        decreases cache.repos.len() - r,
    {
        let repo: &CachedRepoInfo = &cache.repos[r];
        let mut row: Vec<bool> = Vec::new();
        let mut i: usize = 0;
        while i < repo.revisions.len()
            invariant
                r < cache.repos@.len(),
                *repo == cache.repos@[r as int],
                i <= repo.revisions@.len(),
                targets == targets_of(working@),
                order::texts_of(working@).no_duplicates(),
                row@.len() == i,
                forall|j: int|
                    0 <= j < i ==> (#[trigger] row@[j]) == cache.selects(targets, r as int, j),
                taken@.len() == working@.len(),
                forall|v: int|
                    0 <= v < working@.len() ==> (#[trigger] taken@[v]) == cache.seen_before(
                        working@[v]@,
                        r as int,
                        i as int,
                    ),
            decreases repo.revisions.len() - i,
        {
            let ghost hash = cache.hash_at(r as int, i as int);
            let ghost texts = order::texts_of(working@);
            let ghost before = taken@;
            proof {
                assert(cache.has_revision(r as int, i as int));
                assert(texts.contains(hash) == targets.contains(hash));
                assert forall|v: int| 0 <= v < working@.len() implies #[trigger] cache.seen_before(
                    working@[v]@,
                    r as int,
                    i + 1,
                ) == (before[v] || working@[v]@ == hash) by {
                    lemma_seen_step(*cache, working@[v]@, r as int, i as int);
                }
            }
            match order::position_of(working, &repo.revisions[i].commit_hash) {
                Some(found) => {
                    proof {
                        assert(texts[found as int] == hash);
                        assert(texts.contains(hash));
                        assert forall|v: int|
                            0 <= v < working@.len() && v != found implies working@[v]@ != hash by {
                            assert(texts[v] != texts[found as int]);
                        }
                    }
                    row.push(!taken[found]);
                    taken.set(found, true);
                    proof {
                        assert(row@[i as int] == cache.selects(targets, r as int, i as int));
                    }
                },
                None => {
                    row.push(false);
                    proof {
                        assert forall|v: int| 0 <= v < working@.len() implies working@[v]@
                            != hash by {
                            assert(texts[v] == working@[v]@);
                        }
                    }
                },
            }
            i += 1;
        }
        proof {
            assert forall|v: int| 0 <= v < working@.len() implies (#[trigger] taken@[v])
                == cache.seen_before(working@[v]@, r + 1, 0) by {
                lemma_seen_next_repo(*cache, working@[v]@, r as int);
            }
        }
        flags.push(row);
        r += 1;
    }
    proof {
        assert forall|v: int| 0 <= v < working@.len() implies (#[trigger] taken@[v])
            == cache.holds(working@[v]@) by {
            lemma_seen_all(*cache, working@[v]@);
        }
    }
    (flags, taken)
}

/// The wanted hashes that are not held, sorted.
fn collect_missing(
    cache: &HFCacheInfo,
    working: &Vec<String>,
    held: &Vec<bool>,
) -> (missing: Vec<String>)
    requires
        order::texts_of(working@).no_duplicates(),
        held@.len() == working@.len(),
        forall|w: int|
            0 <= w < working@.len() ==> (#[trigger] held@[w]) == cache.holds(working@[w]@),
    ensures
        cache.lists_missing(targets_of(working@), order::texts_of(missing@)),
{
    let ghost texts = order::texts_of(working@);
    let mut missing: Vec<String> = Vec::new();
    let mut w: usize = 0;
    assert(order::texts_of(missing@) =~= Seq::empty());
    while w < working.len()
        invariant
            w <= working@.len(),
            texts == order::texts_of(working@),
            texts.no_duplicates(),
            held@.len() == working@.len(),
            forall|v: int|
                0 <= v < working@.len() ==> (#[trigger] held@[v]) == cache.holds(working@[v]@),
            order::strictly_sorted(order::texts_of(missing@)),
            forall|hash: Seq<char>| #[trigger]
                order::texts_of(missing@).contains(hash) <==> (texts.take(w as int).contains(hash)
                    && !cache.holds(hash)),
        decreases working.len() - w,
    {
        let ghost hash = working@[w as int]@;
        let ghost so_far = texts.take(w as int);
        let ghost next = texts.take(w + 1);
        proof {
            assert(next =~= so_far.push(hash));
            assert forall|other: Seq<char>|
                next.contains(other) == (so_far.contains(other) || other == hash) by {
                if so_far.contains(other) {
                    let i = choose|i: int| 0 <= i < so_far.len() && so_far[i] == other;
                    assert(next[i] == other);
                }
                assert(next[w as int] == hash);
            }
            if so_far.contains(hash) {
                let i = choose|i: int| 0 <= i < so_far.len() && so_far[i] == hash;
                assert(texts[i] == texts[w as int]);
            }
        }
        if !held[w] {
            order::insert_sorted(&mut missing, working[w].clone());
        }
        w += 1;
    }
    assert(texts.take(w as int) =~= texts);
    missing
}

/// Whether every member of `paths` is written as one of `texts`.
pub open spec fn written_as(paths: PathSet, texts: Set<Seq<u8>>) -> bool {
    forall|n: int|
        0 <= n < paths.spellings().len() ==> texts.contains(#[trigger] paths.spellings()[n])
}

/// Plan for removing cached revisions. Returned by
/// [`HFCacheInfo::delete_revisions`]; applied by
/// [`DeleteCacheStrategy::execute`].
#[derive(Debug)]
pub struct DeleteCacheStrategy {
    /// Bytes that running the plan frees. Lock directories are not counted:
    /// their size is not known beforehand.
    pub expected_freed_size: u64,
    /// Blobs to remove one by one. A blob is listed only if no surviving
    /// revision in the same repository points at it.
    pub blobs: PathSet,
    /// `<repo>/refs/<name>` files of the revisions being deleted.
    pub refs: PathSet,
    /// Repository directories to remove because every revision in them goes.
    pub repos: PathSet,
    /// `<repo>/snapshots/<commit>/` directories of revisions that go while
    /// their repository stays.
    pub snapshots: PathSet,
    /// `<cache>/.locks/<repo_folder>/` directories of the repositories that go
    /// as a whole. Other revisions may still need the locks of a repository
    /// that stays.
    pub locks: PathSet,
    /// Requested hashes that the cache does not hold.
    pub missing_revisions: Vec<String>,
}

impl Clone for DeleteCacheStrategy {
    /// A copy that lists the same paths in the same order.
    fn clone(&self) -> (copy: DeleteCacheStrategy)
        ensures
            copy.expected_freed_size == self.expected_freed_size,
            copy.blobs.spellings() == self.blobs.spellings(),
            copy.refs.spellings() == self.refs.spellings(),
            copy.repos.spellings() == self.repos.spellings(),
            copy.snapshots.spellings() == self.snapshots.spellings(),
            copy.locks.spellings() == self.locks.spellings(),
            order::texts_of(copy.missing_revisions@) == order::texts_of(self.missing_revisions@),
    {
        let missing_revisions: Vec<String> = self.missing_revisions.clone();
        assert(missing_revisions@ =~= self.missing_revisions@);
        DeleteCacheStrategy {
            expected_freed_size: self.expected_freed_size,
            blobs: self.blobs.clone(),
            refs: self.refs.clone(),
            repos: self.repos.clone(),
            snapshots: self.snapshots.clone(),
            locks: self.locks.clone(),
            missing_revisions,
        }
    }
}

impl DeleteCacheStrategy {
    /// Whether this is the plan for deleting `targets` from `cache`, where
    /// `lock_dirs` are the lock directories that exist.
    pub open spec fn is_plan(
        self,
        cache: HFCacheInfo,
        targets: Set<Seq<char>>,
        lock_dirs: Set<PathKey>,
    ) -> bool {
        &&& self.expected_freed_size == cache.freed_size(targets)
        &&& self.repos@ == cache.planned_repos(targets)
        &&& self.snapshots@ == cache.planned_snapshots(targets)
        &&& self.refs@ == cache.planned_refs(targets)
        &&& self.blobs@ == cache.planned_blobs(targets)
        &&& self.locks@ == cache.planned_locks(targets).intersect(lock_dirs)
        &&& cache.lists_missing(targets, order::texts_of(self.missing_revisions@))
        &&& self.keeps_spellings(cache, targets)
    }

    /// Whether each path is written as the cache writes it first.
    pub open spec fn keeps_spellings(self, cache: HFCacheInfo, targets: Set<Seq<char>>) -> bool {
        &&& written_as(self.repos, cache.repo_texts(targets))
        &&& written_as(self.snapshots, cache.snapshot_texts(targets))
        &&& written_as(self.refs, cache.ref_texts(targets))
        &&& written_as(self.blobs, cache.blob_texts(targets))
        &&& written_as(self.locks, cache.lock_texts(targets))
    }

    /// Whether this plan is complete for all that is walked before revision
    /// `(r, i)`.
    spec fn covers(
        self,
        cache: HFCacheInfo,
        targets: Set<Seq<char>>,
        lock_dirs: Set<PathKey>,
        r: int,
        i: int,
    ) -> bool {
        &&& self.expected_freed_size == cache.repo_gain(targets, r) + cache.revision_gain(
            targets,
            r,
            i,
        )
        &&& self.repos@ == repos_until(cache, targets, r)
        &&& self.locks@ == locks_until(cache, targets, r).intersect(lock_dirs)
        &&& self.snapshots@ == snapshots_until(cache, targets, r, i)
        &&& self.refs@ == refs_until(cache, targets, r, i, 0)
        &&& self.blobs@ == blobs_until(cache, targets, r, i, 0)
        &&& self.keeps_spellings(cache, targets)
    }
}

spec fn repos_until(cache: HFCacheInfo, targets: Set<Seq<char>>, r: int) -> Set<PathKey> {
    Set::new(
        |p: PathKey|
            exists|s: int| #[trigger]
                cache.wipes(targets, s) && s < r && cache.repos@[s].repo_path.key() == p,
    )
}

spec fn locks_until(cache: HFCacheInfo, targets: Set<Seq<char>>, r: int) -> Set<PathKey> {
    Set::new(
        |p: PathKey|
            exists|s: int| #[trigger]
                cache.wipes(targets, s) && s < r && (cache.repos@[s].lock_text(
                    cache.cache_dir@,
                ) matches Some(text) && path::path_key(text) == p),
    )
}

spec fn snapshots_until(
    cache: HFCacheInfo,
    targets: Set<Seq<char>>,
    r: int,
    i: int,
) -> Set<PathKey> {
    Set::new(
        |p: PathKey|
            exists|s: int, j: int| #[trigger]
                cache.prunes(targets, s, j) && precedes(s, j, r, i) && cache.revision_at(
                    s,
                    j,
                ).snapshot_path.key() == p,
    )
}

spec fn refs_until(
    cache: HFCacheInfo,
    targets: Set<Seq<char>>,
    r: int,
    i: int,
    k: int,
) -> Set<PathKey> {
    Set::new(
        |p: PathKey|
            exists|s: int, j: int, l: int| #[trigger]
                cache.has_ref(s, j, l) && cache.prunes(targets, s, j) && file_precedes(
                    s,
                    j,
                    l,
                    r,
                    i,
                    k,
                ) && cache.ref_at(s, j, l) == p,
    )
}

spec fn blobs_until(
    cache: HFCacheInfo,
    targets: Set<Seq<char>>,
    r: int,
    i: int,
    k: int,
) -> Set<PathKey> {
    Set::new(|p: PathKey| cache.freed_before(targets, p, r, i, k))
}

/// Nothing stands before the start of the walk.
proof fn lemma_start(cache: HFCacheInfo, targets: Set<Seq<char>>)
    ensures
        repos_until(cache, targets, 0) == Set::<PathKey>::empty(),
        locks_until(cache, targets, 0) == Set::<PathKey>::empty(),
        snapshots_until(cache, targets, 0, 0) == Set::<PathKey>::empty(),
        refs_until(cache, targets, 0, 0, 0) == Set::<PathKey>::empty(),
        blobs_until(cache, targets, 0, 0, 0) == Set::<PathKey>::empty(),
{
    assert(repos_until(cache, targets, 0) =~= Set::<PathKey>::empty());
    assert(locks_until(cache, targets, 0) =~= Set::<PathKey>::empty());
    assert(snapshots_until(cache, targets, 0, 0) =~= Set::<PathKey>::empty());
    assert(refs_until(cache, targets, 0, 0, 0) =~= Set::<PathKey>::empty());
    assert(blobs_until(cache, targets, 0, 0, 0) =~= Set::<PathKey>::empty());
}

/// Everything stands before the end of the walk.
proof fn lemma_end(cache: HFCacheInfo, targets: Set<Seq<char>>)
    ensures
        ({
            let n = cache.repos@.len() as int;
            &&& repos_until(cache, targets, n) == cache.planned_repos(targets)
            &&& locks_until(cache, targets, n) == cache.planned_locks(targets)
            &&& snapshots_until(cache, targets, n, 0) == cache.planned_snapshots(targets)
            &&& refs_until(cache, targets, n, 0, 0) == cache.planned_refs(targets)
            &&& blobs_until(cache, targets, n, 0, 0) == cache.planned_blobs(targets)
        }),
{
    let n = cache.repos@.len() as int;
    assert(repos_until(cache, targets, n) =~= cache.planned_repos(targets));
    assert(locks_until(cache, targets, n) =~= cache.planned_locks(targets));
    assert(snapshots_until(cache, targets, n, 0) =~= cache.planned_snapshots(targets));
    assert(refs_until(cache, targets, n, 0, 0) =~= cache.planned_refs(targets));
    assert(blobs_until(cache, targets, n, 0, 0) =~= cache.planned_blobs(targets));
}

/// What one more repository adds to the directories that go as a whole.
proof fn lemma_repo_step(cache: HFCacheInfo, targets: Set<Seq<char>>, r: int)
    requires
        0 <= r < cache.repos@.len(),
    ensures
        repos_until(cache, targets, r + 1) == if cache.wipes(targets, r) {
            repos_until(cache, targets, r).insert(cache.repos@[r].repo_path.key())
        } else {
            repos_until(cache, targets, r)
        },
        locks_until(cache, targets, r + 1) == match cache.repos@[r].lock_text(cache.cache_dir@) {
            Some(text) if cache.wipes(targets, r) => locks_until(cache, targets, r).insert(
                path::path_key(text),
            ),
            _ => locks_until(cache, targets, r),
        },
{
    if cache.wipes(targets, r) {
        assert(repos_until(cache, targets, r + 1) =~= repos_until(cache, targets, r).insert(
            cache.repos@[r].repo_path.key(),
        ));
        match cache.repos@[r].lock_text(cache.cache_dir@) {
            Some(text) => {
                assert(locks_until(cache, targets, r + 1) =~= locks_until(
                    cache,
                    targets,
                    r,
                ).insert(path::path_key(text)));
            },
            None => {
                assert(locks_until(cache, targets, r + 1) =~= locks_until(cache, targets, r));
            },
        }
    } else {
        assert(repos_until(cache, targets, r + 1) =~= repos_until(cache, targets, r));
        assert(locks_until(cache, targets, r + 1) =~= locks_until(cache, targets, r));
    }
}

/// Moving on to the next repository adds nothing but what its revisions added.
proof fn lemma_next_repo(cache: HFCacheInfo, targets: Set<Seq<char>>, r: int)
    requires
        0 <= r < cache.repos@.len(),
    ensures
        ({
            let n = cache.repos@[r].revisions@.len() as int;
            &&& snapshots_until(cache, targets, r + 1, 0) == snapshots_until(cache, targets, r, n)
            &&& refs_until(cache, targets, r + 1, 0, 0) == refs_until(cache, targets, r, n, 0)
            &&& blobs_until(cache, targets, r + 1, 0, 0) == blobs_until(cache, targets, r, n, 0)
        }),
{
    let n = cache.repos@[r].revisions@.len() as int;
    assert forall|s: int, j: int|
        cache.has_revision(s, j) implies precedes(s, j, r + 1, 0) == #[trigger] precedes(
        s,
        j,
        r,
        n,
    ) by {}
    assert(snapshots_until(cache, targets, r + 1, 0) =~= snapshots_until(cache, targets, r, n));
    assert(refs_until(cache, targets, r + 1, 0, 0) =~= refs_until(cache, targets, r, n, 0));
    assert(blobs_until(cache, targets, r + 1, 0, 0) =~= blobs_until(cache, targets, r, n, 0));
}

/// A repository that goes as a whole adds nothing revision by revision.
proof fn lemma_wiped_repo(cache: HFCacheInfo, targets: Set<Seq<char>>, r: int)
    requires
        cache.wipes(targets, r),
    ensures
        snapshots_until(cache, targets, r + 1, 0) == snapshots_until(cache, targets, r, 0),
        refs_until(cache, targets, r + 1, 0, 0) == refs_until(cache, targets, r, 0, 0),
        blobs_until(cache, targets, r + 1, 0, 0) == blobs_until(cache, targets, r, 0, 0),
{
    assert(snapshots_until(cache, targets, r + 1, 0) =~= snapshots_until(cache, targets, r, 0));
    assert(refs_until(cache, targets, r + 1, 0, 0) =~= refs_until(cache, targets, r, 0, 0));
    assert(blobs_until(cache, targets, r + 1, 0, 0) =~= blobs_until(cache, targets, r, 0, 0));
}

/// A revision that stays adds nothing.
proof fn lemma_kept_revision(cache: HFCacheInfo, targets: Set<Seq<char>>, r: int, i: int)
    requires
        cache.has_revision(r, i),
        !cache.prunes(targets, r, i),
    ensures
        snapshots_until(cache, targets, r, i + 1) == snapshots_until(cache, targets, r, i),
        refs_until(cache, targets, r, i + 1, 0) == refs_until(cache, targets, r, i, 0),
        blobs_until(cache, targets, r, i + 1, 0) == blobs_until(cache, targets, r, i, 0),
        cache.revision_gain(targets, r, i + 1) == cache.revision_gain(targets, r, i),
{
    assert(snapshots_until(cache, targets, r, i + 1) =~= snapshots_until(cache, targets, r, i));
    assert(refs_until(cache, targets, r, i + 1, 0) =~= refs_until(cache, targets, r, i, 0));
    assert(blobs_until(cache, targets, r, i + 1, 0) =~= blobs_until(cache, targets, r, i, 0));
    lemma_no_file_gain(cache, targets, r, i, cache.revision_at(r, i).files@.len() as int);
}

pub(crate) proof fn lemma_no_file_gain(
    cache: HFCacheInfo,
    targets: Set<Seq<char>>,
    r: int,
    i: int,
    k: int,
)
    requires
        !cache.prunes(targets, r, i),
    ensures
        cache.file_gain(targets, r, i, k) == 0,
    decreases k,
{
    if k > 0 {
        lemma_no_file_gain(cache, targets, r, i, k - 1);
    }
}

/// What a revision that goes on its own adds.
proof fn lemma_snapshot_step(cache: HFCacheInfo, targets: Set<Seq<char>>, r: int, i: int)
    requires
        cache.prunes(targets, r, i),
    ensures
        snapshots_until(cache, targets, r, i + 1) == snapshots_until(cache, targets, r, i).insert(
            cache.revision_at(r, i).snapshot_path.key(),
        ),
        refs_until(cache, targets, r, i + 1, 0) == refs_until(
            cache,
            targets,
            r,
            i,
            cache.revision_at(r, i).refs@.len() as int,
        ),
        blobs_until(cache, targets, r, i + 1, 0) == blobs_until(
            cache,
            targets,
            r,
            i,
            cache.revision_at(r, i).files@.len() as int,
        ),
{
    assert(snapshots_until(cache, targets, r, i + 1) =~= snapshots_until(
        cache,
        targets,
        r,
        i,
    ).insert(cache.revision_at(r, i).snapshot_path.key()));
    assert(refs_until(cache, targets, r, i + 1, 0) =~= refs_until(
        cache,
        targets,
        r,
        i,
        cache.revision_at(r, i).refs@.len() as int,
    ));
    assert(blobs_until(cache, targets, r, i + 1, 0) =~= blobs_until(
        cache,
        targets,
        r,
        i,
        cache.revision_at(r, i).files@.len() as int,
    ));
}

proof fn lemma_ref_step(cache: HFCacheInfo, targets: Set<Seq<char>>, r: int, i: int, k: int)
    requires
        cache.prunes(targets, r, i),
        cache.has_ref(r, i, k),
    ensures
        refs_until(cache, targets, r, i, k + 1) == refs_until(cache, targets, r, i, k).insert(
            cache.ref_at(r, i, k),
        ),
{
    assert(refs_until(cache, targets, r, i, k + 1) =~= refs_until(
        cache,
        targets,
        r,
        i,
        k,
    ).insert(cache.ref_at(r, i, k)));
}

proof fn lemma_blob_step(cache: HFCacheInfo, targets: Set<Seq<char>>, r: int, i: int, k: int)
    ensures
        blobs_until(cache, targets, r, i, k + 1) == if cache.frees(targets, r, i, k) {
            blobs_until(cache, targets, r, i, k).insert(cache.blob_at(r, i, k))
        } else {
            blobs_until(cache, targets, r, i, k)
        },
{
    if cache.frees(targets, r, i, k) {
        assert(blobs_until(cache, targets, r, i, k + 1) =~= blobs_until(
            cache,
            targets,
            r,
            i,
            k,
        ).insert(cache.blob_at(r, i, k)));
    } else {
        assert(blobs_until(cache, targets, r, i, k + 1) =~= blobs_until(cache, targets, r, i, k));
    }
}

/// A path that is not listed yet is written as the cache writes it first.
proof fn lemma_first_repo_text(cache: HFCacheInfo, targets: Set<Seq<char>>, r: int)
    requires
        cache.wipes(targets, r),
        !repos_until(cache, targets, r).contains(cache.repos@[r].repo_path.key()),
    ensures
        cache.repo_texts(targets).contains(cache.repos@[r].repo_path@),
{
    assert(cache.names_repo(targets, r));
}

proof fn lemma_first_lock_text(cache: HFCacheInfo, targets: Set<Seq<char>>, r: int, text: Seq<u8>)
    requires
        cache.wipes(targets, r),
        cache.repos@[r].lock_text(cache.cache_dir@) == Some(text),
        !locks_until(cache, targets, r).contains(path::path_key(text)),
    ensures
        cache.lock_texts(targets).contains(text),
{
    assert(cache.names_lock(targets, r));
}

proof fn lemma_first_snapshot_text(cache: HFCacheInfo, targets: Set<Seq<char>>, r: int, i: int)
    requires
        cache.prunes(targets, r, i),
        !snapshots_until(cache, targets, r, i).contains(
            cache.revision_at(r, i).snapshot_path.key(),
        ),
    ensures
        cache.snapshot_texts(targets).contains(cache.revision_at(r, i).snapshot_path@),
{
    assert(cache.names_snapshot(targets, r, i));
}

proof fn lemma_first_ref_text(cache: HFCacheInfo, targets: Set<Seq<char>>, r: int, i: int, k: int)
    requires
        cache.prunes(targets, r, i),
        cache.has_ref(r, i, k),
        !refs_until(cache, targets, r, i, k).contains(cache.ref_at(r, i, k)),
    ensures
        cache.ref_texts(targets).contains(
            cache.repos@[r].ref_text(cache.revision_at(r, i).refs@[k]@),
        ),
{
    assert(cache.names_ref(targets, r, i, k));
}

/// What is freed up to some point is at most what is freed in all.
proof fn lemma_gain_bound(cache: HFCacheInfo, targets: Set<Seq<char>>, r: int, i: int, k: int)
    requires
        cache.has_revision(r, i),
        0 <= k <= cache.revision_at(r, i).files@.len(),
        !cache.wipes(targets, r),
    ensures
        cache.repo_gain(targets, r) + cache.revision_gain(targets, r, i) + cache.file_gain(
            targets,
            r,
            i,
            k,
        ) <= cache.freed_size(targets),
{
    lemma_file_gain_grows(cache, targets, r, i, k, cache.revision_at(r, i).files@.len() as int);
    lemma_revision_gain_grows(
        cache,
        targets,
        r,
        i + 1,
        cache.repos@[r].revisions@.len() as int,
    );
    lemma_repo_gain_grows(cache, targets, r + 1, cache.repos@.len() as int);
}

proof fn lemma_file_gain_grows(
    cache: HFCacheInfo,
    targets: Set<Seq<char>>,
    r: int,
    i: int,
    k: int,
    l: int,
)
    requires
        k <= l,
    ensures
        cache.file_gain(targets, r, i, k) <= cache.file_gain(targets, r, i, l),
    decreases l - k,
{
    if k < l {
        lemma_file_gain_grows(cache, targets, r, i, k, l - 1);
    }
}

proof fn lemma_revision_gain_grows(
    cache: HFCacheInfo,
    targets: Set<Seq<char>>,
    r: int,
    i: int,
    j: int,
)
    requires
        i <= j,
    ensures
        cache.revision_gain(targets, r, i) <= cache.revision_gain(targets, r, j),
    decreases j - i,
{
    if i < j {
        lemma_revision_gain_grows(cache, targets, r, i, j - 1);
    }
}

proof fn lemma_repo_gain_grows(cache: HFCacheInfo, targets: Set<Seq<char>>, r: int, s: int)
    requires
        r <= s,
    ensures
        cache.repo_gain(targets, r) <= cache.repo_gain(targets, s),
    decreases s - r,
{
    if r < s {
        lemma_repo_gain_grows(cache, targets, r, s - 1);
    }
}

/// Whether every revision of repository `r` is marked, and there is one.
fn all_marked(
    cache: &HFCacheInfo,
    Ghost(targets): Ghost<Set<Seq<char>>>,
    r: usize,
    flags: &Vec<bool>,
) -> (all: bool)
    requires
        r < cache.repos@.len(),
        marks_repo(*cache, targets, r as int, *flags),
    ensures
        all == cache.wipes(targets, r as int),
{
    let mut i: usize = 0;
    while i < flags.len()
        invariant
            i <= flags@.len(),
            r < cache.repos@.len(),
            marks_repo(*cache, targets, r as int, *flags),
            forall|j: int| 0 <= j < i ==> cache.selects(targets, r as int, j),
        decreases flags.len() - i,
    {
        if !flags[i] {
            assert(!cache.selects(targets, r as int, i as int));
            return false;
        }
        i += 1;
    }
    flags.len() > 0
}

/// Marks the revisions of repository `r` that share their hash with no marked
/// one.
fn survivors(
    cache: &HFCacheInfo,
    Ghost(targets): Ghost<Set<Seq<char>>>,
    r: usize,
    flags: &Vec<bool>,
) -> (alive: Vec<bool>)
    requires
        r < cache.repos@.len(),
        marks_repo(*cache, targets, r as int, *flags),
    ensures
        alive@.len() == cache.repos@[r as int].revisions@.len(),
        forall|j: int|
            0 <= j < alive@.len() ==> (#[trigger] alive@[j]) == cache.survives(
                targets,
                r as int,
                j,
            ),
{
    let repo: &CachedRepoInfo = &cache.repos[r];
    let mut alive: Vec<bool> = Vec::new();
    let mut j: usize = 0;
    while j < repo.revisions.len()
        invariant
            r < cache.repos@.len(),
            *repo == cache.repos@[r as int],
            marks_repo(*cache, targets, r as int, *flags),
            j <= repo.revisions@.len(),
            alive@.len() == j,
            forall|m: int|
                0 <= m < j ==> (#[trigger] alive@[m]) == cache.survives(targets, r as int, m),
        decreases repo.revisions.len() - j,
    {
        let mut spared: bool = true;
        let mut i: usize = 0;
        while i < flags.len()
            invariant
                r < cache.repos@.len(),
                *repo == cache.repos@[r as int],
                marks_repo(*cache, targets, r as int, *flags),
                j < repo.revisions@.len(),
                i <= flags@.len(),
                spared == (forall|m: int|
                    0 <= m < i && #[trigger] cache.selects(targets, r as int, m)
                        ==> cache.hash_at(r as int, m) != cache.hash_at(r as int, j as int)),
            decreases flags.len() - i,
        {
            if flags[i] {
                assert(cache.selects(targets, r as int, i as int));
                if repo.revisions[i].commit_hash == repo.revisions[j].commit_hash {
                    spared = false;
                }
            }
            i += 1;
        }
        proof {
            assert(cache.has_revision(r as int, j as int));
        }
        alive.push(spared);
        j += 1;
    }
    alive
}

/// Whether a surviving revision of repository `r` points at `blob`.
fn is_referenced(
    cache: &HFCacheInfo,
    Ghost(targets): Ghost<Set<Seq<char>>>,
    r: usize,
    alive: &Vec<bool>,
    blob: &CachePath,
) -> (found: bool)
    requires
        r < cache.repos@.len(),
        alive@.len() == cache.repos@[r as int].revisions@.len(),
        forall|j: int|
            0 <= j < alive@.len() ==> (#[trigger] alive@[j]) == cache.survives(
                targets,
                r as int,
                j,
            ),
    ensures
        found == cache.still_referenced(targets, r as int, blob.key()),
{
    let repo: &CachedRepoInfo = &cache.repos[r];
    let mut j: usize = 0;
    while j < repo.revisions.len()
        invariant
            r < cache.repos@.len(),
            *repo == cache.repos@[r as int],
            j <= repo.revisions@.len(),
            alive@.len() == repo.revisions@.len(),
            forall|m: int|
                0 <= m < alive@.len() ==> (#[trigger] alive@[m]) == cache.survives(
                    targets,
                    r as int,
                    m,
                ),
            forall|m: int, k: int|
                m < j && #[trigger] cache.has_file(r as int, m, k) && cache.survives(
                    targets,
                    r as int,
                    m,
                ) ==> cache.blob_at(r as int, m, k) != blob.key(),
        decreases repo.revisions.len() - j,
    {
        if alive[j] {
            let files: &Vec<CachedFileInfo> = &repo.revisions[j].files;
            let mut k: usize = 0;
            while k < files.len()
                invariant
                    r < cache.repos@.len(),
                    *repo == cache.repos@[r as int],
                    j < repo.revisions@.len(),
                    *files == repo.revisions@[j as int].files,
                    cache.survives(targets, r as int, j as int),
                    k <= files@.len(),
                    forall|l: int|
                        0 <= l < k ==> #[trigger] cache.blob_at(r as int, j as int, l)
                            != blob.key(),
                decreases files.len() - k,
            {
                if files[k].blob_path.same_path(blob) {
                    assert(cache.has_file(r as int, j as int, k as int));
                    assert(cache.blob_at(r as int, j as int, k as int) == blob.key());
                    return true;
                }
                k += 1;
            }
        }
        j += 1;
    }
    false
}

/// Adds to `plan` what deleting revision `(r, i)` on its own removes. Returns
/// `false` when the freed bytes no longer fit.
fn prune_revision(
    cache: &HFCacheInfo,
    Ghost(targets): Ghost<Set<Seq<char>>>,
    Ghost(lock_dirs): Ghost<Set<PathKey>>,
    r: usize,
    i: usize,
    alive: &Vec<bool>,
    plan: &mut DeleteCacheStrategy,
) -> (fits: bool)
    requires
        cache.prunes(targets, r as int, i as int),
        alive@.len() == cache.repos@[r as int].revisions@.len(),
        forall|j: int|
            0 <= j < alive@.len() ==> (#[trigger] alive@[j]) == cache.survives(
                targets,
                r as int,
                j,
            ),
        old(plan).covers(*cache, targets, lock_dirs, r as int, i as int),
    ensures
        fits ==> final(plan).covers(*cache, targets, lock_dirs, r as int, i + 1),
        !fits ==> cache.freed_size(targets) > u64::MAX,
        final(plan).missing_revisions == old(plan).missing_revisions,
{
    let repo: &CachedRepoInfo = &cache.repos[r];
    let revision: &CachedRevisionInfo = &repo.revisions[i];
    proof {
        if !plan.snapshots@.contains(revision.snapshot_path.key()) {
            lemma_first_snapshot_text(*cache, targets, r as int, i as int);
        }
    }
    plan.snapshots.insert(revision.snapshot_path.clone());
    let mut k: usize = 0;
    while k < revision.refs.len()
        invariant
            cache.prunes(targets, r as int, i as int),
            *repo == cache.repos@[r as int],
            *revision == cache.revision_at(r as int, i as int),
            k <= revision.refs@.len(),
            plan.refs@ == refs_until(*cache, targets, r as int, i as int, k as int),
            plan.expected_freed_size == old(plan).expected_freed_size,
            plan.repos == old(plan).repos,
            plan.locks == old(plan).locks,
            plan.blobs == old(plan).blobs,
            plan.snapshots@ == old(plan).snapshots@.insert(revision.snapshot_path.key()),
            plan.keeps_spellings(*cache, targets),
            plan.missing_revisions == old(plan).missing_revisions,
        decreases revision.refs.len() - k,
    {
        let path: CachePath = repo.repo_path.join("refs".as_bytes()).join(
            revision.refs[k].as_str().as_bytes(),
        );
        proof {
            assert(cache.has_ref(r as int, i as int, k as int));
            lemma_ref_step(*cache, targets, r as int, i as int, k as int);
            assert(path.key() == cache.ref_at(r as int, i as int, k as int));
            if !plan.refs@.contains(path.key()) {
                lemma_first_ref_text(*cache, targets, r as int, i as int, k as int);
            }
        }
        plan.refs.insert(path);
        k += 1;
    }
    let ghost base = plan.expected_freed_size as nat;
    let mut k: usize = 0;
    while k < revision.files.len()
        invariant
            cache.prunes(targets, r as int, i as int),
            *repo == cache.repos@[r as int],
            *revision == cache.revision_at(r as int, i as int),
            alive@.len() == cache.repos@[r as int].revisions@.len(),
            forall|j: int|
                0 <= j < alive@.len() ==> (#[trigger] alive@[j]) == cache.survives(
                    targets,
                    r as int,
                    j,
                ),
            k <= revision.files@.len(),
            base == cache.repo_gain(targets, r as int) + cache.revision_gain(
                targets,
                r as int,
                i as int,
            ),
            plan.expected_freed_size == base + cache.file_gain(
                targets,
                r as int,
                i as int,
                k as int,
            ),
            plan.blobs@ == blobs_until(*cache, targets, r as int, i as int, k as int),
            plan.repos == old(plan).repos,
            plan.locks == old(plan).locks,
            plan.refs@ == refs_until(
                *cache,
                targets,
                r as int,
                i as int,
                revision.refs@.len() as int,
            ),
            plan.snapshots@ == old(plan).snapshots@.insert(revision.snapshot_path.key()),
            plan.keeps_spellings(*cache, targets),
            plan.missing_revisions == old(plan).missing_revisions,
        decreases revision.files.len() - k,
    {
        let file: &CachedFileInfo = &revision.files[k];
        proof {
            assert(cache.has_file(r as int, i as int, k as int));
            lemma_blob_step(*cache, targets, r as int, i as int, k as int);
        }
        if plan.blobs.contains(&file.blob_path) {
            proof {
                assert(!cache.counts(targets, r as int, i as int, k as int));
                assert(plan.blobs@.insert(file.blob_path.key()) =~= plan.blobs@);
            }
        } else if !is_referenced(cache, Ghost(targets), r, alive, &file.blob_path) {
            assert(cache.counts(targets, r as int, i as int, k as int));
            match plan.expected_freed_size.checked_add(file.size_on_disk) {
                None => {
                    proof {
                        lemma_gain_bound(*cache, targets, r as int, i as int, k + 1);
                    }
                    return false;
                },
                Some(total) => {
                    plan.expected_freed_size = total;
                },
            }
            plan.blobs.insert(file.blob_path.clone());
        }
        k += 1;
    }
    proof {
        lemma_snapshot_step(*cache, targets, r as int, i as int);
    }
    true
}

impl DeleteCacheStrategy {
    /// Builds the plan for deleting the revisions that `commit_hashes` names.
    /// `lock_dirs` are the lock directories that exist. Returns `None` when the
    /// freed bytes do not fit into 64 bits.
    pub fn compute(
        cache_info: &HFCacheInfo,
        commit_hashes: &[String],
        lock_dirs: &PathSet,
    ) -> (strategy: Option<DeleteCacheStrategy>)
        ensures
            match strategy {
                Some(plan) => plan.is_plan(
                    *cache_info,
                    targets_of(commit_hashes@),
                    lock_dirs@,
                ),
                None => cache_info.freed_size(targets_of(commit_hashes@)) > u64::MAX,
            },
    {
        let ghost targets = targets_of(commit_hashes@);
        let working: Vec<String> = distinct(commit_hashes);
        let (flags, held) = select(cache_info, &working);
        let missing_revisions: Vec<String> = collect_missing(cache_info, &working, &held);
        let mut plan = DeleteCacheStrategy {
            expected_freed_size: 0,
            blobs: PathSet::new(),
            refs: PathSet::new(),
            repos: PathSet::new(),
            snapshots: PathSet::new(),
            locks: PathSet::new(),
            missing_revisions,
        };
        proof {
            lemma_start(*cache_info, targets);
            assert(locks_until(*cache_info, targets, 0).intersect(lock_dirs@) =~= Set::<
                PathKey,
            >::empty());
        }
        let mut r: usize = 0;
        while r < cache_info.repos.len()
            invariant
                r <= cache_info.repos@.len(),
                targets == targets_of(commit_hashes@),
                marks(*cache_info, targets, flags@),
                plan.covers(*cache_info, targets, lock_dirs@, r as int, 0),
                cache_info.lists_missing(targets, order::texts_of(plan.missing_revisions@)),
            decreases cache_info.repos.len() - r,
        {
            let repo: &CachedRepoInfo = &cache_info.repos[r];
            proof {
                lemma_repo_step(*cache_info, targets, r as int);
                assert(marks_repo(*cache_info, targets, r as int, flags@[r as int]));
                lemma_repo_gain_grows(
                    *cache_info,
                    targets,
                    r + 1,
                    cache_info.repos@.len() as int,
                );
            }
            if all_marked(cache_info, Ghost(targets), r, &flags[r]) {
                proof {
                    if !plan.repos@.contains(repo.repo_path.key()) {
                        lemma_first_repo_text(*cache_info, targets, r as int);
                    }
                }
                plan.repos.insert(repo.repo_path.clone());
                match plan.expected_freed_size.checked_add(repo.size_on_disk) {
                    None => {
                        return None;
                    },
                    Some(total) => {
                        plan.expected_freed_size = total;
                    },
                }
                let ghost before = locks_until(*cache_info, targets, r as int);
                match locks_directory_for(repo, &cache_info.cache_dir) {
                    Some(lock_dir) => {
                        let ghost key = lock_dir.key();
                        if lock_dirs.contains(&lock_dir) {
                            proof {
                                if !plan.locks@.contains(key) {
                                    lemma_first_lock_text(
                                        *cache_info,
                                        targets,
                                        r as int,
                                        lock_dir@,
                                    );
                                }
                            }
                            plan.locks.insert(lock_dir);
                            assert(before.insert(key).intersect(lock_dirs@) =~= before.intersect(
                                lock_dirs@,
                            ).insert(key));
                        } else {
                            assert(before.insert(key).intersect(lock_dirs@) =~= before.intersect(
                                lock_dirs@,
                            ));
                        }
                    },
                    None => {},
                }
                proof {
                    lemma_wiped_repo(*cache_info, targets, r as int);
                }
            } else {
                let alive: Vec<bool> = survivors(cache_info, Ghost(targets), r, &flags[r]);
                let mut i: usize = 0;
                while i < repo.revisions.len()
                    invariant
                        r < cache_info.repos@.len(),
                        *repo == cache_info.repos@[r as int],
                        i <= repo.revisions@.len(),
                        !cache_info.wipes(targets, r as int),
                        flags@.len() == cache_info.repos@.len(),
                        marks_repo(*cache_info, targets, r as int, flags@[r as int]),
                        alive@.len() == repo.revisions@.len(),
                        forall|j: int|
                            0 <= j < alive@.len() ==> (#[trigger] alive@[j])
                                == cache_info.survives(targets, r as int, j),
                        targets == targets_of(commit_hashes@),
                        plan.covers(*cache_info, targets, lock_dirs@, r as int, i as int),
                        cache_info.lists_missing(
                            targets,
                            order::texts_of(plan.missing_revisions@),
                        ),
                    decreases repo.revisions.len() - i,
                {
                    assert(cache_info.has_revision(r as int, i as int));
                    if flags[r][i] {
                        let fits: bool = prune_revision(
                            cache_info,
                            Ghost(targets),
                            Ghost(lock_dirs@),
                            r,
                            i,
                            &alive,
                            &mut plan,
                        );
                        if !fits {
                            return None;
                        }
                    } else {
                        proof {
                            lemma_kept_revision(*cache_info, targets, r as int, i as int);
                        }
                    }
                    i += 1;
                }
                proof {
                    lemma_next_repo(*cache_info, targets, r as int);
                }
            }
            r += 1;
        }
        proof {
            lemma_end(*cache_info, targets);
        }
        Some(plan)
    }
}

/// The directory `.locks/<folder>` that belongs to a repository, or `None` if
/// the repository's path has no last name.
pub fn locks_directory_for(repo: &CachedRepoInfo, cache_dir: &CachePath) -> (lock_dir: Option<
    CachePath,
>)
    ensures
        match lock_dir {
            Some(path) => repo.lock_text(cache_dir@) == Some(path@),
            None => repo.lock_text(cache_dir@) is None,
        },
{
    match repo.repo_path.file_name() {
        None => None,
        Some(folder) => Some(cache_dir.join(".locks".as_bytes()).join(folder.as_slice())),
    }
}

impl HFCacheInfo {
    /// Plans the deletion of cached revisions by commit hash.
    ///
    /// `lock_dirs` are the lock directories that exist; see
    /// [`HFCacheInfo::lock_directories`] for those to look for. Hashes that the
    /// cache does not hold are listed in
    /// [`DeleteCacheStrategy::missing_revisions`]; they do not keep the others
    /// from being deleted.
    pub fn delete_revisions(
        &self,
        commit_hashes: &[String],
        lock_dirs: &PathSet,
    ) -> (strategy: DeleteCacheStrategy)
        requires
            self.freed_size(targets_of(commit_hashes@)) <= u64::MAX,
        ensures
            strategy.is_plan(*self, targets_of(commit_hashes@), lock_dirs@),
    {
        match DeleteCacheStrategy::compute(self, commit_hashes, lock_dirs) {
            Some(strategy) => strategy,
            None => vstd::pervasive::unreached(),
        }
    }

    /// The lock directories of the repositories that deleting `commit_hashes`
    /// removes as a whole. Those of them that exist are to be handed to
    /// [`HFCacheInfo::delete_revisions`].
    pub fn lock_directories(&self, commit_hashes: &[String]) -> (lock_dirs: PathSet)
        ensures
            lock_dirs@ == self.planned_locks(targets_of(commit_hashes@)),
    {
        let ghost targets = targets_of(commit_hashes@);
        let working: Vec<String> = distinct(commit_hashes);
        let (flags, _held) = select(self, &working);
        let mut lock_dirs: PathSet = PathSet::new();
        proof {
            lemma_start(*self, targets);
        }
        let mut r: usize = 0;
        while r < self.repos.len()
            invariant
                r <= self.repos@.len(),
                marks(*self, targets, flags@),
                lock_dirs@ == locks_until(*self, targets, r as int),
            decreases self.repos.len() - r,
        {
            proof {
                lemma_repo_step(*self, targets, r as int);
                assert(marks_repo(*self, targets, r as int, flags@[r as int]));
            }
            if all_marked(self, Ghost(targets), r, &flags[r]) {
                match locks_directory_for(&self.repos[r], &self.cache_dir) {
                    Some(lock_dir) => {
                        lock_dirs.insert(lock_dir);
                    },
                    None => {},
                }
            }
            r += 1;
        }
        proof {
            lemma_end(*self, targets);
        }
        lock_dirs
    }
}

} // verus!
