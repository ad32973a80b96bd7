//! How the plan of a cache follows from the plans of its parts.

use crate::cache::HFCacheInfo;
use crate::deletion::DeleteCacheStrategy;
#[allow(unused_imports)]
use crate::deletion::{file_precedes, precedes};
use crate::order;
use crate::path::PathKey;
use vstd::prelude::*;

verus! {

/// Whether no hash and no blob occurs in both caches.
pub open spec fn unrelated(a: HFCacheInfo, b: HFCacheInfo) -> bool {
    &&& forall|hash: Seq<char>| !(#[trigger] a.holds(hash) && b.holds(hash))
    &&& forall|r: int, i: int, k: int, s: int, j: int, l: int| #[trigger]
        a.has_file(r, i, k) && #[trigger] b.has_file(s, j, l) ==> a.blob_at(r, i, k) != b.blob_at(
            s,
            j,
            l,
        )
}

/// Whether a cache has the repositories of two unrelated ones, in order.
pub open spec fn consists_of(whole: HFCacheInfo, left: HFCacheInfo, right: HFCacheInfo) -> bool {
    &&& whole.repos@ == left.repos@ + right.repos@
    &&& whole.cache_dir@ == left.cache_dir@
    &&& whole.cache_dir@ == right.cache_dir@
    &&& unrelated(left, right)
}

/// Whether the repositories of `part` stand in `whole` from index `d` on, and
/// no other repository there has a hash or a blob of them.
spec fn embeds(part: HFCacheInfo, whole: HFCacheInfo, d: int) -> bool {
    &&& 0 <= d
    &&& d + part.repos@.len() <= whole.repos@.len()
    &&& whole.cache_dir@ == part.cache_dir@
    &&& forall|r: int|
        0 <= r < part.repos@.len() ==> whole.repos@[r + d] == #[trigger] part.repos@[r]
    &&& forall|s: int, j: int| #[trigger]
        whole.has_revision(s, j) && !(d <= s < d + part.repos@.len()) ==> !part.holds(
            whole.hash_at(s, j),
        )
    &&& forall|s: int, j: int, l: int, r: int, i: int, k: int| #[trigger]
        whole.has_file(s, j, l) && !(d <= s < d + part.repos@.len()) && #[trigger] part.has_file(
            r,
            i,
            k,
        ) ==> whole.blob_at(s, j, l) != part.blob_at(r, i, k)
}

proof fn lemma_left_embeds(whole: HFCacheInfo, left: HFCacheInfo, right: HFCacheInfo)
    requires
        consists_of(whole, left, right),
    ensures
        embeds(left, whole, 0),
{
    let n = left.repos@.len() as int;
    assert forall|s: int, j: int| #[trigger]
        whole.has_revision(s, j) && !(0 <= s < n) implies !left.holds(whole.hash_at(s, j)) by {
        assert(whole.repos@[s] == right.repos@[s - n]);
        assert(right.has_revision(s - n, j));
        assert(right.holds(whole.hash_at(s, j)));
    }
    assert forall|s: int, j: int, l: int, r: int, i: int, k: int| #[trigger]
        whole.has_file(s, j, l) && !(0 <= s < n) && #[trigger] left.has_file(r, i, k) implies (
    whole.blob_at(s, j, l) != left.blob_at(r, i, k)) by {
        assert(whole.repos@[s] == right.repos@[s - n]);
        assert(right.has_file(s - n, j, l));
    }
}

proof fn lemma_right_embeds(whole: HFCacheInfo, left: HFCacheInfo, right: HFCacheInfo)
    requires
        consists_of(whole, left, right),
    ensures
        embeds(right, whole, left.repos@.len() as int),
{
    let n = left.repos@.len() as int;
    assert forall|s: int, j: int| #[trigger]
        whole.has_revision(s, j) && !(n <= s < n + right.repos@.len()) implies !right.holds(
        whole.hash_at(s, j),
    ) by {
        assert(whole.repos@[s] == left.repos@[s]);
        assert(left.has_revision(s, j));
        assert(left.holds(whole.hash_at(s, j)));
    }
    assert forall|s: int, j: int, l: int, r: int, i: int, k: int| #[trigger]
        whole.has_file(s, j, l) && !(n <= s < n + right.repos@.len()) && #[trigger] right.has_file(
            r,
            i,
            k,
        ) implies whole.blob_at(s, j, l) != right.blob_at(r, i, k) by {
        assert(whole.repos@[s] == left.repos@[s]);
        assert(left.has_file(s, j, l));
    }
}

/// A revision of the part is deleted in the whole exactly if it is in the part.
proof fn lemma_selects(
    part: HFCacheInfo,
    whole: HFCacheInfo,
    d: int,
    targets: Set<Seq<char>>,
    r: int,
    i: int,
)
    requires
        embeds(part, whole, d),
        0 <= r < part.repos@.len(),
    ensures
        whole.selects(targets, r + d, i) == part.selects(targets, r, i),
{
    assert(whole.repos@[r + d] == part.repos@[r]);
    if part.has_revision(r, i) {
        let hash = part.hash_at(r, i);
        assert(part.holds(hash));
        if part.seen_before(hash, r, i) {
            let (s, j) = choose|s: int, j: int| #[trigger]
                part.has_revision(s, j) && precedes(s, j, r, i) && part.hash_at(s, j) == hash;
            assert(whole.repos@[s + d] == part.repos@[s]);
            assert(whole.has_revision(s + d, j) && precedes(s + d, j, r + d, i));
            assert(whole.seen_before(hash, r + d, i));
        }
        if whole.seen_before(hash, r + d, i) {
            let (s, j) = choose|s: int, j: int| #[trigger]
                whole.has_revision(s, j) && precedes(s, j, r + d, i) && whole.hash_at(s, j)
                    == hash;
            assert(d <= s < d + part.repos@.len());
            assert(whole.repos@[s - d + d] == part.repos@[s - d]);
            assert(part.has_revision(s - d, j) && precedes(s - d, j, r, i));
            assert(part.seen_before(hash, r, i));
        }
    }
}

/// The same for repositories that go as a whole and revisions that go alone.
proof fn lemma_wipes(
    part: HFCacheInfo,
    whole: HFCacheInfo,
    d: int,
    targets: Set<Seq<char>>,
    r: int,
)
    requires
        embeds(part, whole, d),
        0 <= r < part.repos@.len(),
    ensures
        whole.wipes(targets, r + d) == part.wipes(targets, r),
        forall|i: int| #[trigger]
            whole.prunes(targets, r + d, i) == part.prunes(targets, r, i),
        forall|i: int| #[trigger]
            whole.survives(targets, r + d, i) == part.survives(targets, r, i),
{
    assert(whole.repos@[r + d] == part.repos@[r]);
    assert forall|i: int| #[trigger]
        whole.selects(targets, r + d, i) == part.selects(targets, r, i) by {
        lemma_selects(part, whole, d, targets, r, i);
    }
    assert forall|i: int| #[trigger] part.selects(targets, r, i) == whole.selects(
        targets,
        r + d,
        i,
    ) by {
        lemma_selects(part, whole, d, targets, r, i);
    }
}

/// The same for files that give their blob up.
proof fn lemma_frees(
    part: HFCacheInfo,
    whole: HFCacheInfo,
    d: int,
    targets: Set<Seq<char>>,
    r: int,
    i: int,
    k: int,
)
    requires
        embeds(part, whole, d),
        0 <= r < part.repos@.len(),
    ensures
        whole.frees(targets, r + d, i, k) == part.frees(targets, r, i, k),
{
    lemma_wipes(part, whole, d, targets, r);
    assert(whole.repos@[r + d] == part.repos@[r]);
    assert(whole.prunes(targets, r + d, i) == part.prunes(targets, r, i));
    if part.has_file(r, i, k) {
        let blob = part.blob_at(r, i, k);
        if part.still_referenced(targets, r, blob) {
            let (j, l) = choose|j: int, l: int| #[trigger]
                part.has_file(r, j, l) && part.survives(targets, r, j) && part.blob_at(r, j, l)
                    == blob;
            assert(whole.survives(targets, r + d, j));
            assert(whole.has_file(r + d, j, l));
            assert(whole.still_referenced(targets, r + d, blob));
        }
        if whole.still_referenced(targets, r + d, blob) {
            let (j, l) = choose|j: int, l: int| #[trigger]
                whole.has_file(r + d, j, l) && whole.survives(targets, r + d, j) && whole.blob_at(
                    r + d,
                    j,
                    l,
                ) == blob;
            assert(part.survives(targets, r, j));
            assert(part.has_file(r, j, l));
            assert(part.still_referenced(targets, r, blob));
        }
    }
}

/// The same for files whose size stands for their blob.
proof fn lemma_counts(
    part: HFCacheInfo,
    whole: HFCacheInfo,
    d: int,
    targets: Set<Seq<char>>,
    r: int,
    i: int,
    k: int,
)
    requires
        embeds(part, whole, d),
        0 <= r < part.repos@.len(),
    ensures
        whole.counts(targets, r + d, i, k) == part.counts(targets, r, i, k),
{
    lemma_frees(part, whole, d, targets, r, i, k);
    assert(whole.repos@[r + d] == part.repos@[r]);
    if part.frees(targets, r, i, k) {
        let blob = part.blob_at(r, i, k);
        if part.freed_before(targets, blob, r, i, k) {
            let (s, j, l) = choose|s: int, j: int, l: int| #[trigger]
                part.frees(targets, s, j, l) && file_precedes(s, j, l, r, i, k) && part.blob_at(
                    s,
                    j,
                    l,
                ) == blob;
            lemma_frees(part, whole, d, targets, s, j, l);
            assert(whole.repos@[s + d] == part.repos@[s]);
            assert(whole.frees(targets, s + d, j, l));
            assert(whole.freed_before(targets, blob, r + d, i, k));
        }
        if whole.freed_before(targets, blob, r + d, i, k) {
            let (s, j, l) = choose|s: int, j: int, l: int| #[trigger]
                whole.frees(targets, s, j, l) && file_precedes(s, j, l, r + d, i, k)
                    && whole.blob_at(s, j, l) == blob;
            assert(whole.has_file(s, j, l) && part.has_file(r, i, k));
            assert(d <= s < d + part.repos@.len());
            lemma_frees(part, whole, d, targets, s - d, j, l);
            assert(whole.repos@[s - d + d] == part.repos@[s - d]);
            assert(part.frees(targets, s - d, j, l));
            assert(part.freed_before(targets, blob, r, i, k));
        }
    }
}

proof fn lemma_file_gain(
    part: HFCacheInfo,
    whole: HFCacheInfo,
    d: int,
    targets: Set<Seq<char>>,
    r: int,
    i: int,
    k: int,
)
    requires
        embeds(part, whole, d),
        0 <= r < part.repos@.len(),
    ensures
        whole.file_gain(targets, r + d, i, k) == part.file_gain(targets, r, i, k),
    decreases k,
{
    assert(whole.repos@[r + d] == part.repos@[r]);
    if k > 0 {
        lemma_file_gain(part, whole, d, targets, r, i, k - 1);
        lemma_counts(part, whole, d, targets, r, i, k - 1);
    }
}

proof fn lemma_revision_gain(
    part: HFCacheInfo,
    whole: HFCacheInfo,
    d: int,
    targets: Set<Seq<char>>,
    r: int,
    i: int,
)
    requires
        embeds(part, whole, d),
        0 <= r < part.repos@.len(),
    ensures
        whole.revision_gain(targets, r + d, i) == part.revision_gain(targets, r, i),
    decreases i,
{
    assert(whole.repos@[r + d] == part.repos@[r]);
    if i > 0 {
        lemma_revision_gain(part, whole, d, targets, r, i - 1);
        lemma_file_gain(
            part,
            whole,
            d,
            targets,
            r,
            i - 1,
            part.revision_at(r, i - 1).files@.len() as int,
        );
    }
}

proof fn lemma_repo_gain(
    part: HFCacheInfo,
    whole: HFCacheInfo,
    d: int,
    targets: Set<Seq<char>>,
    r: int,
)
    requires
        embeds(part, whole, d),
        0 <= r <= part.repos@.len(),
    ensures
        whole.repo_gain(targets, r + d) == whole.repo_gain(targets, d) + part.repo_gain(targets, r),
    decreases r,
{
    if r > 0 {
        lemma_repo_gain(part, whole, d, targets, r - 1);
        lemma_wipes(part, whole, d, targets, r - 1);
        assert(whole.repos@[r - 1 + d] == part.repos@[r - 1]);
        lemma_revision_gain(
            part,
            whole,
            d,
            targets,
            r - 1,
            part.repos@[r - 1].revisions@.len() as int,
        );
    }
}

/// All that is planned for a part is planned for the whole.
proof fn lemma_part_is_planned(
    part: HFCacheInfo,
    whole: HFCacheInfo,
    d: int,
    targets: Set<Seq<char>>,
)
    requires
        embeds(part, whole, d),
    ensures
        part.planned_repos(targets).subset_of(whole.planned_repos(targets)),
        part.planned_locks(targets).subset_of(whole.planned_locks(targets)),
        part.planned_snapshots(targets).subset_of(whole.planned_snapshots(targets)),
        part.planned_refs(targets).subset_of(whole.planned_refs(targets)),
        part.planned_blobs(targets).subset_of(whole.planned_blobs(targets)),
{
    assert forall|r: int| #[trigger] part.wipes(targets, r) implies whole.wipes(targets, r + d)
        && whole.repos@[r + d] == part.repos@[r] by {
        lemma_wipes(part, whole, d, targets, r);
    }
    assert forall|r: int, i: int| #[trigger] part.prunes(targets, r, i) implies whole.prunes(
        targets,
        r + d,
        i,
    ) && whole.repos@[r + d] == part.repos@[r] by {
        lemma_wipes(part, whole, d, targets, r);
        assert(whole.prunes(targets, r + d, i) == part.prunes(targets, r, i));
    }
    assert forall|r: int, i: int, k: int| #[trigger]
        part.has_ref(r, i, k) && part.prunes(targets, r, i) implies whole.has_ref(r + d, i, k)
        && whole.prunes(targets, r + d, i) && whole.ref_at(r + d, i, k) == part.ref_at(
        r,
        i,
        k,
    ) by {
        assert(whole.repos@[r + d] == part.repos@[r]);
    }
    assert forall|r: int, i: int, k: int| #[trigger] part.frees(targets, r, i, k) implies whole.frees(
        targets,
        r + d,
        i,
        k,
    ) && whole.blob_at(r + d, i, k) == part.blob_at(r, i, k) by {
        lemma_frees(part, whole, d, targets, r, i, k);
        assert(whole.repos@[r + d] == part.repos@[r]);
    }
}

/// All that is planned for the whole on behalf of a repository of the part is
/// planned for the part.
proof fn lemma_planned_for_part(
    part: HFCacheInfo,
    whole: HFCacheInfo,
    d: int,
    targets: Set<Seq<char>>,
    s: int,
)
    requires
        embeds(part, whole, d),
        d <= s < d + part.repos@.len(),
    ensures
        whole.wipes(targets, s) ==> part.planned_repos(targets).contains(
            whole.repos@[s].repo_path.key(),
        ),
        whole.wipes(targets, s) ==> (whole.repos@[s].lock_text(whole.cache_dir@) matches Some(
            text,
        ) ==> part.planned_locks(targets).contains(crate::path::path_key(text))),
        forall|i: int| #[trigger]
            whole.prunes(targets, s, i) ==> part.planned_snapshots(targets).contains(
                whole.revision_at(s, i).snapshot_path.key(),
            ),
        forall|i: int, k: int| #[trigger]
            whole.has_ref(s, i, k) && whole.prunes(targets, s, i) ==> part.planned_refs(
                targets,
            ).contains(whole.ref_at(s, i, k)),
        forall|i: int, k: int| #[trigger]
            whole.frees(targets, s, i, k) ==> part.planned_blobs(targets).contains(
                whole.blob_at(s, i, k),
            ),
{
    let r = s - d;
    lemma_wipes(part, whole, d, targets, r);
    assert(whole.repos@[r + d] == part.repos@[r]);
    assert forall|i: int| #[trigger] whole.prunes(targets, s, i) implies part.prunes(
        targets,
        r,
        i,
    ) by {
        assert(whole.prunes(targets, r + d, i) == part.prunes(targets, r, i));
    }
    assert forall|i: int, k: int| #[trigger]
        whole.has_ref(s, i, k) && whole.prunes(targets, s, i) implies part.planned_refs(
        targets,
    ).contains(whole.ref_at(s, i, k)) by {
        assert(part.has_ref(r, i, k) && part.prunes(targets, r, i));
    }
    assert forall|i: int, k: int| #[trigger] whole.frees(targets, s, i, k) implies part.planned_blobs(
        targets,
    ).contains(whole.blob_at(s, i, k)) by {
        lemma_frees(part, whole, d, targets, r, i, k);
        assert(part.frees(targets, r, i, k));
    }
}

/// What is planned for the whole is what is planned for its parts.
proof fn lemma_planned_sets(
    whole: HFCacheInfo,
    left: HFCacheInfo,
    right: HFCacheInfo,
    targets: Set<Seq<char>>,
)
    requires
        consists_of(whole, left, right),
    ensures
        whole.planned_repos(targets) == left.planned_repos(targets).union(
            right.planned_repos(targets),
        ),
        whole.planned_locks(targets) == left.planned_locks(targets).union(
            right.planned_locks(targets),
        ),
        whole.planned_snapshots(targets) == left.planned_snapshots(targets).union(
            right.planned_snapshots(targets),
        ),
        whole.planned_refs(targets) == left.planned_refs(targets).union(
            right.planned_refs(targets),
        ),
        whole.planned_blobs(targets) == left.planned_blobs(targets).union(
            right.planned_blobs(targets),
        ),
{
    let n = left.repos@.len() as int;
    lemma_left_embeds(whole, left, right);
    lemma_right_embeds(whole, left, right);
    lemma_part_is_planned(left, whole, 0, targets);
    lemma_part_is_planned(right, whole, n, targets);
    assert forall|p: PathKey| #[trigger] whole.planned_repos(targets).contains(p) implies (
    left.planned_repos(targets).contains(p) || right.planned_repos(targets).contains(p)) by {
        let s = choose|s: int| #[trigger]
            whole.wipes(targets, s) && whole.repos@[s].repo_path.key() == p;
        if s < n {
            lemma_planned_for_part(left, whole, 0, targets, s);
        } else {
            lemma_planned_for_part(right, whole, n, targets, s);
        }
    }
    assert forall|p: PathKey| #[trigger] whole.planned_locks(targets).contains(p) implies (
    left.planned_locks(targets).contains(p) || right.planned_locks(targets).contains(p)) by {
        let s = choose|s: int| #[trigger]
            whole.wipes(targets, s) && (whole.repos@[s].lock_text(whole.cache_dir@) matches Some(
                text,
            ) && crate::path::path_key(text) == p);
        if s < n {
            lemma_planned_for_part(left, whole, 0, targets, s);
        } else {
            lemma_planned_for_part(right, whole, n, targets, s);
        }
    }
    assert forall|p: PathKey| #[trigger] whole.planned_snapshots(targets).contains(p) implies (
    left.planned_snapshots(targets).contains(p) || right.planned_snapshots(targets).contains(
        p,
    )) by {
        let (s, i) = choose|s: int, i: int| #[trigger]
            whole.prunes(targets, s, i) && whole.revision_at(s, i).snapshot_path.key() == p;
        if s < n {
            lemma_planned_for_part(left, whole, 0, targets, s);
        } else {
            lemma_planned_for_part(right, whole, n, targets, s);
        }
        assert(whole.prunes(targets, s, i));
    }
    assert forall|p: PathKey| #[trigger] whole.planned_refs(targets).contains(p) implies (
    left.planned_refs(targets).contains(p) || right.planned_refs(targets).contains(p)) by {
        let (s, i, k) = choose|s: int, i: int, k: int| #[trigger]
            whole.has_ref(s, i, k) && whole.prunes(targets, s, i) && whole.ref_at(s, i, k) == p;
        if s < n {
            lemma_planned_for_part(left, whole, 0, targets, s);
        } else {
            lemma_planned_for_part(right, whole, n, targets, s);
        }
        assert(whole.has_ref(s, i, k));
    }
    assert forall|p: PathKey| #[trigger] whole.planned_blobs(targets).contains(p) implies (
    left.planned_blobs(targets).contains(p) || right.planned_blobs(targets).contains(p)) by {
        let (s, i, k) = choose|s: int, i: int, k: int| #[trigger]
            whole.frees(targets, s, i, k) && whole.blob_at(s, i, k) == p;
        if s < n {
            lemma_planned_for_part(left, whole, 0, targets, s);
        } else {
            lemma_planned_for_part(right, whole, n, targets, s);
        }
        assert(whole.frees(targets, s, i, k));
    }
    assert(whole.planned_repos(targets) =~= left.planned_repos(targets).union(
        right.planned_repos(targets),
    ));
    assert(whole.planned_locks(targets) =~= left.planned_locks(targets).union(
        right.planned_locks(targets),
    ));
    assert(whole.planned_snapshots(targets) =~= left.planned_snapshots(targets).union(
        right.planned_snapshots(targets),
    ));
    assert(whole.planned_refs(targets) =~= left.planned_refs(targets).union(
        right.planned_refs(targets),
    ));
    assert(whole.planned_blobs(targets) =~= left.planned_blobs(targets).union(
        right.planned_blobs(targets),
    ));
}

/// The plan of a cache that consists of two unrelated parts is the plans of the
/// parts taken together: it removes what they remove, frees what they free, and
/// reports a hash as missing where both do.
pub proof fn plans_of_unrelated_parts_add_up(
    plan: DeleteCacheStrategy,
    left_plan: DeleteCacheStrategy,
    right_plan: DeleteCacheStrategy,
    whole: HFCacheInfo,
    left: HFCacheInfo,
    right: HFCacheInfo,
    targets: Set<Seq<char>>,
    lock_dirs: Set<PathKey>,
)
    requires
        consists_of(whole, left, right),
        plan.is_plan(whole, targets, lock_dirs),
        left_plan.is_plan(left, targets, lock_dirs),
        right_plan.is_plan(right, targets, lock_dirs),
    ensures
        plan.expected_freed_size == left_plan.expected_freed_size
            + right_plan.expected_freed_size,
        plan.repos@ == left_plan.repos@.union(right_plan.repos@),
        plan.locks@ == left_plan.locks@.union(right_plan.locks@),
        plan.snapshots@ == left_plan.snapshots@.union(right_plan.snapshots@),
        plan.refs@ == left_plan.refs@.union(right_plan.refs@),
        plan.blobs@ == left_plan.blobs@.union(right_plan.blobs@),
        forall|hash: Seq<char>| #[trigger]
            order::texts_of(plan.missing_revisions@).contains(hash) <==> order::texts_of(
                left_plan.missing_revisions@,
            ).contains(hash) && order::texts_of(right_plan.missing_revisions@).contains(hash),
{
    let n = left.repos@.len() as int;
    lemma_left_embeds(whole, left, right);
    lemma_right_embeds(whole, left, right);
    lemma_repo_gain(left, whole, 0, targets, n);
    lemma_repo_gain(right, whole, n, targets, right.repos@.len() as int);
    lemma_planned_sets(whole, left, right, targets);
    assert forall|hash: Seq<char>| #[trigger]
        whole.holds(hash) == (left.holds(hash) || right.holds(hash)) by {
        if whole.holds(hash) {
            let (s, i) = choose|s: int, i: int| #[trigger]
                whole.has_revision(s, i) && whole.hash_at(s, i) == hash;
            if s < n {
                assert(whole.repos@[s] == left.repos@[s]);
                assert(left.has_revision(s, i));
            } else {
                assert(whole.repos@[s] == right.repos@[s - n]);
                assert(right.has_revision(s - n, i));
            }
        }
        if left.holds(hash) {
            let (r, i) = choose|r: int, i: int| #[trigger]
                left.has_revision(r, i) && left.hash_at(r, i) == hash;
            assert(whole.repos@[r] == left.repos@[r]);
            assert(whole.has_revision(r, i));
        }
        if right.holds(hash) {
            let (r, i) = choose|r: int, i: int| #[trigger]
                right.has_revision(r, i) && right.hash_at(r, i) == hash;
            assert(whole.repos@[r + n] == right.repos@[r]);
            assert(whole.has_revision(r + n, i));
        }
    }
}

} // verus!
