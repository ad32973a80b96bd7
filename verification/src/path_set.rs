//! A set of paths that remembers the order of insertion.

use crate::path::{CachePath, PathKey};
use vstd::prelude::*;

verus! {

/// Paths without repetition. Two spellings of one path count as the same
/// member; the one that came first is kept.
#[derive(Debug)]
pub struct PathSet {
    members: Vec<CachePath>,
}

impl View for PathSet {
    type V = Set<PathKey>;

    open spec fn view(&self) -> Set<PathKey> {
        self.keys().to_set()
    }
}

impl PathSet {
    /// The members as they are spelled, in the order of insertion.
    pub closed spec fn spellings(self) -> Seq<Seq<u8>> {
        self.members@.map_values(|path: CachePath| path@)
    }

    /// The members as paths, in the order of insertion.
    pub open spec fn keys(self) -> Seq<PathKey> {
        self.spellings().map_values(|text: Seq<u8>| crate::path::path_key(text))
    }

    /// No path is a member twice.
    #[verifier::type_invariant]
    spec fn wf(self) -> bool {
        self.keys().no_duplicates()
    }

    /// The set without members.
    pub fn new() -> (set: PathSet)
        ensures
            set@ == Set::<PathKey>::empty(),
            set.spellings().len() == 0,
    {
        let set = PathSet { members: Vec::new() };
        assert(set@ =~= Set::<PathKey>::empty());
        set
    }

    /// How many paths are members.
    pub fn len(&self) -> (count: usize)
        ensures
            count == self@.len(),
            count == self.spellings().len(),
    {
        proof {
            use_type_invariant(self);
            self.keys().unique_seq_to_set();
        }
        self.members.len()
    }

    /// Whether there are no members.
    pub fn is_empty(&self) -> (empty: bool)
        ensures
            empty == (self@ == Set::<PathKey>::empty()),
            empty == (self.spellings().len() == 0),
    {
        proof {
            if self.members@.len() > 0 {
                assert(self.keys().contains(self.keys()[0]));
                assert(self@.contains(self.keys()[0]));
            } else {
                assert(self@ =~= Set::<PathKey>::empty());
            }
        }
        self.members.len() == 0
    }

    /// The member at `index`, in the order of insertion.
    pub fn get(&self, index: usize) -> (path: &CachePath)
        requires
            index < self.spellings().len(),
        ensures
            path@ == self.spellings()[index as int],
            self@.contains(path.key()),
    {
        proof {
            assert(self.keys().contains(self.keys()[index as int]));
        }
        &self.members[index]
    }

    /// Whether `path` is a member, however it is spelled.
    pub fn contains(&self, path: &CachePath) -> (found: bool)
        ensures
            found == self@.contains(path.key()),
    {
        let mut i: usize = 0;
        while i < self.members.len()
            invariant
                i <= self.members@.len(),
                forall|j: int| 0 <= j < i ==> (#[trigger] self.keys()[j]) != path.key(),
            decreases self.members.len() - i,
        {
            if self.members[i].same_path(path) {
                proof {
                    assert(self.keys()[i as int] == path.key());
                    assert(self.keys().contains(path.key()));
                }
                return true;
            }
            assert(self.keys()[i as int] == self.members@[i as int].key());
            i += 1;
        }
        false
    }

    /// Makes `path` a member and says whether it was not one before. A path
    /// that was a member keeps its first spelling.
    pub fn insert(&mut self, path: CachePath) -> (fresh: bool)
        ensures
            final(self)@ == old(self)@.insert(path.key()),
            fresh == !old(self)@.contains(path.key()),
            final(self).spellings() == if fresh {
                old(self).spellings().push(path@)
            } else {
                old(self).spellings()
            },
    {
        if self.contains(&path) {
            assert(old(self)@ =~= old(self)@.insert(path.key()));
            return false;
        }
        proof {
            use_type_invariant(&*self);
        }
        let ghost before = *self;
        let mut members: Vec<CachePath> = Vec::new();
        std::mem::swap(&mut self.members, &mut members);
        let ghost key = path.key();
        let ghost text = path@;
        members.push(path);
        proof {
            let after = PathSet { members };
            assert(after.spellings() =~= before.spellings().push(text));
            assert(after.keys() =~= before.keys().push(key));
            assert(!before.keys().contains(key));
            assert forall|i: int, j: int|
                0 <= i < after.keys().len() && 0 <= j < after.keys().len() && i
                    != j implies after.keys()[i] != after.keys()[j] by {
                if i == before.keys().len() {
                    assert(before.keys().contains(before.keys()[j]));
                } else if j == before.keys().len() {
                    assert(before.keys().contains(before.keys()[i]));
                }
            }
            assert forall|other: PathKey|
                after@.contains(other) == before@.insert(key).contains(other) by {
                if before.keys().contains(other) {
                    let i = choose|i: int|
                        0 <= i < before.keys().len() && before.keys()[i] == other;
                    assert(after.keys()[i] == other);
                }
                assert(after.keys()[before.keys().len() as int] == key);
                if after.keys().contains(other) {
                    let i = choose|i: int| 0 <= i < after.keys().len() && after.keys()[i] == other;
                    if i < before.keys().len() {
                        assert(before.keys()[i] == other);
                    }
                }
            }
            assert(after@ =~= before@.insert(key));
        }
        self.members = members;
        true
    }
}

impl Clone for PathSet {
    /// A copy with the same members, spelled and ordered the same way.
    fn clone(&self) -> (copy: PathSet)
        ensures
            copy@ == self@,
            copy.spellings() == self.spellings(),
    {
        proof {
            use_type_invariant(self);
        }
        let mut members: Vec<CachePath> = Vec::new();
        let mut i: usize = 0;
        while i < self.members.len()
            invariant
                i <= self.members@.len(),
                members@.len() == i,
                forall|j: int| 0 <= j < i ==> (#[trigger] members@[j])@ == self.members@[j]@,
            decreases self.members.len() - i,
        {
            members.push(self.members[i].clone());
            i += 1;
        }
        proof {
            let copy = PathSet { members };
            assert(copy.spellings() =~= self.spellings());
        }
        PathSet { members }
    }
}

/// A path is a member exactly if one of the spellings on the list spells it.
pub proof fn members_are_what_is_spelled(set: PathSet, key: PathKey)
    ensures
        set@.contains(key) <==> exists|n: int|
            0 <= n < set.spellings().len() && crate::path::path_key(#[trigger] set.spellings()[n])
                == key,
{
    if set@.contains(key) {
        let n = choose|n: int| 0 <= n < set.keys().len() && set.keys()[n] == key;
        assert(crate::path::path_key(set.spellings()[n]) == key);
    }
    if exists|n: int|
        0 <= n < set.spellings().len() && crate::path::path_key(#[trigger] set.spellings()[n])
            == key {
        let n = choose|n: int|
            0 <= n < set.spellings().len() && crate::path::path_key(#[trigger] set.spellings()[n])
                == key;
        assert(set.keys()[n] == key);
        assert(set.keys().contains(key));
    }
}

} // verus!
