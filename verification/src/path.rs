//! Cache paths in POSIX syntax.
//!
//! This is the library's own way to write a path. Where a platform writes paths
//! otherwise, they are rewritten on the way in and out, component by component.
//!
//! A path is the bytes it is written with. Two spellings name the same path
//! when they agree on being rooted and on their components: runs of `/`, a
//! trailing `/` and every `.` that does not open the path are spelling only.

use vstd::prelude::*;
#[allow(unused_imports)]
use vstd::string::*;
#[allow(unused_imports)]
use vstd::utf8::*;

verus! {

/// The byte `/`, which separates components.
pub const SEPARATOR: u8 = 0x2f;

/// The byte `.`.
pub const DOT: u8 = 0x2e;

/// What a spelling stands for: whether it starts at the root, and its
/// components from left to right.
#[verifier::ext_equal]
pub struct PathKey {
    pub rooted: bool,
    pub names: Seq<Seq<u8>>,
}

/// The pieces of `text` between separators, empty ones included. There is
/// always one piece more than there are separators.
pub open spec fn pieces(text: Seq<u8>) -> Seq<Seq<u8>>
    decreases text.len(),
{
    if text.len() == 0 {
        seq![Seq::empty()]
    } else {
        let before = pieces(text.drop_last());
        if text.last() == SEPARATOR {
            before.push(Seq::empty())
        } else {
            before.drop_last().push(before.last().push(text.last()))
        }
    }
}

/// Whether a piece is a component: it is not empty, and it is not a `.`
/// behind the first piece.
pub open spec fn is_component(piece: Seq<u8>, first: bool) -> bool {
    piece.len() > 0 && (first || piece != seq![DOT])
}

/// The components among `parts`, in order.
pub open spec fn components_among(parts: Seq<Seq<u8>>) -> Seq<Seq<u8>>
    decreases parts.len(),
{
    if parts.len() == 0 {
        Seq::empty()
    } else {
        let before = components_among(parts.drop_last());
        if is_component(parts.last(), parts.len() == 1) {
            before.push(parts.last())
        } else {
            before
        }
    }
}

/// Whether `text` starts at the root.
pub open spec fn is_rooted(text: Seq<u8>) -> bool {
    text.len() > 0 && text[0] == SEPARATOR
}

/// The path that `text` spells.
pub open spec fn path_key(text: Seq<u8>) -> PathKey {
    PathKey { rooted: is_rooted(text), names: components_among(pieces(text)) }
}

/// `base` followed by `relative`, with one separator between them. A rooted
/// right-hand side replaces the base.
pub open spec fn joined(base: Seq<u8>, relative: Seq<u8>) -> Seq<u8> {
    if is_rooted(relative) {
        relative
    } else if base.len() > 0 && base.last() != SEPARATOR {
        base.push(SEPARATOR) + relative
    } else {
        base + relative
    }
}

/// The last component, unless it is `.` or `..` or there is none.
pub open spec fn final_name(key: PathKey) -> Option<Seq<u8>> {
    if key.names.len() > 0 && key.names.last() != seq![DOT] && key.names.last() != seq![DOT, DOT] {
        Some(key.names.last())
    } else {
        None
    }
}

/// Whether two byte strings are equal.
pub(crate) fn same_bytes(left: &[u8], right: &[u8]) -> (same: bool)
    ensures
        same == (left@ == right@),
{
    if left.len() != right.len() {
        return false;
    }
    let mut i: usize = 0;
    while i < left.len()
        invariant
            i <= left.len(),
            left@.len() == right@.len(),
            forall|j: int| 0 <= j < i ==> left@[j] == right@[j],
        decreases left.len() - i,
    {
        if left[i] != right[i] {
            return false;
        }
        i += 1;
    }
    assert(left@ =~= right@);
    true
}

/// A copy of a byte string.
pub(crate) fn copy_bytes(bytes: &[u8]) -> (copy: Vec<u8>)
    ensures
        copy@ == bytes@,
{
    let mut copy: Vec<u8> = Vec::new();
    let mut i: usize = 0;
    while i < bytes.len()
        invariant
            i <= bytes.len(),
            copy@ == bytes@.take(i as int),
        decreases bytes.len() - i,
    {
        copy.push(bytes[i]);
        i += 1;
        assert(bytes@.take(i as int) =~= bytes@.take(i - 1).push(bytes@[i - 1]));
    }
    assert(bytes@.take(i as int) =~= bytes@);
    copy
}

/// A path, kept as it was written.
#[derive(Debug)]
pub struct CachePath {
    pub bytes: Vec<u8>,
}

impl View for CachePath {
    type V = Seq<u8>;

    open spec fn view(&self) -> Seq<u8> {
        self.bytes@
    }
}

impl CachePath {
    /// The path that this value spells.
    pub open spec fn key(self) -> PathKey {
        path_key(self@)
    }

    /// The path written as `text`.
    pub fn new(text: &str) -> (path: CachePath)
        ensures
            path@ == encode_utf8(text@),
    {
        CachePath { bytes: copy_bytes(text.as_bytes()) }
    }

    /// The components, from left to right.
    pub fn components(&self) -> (names: Vec<Vec<u8>>)
        ensures
            names@.map_values(|name: Vec<u8>| name@) == self.key().names,
    {
        let ghost spell = |name: Vec<u8>| name@;
        let mut names: Vec<Vec<u8>> = Vec::new();
        let mut piece: Vec<u8> = Vec::new();
        let mut first: bool = true;
        let mut i: usize = 0;
        assert(pieces(self@.take(0)) =~= seq![Seq::<u8>::empty()]);
        assert(pieces(self@.take(0)).drop_last() =~= Seq::empty());
        while i < self.bytes.len()
            invariant
                i <= self.bytes@.len(),
                spell == (|name: Vec<u8>| name@),
                pieces(self@.take(i as int)).len() > 0,
                piece@ == pieces(self@.take(i as int)).last(),
                first == (pieces(self@.take(i as int)).len() == 1),
                names@.map_values(spell) == components_among(
                    pieces(self@.take(i as int)).drop_last(),
                ),
            decreases self.bytes.len() - i,
        {
            let byte: u8 = self.bytes[i];
            let ghost before = pieces(self@.take(i as int));
            let ghost after = pieces(self@.take(i + 1));
            proof {
                assert(self@.take(i + 1).drop_last() =~= self@.take(i as int));
                assert(self@.take(i + 1).last() == byte);
            }
            if byte == SEPARATOR {
                let ended: Vec<u8> = piece;
                piece = Vec::new();
                assert(after.drop_last() =~= before);
                let ghost shown = names@;
                if is_component_exec(&ended, first) {
                    names.push(ended);
                    assert(names@.map_values(spell) =~= shown.map_values(spell).push(ended@));
                }
                first = false;
            } else {
                piece.push(byte);
                assert(after.drop_last() =~= before.drop_last());
            }
            i += 1;
        }
        assert(self@.take(i as int) =~= self@);
        let ghost shown = names@;
        if is_component_exec(&piece, first) {
            names.push(piece);
            assert(names@.map_values(spell) =~= shown.map_values(spell).push(piece@));
        }
        names
    }

    /// Whether both values spell the same path.
    pub fn same_path(&self, other: &CachePath) -> (same: bool)
        ensures
            same == (self.key() == other.key()),
    {
        if self.rooted() != other.rooted() {
            return false;
        }
        let left: Vec<Vec<u8>> = self.components();
        let right: Vec<Vec<u8>> = other.components();
        let ghost spell = |name: Vec<u8>| name@;
        proof {
            assert(left@.map_values(spell).len() == left@.len());
            assert(right@.map_values(spell).len() == right@.len());
        }
        if left.len() != right.len() {
            return false;
        }
        let mut i: usize = 0;
        while i < left.len()
            invariant
                i <= left@.len(),
                left@.len() == right@.len(),
                spell == (|name: Vec<u8>| name@),
                left@.map_values(spell) == self.key().names,
                right@.map_values(spell) == other.key().names,
                forall|j: int| 0 <= j < i ==> (#[trigger] left@[j])@ == right@[j]@,
            decreases left.len() - i,
        {
            if !same_bytes(left[i].as_slice(), right[i].as_slice()) {
                proof {
                    assert(left@.map_values(spell)[i as int] == left@[i as int]@);
                    assert(right@.map_values(spell)[i as int] == right@[i as int]@);
                }
                return false;
            }
            i += 1;
        }
        assert(left@.map_values(spell) =~= right@.map_values(spell));
        true
    }

    /// Whether the path starts at the root.
    pub fn rooted(&self) -> (rooted: bool)
        ensures
            rooted == self.key().rooted,
    {
        self.bytes.len() > 0 && self.bytes[0] == SEPARATOR
    }

    /// This path followed by `relative`; a rooted `relative` takes its place.
    pub fn join(&self, relative: &[u8]) -> (path: CachePath)
        ensures
            path@ == joined(self@, relative@),
    {
        if relative.len() > 0 && relative[0] == SEPARATOR {
            return CachePath { bytes: copy_bytes(relative) };
        }
        let mut bytes: Vec<u8> = copy_bytes(self.bytes.as_slice());
        if bytes.len() > 0 && bytes[bytes.len() - 1] != SEPARATOR {
            bytes.push(SEPARATOR);
        }
        let mut tail: Vec<u8> = copy_bytes(relative);
        bytes.append(&mut tail);
        CachePath { bytes }
    }

    /// The last component, unless it is `.` or `..` or there is none.
    pub fn file_name(&self) -> (name: Option<Vec<u8>>)
        ensures
            match name {
                Some(bytes) => final_name(self.key()) == Some(bytes@),
                None => final_name(self.key()) is None,
            },
    {
        let mut names: Vec<Vec<u8>> = self.components();
        let ghost spell = |name: Vec<u8>| name@;
        proof {
            assert(names@.map_values(spell).len() == names@.len());
        }
        match names.pop() {
            None => None,
            Some(last) => {
                assert(last@ == self.key().names.last());
                if last.len() == 1 && last[0] == DOT {
                    assert(last@ =~= seq![DOT]);
                    return None;
                }
                if last.len() == 2 && last[0] == DOT && last[1] == DOT {
                    assert(last@ =~= seq![DOT, DOT]);
                    return None;
                }
                proof {
                    assert(seq![DOT].len() == 1 && seq![DOT][0] == DOT);
                    assert(seq![DOT, DOT].len() == 2 && seq![DOT, DOT][0] == DOT && seq![
                        DOT,
                        DOT,
                    ][1] == DOT);
                }
                Some(last)
            },
        }
    }
}

impl Clone for CachePath {
    /// A copy, spelled the same way.
    fn clone(&self) -> (copy: CachePath)
        ensures
            copy@ == self@,
    {
        CachePath { bytes: copy_bytes(self.bytes.as_slice()) }
    }
}

impl PartialEq for CachePath {
    fn eq(&self, other: &CachePath) -> (same: bool) {
        self.same_path(other)
    }
}

impl vstd::std_specs::cmp::PartialEqSpecImpl for CachePath {
    open spec fn obeys_eq_spec() -> bool {
        true
    }

    open spec fn eq_spec(&self, other: &CachePath) -> bool {
        self.key() == other.key()
    }
}

/// Decides `is_component`.
fn is_component_exec(piece: &Vec<u8>, first: bool) -> (kept: bool)
    ensures
        kept == is_component(piece@, first),
{
    if piece.len() == 0 {
        return false;
    }
    if first {
        return true;
    }
    if piece.len() == 1 && piece[0] == DOT {
        assert(piece@ =~= seq![DOT]);
        return false;
    }
    assert(piece@ != seq![DOT]) by {
        assert(seq![DOT].len() == 1);
        assert(seq![DOT][0] == DOT);
    }
    true
}

/// A name without separators extends the last piece.
proof fn lemma_pieces_extend(text: Seq<u8>, name: Seq<u8>)
    requires
        forall|i: int| 0 <= i < name.len() ==> (#[trigger] name[i]) != SEPARATOR,
    ensures
        pieces(text).len() > 0,
        pieces(text + name) == pieces(text).drop_last().push(pieces(text).last() + name),
    decreases text.len() + name.len(),
{
    if name.len() > 0 {
        lemma_pieces_extend(text, name.drop_last());
        assert((text + name).drop_last() =~= text + name.drop_last());
        let before = pieces(text + name.drop_last());
        assert((text + name).last() == name[name.len() - 1]);
        assert(pieces(text).last() + name =~= (pieces(text).last() + name.drop_last()).push(
            name.last(),
        ));
        assert(before.drop_last() =~= pieces(text).drop_last());
    } else {
        if text.len() > 0 {
            lemma_pieces_extend(text.drop_last(), Seq::empty());
        }
        assert(text + name =~= text);
        assert(pieces(text).last() + name =~= pieces(text).last());
        assert(pieces(text).drop_last().push(pieces(text).last()) =~= pieces(text));
    }
}

/// Joining a plain name adds it as the last component and changes nothing else
/// of the path.
pub proof fn joining_a_name_adds_a_component(base: Seq<u8>, name: Seq<u8>)
    requires
        name.len() > 0,
        name != seq![DOT],
        forall|i: int| 0 <= i < name.len() ==> (#[trigger] name[i]) != SEPARATOR,
    ensures
        path_key(joined(base, name)) == (PathKey {
            rooted: path_key(base).rooted,
            names: path_key(base).names.push(name),
        }),
{
    assert(name[0] != SEPARATOR);
    let none = Seq::<u8>::empty();
    if base.len() == 0 {
        assert(joined(base, name) =~= base + name);
        lemma_pieces_extend(base, name);
        assert(none + name =~= name);
        assert(pieces(base).drop_last() =~= Seq::empty());
        assert(pieces(base + name) =~= seq![name]);
        assert(seq![name].drop_last() =~= Seq::empty());
        assert(components_among(Seq::empty()) =~= Seq::empty());
        assert(components_among(seq![none]) =~= Seq::empty()) by {
            assert(seq![none].drop_last() =~= Seq::empty());
        }
    } else {
        let text = if base.last() != SEPARATOR {
            base.push(SEPARATOR)
        } else {
            base
        };
        let earlier = pieces(text.drop_last());
        lemma_pieces_extend(text.drop_last(), none);
        lemma_pieces_extend(text, name);
        assert(none + name =~= name);
        assert(pieces(text) =~= earlier.push(none));
        assert(pieces(text).drop_last() =~= earlier);
        assert(pieces(text + name) =~= earlier.push(name));
        assert(earlier.push(name).drop_last() =~= earlier);
        assert(earlier.push(none).drop_last() =~= earlier);
        if base.last() != SEPARATOR {
            assert(text.drop_last() =~= base);
        }
        assert((text + name)[0] == base[0]);
    }
}

proof fn lemma_pieces_are_plain(text: Seq<u8>, n: int, i: int)
    requires
        0 <= n < pieces(text).len(),
        0 <= i < pieces(text)[n].len(),
    ensures
        pieces(text)[n][i] != SEPARATOR,
    decreases text.len(),
{
    if text.len() > 0 {
        let before = pieces(text.drop_last());
        lemma_pieces_extend(text.drop_last(), Seq::empty());
        if n < before.len() && i < before[n].len() {
            lemma_pieces_are_plain(text.drop_last(), n, i);
        }
    }
}

proof fn lemma_components_are_pieces(parts: Seq<Seq<u8>>, n: int)
    requires
        0 <= n < components_among(parts).len(),
    ensures
        components_among(parts)[n].len() > 0,
        exists|m: int| 0 <= m < parts.len() && #[trigger] parts[m] == components_among(parts)[n],
    decreases parts.len(),
{
    let before = components_among(parts.drop_last());
    if n < before.len() {
        lemma_components_are_pieces(parts.drop_last(), n);
        let m = choose|m: int|
            0 <= m < parts.drop_last().len() && #[trigger] parts.drop_last()[m] == before[n];
        assert(parts[m] == before[n]);
    } else {
        assert(parts[parts.len() - 1] == parts.last());
    }
}

/// A component is never empty and holds no separator.
pub proof fn components_are_plain(text: Seq<u8>, n: int)
    requires
        0 <= n < path_key(text).names.len(),
    ensures
        path_key(text).names[n].len() > 0,
        forall|i: int|
            0 <= i < path_key(text).names[n].len() ==> (#[trigger] path_key(text).names[n][i])
                != SEPARATOR,
{
    lemma_components_are_pieces(pieces(text), n);
    let name = path_key(text).names[n];
    let m = choose|m: int| 0 <= m < pieces(text).len() && #[trigger] pieces(text)[m] == name;
    assert forall|i: int| 0 <= i < name.len() implies (#[trigger] name[i]) != SEPARATOR by {
        lemma_pieces_are_plain(text, m, i);
    }
}

/// Whether `key` is `root` or stands somewhere below it.
pub open spec fn lies_in(key: PathKey, root: PathKey) -> bool {
    &&& key.rooted == root.rooted
    &&& root.names.len() <= key.names.len()
    &&& forall|i: int| 0 <= i < root.names.len() ==> key.names[i] == #[trigger] root.names[i]
}

/// The entry `name` of the directory `root`.
pub open spec fn child(root: PathKey, name: Seq<u8>) -> PathKey {
    PathKey { rooted: root.rooted, names: root.names.push(name) }
}

/// All but the last piece stay as they are when text is added.
proof fn lemma_pieces_stay(text: Seq<u8>, more: Seq<u8>)
    ensures
        pieces(text).len() <= pieces(text + more).len(),
        forall|i: int|
            0 <= i < pieces(text).len() - 1 ==> pieces(text + more)[i] == #[trigger] pieces(
                text,
            )[i],
    decreases more.len(),
{
    lemma_pieces_extend(text, Seq::empty());
    if more.len() > 0 {
        lemma_pieces_stay(text, more.drop_last());
        assert((text + more).drop_last() =~= text + more.drop_last());
        lemma_pieces_extend(text + more.drop_last(), Seq::empty());
    } else {
        assert(text + more =~= text);
    }
}

/// More pieces only add components.
proof fn lemma_components_stay(parts: Seq<Seq<u8>>, more: Seq<Seq<u8>>)
    requires
        parts.len() <= more.len(),
        forall|i: int| 0 <= i < parts.len() ==> more[i] == #[trigger] parts[i],
    ensures
        components_among(parts).len() <= components_among(more).len(),
        forall|i: int|
            0 <= i < components_among(parts).len() ==> components_among(more)[i]
                == #[trigger] components_among(parts)[i],
    decreases more.len(),
{
    if parts.len() < more.len() {
        lemma_components_stay(parts, more.drop_last());
    } else {
        assert(parts =~= more);
    }
}

/// Joining anything that is not rooted leads to a place below the base.
pub proof fn joining_stays_below(base: Seq<u8>, relative: Seq<u8>)
    requires
        !is_rooted(relative),
    ensures
        lies_in(path_key(joined(base, relative)), path_key(base)),
{
    let none = Seq::<u8>::empty();
    if base.len() == 0 {
        assert(joined(base, relative) =~= relative);
        assert(components_among(Seq::empty()) =~= Seq::empty());
        assert(components_among(seq![none]) =~= Seq::empty()) by {
            assert(seq![none].drop_last() =~= Seq::empty());
        }
    } else {
        let text = if base.last() != SEPARATOR {
            base.push(SEPARATOR)
        } else {
            base
        };
        let earlier = pieces(text.drop_last());
        let all = pieces(text + relative);
        lemma_pieces_stay(text, relative);
        assert(pieces(text) =~= earlier.push(none));
        assert forall|i: int| 0 <= i < earlier.len() implies all[i] == #[trigger] earlier[i] by {
            assert(pieces(text)[i] == earlier[i]);
        }
        lemma_components_stay(earlier, all);
        if base.last() != SEPARATOR {
            assert(text.drop_last() =~= base);
        } else {
            assert(earlier.push(none).drop_last() =~= earlier);
        }
        assert((text + relative)[0] == base[0]);
    }
}

/// A value is spelled by its bytes, and stands for the path that they spell.
pub proof fn paths_are_their_bytes(path: CachePath)
    ensures
        path@ == path.bytes@,
        path.key() == path_key(path.bytes@),
{
}

/// A text starts at the root exactly if its first byte is `/`.
pub proof fn a_leading_slash_roots(text: Seq<u8>)
    ensures
        path_key(text).rooted <==> text.len() > 0 && text[0] == 0x2f,
{
}

/// A text without `/` is one component, whatever it is, unless it is empty.
pub proof fn a_text_without_slashes_is_one_name(name: Seq<u8>)
    requires
        forall|i: int| 0 <= i < name.len() ==> (#[trigger] name[i]) != 0x2f,
    ensures
        !path_key(name).rooted,
        path_key(name).names == if name.len() == 0 {
            Seq::<Seq<u8>>::empty()
        } else {
            seq![name]
        },
{
    let none = Seq::<u8>::empty();
    lemma_pieces_extend(none, name);
    assert(none + name =~= name);
    assert(pieces(none) =~= seq![none]);
    assert(pieces(name) =~= seq![name]);
    assert(seq![name].drop_last() =~= Seq::empty());
    assert(components_among(Seq::empty()) =~= Seq::empty());
    assert(components_among(seq![name]) =~= if name.len() == 0 {
        Seq::<Seq<u8>>::empty()
    } else {
        seq![name]
    });
}

/// What follows the last `/` of a text is one more component, unless it is
/// empty or `.`; all that comes before is as it would be alone.
pub proof fn the_last_slash_adds_a_name(before: Seq<u8>, name: Seq<u8>)
    requires
        forall|i: int| 0 <= i < name.len() ==> (#[trigger] name[i]) != 0x2f,
    ensures
        path_key(before + seq![0x2fu8] + name).rooted <==> before.len() == 0 || before[0] == 0x2f,
        path_key(before + seq![0x2fu8] + name).names == if name.len() == 0 || name == seq![0x2eu8] {
            path_key(before).names
        } else {
            path_key(before).names.push(name)
        },
{
    let text = before.push(SEPARATOR);
    let none = Seq::<u8>::empty();
    assert(before + seq![0x2fu8] + name =~= text + name);
    assert(text.drop_last() =~= before);
    lemma_pieces_extend(before, none);
    lemma_pieces_extend(text, name);
    assert(none + name =~= name);
    assert(pieces(text) =~= pieces(before).push(none));
    assert(pieces(text).drop_last() =~= pieces(before));
    assert(pieces(text + name) =~= pieces(before).push(name));
    assert(pieces(before).push(name).drop_last() =~= pieces(before));
    assert(pieces(before).push(name).last() == name);
    assert((text + name)[0] == text[0]);
}

/// A path joined to a base follows it behind one `/`, which is added where the
/// base is neither empty nor ends with one; a rooted path takes the base's place.
pub proof fn joining_puts_one_slash_between(base: Seq<u8>, relative: Seq<u8>)
    ensures
        relative.len() > 0 && relative[0] == 0x2f ==> joined(base, relative) == relative,
        !(relative.len() > 0 && relative[0] == 0x2f) && (base.len() == 0 || base[base.len() - 1]
            == 0x2f) ==> joined(base, relative) == base + relative,
        !(relative.len() > 0 && relative[0] == 0x2f) && base.len() > 0 && base[base.len() - 1]
            != 0x2f ==> joined(base, relative) == base + seq![0x2fu8] + relative,
{
    assert(base.push(SEPARATOR) =~= base + seq![0x2fu8]);
}

/// A path has a name exactly if it has components and the last is neither `.`
/// nor `..`; the name is then that component.
pub proof fn the_last_component_is_the_name(key: PathKey)
    ensures
        final_name(key) is Some <==> key.names.len() > 0 && key.names[key.names.len() - 1] != seq![
            0x2eu8,
        ] && key.names[key.names.len() - 1] != seq![0x2eu8, 0x2eu8],
        final_name(key) matches Some(name) ==> name == key.names[key.names.len() - 1],
{
}

} // verus!
