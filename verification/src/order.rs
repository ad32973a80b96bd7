//! Strings in byte order, and sorted lists of them.

use crate::path::same_bytes;
use vstd::prelude::*;
#[allow(unused_imports)]
use vstd::string::*;
#[allow(unused_imports)]
use vstd::utf8::*;

verus! {

/// Whether `left` comes strictly before `right` in the lexicographic order of
/// byte strings.
pub open spec fn bytes_before(left: Seq<u8>, right: Seq<u8>) -> bool
    decreases left.len(),
{
    if right.len() == 0 {
        false
    } else if left.len() == 0 {
        true
    } else if left[0] == right[0] {
        bytes_before(left.drop_first(), right.drop_first())
    } else {
        left[0] < right[0]
    }
}

/// Whether `left` comes strictly before `right`, by the bytes of their UTF-8
/// encodings.
pub open spec fn text_before(left: Seq<char>, right: Seq<char>) -> bool {
    bytes_before(encode_utf8(left), encode_utf8(right))
}

/// Whether every text comes strictly before all later ones.
pub open spec fn strictly_sorted(texts: Seq<Seq<char>>) -> bool {
    forall|i: int, j: int|
        0 <= i < j < texts.len() ==> text_before(#[trigger] texts[i], #[trigger] texts[j])
}

/// What the strings of a list hold.
pub open spec fn texts_of(list: Seq<String>) -> Seq<Seq<char>> {
    list.map_values(|text: String| text@)
}

proof fn lemma_bytes_irreflexive(text: Seq<u8>)
    ensures
        !bytes_before(text, text),
    decreases text.len(),
{
    if text.len() > 0 {
        lemma_bytes_irreflexive(text.drop_first());
    }
}

proof fn lemma_bytes_transitive(a: Seq<u8>, b: Seq<u8>, c: Seq<u8>)
    requires
        bytes_before(a, b),
        bytes_before(b, c),
    ensures
        bytes_before(a, c),
    decreases a.len(),
{
    if a.len() > 0 && a[0] == b[0] && b[0] == c[0] {
        lemma_bytes_transitive(a.drop_first(), b.drop_first(), c.drop_first());
    }
}

proof fn lemma_bytes_total(a: Seq<u8>, b: Seq<u8>)
    ensures
        a == b || bytes_before(a, b) || bytes_before(b, a),
    decreases a.len(),
{
    if a.len() == 0 || b.len() == 0 {
        if a.len() == b.len() {
            assert(a =~= b);
        }
    } else if a[0] == b[0] {
        lemma_bytes_total(a.drop_first(), b.drop_first());
        if a.drop_first() == b.drop_first() {
            assert(a =~= seq![a[0]] + a.drop_first());
            assert(b =~= seq![b[0]] + b.drop_first());
        }
    }
}

/// Different texts are ordered one way or the other.
proof fn lemma_text_total(a: Seq<char>, b: Seq<char>)
    requires
        a != b,
    ensures
        text_before(a, b) || text_before(b, a),
{
    lemma_bytes_total(encode_utf8(a), encode_utf8(b));
    encode_utf8_decode_utf8(a);
    encode_utf8_decode_utf8(b);
}

/// Strictly sorted lists with the same members are equal.
pub proof fn sorted_lists_agree(left: Seq<Seq<char>>, right: Seq<Seq<char>>)
    requires
        strictly_sorted(left),
        strictly_sorted(right),
        forall|text: Seq<char>| left.contains(text) <==> right.contains(text),
    ensures
        left == right,
    decreases left.len(),
{
    if left.len() == 0 {
        if right.len() > 0 {
            assert(right.contains(right[0]));
        }
        assert(left =~= right);
    } else {
        assert(left.contains(left.last()));
        let n = left.len() - 1;
        let m = right.len() - 1;
        let i = choose|i: int| 0 <= i < right.len() && right[i] == left.last();
        assert(right.contains(right.last()));
        let k = choose|k: int| 0 <= k < left.len() && left[k] == right.last();
        if i < m {
            assert(text_before(right[i], right[m]));
            if k < n {
                assert(text_before(left[k], left[n]));
                lemma_bytes_transitive(
                    encode_utf8(left[n]),
                    encode_utf8(right[m]),
                    encode_utf8(left[n]),
                );
            }
            lemma_bytes_irreflexive(encode_utf8(left[n]));
        }
        assert(right.last() == left.last());
        let a = left.drop_last();
        let b = right.drop_last();
        assert forall|text: Seq<char>| a.contains(text) <==> b.contains(text) by {
            lemma_bytes_irreflexive(encode_utf8(left.last()));
            if a.contains(text) {
                let p = choose|p: int| 0 <= p < a.len() && a[p] == text;
                assert(left[p] == text);
                assert(text_before(left[p], left[n]));
                assert(left.contains(text));
                let q = choose|q: int| 0 <= q < right.len() && right[q] == text;
                assert(q < m);
                assert(b[q] == text);
            }
            if b.contains(text) {
                let p = choose|p: int| 0 <= p < b.len() && b[p] == text;
                assert(right[p] == text);
                assert(text_before(right[p], right[m]));
                assert(right.contains(text));
                let q = choose|q: int| 0 <= q < left.len() && left[q] == text;
                assert(q < n);
                assert(a[q] == text);
            }
        }
        sorted_lists_agree(a, b);
        assert(left =~= a.push(left.last()));
        assert(right =~= b.push(right.last()));
    }
}

/// Decides `bytes_before`.
fn comes_before(left: &[u8], right: &[u8]) -> (before: bool)
    ensures
        before == bytes_before(left@, right@),
{
    let mut i: usize = 0;
    assert(left@.skip(0) =~= left@);
    assert(right@.skip(0) =~= right@);
    while i < left.len() && i < right.len()
        invariant
            i <= left@.len(),
            i <= right@.len(),
            bytes_before(left@, right@) == bytes_before(
                left@.skip(i as int),
                right@.skip(i as int),
            ),
        decreases left.len() - i,
    {
        if left[i] != right[i] {
            return left[i] < right[i];
        }
        assert(left@.skip(i as int).drop_first() =~= left@.skip(i + 1));
        assert(right@.skip(i as int).drop_first() =~= right@.skip(i + 1));
        i += 1;
    }
    i < right.len()
}

/// Where `text` stands in `list`, if anywhere.
pub(crate) fn position_of(list: &Vec<String>, text: &String) -> (position: Option<usize>)
    ensures
        match position {
            Some(i) => i < list@.len() && list@[i as int]@ == text@,
            None => !texts_of(list@).contains(text@),
        },
{
    let mut i: usize = 0;
    while i < list.len()
        invariant
            i <= list@.len(),
            forall|j: int| 0 <= j < i ==> (#[trigger] texts_of(list@)[j]) != text@,
        decreases list.len() - i,
    {
        if same_bytes(list[i].as_str().as_bytes(), text.as_str().as_bytes()) {
            proof {
                encode_utf8_decode_utf8(list@[i as int]@);
                encode_utf8_decode_utf8(text@);
            }
            return Some(i);
        }
        assert(texts_of(list@)[i as int] == list@[i as int]@);
        i += 1;
    }
    None
}

/// Puts `text` where it belongs in a sorted list.
pub(crate) fn insert_sorted(list: &mut Vec<String>, text: String)
    requires
        strictly_sorted(texts_of(old(list)@)),
        !texts_of(old(list)@).contains(text@),
    ensures
        strictly_sorted(texts_of(final(list)@)),
        forall|other: Seq<char>|
            texts_of(final(list)@).contains(other) <==> (other == text@ || texts_of(
                old(list)@,
            ).contains(other)),
{
    let ghost before = texts_of(list@);
    let mut at: usize = 0;
    while at < list.len() && comes_before(
        list[at].as_str().as_bytes(),
        text.as_str().as_bytes(),
    )
        invariant
            at <= list@.len(),
            list@ == old(list)@,
            before == texts_of(list@),
            forall|j: int| 0 <= j < at ==> text_before(#[trigger] before[j], text@),
        decreases list.len() - at,
    {
        at += 1;
        assert(before[at - 1] == list@[at - 1]@);
    }
    let ghost here = at as int;
    let ghost new = text@;
    proof {
        if here < before.len() {
            assert(before[here] == list@[here]@);
            assert(before.contains(before[here]));
            lemma_text_total(before[here], new);
        }
        assert forall|j: int| here <= j < before.len() implies text_before(
            new,
            #[trigger] before[j],
        ) by {
            if j > here {
                lemma_bytes_transitive(
                    encode_utf8(new),
                    encode_utf8(before[here]),
                    encode_utf8(before[j]),
                );
            }
        }
    }
    list.insert(at, text);
    proof {
        let after = texts_of(list@);
        assert(after =~= before.insert(here, new));
        assert forall|i: int, j: int| 0 <= i < j < after.len() implies text_before(
            #[trigger] after[i],
            #[trigger] after[j],
        ) by {
            let a = if i < here { i } else { i - 1 };
            let b = if j < here { j } else { j - 1 };
            if i != here {
                assert(after[i] == before[a]);
            }
            if j != here {
                assert(after[j] == before[b]);
            }
        }
        assert forall|other: Seq<char>|
            after.contains(other) <==> (other == new || before.contains(other)) by {
            if before.contains(other) {
                let i = choose|i: int| 0 <= i < before.len() && before[i] == other;
                if i < here {
                    assert(after[i] == other);
                } else {
                    assert(after[i + 1] == other);
                }
            }
            assert(after[here] == new);
            if after.contains(other) && other != new {
                let i = choose|i: int| 0 <= i < after.len() && after[i] == other;
                let a = if i < here { i } else { i - 1 };
                assert(before[a] == other);
            }
        }
    }
}

/// One byte string comes before another exactly if, behind a start that they
/// share, it ends while the other goes on, or has the smaller byte.
pub proof fn first_difference_decides(left: Seq<u8>, right: Seq<u8>)
    ensures
        bytes_before(left, right) <==> exists|n: int|
            0 <= n <= left.len() && n < right.len() && #[trigger] left.take(n) == right.take(n) && (n
                == left.len() || left[n] < right[n]),
    decreases left.len(),
{
    if left.len() > 0 && right.len() > 0 && left[0] == right[0] {
        let a = left.drop_first();
        let b = right.drop_first();
        first_difference_decides(a, b);
        if bytes_before(left, right) {
            let n = choose|n: int|
                0 <= n <= a.len() && n < b.len() && #[trigger] a.take(n) == b.take(n) && (n
                    == a.len() || a[n] < b[n]);
            assert(left.take(n + 1) =~= seq![left[0]] + a.take(n));
            assert(right.take(n + 1) =~= seq![right[0]] + b.take(n));
            assert(n + 1 < left.len() ==> left[n + 1] == a[n]);
            assert(right[n + 1] == b[n]);
        }
        if exists|n: int|
            0 <= n <= left.len() && n < right.len() && #[trigger] left.take(n) == right.take(n) && (n
                == left.len() || left[n] < right[n]) {
            let n = choose|n: int|
                0 <= n <= left.len() && n < right.len() && #[trigger] left.take(n) == right.take(n)
                    && (n == left.len() || left[n] < right[n]);
            assert(n > 0);
            assert(left.take(n).drop_first() =~= a.take(n - 1));
            assert(right.take(n).drop_first() =~= b.take(n - 1));
            assert(n < left.len() ==> left[n] == a[n - 1]);
            assert(right[n] == b[n - 1]);
            assert(a.take(n - 1) == b.take(n - 1));
        }
    } else {
        if bytes_before(left, right) {
            assert(left.take(0) =~= right.take(0));
        }
        if exists|n: int|
            0 <= n <= left.len() && n < right.len() && #[trigger] left.take(n) == right.take(n) && (n
                == left.len() || left[n] < right[n]) {
            let n = choose|n: int|
                0 <= n <= left.len() && n < right.len() && #[trigger] left.take(n) == right.take(n)
                    && (n == left.len() || left[n] < right[n]);
            if n > 0 {
                assert(left.take(n)[0] == left[0]);
                assert(right.take(n)[0] == right[0]);
            }
        }
    }
}

} // verus!
