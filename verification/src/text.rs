//! Looking into texts, and writing numbers out.

use vstd::prelude::*;
#[allow(unused_imports)]
use vstd::string::*;

verus! {

/// `String::push` appends one character at the end of the string and leaves
/// the rest as it was.
pub assume_specification[ String::push ](s: &mut String, c: char)
    ensures
        final(s)@ == old(s)@.push(c),
;

/// Whether `text` starts with `prefix`.
pub open spec fn starts(text: Seq<char>, prefix: Seq<char>) -> bool {
    prefix.len() <= text.len() && text.take(prefix.len() as int) == prefix
}

/// Whether `text` ends with `suffix`.
pub open spec fn ends(text: Seq<char>, suffix: Seq<char>) -> bool {
    suffix.len() <= text.len() && text.skip(text.len() - suffix.len()) == suffix
}

/// Whether `part` stands in `text` at `position`.
pub open spec fn stands_at(text: Seq<char>, part: Seq<char>, position: int) -> bool {
    0 <= position && position + part.len() <= text.len() && text.subrange(
        position,
        position + part.len(),
    ) == part
}

/// Whether `part` stands anywhere in `text`.
pub open spec fn has_part(text: Seq<char>, part: Seq<char>) -> bool {
    exists|position: int| #[trigger] stands_at(text, part, position)
}

/// The decimal digit for `value`.
pub open spec fn decimal_digit(value: nat) -> char {
    (0x30 + value) as char
}

/// `value` in decimal, without leading zeros.
pub open spec fn decimal(value: nat) -> Seq<char>
    decreases value,
{
    if value < 10 {
        seq![decimal_digit(value)]
    } else {
        decimal(value / 10).push(decimal_digit(value % 10))
    }
}

/// The lower-case hexadecimal digit for `value`.
pub open spec fn hex_digit(value: nat) -> char {
    if value < 10 {
        (0x30 + value) as char
    } else {
        (0x57 + value) as char
    }
}

/// Two lower-case hexadecimal digits for each byte.
pub open spec fn hex(bytes: Seq<u8>) -> Seq<char>
    decreases bytes.len(),
{
    if bytes.len() == 0 {
        Seq::empty()
    } else {
        hex(bytes.drop_last()).push(hex_digit((bytes.last() / 16) as nat)).push(
            hex_digit((bytes.last() % 16) as nat),
        )
    }
}

/// Hexadecimal text is twice as long as the bytes that it shows.
pub proof fn hex_length(bytes: Seq<u8>)
    ensures
        hex(bytes).len() == 2 * bytes.len(),
    decreases bytes.len(),
{
    if bytes.len() > 0 {
        hex_length(bytes.drop_last());
    }
}

/// Hexadecimal text is made of the digits `0` to `9` and `a` to `f`.
pub proof fn hex_is_plain(bytes: Seq<u8>)
    ensures
        forall|i: int|
            0 <= i < hex(bytes).len() ==> '0' <= #[trigger] hex(bytes)[i] <= '9' || 'a' <= hex(
                bytes,
            )[i] <= 'f',
    decreases bytes.len(),
{
    if bytes.len() > 0 {
        hex_is_plain(bytes.drop_last());
        let before = hex(bytes.drop_last());
        let high = hex_digit((bytes.last() / 16) as nat);
        let low = hex_digit((bytes.last() % 16) as nat);
        assert('0' <= high <= '9' || 'a' <= high <= 'f');
        assert('0' <= low <= '9' || 'a' <= low <= 'f');
        assert forall|i: int| 0 <= i < hex(bytes).len() implies '0' <= #[trigger] hex(bytes)[i]
            <= '9' || 'a' <= hex(bytes)[i] <= 'f' by {
            if i < before.len() {
                assert(hex(bytes)[i] == before[i]);
            }
        }
    }
}

proof fn lemma_hex_digit(left: nat, right: nat)
    requires
        left < 16,
        right < 16,
        hex_digit(left) == hex_digit(right),
    ensures
        left == right,
{
    assert(hex_digit(left) as int == if left < 10 {
        0x30 + left
    } else {
        0x57 + left
    });
    assert(hex_digit(right) as int == if right < 10 {
        0x30 + right
    } else {
        0x57 + right
    });
}

/// Different bytes are shown differently.
pub proof fn hex_tells_bytes_apart(left: Seq<u8>, right: Seq<u8>)
    requires
        hex(left) == hex(right),
    ensures
        left == right,
    decreases left.len(),
{
    hex_length(left);
    hex_length(right);
    if left.len() > 0 {
        let a = hex(left.drop_last()).push(hex_digit((left.last() / 16) as nat));
        let b = hex(right.drop_last()).push(hex_digit((right.last() / 16) as nat));
        assert(hex(left).drop_last() =~= a);
        assert(hex(right).drop_last() =~= b);
        assert(hex(left).last() == hex_digit((left.last() % 16) as nat));
        assert(hex(right).last() == hex_digit((right.last() % 16) as nat));
        assert(a.drop_last() =~= hex(left.drop_last()));
        assert(b.drop_last() =~= hex(right.drop_last()));
        assert(a.last() == b.last());
        hex_tells_bytes_apart(left.drop_last(), right.drop_last());
        lemma_hex_digit((left.last() / 16) as nat, (right.last() / 16) as nat);
        lemma_hex_digit((left.last() % 16) as nat, (right.last() % 16) as nat);
        assert(left =~= left.drop_last().push(left.last()));
        assert(right =~= right.drop_last().push(right.last()));
    } else {
        assert(left =~= right);
    }
}

/// The characters of a text.
pub(crate) fn characters(text: &str) -> (chars: Vec<char>)
    ensures
        chars@ == text@,
{
    let mut chars: Vec<char> = Vec::new();
    for c in it: text.chars()
        invariant
            chars@ == it.seq().take(it.index() as int),
            it.seq() == text@,
    {
        chars.push(c);
        assert(it.seq().take(it.index() + 1) =~= it.seq().take(it.index() as int).push(c));
    }
    assert(text@.take(text@.len() as int) =~= text@);
    chars
}

/// Whether the characters of `part` stand in `text` at `position`.
fn matches_at(text: &Vec<char>, part: &Vec<char>, position: usize) -> (found: bool)
    requires
        position + part@.len() <= text@.len(),
    ensures
        found == stands_at(text@, part@, position as int),
{
    let mut i: usize = 0;
    while i < part.len()
        invariant
            i <= part@.len(),
            position + part@.len() <= text.len(),
            forall|j: int| 0 <= j < i ==> text@[position + j] == #[trigger] part@[j],
        decreases part.len() - i,
    {
        if text[position + i] != part[i] {
            assert(text@.subrange(position as int, position + part@.len())[i as int]
                != part@[i as int]);
            return false;
        }
        i += 1;
    }
    assert(text@.subrange(position as int, position + part@.len()) =~= part@);
    true
}

/// Decides [`starts`].
pub fn starts_with(text: &str, prefix: &str) -> (found: bool)
    ensures
        found == starts(text@, prefix@),
{
    let text: Vec<char> = characters(text);
    let prefix: Vec<char> = characters(prefix);
    proof {
        if prefix@.len() <= text@.len() {
            assert(text@.take(prefix@.len() as int) =~= text@.subrange(0, prefix@.len() as int));
        }
    }
    prefix.len() <= text.len() && matches_at(&text, &prefix, 0)
}

/// Decides [`ends`].
pub fn ends_with(text: &str, suffix: &str) -> (found: bool)
    ensures
        found == ends(text@, suffix@),
{
    let text: Vec<char> = characters(text);
    let suffix: Vec<char> = characters(suffix);
    proof {
        if suffix@.len() <= text@.len() {
            assert(text@.skip(text@.len() - suffix@.len()) =~= text@.subrange(
                text@.len() - suffix@.len(),
                text@.len() as int,
            ));
        }
    }
    suffix.len() <= text.len() && matches_at(&text, &suffix, text.len() - suffix.len())
}

/// Decides [`has_part`].
pub fn contains(text: &str, part: &str) -> (found: bool)
    ensures
        found == has_part(text@, part@),
{
    let hay: Vec<char> = characters(text);
    let needle: Vec<char> = characters(part);
    if needle.len() > hay.len() {
        return false;
    }
    let last: usize = hay.len() - needle.len();
    let mut position: usize = 0;
    while position < last
        invariant
            hay@ == text@,
            needle@ == part@,
            last + needle@.len() == hay@.len(),
            position <= last,
            forall|p: int| p < position ==> !#[trigger] stands_at(hay@, needle@, p),
        decreases last - position,
    {
        if matches_at(&hay, &needle, position) {
            return true;
        }
        position += 1;
    }
    matches_at(&hay, &needle, last)
}

/// Appends `value` in decimal.
pub(crate) fn push_decimal(text: &mut String, value: u64)
    ensures
        final(text)@ == old(text)@ + decimal(value as nat),
    decreases value,
{
    if value >= 10 {
        push_decimal(text, value / 10);
    }
    let digit: u8 = 0x30u8 + (value % 10) as u8;
    text.push(digit as char);
    proof {
        assert(digit as char == decimal_digit((value % 10) as nat));
        if value >= 10 {
            assert(text@ =~= old(text)@ + decimal(value as nat));
        } else {
            assert(text@ =~= old(text)@ + seq![decimal_digit(value as nat)]);
        }
    }
}

/// The lower-case hexadecimal digit for `value`.
fn digit_of(value: u8) -> (digit: char)
    requires
        value < 16,
    ensures
        digit == hex_digit(value as nat),
{
    if value < 10 {
        (0x30u8 + value) as char
    } else {
        (0x57u8 + value) as char
    }
}

/// Two lower-case hexadecimal digits for each byte.
pub fn to_hex(bytes: &[u8]) -> (text: String)
    ensures
        text@ == hex(bytes@),
{
    let mut text: String = String::new();
    let mut i: usize = 0;
    assert(bytes@.take(0) =~= Seq::empty());
    while i < bytes.len()
        invariant
            i <= bytes@.len(),
            text@ == hex(bytes@.take(i as int)),
        decreases bytes.len() - i,
    {
        text.push(digit_of(bytes[i] / 16));
        text.push(digit_of(bytes[i] % 16));
        i += 1;
        assert(bytes@.take(i as int).drop_last() =~= bytes@.take(i - 1));
    }
    assert(bytes@.take(i as int) =~= bytes@);
    text
}

/// A text starts with a prefix exactly if it is the prefix and something more.
pub proof fn starting_means_going_on_from(text: Seq<char>, prefix: Seq<char>)
    ensures
        starts(text, prefix) <==> exists|rest: Seq<char>| text == #[trigger] (prefix + rest),
{
    if starts(text, prefix) {
        let rest = text.skip(prefix.len() as int);
        assert(text =~= text.take(prefix.len() as int) + rest);
    }
    if exists|rest: Seq<char>| text == #[trigger] (prefix + rest) {
        let rest = choose|rest: Seq<char>| text == #[trigger] (prefix + rest);
        assert((prefix + rest).take(prefix.len() as int) =~= prefix);
    }
}

/// A text ends with a suffix exactly if it is something and then the suffix.
pub proof fn ending_means_coming_to(text: Seq<char>, suffix: Seq<char>)
    ensures
        ends(text, suffix) <==> exists|before: Seq<char>| text == #[trigger] (before + suffix),
{
    if ends(text, suffix) {
        let before = text.take(text.len() - suffix.len());
        assert(text =~= before + text.skip(text.len() - suffix.len()));
    }
    if exists|before: Seq<char>| text == #[trigger] (before + suffix) {
        let before = choose|before: Seq<char>| text == #[trigger] (before + suffix);
        assert((before + suffix).skip(before.len() as int) =~= suffix);
    }
}

/// A text holds a part exactly if it is something, the part, and something more.
pub proof fn holding_means_surrounding(text: Seq<char>, part: Seq<char>)
    ensures
        has_part(text, part) <==> exists|before: Seq<char>, after: Seq<char>|
            text == #[trigger] (before + part + after),
{
    if has_part(text, part) {
        let position = choose|position: int| #[trigger] stands_at(text, part, position);
        let before = text.take(position);
        let after = text.skip(position + part.len());
        assert(text =~= before + text.subrange(position, position + part.len()) + after);
        assert(text == before + part + after);
    }
    if exists|before: Seq<char>, after: Seq<char>| text == #[trigger] (before + part + after) {
        let (before, after) = choose|before: Seq<char>, after: Seq<char>|
            text == #[trigger] (before + part + after);
        let position = before.len() as int;
        assert(text.subrange(position, position + part.len()) =~= part);
        assert(stands_at(text, part, position));
    }
}

/// The number that decimal digits stand for.
pub open spec fn decimal_value(digits: Seq<char>) -> int
    decreases digits.len(),
{
    if digits.len() == 0 {
        0
    } else {
        10 * decimal_value(digits.drop_last()) + (digits.last() as int - '0' as int)
    }
}

/// Decimal text reads back as the number that it was written for; it is made of
/// digits and has no leading zero, save for zero itself.
pub proof fn decimal_reads_back(value: nat)
    ensures
        decimal_value(decimal(value)) == value,
        decimal(value).len() > 0,
        forall|i: int|
            0 <= i < decimal(value).len() ==> '0' <= #[trigger] decimal(value)[i] && decimal(
                value,
            )[i] <= '9',
        decimal(value)[0] == '0' ==> value == 0 && decimal(value).len() == 1,
    decreases value,
{
    let last = decimal_digit(value % 10);
    assert(last as int == 0x30 + value % 10);
    if value < 10 {
        let digits = decimal(value);
        assert(digits =~= seq![last]);
        assert(digits.drop_last() =~= Seq::empty());
        assert(decimal_value(digits.drop_last()) == 0);
        assert(digits.last() == last);
    } else {
        decimal_reads_back(value / 10);
        let before = decimal(value / 10);
        let digits = decimal(value);
        assert(digits =~= before.push(last));
        assert(digits.drop_last() =~= before);
        assert(digits.last() == last);
        assert(digits[0] == before[0]);
        assert forall|i: int| 0 <= i < digits.len() implies '0' <= #[trigger] digits[i] && digits[i]
            <= '9' by {
            if i < before.len() {
                assert(digits[i] == before[i]);
            }
        }
    }
}

/// The number that a hexadecimal digit stands for.
pub open spec fn hex_value(digit: char) -> int {
    if '0' <= digit && digit <= '9' {
        digit as int - '0' as int
    } else {
        digit as int - 'a' as int + 10
    }
}

/// Hexadecimal text reads back: its digits, two by two, give the bytes that it
/// was written for.
pub proof fn hex_reads_back(bytes: Seq<u8>, i: int)
    requires
        0 <= i < bytes.len(),
    ensures
        hex(bytes).len() == 2 * bytes.len(),
        bytes[i] == 16 * hex_value(hex(bytes)[2 * i]) + hex_value(hex(bytes)[2 * i + 1]),
        0 <= hex_value(hex(bytes)[2 * i]) < 16,
        0 <= hex_value(hex(bytes)[2 * i + 1]) < 16,
    decreases bytes.len(),
{
    hex_length(bytes);
    let before = hex(bytes.drop_last());
    hex_length(bytes.drop_last());
    if i < bytes.len() - 1 {
        hex_reads_back(bytes.drop_last(), i);
        assert(hex(bytes)[2 * i] == before[2 * i]);
        assert(hex(bytes)[2 * i + 1] == before[2 * i + 1]);
    } else {
        let high = (bytes.last() / 16) as nat;
        let low = (bytes.last() % 16) as nat;
        assert(hex_digit(high) as int == if high < 10 {
            0x30 + high
        } else {
            0x57 + high
        });
        assert(hex_digit(low) as int == if low < 10 {
            0x30 + low
        } else {
            0x57 + low
        });
        assert(hex(bytes)[2 * i] == hex_digit(high));
        assert(hex(bytes)[2 * i + 1] == hex_digit(low));
    }
}

} // verus!
