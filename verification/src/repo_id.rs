//! Hub repository identifiers.
//!
//! An identifier has the form `owner/name`. The two segments are screened one
//! at a time by [`validate_repo_id_segment`], against the shape rules that the
//! Hub itself applies.

use crate::text;
use vstd::prelude::*;
#[allow(unused_imports)]
use vstd::string::*;

verus! {

/// How many characters a segment may have.
pub const MAX_SEGMENT_LENGTH: usize = 96;

/// Which side of an `owner/name` identifier a segment came from.
///
/// Only the `.git` suffix rule depends on it: that one applies to names, not to
/// owners.
#[derive(Debug, Clone, Copy, PartialEq, Eq, Hash, Structural)]
pub enum SegmentRole {
    /// The namespace portion (user or organization).
    Owner,
    /// The repository name portion.
    Name,
}

/// Why a segment failed [`validate_repo_id_segment`].
#[derive(Debug, PartialEq, Eq, Structural)]
pub enum RepoIdValidationError {
    /// The segment was the empty string.
    Empty { role: SegmentRole },
    /// The segment exceeded the length limit.
    TooLong { role: SegmentRole, length: usize },
    /// The segment contained a character outside `[A-Za-z0-9._-]`.
    InvalidCharacter { role: SegmentRole, character: char },
    /// The segment started or ended with `.`.
    LeadingOrTrailingDot { role: SegmentRole },
    /// The segment started or ended with `-`.
    LeadingOrTrailingHyphen { role: SegmentRole },
    /// The segment contained `--`.
    DoubleHyphen { role: SegmentRole },
    /// The segment contained `..`.
    DoubleDot { role: SegmentRole },
    /// The `name` segment ended with `.git`.
    GitSuffix,
}

impl Clone for RepoIdValidationError {
    fn clone(&self) -> (copy: RepoIdValidationError)
        ensures
            copy == *self,
    {
        match *self {
            RepoIdValidationError::Empty { role } => RepoIdValidationError::Empty { role },
            RepoIdValidationError::TooLong { role, length } => RepoIdValidationError::TooLong {
                role,
                length,
            },
            RepoIdValidationError::InvalidCharacter { role, character } => {
                RepoIdValidationError::InvalidCharacter { role, character }
            },
            RepoIdValidationError::LeadingOrTrailingDot { role } => {
                RepoIdValidationError::LeadingOrTrailingDot { role }
            },
            RepoIdValidationError::LeadingOrTrailingHyphen { role } => {
                RepoIdValidationError::LeadingOrTrailingHyphen { role }
            },
            RepoIdValidationError::DoubleHyphen { role } => RepoIdValidationError::DoubleHyphen {
                role,
            },
            RepoIdValidationError::DoubleDot { role } => RepoIdValidationError::DoubleDot { role },
            RepoIdValidationError::GitSuffix => RepoIdValidationError::GitSuffix,
        }
    }
}

/// Whether `c` is one of `[A-Za-z0-9._-]`.
pub open spec fn allowed(c: char) -> bool {
    ||| 'A' <= c <= 'Z'
    ||| 'a' <= c <= 'z'
    ||| '0' <= c <= '9'
    ||| c == '.'
    ||| c == '_'
    ||| c == '-'
}

/// The leftmost character of `segment` that is not allowed.
pub open spec fn first_disallowed(segment: Seq<char>) -> Option<char>
    decreases segment.len(),
{
    if segment.len() == 0 {
        None
    } else {
        match first_disallowed(segment.drop_last()) {
            Some(c) => Some(c),
            None => if allowed(segment.last()) {
                None
            } else {
                Some(segment.last())
            },
        }
    }
}

/// Whether `c` is the first or the last character of `segment`.
pub open spec fn at_boundary(segment: Seq<char>, c: char) -> bool {
    segment.len() > 0 && (segment.first() == c || segment.last() == c)
}

/// Whether `c` stands twice in a row in `segment`.
pub open spec fn doubled(segment: Seq<char>, c: char) -> bool {
    exists|i: int| 0 <= i < segment.len() - 1 && #[trigger] segment[i] == c && segment[i + 1] == c
}

/// What validation says of a segment: the first rule that it breaks, in the
/// order emptiness, length, character set, boundary characters, doubled
/// characters, `.git` suffix.
pub open spec fn verdict(segment: Seq<char>, role: SegmentRole) -> Result<
    (),
    RepoIdValidationError,
> {
    if segment.len() == 0 {
        Err(RepoIdValidationError::Empty { role })
    } else if segment.len() > MAX_SEGMENT_LENGTH {
        Err(RepoIdValidationError::TooLong { role, length: segment.len() as usize })
    } else if first_disallowed(segment) is Some {
        Err(
            RepoIdValidationError::InvalidCharacter {
                role,
                character: first_disallowed(segment)->0,
            },
        )
    } else if at_boundary(segment, '.') {
        Err(RepoIdValidationError::LeadingOrTrailingDot { role })
    } else if at_boundary(segment, '-') {
        Err(RepoIdValidationError::LeadingOrTrailingHyphen { role })
    } else if doubled(segment, '-') {
        Err(RepoIdValidationError::DoubleHyphen { role })
    } else if doubled(segment, '.') {
        Err(RepoIdValidationError::DoubleDot { role })
    } else if role == SegmentRole::Name && text::ends(segment, seq!['.', 'g', 'i', 't']) {
        Err(RepoIdValidationError::GitSuffix)
    } else {
        Ok(())
    }
}

/// Whether a segment keeps all rules for its role.
pub open spec fn well_formed(segment: Seq<char>, role: SegmentRole) -> bool {
    &&& 1 <= segment.len() <= MAX_SEGMENT_LENGTH
    &&& forall|i: int| 0 <= i < segment.len() ==> allowed(#[trigger] segment[i])
    &&& segment.first() != '.' && segment.last() != '.'
    &&& segment.first() != '-' && segment.last() != '-'
    &&& !doubled(segment, '-')
    &&& !doubled(segment, '.')
    &&& role == SegmentRole::Name ==> !text::ends(segment, seq!['.', 'g', 'i', 't'])
}

/// Decides [`allowed`].
pub fn is_allowed_character(c: char) -> (yes: bool)
    ensures
        yes == allowed(c),
{
    ('A' <= c && c <= 'Z') || ('a' <= c && c <= 'z') || ('0' <= c && c <= '9') || c == '.' || c
        == '-' || c == '_'
}

/// Decides [`doubled`].
fn has_double(segment: &Vec<char>, c: char) -> (found: bool)
    ensures
        found == doubled(segment@, c),
{
    let mut i: usize = 1;
    while i < segment.len()
        invariant
            1 <= i,
            segment@.len() > 0 ==> i <= segment@.len(),
            forall|j: int|
                0 <= j < i - 1 && #[trigger] segment@[j] == c ==> segment@[j + 1] != c,
        decreases segment.len() - i,
    {
        if segment[i - 1] == c && segment[i] == c {
            return true;
        }
        i += 1;
    }
    false
}

/// Validates one owner or name segment.
///
/// - 1 to 96 characters long.
/// - Characters drawn from `[A-Za-z0-9._-]`.
/// - Must not start or end with `.` or `-`.
/// - Must not contain `--` or `..`.
/// - For [`SegmentRole::Name`]: must not end with `.git`.
///
/// The error is that of the first rule that is broken; see [`verdict`].
pub fn validate_repo_id_segment(segment: &str, role: SegmentRole) -> (result: Result<
    (),
    RepoIdValidationError,
>)
    ensures
        result == verdict(segment@, role),
{
    let chars: Vec<char> = text::characters(segment);
    let length: usize = chars.len();
    if length == 0 {
        return Err(RepoIdValidationError::Empty { role });
    }
    if length > MAX_SEGMENT_LENGTH {
        return Err(RepoIdValidationError::TooLong { role, length });
    }
    let mut i: usize = 0;
    while i < length
        invariant
            i <= length,
            length == chars@.len(),
            chars@ == segment@,
            0 < length <= MAX_SEGMENT_LENGTH,
            first_disallowed(chars@.take(i as int)) is None,
        decreases length - i,
    {
        assert(chars@.take(i + 1).drop_last() =~= chars@.take(i as int));
        if !is_allowed_character(chars[i]) {
            proof {
                lemma_first_disallowed_stays(chars@, i + 1);
            }
            return Err(RepoIdValidationError::InvalidCharacter { role, character: chars[i] });
        }
        i += 1;
    }
    assert(chars@.take(i as int) =~= chars@);
    if chars[0] == '.' || chars[length - 1] == '.' {
        return Err(RepoIdValidationError::LeadingOrTrailingDot { role });
    }
    if chars[0] == '-' || chars[length - 1] == '-' {
        return Err(RepoIdValidationError::LeadingOrTrailingHyphen { role });
    }
    if has_double(&chars, '-') {
        return Err(RepoIdValidationError::DoubleHyphen { role });
    }
    if has_double(&chars, '.') {
        return Err(RepoIdValidationError::DoubleDot { role });
    }
    proof {
        reveal_strlit(".git");
        assert(".git"@ =~= seq!['.', 'g', 'i', 't']);
    }
    if role == SegmentRole::Name && text::ends_with(segment, ".git") {
        return Err(RepoIdValidationError::GitSuffix);
    }
    Ok(())
}

/// A character that is out of place in a prefix is the first one of the whole.
proof fn lemma_first_disallowed_stays(segment: Seq<char>, n: int)
    requires
        0 <= n <= segment.len(),
        first_disallowed(segment.take(n)) is Some,
    ensures
        first_disallowed(segment) == first_disallowed(segment.take(n)),
    decreases segment.len() - n,
{
    if n < segment.len() {
        assert(segment.take(n + 1).drop_last() =~= segment.take(n));
        lemma_first_disallowed_stays(segment, n + 1);
    } else {
        assert(segment.take(n) =~= segment);
    }
}

/// The word for a role in messages.
pub open spec fn role_word(role: SegmentRole) -> Seq<char> {
    match role {
        SegmentRole::Owner => "owner"@,
        SegmentRole::Name => "name"@,
    }
}

/// `the <role> segment<rest>`.
pub open spec fn about(role: SegmentRole, rest: Seq<char>) -> Seq<char> {
    "the "@ + role_word(role) + " segment"@ + rest
}

/// The message for an error.
pub open spec fn error_text(error: RepoIdValidationError) -> Seq<char> {
    match error {
        RepoIdValidationError::Empty { role } => about(role, " must not be empty"@),
        RepoIdValidationError::TooLong { role, length } => about(
            role,
            " must be at most 96 characters (got "@ + text::decimal(length as nat) + ")"@,
        ),
        RepoIdValidationError::InvalidCharacter { role, character } => about(
            role,
            " contains an invalid character: '"@.push(character) + "'"@,
        ),
        RepoIdValidationError::LeadingOrTrailingDot { role } => about(
            role,
            " must not start or end with '.'"@,
        ),
        RepoIdValidationError::LeadingOrTrailingHyphen { role } => about(
            role,
            " must not start or end with '-'"@,
        ),
        RepoIdValidationError::DoubleHyphen { role } => about(role, " must not contain '--'"@),
        RepoIdValidationError::DoubleDot { role } => about(role, " must not contain '..'"@),
        RepoIdValidationError::GitSuffix => about(
            SegmentRole::Name,
            " must not end with '.git'"@,
        ),
    }
}

impl SegmentRole {
    /// The word for this role in messages.
    pub fn word(&self) -> (word: &'static str)
        ensures
            word@ == role_word(*self),
    {
        match self {
            SegmentRole::Owner => "owner",
            SegmentRole::Name => "name",
        }
    }
}

/// `the <role> segment<rest>`.
fn message_about(role: SegmentRole, rest: &str) -> (message: String)
    ensures
        message@ == about(role, rest@),
{
    let mut message: String = "the ".to_owned();
    message.append(role.word());
    message.append(" segment");
    message.append(rest);
    message
}

impl RepoIdValidationError {
    /// The message for this error.
    pub fn message(&self) -> (message: String)
        ensures
            message@ == error_text(*self),
    {
        match self {
            RepoIdValidationError::Empty { role } => message_about(*role, " must not be empty"),
            RepoIdValidationError::TooLong { role, length } => {
                let mut rest: String = " must be at most 96 characters (got ".to_owned();
                text::push_decimal(&mut rest, *length as u64);
                rest.append(")");
                message_about(*role, rest.as_str())
            },
            RepoIdValidationError::InvalidCharacter { role, character } => {
                let mut rest: String = " contains an invalid character: '".to_owned();
                rest.push(*character);
                rest.append("'");
                message_about(*role, rest.as_str())
            },
            RepoIdValidationError::LeadingOrTrailingDot { role } => message_about(
                *role,
                " must not start or end with '.'",
            ),
            RepoIdValidationError::LeadingOrTrailingHyphen { role } => message_about(
                *role,
                " must not start or end with '-'",
            ),
            RepoIdValidationError::DoubleHyphen { role } => message_about(
                *role,
                " must not contain '--'",
            ),
            RepoIdValidationError::DoubleDot { role } => message_about(
                *role,
                " must not contain '..'",
            ),
            RepoIdValidationError::GitSuffix => message_about(
                SegmentRole::Name,
                " must not end with '.git'",
            ),
        }
    }
}

/// Characters that are all allowed leave none to report, and conversely.
proof fn lemma_all_allowed(segment: Seq<char>)
    ensures
        first_disallowed(segment) is None <==> forall|i: int|
            0 <= i < segment.len() ==> allowed(#[trigger] segment[i]),
        first_disallowed(segment) matches Some(c) ==> !allowed(c) && segment.contains(c),
    decreases segment.len(),
{
    if segment.len() > 0 {
        let before = segment.drop_last();
        lemma_all_allowed(before);
        assert(forall|i: int| 0 <= i < before.len() ==> before[i] == segment[i]);
        assert(segment.last() == segment[segment.len() - 1]);
        if first_disallowed(before) is Some {
            let i = choose|i: int|
                0 <= i < before.len() && before[i] == first_disallowed(before)->0;
            assert(segment[i] == before[i]);
            let j = choose|j: int| 0 <= j < before.len() && !allowed(#[trigger] before[j]);
            assert(!allowed(segment[j]));
        } else if forall|i: int| 0 <= i < segment.len() ==> allowed(#[trigger] segment[i]) {
            assert(allowed(segment[segment.len() - 1]));
        } else {
            let j = choose|j: int| 0 <= j < segment.len() && !allowed(#[trigger] segment[j]);
            assert(allowed(before[j]) || j == before.len());
        }
    }
}

/// A segment is accepted exactly when it keeps all rules.
pub proof fn accepts_exactly_the_well_formed(segment: Seq<char>, role: SegmentRole)
    ensures
        verdict(segment, role) is Ok <==> well_formed(segment, role),
{
    lemma_all_allowed(segment);
}

/// The character that is reported as invalid is the leftmost one that is not
/// allowed.
pub proof fn reports_the_leftmost_invalid_character(
    segment: Seq<char>,
    role: SegmentRole,
    position: int,
)
    requires
        1 <= segment.len() <= MAX_SEGMENT_LENGTH,
        0 <= position < segment.len(),
        !allowed(segment[position]),
        forall|i: int| 0 <= i < position ==> allowed(#[trigger] segment[i]),
    ensures
        verdict(segment, role) == Err::<(), RepoIdValidationError>(
            RepoIdValidationError::InvalidCharacter { role, character: segment[position] },
        ),
{
    let before = segment.take(position);
    assert forall|i: int| 0 <= i < before.len() implies allowed(#[trigger] before[i]) by {
        assert(allowed(segment[i]));
    }
    lemma_all_allowed(before);
    assert(segment.take(position + 1).drop_last() =~= before);
    lemma_first_disallowed_stays(segment, position + 1);
}

/// The role decides nothing but the `.git` rule: what is accepted as an owner
/// is accepted as a name unless it ends with `.git`, and what is refused as an
/// owner is refused as a name for the same reason.
pub proof fn role_matters_only_for_the_git_suffix(segment: Seq<char>)
    ensures
        verdict(segment, SegmentRole::Name) is Ok <==> verdict(segment, SegmentRole::Owner) is Ok
            && !text::ends(segment, seq!['.', 'g', 'i', 't']),
        verdict(segment, SegmentRole::Owner) is Ok && verdict(segment, SegmentRole::Name) is Err
            ==> verdict(segment, SegmentRole::Name) == Err::<(), RepoIdValidationError>(
            RepoIdValidationError::GitSuffix,
        ),
        verdict(segment, SegmentRole::Owner) is Err ==> with_role(
            verdict(segment, SegmentRole::Owner)->Err_0,
            SegmentRole::Name,
        ) == verdict(segment, SegmentRole::Name)->Err_0 && verdict(
            segment,
            SegmentRole::Name,
        ) is Err,
{
}

/// The same error about another role.
pub open spec fn with_role(error: RepoIdValidationError, role: SegmentRole) ->
    RepoIdValidationError {
    match error {
        RepoIdValidationError::Empty { .. } => RepoIdValidationError::Empty { role },
        RepoIdValidationError::TooLong { length, .. } => RepoIdValidationError::TooLong {
            role,
            length,
        },
        RepoIdValidationError::InvalidCharacter { character, .. } => {
            RepoIdValidationError::InvalidCharacter { role, character }
        },
        RepoIdValidationError::LeadingOrTrailingDot { .. } => {
            RepoIdValidationError::LeadingOrTrailingDot { role }
        },
        RepoIdValidationError::LeadingOrTrailingHyphen { .. } => {
            RepoIdValidationError::LeadingOrTrailingHyphen { role }
        },
        RepoIdValidationError::DoubleHyphen { .. } => RepoIdValidationError::DoubleHyphen { role },
        RepoIdValidationError::DoubleDot { .. } => RepoIdValidationError::DoubleDot { role },
        RepoIdValidationError::GitSuffix => RepoIdValidationError::GitSuffix,
    }
}

/// Whether the Hub takes `c` in a segment.
pub open spec fn hub_character(c: char) -> bool {
    ('A' <= c && c <= 'Z') || ('a' <= c && c <= 'z') || ('0' <= c && c <= '9') || c == '.' || c
        == '_' || c == '-'
}

/// The allowed characters are the ASCII letters and digits, `.`, `_` and `-`.
pub proof fn letters_digits_dots_underscores_and_hyphens_are_allowed(c: char)
    ensures
        allowed(c) <==> ('A' <= c && c <= 'Z') || ('a' <= c && c <= 'z') || ('0' <= c && c <= '9')
            || c == '.' || c == '_' || c == '-',
{
}

/// A segment is accepted exactly if it has 1 to 96 characters, each of them a
/// letter, a digit, `.`, `_` or `-`; neither the first nor the last is `.` or
/// `-`; nowhere do two `-` or two `.` follow each other; and, for a name, the
/// last four are not `.git`.
pub proof fn acceptance_by_characters(segment: Seq<char>, role: SegmentRole)
    ensures
        verdict(segment, role) is Ok <==> {
            let n = segment.len() as int;
            &&& 1 <= n <= 96
            &&& forall|i: int|
                0 <= i < n ==> ('A' <= #[trigger] segment[i] && segment[i] <= 'Z') || ('a'
                    <= segment[i] && segment[i] <= 'z') || ('0' <= segment[i] && segment[i] <= '9')
                    || segment[i] == '.' || segment[i] == '_' || segment[i] == '-'
            &&& segment[0] != '.' && segment[0] != '-'
            &&& segment[n - 1] != '.' && segment[n - 1] != '-'
            &&& forall|i: int|
                0 <= i && i + 1 < n ==> !(#[trigger] segment[i] == '-' && segment[i + 1] == '-')
            &&& forall|i: int|
                0 <= i && i + 1 < n ==> !(#[trigger] segment[i] == '.' && segment[i + 1] == '.')
            &&& role == SegmentRole::Name ==> !(n >= 4 && segment[n - 4] == '.' && segment[n - 3]
                == 'g' && segment[n - 2] == 'i' && segment[n - 1] == 't')
        },
{
    lemma_all_allowed(segment);
    lemma_git_suffix(segment);
    let n = segment.len() as int;
    if n > 0 {
        assert(segment.first() == segment[0]);
        assert(segment.last() == segment[n - 1]);
    }
    if forall|i: int|
        0 <= i < n ==> ('A' <= #[trigger] segment[i] && segment[i] <= 'Z') || ('a' <= segment[i]
            && segment[i] <= 'z') || ('0' <= segment[i] && segment[i] <= '9') || segment[i] == '.'
            || segment[i] == '_' || segment[i] == '-' {
        assert forall|i: int| 0 <= i < n implies allowed(#[trigger] segment[i]) by {}
    }
}

/// A segment ends with `.git` exactly if its last four characters say so.
proof fn lemma_git_suffix(segment: Seq<char>)
    ensures
        text::ends(segment, seq!['.', 'g', 'i', 't']) <==> {
            let n = segment.len() as int;
            n >= 4 && segment[n - 4] == '.' && segment[n - 3] == 'g' && segment[n - 2] == 'i'
                && segment[n - 1] == 't'
        },
{
    let n = segment.len() as int;
    let git = seq!['.', 'g', 'i', 't'];
    if n >= 4 {
        let tail = segment.skip(n - 4);
        if text::ends(segment, git) {
            assert(tail == git);
            assert(tail[0] == segment[n - 4] && tail[1] == segment[n - 3] && tail[2] == segment[n
                - 2] && tail[3] == segment[n - 1]);
        }
        if segment[n - 4] == '.' && segment[n - 3] == 'g' && segment[n - 2] == 'i' && segment[n - 1]
            == 't' {
            assert(tail =~= git);
        }
    }
}

/// Each refusal names its reason: the rule it speaks of is broken, and all rules
/// that come before it in the order emptiness, length, characters, boundary
/// dots, boundary hyphens, `--`, `..`, `.git` are kept. It also names the role,
/// the length, and the leftmost character that is out of place.
pub proof fn refusals_name_the_first_broken_rule(segment: Seq<char>, role: SegmentRole)
    requires
        segment.len() <= usize::MAX,
    ensures
        ({
            let n = segment.len() as int;
            let fits = 1 <= n <= 96;
            let plain = fits && forall|i: int|
                0 <= i < n ==> hub_character(#[trigger] segment[i]);
            let dotted = segment[0] == '.' || segment[n - 1] == '.';
            let hyphened = segment[0] == '-' || segment[n - 1] == '-';
            let hyphens = exists|i: int|
                0 <= i && i + 1 < n && #[trigger] segment[i] == '-' && segment[i + 1] == '-';
            let dots = exists|i: int|
                0 <= i && i + 1 < n && #[trigger] segment[i] == '.' && segment[i + 1] == '.';
            match verdict(segment, role) {
                Ok(_) => plain && !dotted && !hyphened && !hyphens && !dots,
                Err(RepoIdValidationError::Empty { role: named }) => named == role && n == 0,
                Err(RepoIdValidationError::TooLong { role: named, length }) => named == role
                    && length == n && n > 96,
                Err(RepoIdValidationError::InvalidCharacter { role: named, character }) => named
                    == role && fits && !hub_character(character) && exists|p: int|
                    0 <= p < n && #[trigger] segment[p] == character && forall|i: int|
                        0 <= i < p ==> hub_character(#[trigger] segment[i]),
                Err(RepoIdValidationError::LeadingOrTrailingDot { role: named }) => named == role
                    && plain && dotted,
                Err(RepoIdValidationError::LeadingOrTrailingHyphen { role: named }) => named == role
                    && plain && !dotted && hyphened,
                Err(RepoIdValidationError::DoubleHyphen { role: named }) => named == role && plain
                    && !dotted && !hyphened && hyphens,
                Err(RepoIdValidationError::DoubleDot { role: named }) => named == role && plain
                    && !dotted && !hyphened && !hyphens && dots,
                Err(RepoIdValidationError::GitSuffix) => role == SegmentRole::Name && plain
                    && !dotted && !hyphened && !hyphens && !dots && n >= 4 && segment[n - 4] == '.'
                    && segment[n - 3] == 'g' && segment[n - 2] == 'i' && segment[n - 1] == 't',
            }
        }),
{
    let n = segment.len() as int;
    lemma_all_allowed(segment);
    lemma_git_suffix(segment);
    if n > 0 {
        assert(segment.first() == segment[0]);
        assert(segment.last() == segment[n - 1]);
    }
    assert forall|c: char| #[trigger] hub_character(c) == allowed(c) by {}
    if forall|i: int| 0 <= i < n ==> allowed(#[trigger] segment[i]) {
        assert forall|i: int| 0 <= i < n implies hub_character(#[trigger] segment[i]) by {
            assert(allowed(segment[i]));
        }
    }
    if first_disallowed(segment) is Some {
        lemma_leftmost(segment);
    }
}

/// The character that is found is out of place, and all before it are not.
proof fn lemma_leftmost(segment: Seq<char>)
    requires
        first_disallowed(segment) is Some,
    ensures
        !hub_character(first_disallowed(segment)->0),
        exists|p: int|
            0 <= p < segment.len() && #[trigger] segment[p] == first_disallowed(segment)->0
                && forall|i: int| 0 <= i < p ==> hub_character(#[trigger] segment[i]),
    decreases segment.len(),
{
    let before = segment.drop_last();
    if first_disallowed(before) is Some {
        lemma_leftmost(before);
        let p = choose|p: int|
            0 <= p < before.len() && #[trigger] before[p] == first_disallowed(before)->0
                && forall|i: int| 0 <= i < p ==> hub_character(#[trigger] before[i]);
        assert(segment[p] == before[p]);
        assert forall|i: int| 0 <= i < p implies hub_character(#[trigger] segment[i]) by {
            assert(hub_character(before[i]));
        }
    } else {
        lemma_all_allowed(before);
        let p = segment.len() - 1;
        assert(segment[p] == segment.last());
        assert forall|i: int| 0 <= i < p implies hub_character(#[trigger] segment[i]) by {
            assert(allowed(before[i]));
        }
    }
}

/// A message names the role that the error is about and what the error found:
/// the length in decimal, or the character.
pub proof fn messages_tell_role_and_finding(role: SegmentRole, length: usize, character: char)
    ensures
        ({
            let word = if role == SegmentRole::Owner {
                "owner"@
            } else {
                "name"@
            };
            let head = "the "@ + word + " segment"@;
            &&& error_text(RepoIdValidationError::Empty { role }) == head + " must not be empty"@
            &&& error_text(RepoIdValidationError::TooLong { role, length }) == head + (
            " must be at most 96 characters (got "@ + text::decimal(length as nat) + ")"@)
            &&& error_text(RepoIdValidationError::InvalidCharacter { role, character }) == head + (
            " contains an invalid character: '"@ + seq![character] + "'"@)
            &&& error_text(RepoIdValidationError::LeadingOrTrailingDot { role }) == head
                + " must not start or end with '.'"@
            &&& error_text(RepoIdValidationError::LeadingOrTrailingHyphen { role }) == head
                + " must not start or end with '-'"@
            &&& error_text(RepoIdValidationError::DoubleHyphen { role }) == head
                + " must not contain '--'"@
            &&& error_text(RepoIdValidationError::DoubleDot { role }) == head
                + " must not contain '..'"@
            &&& error_text(RepoIdValidationError::GitSuffix) == "the "@ + "name"@ + " segment"@
                + " must not end with '.git'"@
        }),
{
    let quoted = " contains an invalid character: '"@;
    assert(quoted.push(character) =~= quoted + seq![character]);
}

} // verus!
