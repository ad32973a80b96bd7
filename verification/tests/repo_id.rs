use hf_hub::repo_id::{is_allowed_character, validate_repo_id_segment, RepoIdValidationError, SegmentRole};

#[test]
fn accepts_typical_owner_and_name() {
    assert!(validate_repo_id_segment("openai-community", SegmentRole::Owner).is_ok());
    assert!(validate_repo_id_segment("gpt2", SegmentRole::Name).is_ok());
    assert!(validate_repo_id_segment("HuggingFaceFW", SegmentRole::Owner).is_ok());
    assert!(validate_repo_id_segment("fineweb-edu", SegmentRole::Name).is_ok());
}

#[test]
fn rejects_empty_segment() {
    assert!(matches!(
        validate_repo_id_segment("", SegmentRole::Owner),
        Err(RepoIdValidationError::Empty {
            role: SegmentRole::Owner
        })
    ));
}

#[test]
fn rejects_segment_over_96_characters() {
    let long = "a".repeat(97);
    assert!(matches!(
        validate_repo_id_segment(&long, SegmentRole::Name),
        Err(RepoIdValidationError::TooLong {
            length: 97,
            role: SegmentRole::Name
        })
    ));
}

#[test]
fn accepts_segment_at_96_character_boundary() {
    let exactly_96 = "a".repeat(96);
    assert!(validate_repo_id_segment(&exactly_96, SegmentRole::Name).is_ok());
}

#[test]
fn rejects_invalid_character() {
    let err = validate_repo_id_segment("foo/bar", SegmentRole::Name).unwrap_err();
    assert!(matches!(
        err,
        RepoIdValidationError::InvalidCharacter {
            role: SegmentRole::Name,
            character: '/'
        }
    ));
    // Spaces, slashes, and other punctuation are all rejected.
    assert!(validate_repo_id_segment("foo bar", SegmentRole::Name).is_err());
    assert!(validate_repo_id_segment("foo@bar", SegmentRole::Name).is_err());
    // Non-ASCII letters are not allowed (the Hub uses ASCII identifiers).
    assert!(validate_repo_id_segment("fooé", SegmentRole::Name).is_err());
}

#[test]
fn rejects_leading_or_trailing_dot() {
    assert!(matches!(
        validate_repo_id_segment(".foo", SegmentRole::Name),
        Err(RepoIdValidationError::LeadingOrTrailingDot { .. })
    ));
    assert!(matches!(
        validate_repo_id_segment("foo.", SegmentRole::Name),
        Err(RepoIdValidationError::LeadingOrTrailingDot { .. })
    ));
}

#[test]
fn rejects_leading_or_trailing_hyphen() {
    assert!(matches!(
        validate_repo_id_segment("-foo", SegmentRole::Name),
        Err(RepoIdValidationError::LeadingOrTrailingHyphen { .. })
    ));
    assert!(matches!(
        validate_repo_id_segment("foo-", SegmentRole::Name),
        Err(RepoIdValidationError::LeadingOrTrailingHyphen { .. })
    ));
}

#[test]
fn rejects_double_hyphen() {
    assert!(matches!(
        validate_repo_id_segment("foo--bar", SegmentRole::Name),
        Err(RepoIdValidationError::DoubleHyphen { .. })
    ));
}

#[test]
fn rejects_double_dot() {
    assert!(matches!(
        validate_repo_id_segment("foo..bar", SegmentRole::Name),
        Err(RepoIdValidationError::DoubleDot { .. })
    ));
}

#[test]
fn rejects_git_suffix_on_name_only() {
    assert!(matches!(
        validate_repo_id_segment("model.git", SegmentRole::Name),
        Err(RepoIdValidationError::GitSuffix)
    ));
    // The same string passes for an owner: only `name` rejects `.git`.
    assert!(validate_repo_id_segment("model.git", SegmentRole::Owner).is_ok());
}

#[test]
fn error_messages_contain_role() {
    let err = validate_repo_id_segment("", SegmentRole::Owner).unwrap_err();
    assert_eq!(err.message(), "the owner segment must not be empty");

    let err = validate_repo_id_segment(".foo", SegmentRole::Name).unwrap_err();
    assert_eq!(err.message(), "the name segment must not start or end with '.'");
}

#[test]
fn every_error_has_its_message() {
    let message = |segment: &str, role: SegmentRole| validate_repo_id_segment(segment, role).unwrap_err().message();
    assert_eq!(
        message(&"a".repeat(1203), SegmentRole::Owner),
        "the owner segment must be at most 96 characters (got 1203)"
    );
    assert_eq!(message("fooé", SegmentRole::Name), "the name segment contains an invalid character: 'é'");
    assert_eq!(message("foo-", SegmentRole::Owner), "the owner segment must not start or end with '-'");
    assert_eq!(message("a--b", SegmentRole::Name), "the name segment must not contain '--'");
    assert_eq!(message("a..b", SegmentRole::Owner), "the owner segment must not contain '..'");
    assert_eq!(message("model.git", SegmentRole::Name), "the name segment must not end with '.git'");
}

#[test]
fn the_first_broken_rule_is_reported() {
    let check = |segment: &str| validate_repo_id_segment(segment, SegmentRole::Name).unwrap_err();
    let role = SegmentRole::Name;
    // Length comes before the character set, and counts characters, not bytes.
    assert_eq!(check(&"é".repeat(97)), RepoIdValidationError::TooLong { role, length: 97 });
    assert_eq!(check(&"é".repeat(96)), RepoIdValidationError::InvalidCharacter { role, character: 'é' });
    // The leftmost invalid character is the one that is named.
    assert_eq!(check(".a b/c"), RepoIdValidationError::InvalidCharacter { role, character: ' ' });
    // Boundaries come before doubled characters, dots before hyphens there.
    assert_eq!(check("-a."), RepoIdValidationError::LeadingOrTrailingDot { role });
    assert_eq!(check("--"), RepoIdValidationError::LeadingOrTrailingHyphen { role });
    assert_eq!(check("."), RepoIdValidationError::LeadingOrTrailingDot { role });
    // Doubled hyphens come before doubled dots, both before the suffix.
    assert_eq!(check("a..b--c"), RepoIdValidationError::DoubleHyphen { role });
    assert_eq!(check("a..git"), RepoIdValidationError::DoubleDot { role });
    assert_eq!(check("a.git").clone(), RepoIdValidationError::GitSuffix);
}

#[test]
fn the_role_decides_only_the_suffix_rule() {
    for segment in ["a", "_", "a-b", "a.b", "a.git", ".git", "gita", "a--b", "a b", ""] {
        let owner = validate_repo_id_segment(segment, SegmentRole::Owner);
        let name = validate_repo_id_segment(segment, SegmentRole::Name);
        assert_eq!(name.is_ok(), owner.is_ok() && !segment.ends_with(".git"), "{segment}");
    }
}

#[test]
fn exactly_the_listed_characters_are_allowed() {
    for c in (0u32..0x300).filter_map(char::from_u32) {
        assert_eq!(
            is_allowed_character(c),
            c.is_ascii_alphanumeric() || c == '.' || c == '-' || c == '_',
            "{c}"
        );
    }
    assert_eq!(SegmentRole::Owner.word(), "owner");
    assert_eq!(SegmentRole::Name.word(), "name");
}
