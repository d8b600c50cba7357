use guac::validation::{
    sanitize_commit_message, validate_address, validate_branch, validate_kg_path, BadComponent,
    ValidationError,
};

#[test]
fn test_validate_branch() {
    assert!(validate_branch("main").is_ok());
    assert!(validate_branch("feature/new-ui").is_ok());
    assert!(validate_branch("").is_err());
    assert!(validate_branch("-foo").is_err());
    assert!(validate_branch("..").is_err());
    assert!(validate_branch("foo/../bar").is_err());
}

#[test]
fn test_validate_kg_path() {
    assert!(validate_kg_path("user.name").is_ok());
    assert!(validate_kg_path("projects.0").is_ok());
    assert!(validate_kg_path("").is_err());
    assert!(validate_kg_path(".user").is_err());
    assert!(validate_kg_path("user..name").is_err());
    assert!(validate_kg_path("user@name").is_err());
}

#[test]
fn test_validate_address() {
    assert!(validate_address("/memory/projects/firebac").is_ok());
    assert!(validate_address("projects/firebac/../marina").is_err());
    assert!(validate_address("memory/../../../etc/passwd").is_err());
}

#[test]
fn test_sanitize_commit_message() {
    let raw = "hello\tworld\nsecond line\n";
    assert_eq!(sanitize_commit_message(raw), "hello world\nsecond line");
}

#[test]
fn branch_errors_name_the_first_rule_broken() {
    assert_eq!(validate_branch(""), Err(ValidationError::BranchEmpty));
    assert_eq!(validate_branch(&"a".repeat(129)), Err(ValidationError::BranchTooLong));
    assert!(validate_branch(&"a".repeat(128)).is_ok());
    assert_eq!(validate_branch("-x"), Err(ValidationError::BranchLeadingDash));
    assert_eq!(validate_branch("."), Err(ValidationError::BranchDotName));
    assert_eq!(validate_branch(".."), Err(ValidationError::BranchDotName));
    assert_eq!(validate_branch("a..b"), Err(ValidationError::BranchDotDot));
    assert_eq!(validate_branch("a\u{7}b"), Err(ValidationError::BranchControlChar));
    assert_eq!(validate_branch("a\u{85}b"), Err(ValidationError::BranchControlChar));
    // the length limit counts bytes: 43 three-byte characters are 129 bytes
    assert_eq!(validate_branch(&"\u{20ac}".repeat(43)), Err(ValidationError::BranchTooLong));
}

#[test]
fn kg_path_errors_name_the_first_rule_broken() {
    assert_eq!(validate_kg_path(""), Err(ValidationError::KgPathEmpty));
    assert_eq!(validate_kg_path(&"a".repeat(257)), Err(ValidationError::KgPathTooLong));
    assert_eq!(validate_kg_path("a."), Err(ValidationError::KgPathEdgeDot));
    assert_eq!(validate_kg_path("a..b"), Err(ValidationError::KgPathDotDot));
    assert_eq!(
        validate_kg_path("user.na me"),
        Err(ValidationError::KgPathInvalidSegment("na me".to_string()))
    );
    assert!(validate_kg_path("caf\u{e9}.m\u{fc}nchen_1-2").is_ok());
}

#[test]
fn address_errors_name_the_component() {
    assert_eq!(validate_address(""), Err(ValidationError::AddressEmpty));
    assert_eq!(validate_address(&"a".repeat(257)), Err(ValidationError::AddressTooLong));
    assert_eq!(
        validate_address("./x"),
        Err(ValidationError::AddressBadComponent(BadComponent::CurDir))
    );
    assert_eq!(
        validate_address("/memory/a/.."),
        Err(ValidationError::AddressBadComponent(BadComponent::ParentDir))
    );
    assert!(validate_address("a/./b").is_ok());
    assert!(validate_address("/memory").is_ok());
    assert_eq!(
        validate_address("memory//./x"),
        Err(ValidationError::AddressBadComponent(BadComponent::RootDir))
    );
}

#[test]
fn commit_message_lines_are_trimmed_and_controls_blanked() {
    assert_eq!(sanitize_commit_message("  a \r\n  b\u{1b}c  \n\n"), "a\nb c");
    assert_eq!(sanitize_commit_message(""), "");
    assert_eq!(sanitize_commit_message("\u{a0}x\u{3000}"), "x");
    let once = sanitize_commit_message(" x\t\n y \n");
    assert_eq!(sanitize_commit_message(&once), once);
}

#[test]
fn error_messages_name_the_problem() {
    assert_eq!(validate_branch("").unwrap_err().message(), "branch name cannot be empty");
    assert_eq!(validate_branch("-x").unwrap_err().message(), "branch name cannot start with '-'");
    assert_eq!(
        validate_kg_path("user@name").unwrap_err().message(),
        "knowledge graph segment 'user@name' contains invalid characters"
    );
    assert_eq!(
        validate_address("memory/../../../etc/passwd").unwrap_err().message(),
        "memory address contains invalid path component: ParentDir"
    );
    assert_eq!(
        validate_address(&"a".repeat(300)).unwrap_err().message(),
        "memory address too long (max 256 characters)"
    );
}

#[test]
fn absolute_names_and_addresses_are_refused() {
    assert_eq!(validate_branch("/etc"), Err(ValidationError::BranchLeadingSlash));
    assert_eq!(validate_branch("/etc").unwrap_err().message(), "branch name cannot start with '/'");
    assert!(validate_branch("feature/x").is_ok());
    assert_eq!(
        validate_address("/memory//etc/passwd"),
        Err(ValidationError::AddressBadComponent(BadComponent::RootDir))
    );
    assert_eq!(
        validate_address("/memory//etc/passwd").unwrap_err().message(),
        "memory address contains invalid path component: RootDir"
    );
    assert!(validate_address("//memory/x").is_ok());
}
