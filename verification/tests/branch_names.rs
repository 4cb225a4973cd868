use bit::artifacts::branch::branch_name::{BranchName, SymRefName};

#[test]
fn test_is_invalid_branch_name_empty() {
    assert!(BranchName::try_parse("".to_string()).is_err());
}

#[test]
fn test_is_valid_branch_name_simple() {
    assert!(BranchName::try_parse("main".to_string()).is_ok());
    assert!(BranchName::try_parse("feature-123".to_string()).is_ok());
    assert!(BranchName::try_parse("my_branch".to_string()).is_ok());
}

#[test]
fn test_is_valid_branch_name_with_path() {
    assert!(BranchName::try_parse("feature/new-feature".to_string()).is_ok());
    assert!(BranchName::try_parse("bugfix/issue-123".to_string()).is_ok());
}

#[test]
fn branch_name_rejects_each_forbidden_form() {
    for name in [
        ".hidden",
        "a..b",
        "/lead",
        "trail/",
        "x.lock",
        "a@{b",
        "a b",
        "a:b",
        "a?b",
        "a*b",
        "a[b",
        "a\\b",
        "a~b",
        "a^b",
        "a/.b",
        "a\u{7f}b",
        "a\u{0}b",
    ] {
        assert!(BranchName::try_parse(name.to_string()).is_err(), "{name}");
    }
}

#[test]
fn default_branches_are_master_and_main() {
    assert!(BranchName::try_parse("master".to_string()).unwrap().is_default_branch());
    assert!(BranchName::try_parse("main".to_string()).unwrap().is_default_branch());
    assert!(!BranchName::try_parse("dev".to_string()).unwrap().is_default_branch());
}

#[test]
fn sym_ref_name_strips_heads_prefix() {
    let s = SymRefName::new("refs/heads/feature/x".to_string());
    assert_eq!(s.to_short_name().unwrap(), "feature/x");
    let b = BranchName::try_parse_sym_ref_name(&s).unwrap();
    assert_eq!(b.as_ref(), "feature/x");
    let h = SymRefName::new("HEAD".to_string());
    assert!(h.is_detached_head());
    assert_eq!(BranchName::try_parse_sym_ref_name(&h).unwrap().as_ref(), "HEAD");
    assert!(BranchName::try_parse_sym_ref_name(&SymRefName::new("refs/tags/v1".to_string())).is_err());
}

#[test]
fn branch_name_rules_follow_the_forbidden_forms() {
    for ok in ["main", "feature/x", "a.b", "v1.0-rc", "deadbeef", "x@y"] {
        assert!(BranchName::try_parse(ok.to_string()).is_ok(), "{ok}");
    }
    for bad in [".hidden", "a/.b", "a..b", "/abs", "dir/", "topic.lock", "a@{b", "a b", "a*b", "a:b", "a?b", "a[b", "a\\b", "a~b", "a^b", "a\u{7f}b", "a\nb"] {
        assert!(BranchName::try_parse(bad.to_string()).is_err(), "{bad:?}");
    }
}
