use bit::artifacts::branch::revision::Revision;

#[test]
fn test_parse_simple_ref() {
    let result = Revision::try_parse("main").unwrap();
    if let Revision::Ref(name) = result {
        assert_eq!(name.as_ref(), "main");
    } else {
        panic!("Expected Ref variant");
    }
}

#[test]
fn test_parse_head_alias() {
    let result = Revision::try_parse("@").unwrap();
    if let Revision::Ref(name) = result {
        assert_eq!(name.as_ref(), "HEAD");
    } else {
        panic!("Expected Ref variant");
    }
}

#[test]
fn test_parse_parent() {
    let result = Revision::try_parse("main^").unwrap();
    if let Revision::Parent(base) = result {
        if let Revision::Ref(name) = *base {
            assert_eq!(name.as_ref(), "main");
        } else {
            panic!("Expected Ref variant in parent");
        }
    } else {
        panic!("Expected Parent variant");
    }
}

#[test]
fn test_parse_ancestor() {
    let result = Revision::try_parse("main~3").unwrap();
    if let Revision::Ancestor(base, generation) = result {
        assert_eq!(generation, 3);
        if let Revision::Ref(name) = *base {
            assert_eq!(name.as_ref(), "main");
        } else {
            panic!("Expected Ref variant in ancestor");
        }
    } else {
        panic!("Expected Ancestor variant");
    }
}

#[test]
fn test_parse_nested_parent() {
    let result = Revision::try_parse("main^^").unwrap();
    if let Revision::Parent(first_parent) = result {
        if let Revision::Parent(second_parent) = *first_parent {
            if let Revision::Ref(name) = *second_parent {
                assert_eq!(name.as_ref(), "main");
            } else {
                panic!("Expected Ref at the innermost level");
            }
        } else {
            panic!("Expected second Parent variant");
        }
    } else {
        panic!("Expected first Parent variant");
    }
}

#[test]
fn test_parse_invalid_branch_name_empty() {
    let result = Revision::try_parse("");
    assert!(result.is_err());
}

#[test]
fn test_parse_invalid_branch_name_with_space() {
    let result = Revision::try_parse("invalid name");
    assert!(result.is_err());
}

#[test]
fn test_parse_invalid_branch_name_with_colon() {
    let result = Revision::try_parse("invalid:name");
    assert!(result.is_err());
}

#[test]
fn test_parse_invalid_branch_name_starts_with_dot() {
    let result = Revision::try_parse(".invalid");
    assert!(result.is_err());
}

#[test]
fn test_parse_invalid_branch_name_starts_with_slash() {
    let result = Revision::try_parse("/invalid");
    assert!(result.is_err());
}

#[test]
fn test_parse_invalid_branch_name_ends_with_slash() {
    let result = Revision::try_parse("invalid/");
    assert!(result.is_err());
}

#[test]
fn test_parse_invalid_branch_name_ends_with_lock() {
    let result = Revision::try_parse("branch.lock");
    assert!(result.is_err());
}

#[test]
fn test_parse_invalid_branch_name_double_dot() {
    let result = Revision::try_parse("feature..name");
    assert!(result.is_err());
}

#[test]
fn test_parse_invalid_parent_with_invalid_base() {
    let result = Revision::try_parse(".invalid^");
    assert!(result.is_err());
}

#[test]
fn test_parse_invalid_ancestor_with_invalid_base() {
    let result = Revision::try_parse(".invalid~5");
    assert!(result.is_err());
}

#[test]
fn test_parse_ancestor_with_zero() {
    let result = Revision::try_parse("main~0").unwrap();
    if let Revision::Ancestor(_, generation) = result {
        assert_eq!(generation, 0);
    } else {
        panic!("Expected Ancestor variant");
    }
}

#[test]
fn test_parse_valid_hierarchical_branch_name() {
    let result = Revision::try_parse("feature/my-feature").unwrap();
    if let Revision::Ref(name) = result {
        assert_eq!(name.as_ref(), "feature/my-feature");
    } else {
        panic!("Expected Ref variant");
    }
}

#[test]
fn test_parse_full_oid() {
    let oid = "a".repeat(40);
    let result = Revision::try_parse(&oid).unwrap();
    if let Revision::Ref(name) = result {
        assert_eq!(name.as_ref(), oid);
    } else {
        panic!("Expected Ref variant");
    }
}

#[test]
fn test_parse_abbreviated_oid() {
    let oid = "a1b2c3d";
    let result = Revision::try_parse(oid).unwrap();
    if let Revision::Ref(name) = result {
        assert_eq!(name.as_ref(), oid);
    } else {
        panic!("Expected Ref variant");
    }
}

#[test]
fn test_parse_oid_minimum_length() {
    let oid = "a1b2";
    let result = Revision::try_parse(oid).unwrap();
    if let Revision::Ref(name) = result {
        assert_eq!(name.as_ref(), oid);
    } else {
        panic!("Expected Ref variant");
    }
}

#[test]
fn test_parse_oid_too_short_treated_as_ref() {
    let result = Revision::try_parse("abc");
    assert!(result.is_ok());
    if let Ok(Revision::Ref(name)) = result {
        assert_eq!(name.as_ref(), "abc");
    } else {
        panic!("Expected Ref variant for short hex string");
    }
}

#[test]
fn test_parse_oid_with_parent() {
    let oid = "a".repeat(40) + "^";
    let result = Revision::try_parse(&oid).unwrap();
    if let Revision::Parent(base) = result {
        if let Revision::Ref(name) = *base {
            assert_eq!(name.as_ref(), "a".repeat(40));
        } else {
            panic!("Expected Ref variant in parent");
        }
    } else {
        panic!("Expected Parent variant");
    }
}

#[test]
fn test_parse_oid_with_ancestor() {
    let oid = "a".repeat(40) + "~3";
    let result = Revision::try_parse(&oid).unwrap();
    if let Revision::Ancestor(base, generation) = result {
        assert_eq!(generation, 3);
        if let Revision::Ref(name) = *base {
            assert_eq!(name.as_ref(), "a".repeat(40));
        } else {
            panic!("Expected Ref variant in ancestor");
        }
    } else {
        panic!("Expected Ancestor variant");
    }
}

#[test]
fn test_parse_abbreviated_oid_with_parent() {
    let oid = "a1b2c3d^";
    let result = Revision::try_parse(oid).unwrap();
    if let Revision::Parent(base) = result {
        if let Revision::Ref(name) = *base {
            assert_eq!(name.as_ref(), "a1b2c3d");
        } else {
            panic!("Expected Ref variant in parent");
        }
    } else {
        panic!("Expected Parent variant");
    }
}

#[test]
fn test_alias_resolution_works() {
    let result = Revision::try_parse("@");
    assert!(result.is_ok());
    let parsed = result.unwrap();
    if let Revision::Ref(resolved) = parsed {
        assert_eq!(resolved.as_ref(), "HEAD");
    } else {
        panic!("Expected Ref variant");
    }
}

#[test]
fn revision_mixed_suffixes() {
    let r = Revision::try_parse("main~2^").unwrap();
    match r {
        Revision::Parent(base) => match *base {
            Revision::Ancestor(inner, 2) => match *inner {
                Revision::Ref(name) => assert_eq!(name.as_ref(), "main"),
                _ => panic!("Expected Ref"),
            },
            _ => panic!("Expected Ancestor"),
        },
        _ => panic!("Expected Parent"),
    }
}

#[test]
fn looks_like_oid_needs_four_to_forty_hex_digits() {
    assert!(Revision::looks_like_oid("a1b2"));
    assert!(Revision::looks_like_oid(&"f".repeat(40)));
    assert!(!Revision::looks_like_oid("abc"));
    assert!(!Revision::looks_like_oid(&"f".repeat(41)));
    assert!(!Revision::looks_like_oid("main"));
}

#[test]
fn nth_parent_notation_names_a_parent_of_a_merge() {
    match Revision::try_parse("HEAD^2").unwrap() {
        Revision::NthParent(base, 2) => match *base {
            Revision::Ref(name) => assert_eq!(name.as_ref(), "HEAD"),
            _ => panic!("Expected Ref"),
        },
        _ => panic!("Expected NthParent"),
    }
    match Revision::try_parse("main^3").unwrap() {
        Revision::NthParent(base, 3) => match *base {
            Revision::Ref(name) => assert_eq!(name.as_ref(), "main"),
            _ => panic!("Expected Ref"),
        },
        _ => panic!("Expected NthParent"),
    }
    let r = Revision::try_parse("main~2^2^").unwrap();
    let (base, hops) = r.base_and_hops();
    assert_eq!(base.as_ref(), "main");
    assert_eq!(hops, vec![(0, 2), (1, 1), (0, 1)]);
    let (_, none) = Revision::try_parse("main^0").unwrap().base_and_hops();
    assert!(none.is_empty());
}

#[test]
fn caret_and_tilde_suffixes_nest_on_a_branch_name() {
    let mut r = Revision::try_parse("topic^^^").unwrap();
    for _ in 0..3 {
        r = match r {
            Revision::Parent(base) => *base,
            _ => panic!("Expected Parent"),
        };
    }
    match r {
        Revision::Ref(name) => assert_eq!(name.as_ref(), "topic"),
        _ => panic!("Expected Ref"),
    }
    match Revision::try_parse("topic~12").unwrap() {
        Revision::Ancestor(base, 12) => match *base {
            Revision::Ref(name) => assert_eq!(name.as_ref(), "topic"),
            _ => panic!("Expected Ref"),
        },
        _ => panic!("Expected Ancestor"),
    }
    match Revision::try_parse("abc123").unwrap() {
        Revision::Ref(name) => assert_eq!(name.as_ref(), "abc123"),
        _ => panic!("Expected Ref"),
    }
}
