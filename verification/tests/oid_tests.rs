use snmpkit::oid::{Oid, OidTrie};
use snmpkit::OidError;

#[test]
fn test_parse_basic() {
    let oid: Oid = "1.3.6.1".parse().unwrap();
    assert_eq!(oid.parts(), &[1, 3, 6, 1]);
}

#[test]
fn test_parse_leading_dot() {
    let oid: Oid = ".1.3.6.1".parse().unwrap();
    assert_eq!(oid.parts(), &[1, 3, 6, 1]);
}

#[test]
fn test_parse_empty() {
    let result: Result<Oid, _> = "".parse();
    assert!(matches!(result, Err(OidError::Empty)));
}

#[test]
fn test_parse_invalid() {
    let result: Result<Oid, _> = "1.3.abc.1".parse();
    assert!(matches!(result, Err(OidError::InvalidPart(_))));
}

#[test]
fn test_display() {
    let oid: Oid = "1.3.6.1.4.1".parse().unwrap();
    assert_eq!(oid.to_string(), "1.3.6.1.4.1");
}

#[test]
fn test_comparison() {
    let oid1: Oid = "1.3.6.1".parse().unwrap();
    let oid2: Oid = "1.3.6.2".parse().unwrap();
    let oid3: Oid = "1.3.6.1.1".parse().unwrap();

    assert!(oid1 < oid2);
    assert!(oid1 < oid3);
    assert!(oid2 > oid3);
}

#[test]
fn test_starts_with() {
    let oid: Oid = "1.3.6.1.4.1.12345".parse().unwrap();
    let prefix: Oid = "1.3.6.1".parse().unwrap();
    let not_prefix: Oid = "1.3.6.2".parse().unwrap();

    assert!(oid.starts_with(&prefix));
    assert!(!oid.starts_with(&not_prefix));
}

#[test]
fn test_parent_child() {
    let oid: Oid = "1.3.6.1".parse().unwrap();
    let parent = oid.parent().unwrap();
    let child = oid.child(4);

    assert_eq!(parent.to_string(), "1.3.6");
    assert_eq!(child.to_string(), "1.3.6.1.4");
}

#[test]
fn test_is_parent_of() {
    let parent: Oid = "1.3.6.1".parse().unwrap();
    let child: Oid = "1.3.6.1.4".parse().unwrap();
    let sibling: Oid = "1.3.6.2".parse().unwrap();

    assert!(parent.is_parent_of(&child));
    assert!(!parent.is_parent_of(&sibling));
    assert!(!parent.is_parent_of(&parent));
}

#[test]
fn test_oid_roundtrip() {
    let oid: Oid = "1.3.6.1.4.1.12345".parse().unwrap();
    assert_eq!(oid.to_string(), "1.3.6.1.4.1.12345");
}

#[test]
fn test_oid_ordering() {
    let oid1: Oid = "1.3.6.1".parse().unwrap();
    let oid2: Oid = "1.3.6.2".parse().unwrap();
    let oid3: Oid = "1.3.6.1.1".parse().unwrap();

    assert!(oid1 < oid2);
    assert!(oid1 < oid3);
}

#[test]
fn test_trie_get_next_walk() {
    let mut trie = OidTrie::new();

    let oids = ["1.3.6.1.1", "1.3.6.1.2", "1.3.6.1.3", "1.3.6.1.4"];
    for (i, s) in oids.iter().enumerate() {
        let oid: Oid = s.parse().unwrap();
        trie.insert(&oid, i);
    }

    let start: Oid = "1.3.6.1".parse().unwrap();
    let (next, _) = trie.get_next(&start).unwrap();
    assert_eq!(next.to_string(), "1.3.6.1.1");
}

#[test]
fn test_parse_max_subid() {
    let oid: Oid = "1.4294967295.2".parse().unwrap();
    assert_eq!(oid.parts(), &[1, 4294967295, 2]);
    assert_eq!(oid.to_string(), "1.4294967295.2");
}

#[test]
fn test_parse_overflowing_part() {
    let result: Result<Oid, _> = "1.4294967296".parse();
    assert!(matches!(result, Err(OidError::InvalidPart(_))));
}

#[test]
fn test_parse_trailing_dot() {
    let result: Result<Oid, _> = "1.3.".parse();
    assert!(matches!(result, Err(OidError::InvalidPart(_))));
}

#[test]
fn test_parse_lone_dot() {
    let result: Result<Oid, _> = ".".parse::<Oid>();
    assert!(matches!(result, Err(OidError::Empty)));
}

#[test]
fn test_from_slice_and_accessors() {
    let oid = Oid::from_slice(&[1, 3, 6]).unwrap();
    assert_eq!(oid.len(), 3);
    assert!(!oid.is_empty());
    assert!(matches!(Oid::from_slice(&[]), Err(OidError::Empty)));
    assert!(matches!(Oid::new(vec![]), Err(OidError::Empty)));
}

#[test]
fn test_common_prefix_len() {
    let a: Oid = "1.3.6.1.4".parse().unwrap();
    let b: Oid = "1.3.6.2.4".parse().unwrap();
    assert_eq!(a.common_prefix_len(&b), 3);
    assert_eq!(a.common_prefix_len(&a), 5);
}

#[test]
fn test_parse_surrounding_whitespace() {
    let oid: Oid = "  1.3.6.1 \t".parse().unwrap();
    assert_eq!(oid.parts(), &[1, 3, 6, 1]);
    let oid2: Oid = " .1.2 ".parse().unwrap();
    assert_eq!(oid2.parts(), &[1, 2]);
    let ws_only: Result<Oid, _> = "   ".parse();
    assert!(matches!(ws_only, Err(OidError::Empty)));
}

#[test]
fn test_parse_invalid_token_text() {
    match "1.3.abc.1".parse::<Oid>() {
        Err(OidError::InvalidPart(t)) => assert_eq!(t, "abc"),
        other => panic!("unexpected result: {other:?}"),
    }
    match "1.4294967296.2".parse::<Oid>() {
        Err(OidError::InvalidPart(t)) => assert_eq!(t, "4294967296"),
        other => panic!("unexpected result: {other:?}"),
    }
    match "1.3.".parse::<Oid>() {
        Err(OidError::InvalidPart(t)) => assert_eq!(t, ""),
        other => panic!("unexpected result: {other:?}"),
    }
    match "12x4".parse::<Oid>() {
        Err(OidError::InvalidPart(t)) => assert_eq!(t, "12x4"),
        other => panic!("unexpected result: {other:?}"),
    }
}
