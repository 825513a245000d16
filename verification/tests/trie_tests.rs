use snmpkit::oid::{Oid, OidTrie};

#[test]
fn test_insert_get() {
    let mut trie = OidTrie::new();
    let oid: Oid = "1.3.6.1.4".parse().unwrap();

    trie.insert(&oid, "test");
    assert_eq!(trie.get(&oid), Some(&"test"));
    assert_eq!(trie.len(), 1);
}

#[test]
fn test_insert_replace() {
    let mut trie = OidTrie::new();
    let oid: Oid = "1.3.6.1".parse().unwrap();

    assert_eq!(trie.insert(&oid, "first"), None);
    assert_eq!(trie.insert(&oid, "second"), Some("first"));
    assert_eq!(trie.get(&oid), Some(&"second"));
    assert_eq!(trie.len(), 1);
}

#[test]
fn test_remove() {
    let mut trie = OidTrie::new();
    let oid: Oid = "1.3.6.1".parse().unwrap();

    trie.insert(&oid, "test");
    assert_eq!(trie.remove(&oid), Some("test"));
    assert_eq!(trie.get(&oid), None);
    assert_eq!(trie.len(), 0);
}

#[test]
fn test_clear() {
    let mut trie = OidTrie::new();
    trie.insert(&"1.3.6.1".parse().unwrap(), "a");
    trie.insert(&"1.3.6.2".parse().unwrap(), "b");
    trie.insert(&"1.3.6.3".parse().unwrap(), "c");

    assert_eq!(trie.len(), 3);
    trie.clear();
    assert_eq!(trie.len(), 0);
    assert!(trie.is_empty());
    assert_eq!(trie.get(&"1.3.6.1".parse().unwrap()), None);
}

#[test]
fn test_longest_prefix() {
    let mut trie = OidTrie::new();
    let oid1: Oid = "1.3.6".parse().unwrap();
    let oid2: Oid = "1.3.6.1.4".parse().unwrap();

    trie.insert(&oid1, "short");
    trie.insert(&oid2, "long");

    let query: Oid = "1.3.6.1.4.1.12345".parse().unwrap();
    let (prefix, value) = trie.longest_prefix(&query).unwrap();

    assert_eq!(prefix.to_string(), "1.3.6.1.4");
    assert_eq!(*value, "long");
}

#[test]
fn test_get_next() {
    let mut trie = OidTrie::new();

    let oid1: Oid = "1.3.6.1.1".parse().unwrap();
    let oid2: Oid = "1.3.6.1.2".parse().unwrap();
    let oid3: Oid = "1.3.6.1.3".parse().unwrap();

    trie.insert(&oid1, "first");
    trie.insert(&oid2, "second");
    trie.insert(&oid3, "third");

    let (next, value) = trie.get_next(&oid1).unwrap();
    assert_eq!(next.to_string(), "1.3.6.1.2");
    assert_eq!(*value, "second");

    let (next, value) = trie.get_next(&oid2).unwrap();
    assert_eq!(next.to_string(), "1.3.6.1.3");
    assert_eq!(*value, "third");
}

#[test]
fn test_get_next_subtree() {
    let mut trie = OidTrie::new();

    let oid1: Oid = "1.3.6.1".parse().unwrap();
    let oid2: Oid = "1.3.6.1.1".parse().unwrap();

    trie.insert(&oid1, "parent");
    trie.insert(&oid2, "child");

    let (next, value) = trie.get_next(&oid1).unwrap();
    assert_eq!(next.to_string(), "1.3.6.1.1");
    assert_eq!(*value, "child");
}

#[test]
fn test_get_next_empty_trie() {
    let trie: OidTrie<&str> = OidTrie::new();
    let oid: Oid = "1.3.6.1".parse().unwrap();
    assert!(trie.get_next(&oid).is_none());
}

#[test]
fn test_get_next_last_element() {
    let mut trie = OidTrie::new();
    let oid: Oid = "1.3.6.1".parse().unwrap();
    trie.insert(&oid, "only");

    assert!(trie.get_next(&oid).is_none());
}

#[test]
fn test_get_next_nonexistent_oid() {
    let mut trie = OidTrie::new();
    trie.insert(&"1.3.6.1.1".parse().unwrap(), "a");
    trie.insert(&"1.3.6.1.3".parse().unwrap(), "c");

    let query: Oid = "1.3.6.1.2".parse().unwrap();
    let (next, value) = trie.get_next(&query).unwrap();
    assert_eq!(next.to_string(), "1.3.6.1.3");
    assert_eq!(*value, "c");
}

#[test]
fn test_get_next_prefix_query() {
    let mut trie = OidTrie::new();
    trie.insert(&"1.3.6.1.1.1".parse().unwrap(), "deep");
    trie.insert(&"1.3.6.1.2".parse().unwrap(), "sibling");

    let query: Oid = "1.3.6.1.1".parse().unwrap();
    let (next, value) = trie.get_next(&query).unwrap();
    assert_eq!(next.to_string(), "1.3.6.1.1.1");
    assert_eq!(*value, "deep");
}

#[test]
fn test_iter() {
    let mut trie = OidTrie::new();
    trie.insert(&"1.3.6.1".parse().unwrap(), "a");
    trie.insert(&"1.3.6.2".parse().unwrap(), "b");
    trie.insert(&"1.3.6.1.1".parse().unwrap(), "c");

    let items = trie.iter();
    assert_eq!(items.len(), 3);

    assert_eq!(items[0].0.to_string(), "1.3.6.1");
    assert_eq!(items[1].0.to_string(), "1.3.6.1.1");
    assert_eq!(items[2].0.to_string(), "1.3.6.2");
}

#[test]
fn test_keys_values() {
    let mut trie = OidTrie::new();
    trie.insert(&"1.3.6.1".parse().unwrap(), "a");
    trie.insert(&"1.3.6.2".parse().unwrap(), "b");

    let keys = trie.keys();
    assert_eq!(keys.len(), 2);
    assert_eq!(keys[0].to_string(), "1.3.6.1");
    assert_eq!(keys[1].to_string(), "1.3.6.2");

    let values = trie.values();
    assert_eq!(values, vec![&"a", &"b"]);
}

#[test]
fn test_iter_empty() {
    let trie: OidTrie<&str> = OidTrie::new();
    assert_eq!(trie.iter().len(), 0);
}

#[test]
fn test_getnext_full_walk() {
    let mut trie = OidTrie::new();
    for (i, s) in ["1.3.6.1.1", "1.3.6.1.2", "1.3.6.1.3", "1.3.6.1.4"]
        .iter()
        .enumerate()
    {
        trie.insert(&s.parse().unwrap(), i);
    }

    let mut cur: Oid = "1.3.6.1".parse().unwrap();
    let mut seen = Vec::new();
    while let Some((next, _)) = trie.get_next(&cur) {
        seen.push(next.to_string());
        cur = next;
    }
    assert_eq!(seen, vec!["1.3.6.1.1", "1.3.6.1.2", "1.3.6.1.3", "1.3.6.1.4"]);
    assert!(trie.get_next(&"1.3.6.1.4".parse().unwrap()).is_none());
}

#[test]
fn test_parent_before_subtree_order() {
    let mut trie = OidTrie::new();
    trie.insert(&"1.3.6.1".parse().unwrap(), "parent");
    trie.insert(&"1.3.6.1.1".parse().unwrap(), "child");

    let items = trie.iter();
    assert_eq!(items[0].0.to_string(), "1.3.6.1");
    assert_eq!(items[1].0.to_string(), "1.3.6.1.1");

    let (next, _) = trie.get_next(&"1.3.6.1".parse().unwrap()).unwrap();
    assert_eq!(next.to_string(), "1.3.6.1.1");
}

#[test]
fn test_longest_prefix_dispatch() {
    let mut trie = OidTrie::new();
    trie.insert(&"1.3.6".parse().unwrap(), "top");
    trie.insert(&"1.3.6.1.4".parse().unwrap(), "deep");

    let (p1, _) = trie
        .longest_prefix(&"1.3.6.1.4.1.12345".parse().unwrap())
        .unwrap();
    assert_eq!(p1.to_string(), "1.3.6.1.4");

    let (p2, _) = trie.longest_prefix(&"1.3.6.2".parse().unwrap()).unwrap();
    assert_eq!(p2.to_string(), "1.3.6");

    assert!(trie.longest_prefix(&"1.2".parse().unwrap()).is_none());
}

#[test]
fn test_remove_prunes_siblings_intact() {
    let mut trie = OidTrie::new();
    trie.insert(&"1.3.6.1.1".parse().unwrap(), "a");
    trie.insert(&"1.3.6.2".parse().unwrap(), "b");

    assert_eq!(trie.remove(&"1.3.6.1.1".parse().unwrap()), Some("a"));
    assert_eq!(trie.len(), 1);
    assert_eq!(trie.get(&"1.3.6.2".parse().unwrap()), Some(&"b"));
    assert_eq!(trie.remove(&"1.3.6.1.1".parse().unwrap()), None);
    assert_eq!(trie.len(), 1);

    let items = trie.iter();
    assert_eq!(items.len(), 1);
    assert_eq!(items[0].0.to_string(), "1.3.6.2");
}

#[test]
fn test_get_mut() {
    let mut trie = OidTrie::new();
    let oid: Oid = "1.3.6.1".parse().unwrap();
    trie.insert(&oid, 10);

    if let Some(v) = trie.get_mut(&oid) {
        *v += 5;
    } else {
        panic!("value expected");
    }
    assert_eq!(trie.get(&oid), Some(&15));
    assert_eq!(trie.len(), 1);

    assert!(trie.get_mut(&"1.3.6.2".parse().unwrap()).is_none());
    assert_eq!(trie.len(), 1);
}
