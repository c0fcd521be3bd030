use rust_tools::collections::trie::Trie;

const DATA: &[&'static str] = &["hello", "world"];

#[test]
fn test_insert_and_contains() {
    let mut t = Trie::new();

    for s in DATA {
        t.insert(s);
    }

    for s in DATA {
        assert!(t.contains(s));
        assert!(t.has_prefix(s));

        assert!(!t.contains(&s[..s.len() - 1]));
        assert!(t.has_prefix(&s[..s.len() - 1]));
    }
}

#[test]
fn test_delete() {
    let mut t = Trie::new();

    for s in DATA {
        t.insert(s);
    }

    assert!(!t.delete("hel"));

    t.insert("hell");
    assert!(t.contains("hello"));

    t.delete("hello");
    assert!(!t.contains("hello"));
}

#[test]
fn test_len_counts_unique_words() {
    let mut t = Trie::new();
    assert_eq!(t.len(), 0);
    assert!(t.is_empty());

    assert!(t.insert("hello"));
    assert!(t.insert("world"));
    assert_eq!(t.len(), 2);

    assert!(!t.insert("hello"));
    assert_eq!(t.len(), 2);

    assert!(!t.insert("he"));
    assert_eq!(t.len(), 3);

    assert!(t.delete("hello"));
    assert_eq!(t.len(), 2);
    assert!(!t.delete("hello"));
    assert_eq!(t.len(), 2);
    assert!(!t.is_empty());
}

#[test]
fn test_delete_keeps_prefixes() {
    let mut t = Trie::new();
    t.insert("hello");
    assert!(t.delete("hello"));
    assert!(t.has_prefix("hel"));
    assert!(!t.contains("hello"));
}
