use fusiongraph::dictionary::NodeDictionary;

#[test]
fn interning_is_deterministic_and_reversible() {
    let mut dict = NodeDictionary::new();
    assert_eq!(dict.get_or_insert("alice"), 0);
    assert_eq!(dict.get_or_insert("bob"), 1);
    assert_eq!(dict.get_or_insert("alice"), 0, "idempotent");

    assert_eq!(dict.id_of("bob"), Some(1));
    assert_eq!(dict.id_of("carol"), None);
    assert_eq!(dict.key_of(0), Some("alice"));
    assert_eq!(dict.key_of(9), None);
    assert_eq!(dict.len(), 2);
}

#[test]
fn dictionary_keys_in_id_order() {
    let mut dict = NodeDictionary::default();
    assert!(dict.is_empty());
    for k in ["x", "y", "x", "z", "y"] {
        dict.get_or_insert(k);
    }
    let keys: Vec<&str> = dict.keys().iter().map(|s| s.as_str()).collect();
    assert_eq!(keys, vec!["x", "y", "z"]);
    assert!(!dict.is_empty());
}

#[test]
fn dictionary_many_keys_roundtrip() {
    let mut dict = NodeDictionary::new();
    for i in 0..500u64 {
        let key = format!("user-{i}");
        assert_eq!(dict.get_or_insert(&key), i);
    }
    for i in 0..500u64 {
        let key = format!("user-{i}");
        assert_eq!(dict.id_of(&key), Some(i));
        assert_eq!(dict.key_of(i), Some(key.as_str()));
    }
    assert_eq!(dict.len(), 500);
}
