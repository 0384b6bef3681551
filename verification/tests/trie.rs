use capillary::Dictionary;

fn key(s: &str) -> Vec<char> {
    s.chars().collect()
}

#[test]
fn insert() {
    let mut dict = Dictionary::new();

    dict.insert(&key(":D"), String::from("Hello"));

    assert_eq!(dict.len(), 1);

    let val = dict.get(&key(":D"));

    assert_eq!(val, Some(&String::from("Hello")));
}

#[test]
fn partial_find() {
    let mut dict = Dictionary::new();
    dict.insert(&key(":D"), String::from("Hello"));

    let mut lookup = dict.lookup();

    let _ = lookup.partial_search(&':');
    let _ = lookup.partial_search(&'D');

    let val = lookup.try_resolve();

    assert_eq!(val, Some(&String::from("Hello")));
}

#[test]
fn multiple_vals() {
    let mut dict = Dictionary::new();
    dict.insert(&key(":D"), String::from("Hi there"));
    dict.insert(&key(":)"), String::from("Hello"));

    let mut lookup = dict.lookup();

    let _ = lookup.partial_search(&':');
    let _ = lookup.partial_search(&'D');

    let val1 = lookup.try_resolve();
    assert_eq!(val1, Some(&String::from("Hi there")));

    let mut lookup = dict.lookup();

    let _ = lookup.partial_search(&':');
    let _ = lookup.partial_search(&')');

    let val2 = lookup.try_resolve();
    assert_eq!(val2, Some(&String::from("Hello")));
}

#[test]
fn mutate_node() {
    let mut dict = Dictionary::new();
    dict.insert(&key(":D"), String::from("Hi there"));

    let prev = dict.get_mut(&key(":D"), String::from("Hi capillary!")).unwrap();
    assert_eq!(prev, String::from("Hi there"));

    let new_val = dict.get(&key(":D"));

    assert_eq!(new_val, Some(&String::from("Hi capillary!")));
}

#[test]
fn insert_then_get_returns_value() {
    let mut dict = Dictionary::new();
    dict.insert(&key("abc"), String::from("first"));
    assert_eq!(dict.get(&key("abc")), Some(&String::from("first")));
}

#[test]
fn first_insert_wins() {
    let mut dict = Dictionary::new();
    dict.insert(&key(":D"), String::from("Hello"));
    dict.insert(&key(":D"), String::from("Bye"));
    assert_eq!(dict.get(&key(":D")), Some(&String::from("Hello")));
    assert_eq!(dict.len(), 1);
}

#[test]
fn insert_into_prefix_stores_value() {
    let mut dict = Dictionary::new();
    dict.insert(&key("ab"), String::from("long"));
    // "a" exists only as a prefix so far: inserting it must store the value
    dict.insert(&key("a"), String::from("short"));
    assert_eq!(dict.get(&key("a")), Some(&String::from("short")));
    assert_eq!(dict.get(&key("ab")), Some(&String::from("long")));
    assert_eq!(dict.len(), 2);

    let mut lookup = dict.lookup();
    assert!(lookup.partial_search(&'a').is_ok());
    assert_eq!(lookup.try_resolve(), Some(&String::from("short")));
}

#[test]
fn from_pairs_stores_into_prefix() {
    let pairs = vec![(key("ab"), String::from("long")), (key("a"), String::from("short"))];
    let dict = Dictionary::from_pairs(&pairs);
    assert_eq!(dict.len(), 2);
    assert_eq!(dict.get(&key("a")), Some(&String::from("short")));
    assert_eq!(dict.get(&key("ab")), Some(&String::from("long")));
}

#[test]
fn len_counts_distinct_keys() {
    let mut dict = Dictionary::new();
    assert_eq!(dict.len(), 0);
    assert!(dict.is_empty());
    dict.insert(&key(":D"), String::from("a"));
    dict.insert(&key(":D"), String::from("b"));
    dict.insert(&key(":)"), String::from("c"));
    assert_eq!(dict.len(), 2);
    assert!(!dict.is_empty());
}

#[test]
fn cursor_resolves_like_get() {
    let mut dict = Dictionary::new();
    dict.insert(&key("ab"), String::from("x"));
    dict.insert(&key("b"), String::from("y"));

    for k in ["ab", "b"] {
        let mut lookup = dict.lookup();
        for part in k.chars() {
            assert!(lookup.partial_search(&part).is_ok());
        }
        assert_eq!(lookup.try_resolve(), dict.get(&key(k)));
    }
}

#[test]
fn failed_search_resets_cursor() {
    let mut dict = Dictionary::new();
    dict.insert(&key(":D"), String::from("Hello"));

    let mut lookup = dict.lookup();
    assert!(lookup.partial_search(&':').is_ok());
    assert!(lookup.partial_search(&'x').is_err());

    // after the failure the cursor acts like a fresh one
    assert!(lookup.partial_search(&':').is_ok());
    assert!(lookup.partial_search(&'D').is_ok());
    assert_eq!(lookup.try_resolve(), Some(&String::from("Hello")));
}

#[test]
fn reset_restarts_search() {
    let mut dict = Dictionary::new();
    dict.insert(&key(":D"), String::from("Hello"));

    let mut lookup = dict.lookup();
    assert!(lookup.partial_search(&':').is_ok());
    lookup.reset();
    assert!(lookup.partial_search(&':').is_ok());
    assert!(lookup.partial_search(&'D').is_ok());
    assert_eq!(lookup.try_resolve(), Some(&String::from("Hello")));
}

#[test]
fn strict_prefix_has_no_value() {
    let mut dict = Dictionary::new();
    dict.insert(&key(":D"), String::from("Hello"));
    assert_eq!(dict.get(&key(":")), None);
}

#[test]
fn empty_key_is_a_no_op() {
    let mut dict = Dictionary::new();
    assert_eq!(dict.get(&key("")), None);
    dict.insert(&key(""), String::from("nothing"));
    assert_eq!(dict.len(), 0);
    assert_eq!(dict.get(&key("")), None);
}

#[test]
fn two_keys_scenario() {
    let mut dict = Dictionary::new();
    dict.insert(&key(":D"), String::from("Hi there"));
    dict.insert(&key(":)"), String::from("Hello"));

    assert_eq!(dict.get(&key(":D")), Some(&String::from("Hi there")));
    assert_eq!(dict.get(&key(":)")), Some(&String::from("Hello")));
    assert_eq!(dict.len(), 2);

    let mut lookup = dict.lookup();
    assert!(lookup.partial_search(&':').is_ok());
    assert!(lookup.partial_search(&'D').is_ok());
    assert_eq!(lookup.try_resolve(), Some(&String::from("Hi there")));

    let mut lookup = dict.lookup();
    assert!(lookup.partial_search(&':').is_ok());
    assert!(lookup.partial_search(&')').is_ok());
    assert_eq!(lookup.try_resolve(), Some(&String::from("Hello")));

    let mut lookup = dict.lookup();
    assert!(lookup.partial_search(&':').is_ok());
    assert!(lookup.partial_search(&'x').is_err());
    // the failed step reset the cursor: the next search starts fresh
    assert!(lookup.partial_search(&':').is_ok());
    assert_eq!(lookup.try_resolve(), None);
}

#[test]
fn single_key_scenario() {
    let mut dict = Dictionary::new();
    dict.insert(&key(":D"), String::from("Hello"));

    assert_eq!(dict.get(&key(":)")), None);

    let mut lookup = dict.lookup();
    assert!(lookup.partial_search(&':').is_ok());
    assert_eq!(lookup.try_resolve(), None);
    assert!(lookup.partial_search(&')').is_err());
}

#[test]
fn lookup_get_ignores_cursor() {
    let mut dict = Dictionary::new();
    dict.insert(&key(":D"), String::from("Hello"));

    let mut lookup = dict.lookup();
    assert!(lookup.partial_search(&':').is_ok());
    assert_eq!(lookup.get(&key(":D")), Some(&String::from("Hello")));
    // the passthrough did not move the cursor
    assert!(lookup.partial_search(&'D').is_ok());
    assert_eq!(lookup.try_resolve(), Some(&String::from("Hello")));
}

#[test]
fn get_mut_without_value_changes_nothing() {
    let mut dict = Dictionary::new();
    dict.insert(&key(":D"), String::from("Hello"));

    assert_eq!(dict.get_mut(&key(":"), String::from("new")), None);
    assert_eq!(dict.get_mut(&key(":x"), String::from("new")), None);
    assert_eq!(dict.get(&key(":D")), Some(&String::from("Hello")));
    assert_eq!(dict.len(), 1);
}

#[test]
fn default_is_empty() {
    let dict = Dictionary::default();
    assert!(dict.is_empty());
    assert_eq!(dict.len(), 0);
}

#[test]
fn from_pairs_loads_in_order() {
    let pairs = vec![
        (key(":D"), String::from("Hi there")),
        (key(":)"), String::from("Hello")),
        (key(":D"), String::from("ignored")),
    ];
    let dict = Dictionary::from_pairs(&pairs);
    assert_eq!(dict.len(), 2);
    assert_eq!(dict.get(&key(":D")), Some(&String::from("Hi there")));
    assert_eq!(dict.get(&key(":)")), Some(&String::from("Hello")));
}
