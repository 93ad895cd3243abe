use crypto::digest::Digest;
use crypto::sha1::Sha1;
use mcbans::store::BlacklistStore;

fn digest(s: &str) -> String {
    let mut hasher = Sha1::new();
    hasher.input_str(s);
    hasher.result_str()
}

#[test]
fn probe_finds_a_stored_hash() {
    let lines = vec![digest("8.8.8.8")];
    let store = BlacklistStore::new(&lines);
    let hit = store.probe("8.8.8.8");
    assert_eq!(hit, Some(digest("8.8.8.8")));
}

#[test]
fn probe_reports_the_real_digest_not_the_candidate() {
    let lines = vec![digest("8.8.8.8")];
    let store = BlacklistStore::new(&lines);
    let hit = store.probe("8.8.8.8").unwrap();
    assert_eq!(hit.len(), 40);
    assert_ne!(hit, "8.8.8.8");
}

#[test]
fn probe_misses_an_unstored_candidate() {
    let lines = vec![digest("8.8.8.8")];
    let store = BlacklistStore::new(&lines);
    assert_eq!(store.probe("8.8.4.4"), None);
}

#[test]
fn hashing_twice_gives_the_same_digest() {
    let lines = vec![digest("example.com")];
    let store = BlacklistStore::new(&lines);
    let first = store.probe("example.com");
    let second = store.probe("example.com");
    assert_eq!(first, second);
    assert!(first.is_some());
}

#[test]
fn probe_order_does_not_change_results() {
    let lines = vec![digest("one"), digest("two")];
    let store = BlacklistStore::new(&lines);
    let (a1, b1) = (store.probe("one"), store.probe("three"));
    let (b2, a2) = (store.probe("three"), store.probe("one"));
    assert_eq!(a1, a2);
    assert_eq!(b1, b2);
}

#[test]
fn unsorted_input_is_sorted_at_load() {
    let mut lines: Vec<String> = vec!["zebra", "apple", "mango", "apple"]
        .into_iter()
        .map(digest)
        .collect();
    lines.push(String::new());  // an empty line is tolerated
    let store = BlacklistStore::new(&lines);
    assert_eq!(store.len(), 5);
    assert!(store.probe("zebra").is_some());
    assert!(store.probe("apple").is_some());
    assert!(store.probe("mango").is_some());
    assert!(store.probe("pear").is_none());
}

#[test]
fn empty_store_matches_nothing() {
    let store = BlacklistStore::new(&Vec::new());
    assert_eq!(store.len(), 0);
    assert!(store.probe("8.8.8.8").is_none());
    assert!(store.probe("").is_none());
}
