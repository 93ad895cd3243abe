use mcbans::domains::domain_to_search_list;

#[test]
fn three_labels_give_six_entries() {
    let out = domain_to_search_list("evil.example.com");
    let expected = vec![
        "*.evil.example.com",
        "evil.example.com",
        "*.example.com",
        "example.com",
        "*.com",
        "com",
    ];
    assert_eq!(out, expected);
}

#[test]
fn star_labels_are_stripped_first() {
    let out = domain_to_search_list("*.example.com");
    let expected = vec!["*.example.com", "example.com", "*.com", "com"];
    assert_eq!(out, expected);
}

#[test]
fn empty_input_yields_empty_list() {
    let out = domain_to_search_list("");
    assert!(out.is_empty());
}

#[test]
fn lone_star_yields_empty_list() {
    let out = domain_to_search_list("*");
    assert!(out.is_empty());
}

#[test]
fn single_label_gives_final_pair() {
    let out = domain_to_search_list("localhost");
    assert_eq!(out, vec!["*.localhost", "localhost"]);
}

#[test]
fn empty_labels_are_kept() {
    let out = domain_to_search_list("a..b");
    let expected = vec!["*.a..b", "a..b", "*..b", ".b", "*.b", "b"];
    assert_eq!(out, expected);
}

#[test]
fn entry_count_is_twice_label_count() {
    for (domain, labels) in [("x", 1), ("x.y", 2), ("a.b.c.d.e", 5)] {
        assert_eq!(domain_to_search_list(domain).len(), 2 * labels);
    }
}
