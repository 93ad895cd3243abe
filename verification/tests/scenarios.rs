use crypto::digest::Digest;
use crypto::sha1::Sha1;
use mcbans::driver::process_token;
use mcbans::store::BlacklistStore;

fn digest(s: &str) -> String {
    let mut hasher = Sha1::new();
    hasher.input_str(s);
    hasher.result_str()
}

#[test]
fn blacklisted_address_and_domain_ancestor_both_match() {
    let lines = {
        let mut v = vec![digest("8.8.8.8"), digest("example.com")];
        v.sort();
        v
    };
    let store = BlacklistStore::new(&lines);

    let ip_matches = process_token(&store, "8.8.8.8");
    assert_eq!(ip_matches, vec![(digest("8.8.8.8"), "8.8.8.8".to_string())]);

    let domain_matches = process_token(&store, "evil.example.com");
    assert_eq!(
        domain_matches,
        vec![(digest("example.com"), "example.com".to_string())]
    );
    // Neither the full domain nor the wildcard form was stored, so neither
    // may be reported.
    for (_, candidate) in &domain_matches {
        assert_ne!(candidate, "evil.example.com");
        assert_ne!(candidate, "*.example.com");
    }
}

#[test]
fn cidr_with_empty_blacklist_matches_nothing() {
    let store = BlacklistStore::new(&Vec::new());
    let matches = process_token(&store, "203.0.113.0/30");
    assert!(matches.is_empty());
}

#[test]
fn cidr_expansion_probes_every_covered_address() {
    let lines = vec![digest("203.0.113.2")];
    let store = BlacklistStore::new(&lines);
    let matches = process_token(&store, "203.0.113.0/30");
    assert_eq!(matches, vec![(digest("203.0.113.2"), "203.0.113.2".to_string())]);
}

#[test]
fn bare_address_is_treated_as_slash_32() {
    let lines = vec![digest("198.51.100.7")];
    let store = BlacklistStore::new(&lines);
    let matches = process_token(&store, "198.51.100.7");
    assert_eq!(
        matches,
        vec![(digest("198.51.100.7"), "198.51.100.7".to_string())]
    );
}

#[test]
fn unparseable_cidr_routes_as_domain() {
    // 300 is not a valid octet, so the token is not CIDR-parseable and is
    // generalized as a domain instead; its last bare suffix is "3/24".
    let lines = vec![digest("3/24")];
    let store = BlacklistStore::new(&lines);
    let matches = process_token(&store, "300.1.2.3/24");
    assert_eq!(matches, vec![(digest("3/24"), "3/24".to_string())]);
}

#[test]
fn duplicate_candidates_are_reported_per_occurrence() {
    let lines = vec![digest("com"), digest("*.com")];
    let store = BlacklistStore::new(&lines);
    let matches = process_token(&store, "com");
    assert_eq!(
        matches,
        vec![
            (digest("*.com"), "*.com".to_string()),
            (digest("com"), "com".to_string()),
        ]
    );
}
