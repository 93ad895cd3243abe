use mcbans::cursor::IPv4Iterator;

fn first_octet_skipped(a: u32) -> bool {
    a == 0 || a == 10 || a == 26 || a == 28 || a == 29 || a == 30 || a == 127
        || (224..=239).contains(&a) || (240..=254).contains(&a) || a == 255
}

#[test]
fn fresh_cursor_starts_empty() {
    let it = IPv4Iterator::new();
    assert_eq!(it.a, 0);
    assert!(it.b.is_none());
    assert!(it.c.is_none());
    assert!(it.d.is_none());
}

#[test]
fn first_pulls_descend_through_granularities() {
    let mut it = IPv4Iterator::new();
    assert_eq!(it.next().as_deref(), Some("1.*"));
    assert_eq!(it.next().as_deref(), Some("1.0.*"));
    assert_eq!(it.next().as_deref(), Some("1.0.0.*"));
    assert_eq!(it.next().as_deref(), Some("1.0.0.0"));
    assert_eq!(it.next().as_deref(), Some("1.0.0.1"));
}

#[test]
fn skips_entire_ten_slash_eight_after_nine() {
    let mut it = IPv4Iterator { a: 9, b: Some(254), c: Some(254), d: Some(254) };
    assert_eq!(it.next().as_deref(), Some("9.254.254.254"));
    // Carrying past 9 lands on 10, whose whole /8 is skip-marked: the next
    // emission must already be the 11/8 pattern, with nothing from 10.*.
    assert_eq!(it.next().as_deref(), Some("11.*"));
}

#[test]
fn chained_second_octet_rules_reach_fixed_point() {
    let mut it = IPv4Iterator { a: 100, b: Some(63), c: Some(254), d: Some(254) };
    assert_eq!(it.next().as_deref(), Some("100.63.254.254"));
    // The carry lands on 100.64, the start of the CGNAT block; the skip
    // table must be re-applied until 100.128 is reached.
    assert_eq!(it.next().as_deref(), Some("100.128.*"));
}

#[test]
fn sequence_ends_once_first_octet_reaches_255() {
    let mut it = IPv4Iterator { a: 223, b: Some(254), c: Some(254), d: Some(254) };
    assert_eq!(it.next().as_deref(), Some("223.254.254.254"));
    // 224..=254 are all skip-marked and 255 is terminal.
    assert_eq!(it.next(), None);
    assert_eq!(it.next(), None);
}

#[test]
fn emitted_patterns_never_start_skip_marked() {
    let mut it = IPv4Iterator::new();
    for _ in 0..5000 {
        match it.next() {
            Some(p) => {
                let first = p.split('.').next().unwrap().parse::<u32>().unwrap();
                assert!(
                    !first_octet_skipped(first),
                    "skip-marked first octet emitted: {}",
                    p
                );
            }
            None => break,
        }
    }
}

#[test]
fn second_octet_blocks_never_emitted() {
    let mut it = IPv4Iterator { a: 172, b: Some(15), c: Some(254), d: Some(254) };
    assert_eq!(it.next().as_deref(), Some("172.15.254.254"));
    // 172.16 through 172.31 are RFC1918 and must be skipped wholesale.
    assert_eq!(it.next().as_deref(), Some("172.32.*"));
}
