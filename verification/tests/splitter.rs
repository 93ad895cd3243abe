use mcbans::cidr::CidrRange;

const TEST_NET_3: u32 = (203 << 24) | (113 << 8);  // 203.0.113.0

#[test]
fn split_halves_share_the_parent() {
    let r = CidrRange { prefix: TEST_NET_3, bits: 30 };
    let (upper, lower) = r.split();
    assert_eq!(upper, CidrRange { prefix: TEST_NET_3, bits: 31 });
    assert_eq!(lower, Some(CidrRange { prefix: TEST_NET_3 + 2, bits: 31 }));
}

#[test]
fn singleton_is_a_leaf() {
    let r = CidrRange { prefix: TEST_NET_3 + 1, bits: 32 };
    let (same, rest) = r.split();
    assert_eq!(same, r);
    assert_eq!(rest, None);
}

#[test]
fn slash_30_recurses_to_exactly_four_singletons() {
    let r = CidrRange { prefix: TEST_NET_3, bits: 30 };
    let leaves = r.singletons();
    assert_eq!(leaves.len(), 4);
    for (i, leaf) in leaves.iter().enumerate() {
        assert_eq!(leaf.bits, 32);
        assert_eq!(leaf.prefix, TEST_NET_3 + i as u32);
    }
}

#[test]
fn addresses_cover_the_block_ascending() {
    let r = CidrRange { prefix: TEST_NET_3, bits: 30 };
    let addrs = r.addresses();
    assert_eq!(addrs, vec![TEST_NET_3, TEST_NET_3 + 1, TEST_NET_3 + 2, TEST_NET_3 + 3]);

    let single = CidrRange { prefix: TEST_NET_3 + 3, bits: 32 };
    assert_eq!(single.addresses(), vec![TEST_NET_3 + 3]);
}

#[test]
fn non_canonical_prefix_is_tolerated() {
    // Low-order bits set: still a 4-address block starting at the prefix.
    let r = CidrRange { prefix: TEST_NET_3 + 1, bits: 30 };
    let addrs = r.addresses();
    assert_eq!(
        addrs,
        vec![TEST_NET_3 + 1, TEST_NET_3 + 2, TEST_NET_3 + 3, TEST_NET_3 + 4]
    );
}
