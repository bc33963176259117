use staticmap_builder::Builder;
use staticmap_builder::ConstHash;
use staticmap_builder::IdentityHash;

fn is_pow2(n: usize) -> bool {
    n != 0 && n & (n - 1) == 0
}

#[test]
fn capacity_is_power_of_two_at_least_32_and_load_bounded() {
    for n in 1..=1000usize {
        let b: Builder<usize, IdentityHash> = Builder::with_capacity(n, IdentityHash);
        let cap = b.hashes.len();
        assert!(is_pow2(cap));
        assert!(cap >= 32);
        assert!(cap >= (n * 10 + 8) / 9);
        assert_eq!(b.entries.len(), cap);
    }
}

#[test]
fn capacity_exact_values() {
    for (n, expected) in [
        (0usize, 32usize),
        (1, 32),
        (28, 32),
        (29, 64),
        (100, 128),
        (1000, 2048),
    ] {
        let b: Builder<usize, IdentityHash> = Builder::with_capacity(n, IdentityHash);
        assert_eq!(b.hashes.len(), expected);
    }
}

#[test]
fn distinct_keys_occupy_exactly_that_many_slots() {
    let m = 20usize;
    let mut b: Builder<usize, IdentityHash> = Builder::with_capacity(m, IdentityHash);
    let cap = b.hashes.len();
    for k in 1..=m {
        b.insert(k, format!("v{}", k));
    }
    let occupied = (0..cap).filter(|&i| b.hashes[i] != 0).count();
    assert_eq!(occupied, m);
    for i in 0..cap {
        if b.hashes[i] != 0 {
            let key = b.entries[i].key;
            let remapped = if key == 0 { 1 } else { key };
            assert_eq!(b.hashes[i], remapped);
        }
    }
}

#[test]
fn adversarial_displacements_are_zero_through_k_minus_one() {
    let mut b: Builder<usize, ConstHash> = Builder::with_capacity(1, ConstHash { value: 32 });
    assert_eq!(b.hashes.len(), 32);
    let k = 10usize;
    let mut dists = Vec::new();
    for i in 0..k {
        dists.push(b.insert(100 + i, format!("v{}", i)));
    }
    assert_eq!(dists, (0..k).collect::<Vec<usize>>());
    for i in 0..k {
        assert_eq!(b.hashes[i], 32);
        assert_eq!(b.entries[i].key, 100 + i);
    }
    for i in k..32 {
        assert_eq!(b.hashes[i], 0);
    }
}

#[test]
fn colliding_key_probes_one_step_further() {
    let mut b: Builder<usize, IdentityHash> = Builder::with_capacity(1, IdentityHash);
    assert_eq!(b.hashes.len(), 32);
    assert_eq!(b.insert(7, String::from("first")), 0);
    // 39 & 31 == 7: same ideal slot, so it settles one step further on.
    assert_eq!(b.insert(39, String::from("second")), 1);
    assert_eq!(b.hashes[7], 7);
    assert_eq!(b.entries[7].key, 7);
    assert_eq!(b.hashes[8], 39);
    assert_eq!(b.entries[8].key, 39);
}

#[test]
fn serialization_is_deterministic() {
    let build_one = || {
        let mut b: Builder<usize, IdentityHash> = Builder::with_capacity(3, IdentityHash);
        b.insert(7, String::from("seven"));
        b.insert(8, String::from("eight"));
        b.insert(39, String::from("colliding"));
        b
    };
    let a = build_one();
    let c = build_one();
    assert_eq!(a.build(), c.build());
    assert_eq!(a.build(), a.build());
}

#[test]
fn serialized_artifact_matches_template_when_empty() {
    let b: Builder<usize, IdentityHash> = Builder::with_capacity(0, IdentityHash);
    let out = b.build();
    let mut expected = String::from("Map {\n hashes: &[");
    for _ in 0..32 {
        expected.push_str("0, ");
    }
    expected.push_str("  ],\n  entries: &[  \n");
    for _ in 0..32 {
        expected.push_str("(0, ), ");
    }
    expected.push_str("  ],\n");
    expected.push_str("  hasher: IdentityHash,");
    expected.push_str("};\n\n");
    assert_eq!(out, expected);
}

#[test]
fn serialized_artifact_places_entry_at_its_slot() {
    let mut b: Builder<usize, IdentityHash> = Builder::with_capacity(0, IdentityHash);
    b.insert(1, String::from("one"));
    let out = b.build();
    let mut expected = String::from("Map {\n hashes: &[");
    for i in 0..32 {
        expected.push_str(if i == 1 { "1, " } else { "0, " });
    }
    expected.push_str("  ],\n  entries: &[  \n");
    for i in 0..32 {
        expected.push_str(if i == 1 { "(1, one), " } else { "(0, ), " });
    }
    expected.push_str("  ],\n");
    expected.push_str("  hasher: IdentityHash,");
    expected.push_str("};\n\n");
    assert_eq!(out, expected);
}

#[test]
fn const_hash_descriptor_includes_its_value() {
    let b: Builder<usize, ConstHash> = Builder::with_capacity(0, ConstHash { value: 32 });
    let out = b.build();
    assert!(out.contains("  hasher: ConstHash(32),"));
}

#[test]
fn zero_hash_is_remapped_to_one() {
    let mut b: Builder<usize, IdentityHash> = Builder::with_capacity(0, IdentityHash);
    assert_eq!(b.insert(0, String::from("zero")), 0);
    // A genuine hash of 0 is stored as 1, in slot 0's probe sequence.
    assert_eq!(b.hashes[1], 1);
    assert_eq!(b.entries[1].key, 0);
    assert_eq!(b.hashes[0], 0);
}
