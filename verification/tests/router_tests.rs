use sharded_cache::router::{
    fnv1a, hash_key, mix, route, FNV_OFFSET, FNV_PRIME, MIX_FIRST, MIX_SECOND,
};

#[test]
fn fnv1a_of_the_empty_key_is_the_offset_basis() {
    assert_eq!(fnv1a(b""), 0xcbf2_9ce4_8422_2325);
    assert_eq!(fnv1a(b""), FNV_OFFSET);
}

#[test]
fn fnv1a_matches_published_vectors() {
    assert_eq!(fnv1a(b"a"), 0xaf63_dc4c_8601_ec8c);
    assert_eq!(fnv1a(b"b"), 0xaf63_df4c_8601_f1a5);
    assert_eq!(fnv1a(b"foobar"), 0x8594_4171_f739_67e8);
    assert_eq!(fnv1a(b"hello"), 0xa430_d846_80aa_bd0b);
}

#[test]
fn fnv1a_of_one_byte_is_one_round() {
    let expected = (FNV_OFFSET ^ 0x61).wrapping_mul(FNV_PRIME);
    assert_eq!(fnv1a(b"a"), expected);
}

#[test]
fn mix_matches_known_values() {
    assert_eq!(mix(0), 0);
    assert_eq!(mix(1), 0xb456_bcfc_34c2_cb2c);
    assert_eq!(mix(2), 0x3abf_2a20_6506_83e7);
    assert_eq!(mix(u64::MAX), 0x64b5_720b_4b82_5f21);
}

#[test]
fn mix_is_two_multiplications_between_three_shifts() {
    let h: u64 = 0x0123_4567_89ab_cdef;
    let first = (h ^ (h >> 33)).wrapping_mul(MIX_FIRST);
    let second = (first ^ (first >> 33)).wrapping_mul(MIX_SECOND);
    assert_eq!(mix(h), second ^ (second >> 33));
}

#[test]
fn hash_is_the_mixed_fnv1a_hash() {
    assert_eq!(hash_key(b""), 0xefd0_1f60_ba99_2926);
    assert_eq!(hash_key(b"a"), 0x82a2_a958_a9be_ce5b);
    assert_eq!(hash_key(b"b"), 0x6e67_3288_764a_d2d0);
    assert_eq!(hash_key(b"foobar"), 0x2c22_1949_22d1_672b);
    assert_eq!(hash_key(b"hello"), 0xe9c5_62c0_fdb2_3244);
    for key in [&b"a"[..], b"", b"some key"] {
        assert_eq!(hash_key(key), mix(fnv1a(key)));
    }
}

#[test]
fn hash_depends_on_byte_order() {
    assert_ne!(hash_key(b"ab"), hash_key(b"ba"));
}

#[test]
fn route_is_hash_modulo_shard_count() {
    assert_eq!(route(b"a", 4), 3);
    assert_eq!(route(b"b", 4), 0);
    assert_eq!(route(b"j", 4), 0);
    assert_eq!(route(b"k", 4), 1);
    assert_eq!(route(b"hello", 4), 0);
    assert_eq!(route(b"", 4), 2);
    assert_eq!(route(b"foobar", 7), 3);
    assert_eq!(route(b"a", 7), 1);
    assert_eq!(route(b"k", 7), 0);
}

#[test]
fn route_with_one_shard_is_zero() {
    for key in [&b"a"[..], &b"zz"[..], &b""[..], &b"some longer key"[..]] {
        assert_eq!(route(key, 1), 0);
    }
}

#[test]
fn route_is_stable_and_in_range() {
    for n in 1u32..40 {
        for byte in 0u8..=255 {
            let key = [byte, byte.wrapping_mul(7), 3];
            let first = route(&key, n);
            assert!(first < n);
            assert_eq!(route(&key, n), first);
            assert_eq!(first as u64, hash_key(&key) % n as u64);
        }
    }
}

#[test]
fn route_handles_the_largest_shard_count() {
    assert_eq!(route(b"hello", u32::MAX), 3_883_373_829);
    assert_eq!(route(b"", u32::MAX), 2_859_026_567);
}

#[test]
fn route_spreads_numbered_keys_over_all_shards() {
    let mut counts = [0u32; 8];
    for i in 0u32..8000 {
        let key = format!("user:{i}").into_bytes();
        counts[route(&key, 8) as usize] += 1;
    }
    assert_eq!(counts, [986, 952, 992, 939, 1065, 1027, 1022, 1017]);
}
