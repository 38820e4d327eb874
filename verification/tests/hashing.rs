use std::cmp::Ordering;

use iroh_sdht::{
    bucket_index, derive_node_id, distance_cmp, hash_content, verify_key_value_pair, xor_distance,
};

#[test]
fn hash_content_is_deterministic() {
    let data = b"hello world";
    let hash_one = hash_content(data);
    let hash_two = hash_content(data);
    assert_eq!(hash_one, hash_two, "hashes of identical data should match");

    let different_hash = hash_content(b"goodbye world");
    assert_ne!(
        hash_one, different_hash,
        "hashes of different data should differ"
    );
}

#[test]
fn verify_key_value_pair_matches_hash() {
    let data = b"payload";
    let key = hash_content(data);
    assert!(
        verify_key_value_pair(&key, data),
        "verify_key_value_pair should accept matching key/value pairs"
    );

    let mut wrong_key = key;
    wrong_key[0] ^= 0xFF;
    assert!(
        !verify_key_value_pair(&wrong_key, data),
        "verify_key_value_pair should reject non-matching key/value pairs"
    );
}

#[test]
fn hash_content_matches_blake3_reference() {
    let data = b"hello world";
    let expected = iroh_blake3::hash(data);
    let mut expected_bytes = [0u8; 32];
    expected_bytes.copy_from_slice(expected.as_bytes());

    assert_eq!(
        hash_content(data),
        expected_bytes,
        "hash_content should produce the BLAKE3 digest"
    );
}

#[test]
fn derive_node_id_matches_blake3_reference() {
    let data = b"public key bytes";
    let expected = iroh_blake3::hash(data);
    let mut expected_bytes = [0u8; 32];
    expected_bytes.copy_from_slice(expected.as_bytes());

    assert_eq!(
        derive_node_id(data),
        expected_bytes,
        "derive_node_id should produce the BLAKE3 digest"
    );
}

#[test]
fn the_digest_of_nothing_is_the_published_one() {
    let digest = hash_content(b"");
    assert_eq!(&digest[..4], &[0xaf, 0x13, 0x49, 0xb9]);
    assert!(verify_key_value_pair(&digest, b""));
    assert!(!verify_key_value_pair(&digest, b"x"));
}

#[test]
fn xor_distance_produces_expected_value() {
    let mut a = [0u8; 32];
    a[0] = 0b1010_1010;
    let mut b = [0u8; 32];
    b[0] = 0b0101_0101;

    let dist = xor_distance(&a, &b);
    assert_eq!(dist[0], 0b1111_1111);
    assert!(dist.iter().skip(1).all(|byte| *byte == 0));
}

#[test]
fn distance_cmp_orders_lexicographically() {
    let mut smaller = [0u8; 32];
    smaller[1] = 1;
    let mut larger = [0u8; 32];
    larger[1] = 2;

    assert_eq!(distance_cmp(&smaller, &larger), Ordering::Less);
    assert_eq!(distance_cmp(&larger, &smaller), Ordering::Greater);
    assert_eq!(distance_cmp(&smaller, &smaller), Ordering::Equal);
}

#[test]
fn bucket_index_finds_first_different_bit() {
    let self_id = [0u8; 32];

    let mut other = [0u8; 32];
    other[0] = 0b1000_0000;
    assert_eq!(bucket_index(&self_id, &other), 0);

    let mut other_two = [0u8; 32];
    other_two[1] = 0b0001_0000;
    assert_eq!(bucket_index(&self_id, &other_two), 11);

    assert_eq!(bucket_index(&self_id, &self_id), 255);
}

#[test]
fn the_distance_is_a_metric_on_examples() {
    let a = [0x35u8; 32];
    let b = [0xc1u8; 32];
    assert_eq!(xor_distance(&a, &a), [0u8; 32]);
    assert_eq!(xor_distance(&a, &b), xor_distance(&b, &a));
    assert_eq!(xor_distance(&a, &b), [0xf4u8; 32]);
}

#[test]
fn the_most_significant_byte_decides() {
    let mut a = [0xffu8; 32];
    a[0] = 0;
    let mut b = [0u8; 32];
    b[0] = 1;
    assert_eq!(distance_cmp(&a, &b), Ordering::Less);
}

#[test]
fn the_last_bit_is_the_last_bucket() {
    let self_id = [0u8; 32];
    let mut other = [0u8; 32];
    other[31] = 1;
    assert_eq!(bucket_index(&self_id, &other), 255);
    other[31] = 0b100;
    assert_eq!(bucket_index(&self_id, &other), 253);
}
