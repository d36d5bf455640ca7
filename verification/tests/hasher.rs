use extendible_hash::{DefaultKeyHasher, FnHasher, KeyHasher};
use std::collections::hash_map::DefaultHasher;
use std::hash::Hasher;

fn low_three_bits(key: &u64) -> u64 {
    *key & 7
}

#[test]
fn fn_hasher_applies_the_closure() {
    let h = FnHasher::new(|k: &u64| *k & 3);
    assert_eq!(h.hash(&0), 0);
    assert_eq!(h.hash(&5), 1);
    assert_eq!(h.hash(&6), 2);
    assert_eq!(h.hash(&0xffff), 3);
}

#[test]
fn fn_hasher_applies_a_named_function() {
    let h = FnHasher::new(low_three_bits);
    assert_eq!(h.hash(&13), 5);
    assert_eq!(h.hash(&8), 0);
}

#[test]
fn fn_hasher_is_deterministic() {
    let h = FnHasher::new(|k: &String| k.len() as u64);
    let key = String::from("bucket");
    assert_eq!(h.hash(&key), 6);
    assert_eq!(h.hash(&key), h.hash(&key.clone()));
}

#[test]
fn default_hasher_feeds_the_key_bytes_to_the_std_hasher() {
    for key in [0u64, 1, 2, 255, 256, 0xdead_beef, u64::MAX] {
        let mut state = DefaultHasher::new();
        state.write(&key.to_le_bytes());
        assert_eq!(DefaultKeyHasher.hash(&key), state.finish());
    }
}

#[test]
fn default_hasher_tells_keys_apart() {
    let h = DefaultKeyHasher;
    assert_eq!(h.hash(&7), h.hash(&7));
    assert_ne!(h.hash(&7), h.hash(&8));
    assert_ne!(h.hash(&0), 0);
}
