use extendible_hash::{DefaultKeyHasher, Error, FnHasher, HashTable, KeyHasher, BUCKET_SIZE, MAX_DEPTH};

// Checks on concrete tables what holds of every table: the directory has
// 2^global_depth slots, a bucket of local depth l is referred to by the
// 2^(global_depth - l) slots that share their l low bits, and no bucket
// holds more than the capacity.
fn check_shape<K: Eq, V, H: KeyHasher<K>>(t: &HashTable<K, V, H>) {
    let g = t.global_depth();
    let n = t.directory_len();
    assert_eq!(n, 1usize << g);
    assert!(g <= t.max_depth());
    for i in 0..n {
        let b = t.bucket_index(i).unwrap();
        assert!(b < t.bucket_count());
        let l = t.local_depth(i).unwrap();
        assert!(l <= g);
        let mask = (1usize << l) - 1;
        let mut sharing = 0;
        for j in 0..n {
            let same_bucket = t.bucket_index(j) == Some(b);
            assert_eq!(same_bucket, (i & mask) == (j & mask));
            if same_bucket {
                sharing += 1;
            }
        }
        assert_eq!(sharing, 1usize << (g - l));
        assert!(t.bucket_len(i).unwrap() <= t.capacity());
    }
    assert_eq!(t.bucket_index(n), None);
    assert_eq!(t.local_depth(n), None);
    assert_eq!(t.bucket_len(n), None);
}

#[test]
fn new_table_is_empty() {
    let t: HashTable<u64, u64> = HashTable::new();
    assert_eq!(t.global_depth(), 0);
    assert_eq!(t.directory_len(), 1);
    assert_eq!(t.bucket_count(), 1);
    assert_eq!(t.capacity(), BUCKET_SIZE);
    assert_eq!(t.capacity(), 32);
    assert_eq!(t.max_depth(), MAX_DEPTH);
    assert_eq!(t.bucket_index(0), Some(0));
    assert_eq!(t.local_depth(0), Some(0));
    assert_eq!(t.bucket_len(0), Some(0));
    assert_eq!(t.get(&0), None);
    check_shape(&t);
}

#[test]
fn with_hasher_uses_the_default_limits() {
    let t: HashTable<u64, u64, _> = HashTable::with_hasher(FnHasher::new(|k: &u64| *k));
    assert_eq!(t.capacity(), 32);
    assert_eq!(t.max_depth(), 31);
    assert_eq!(t.global_depth(), 0);
}

#[test]
fn with_limits_caps_the_depth_limit() {
    let t: HashTable<u64, u64, _> = HashTable::with_limits(4, 5, DefaultKeyHasher);
    assert_eq!(t.capacity(), 4);
    assert_eq!(t.max_depth(), 5);
    let t: HashTable<u64, u64, _> = HashTable::with_limits(4, 31, DefaultKeyHasher);
    assert_eq!(t.max_depth(), 31);
    let t: HashTable<u64, u64, _> = HashTable::with_limits(4, 32, DefaultKeyHasher);
    assert_eq!(t.max_depth(), 31);
    let t: HashTable<u64, u64, _> = HashTable::with_limits(4, usize::MAX, DefaultKeyHasher);
    assert_eq!(t.max_depth(), 31);
}

#[test]
fn hash_is_the_slot_of_the_key() {
    let mut t = HashTable::with_limits(1, 8, FnHasher::new(|k: &u64| *k));
    assert_eq!(t.hash(&0b1101), 0);
    assert_eq!(t.put(0b00, 0), Ok(()));
    assert_eq!(t.put(0b01, 1), Ok(()));
    assert_eq!(t.global_depth(), 1);
    assert_eq!(t.hash(&0b1101), 0b1);
    assert_eq!(t.put(0b11, 3), Ok(()));
    assert_eq!(t.global_depth(), 2);
    assert_eq!(t.hash(&0b1101), 0b01);
    assert_eq!(t.hash(&0b1110), 0b10);
}

#[test]
fn get_returns_the_last_value_put() {
    let mut t: HashTable<u64, u64> = HashTable::new();
    for k in 0..200u64 {
        assert_eq!(t.put(k, k * 2), Ok(()));
        assert_eq!(t.get(&k), Some(k * 2));
    }
    for k in 0..200u64 {
        assert_eq!(t.get(&k), Some(k * 2));
    }
    assert_eq!(t.get(&200), None);
    check_shape(&t);
}

#[test]
fn other_keys_do_not_disturb_a_key() {
    let mut t = HashTable::with_limits(2, 16, FnHasher::new(|k: &u64| *k));
    assert_eq!(t.put(5, 500), Ok(()));
    for k in 6..64u64 {
        assert_eq!(t.put(k, k), Ok(()));
        assert_eq!(t.get(&5), Some(500));
    }
    for k in 6..64u64 {
        t.delete(&k);
        assert_eq!(t.get(&5), Some(500));
    }
    check_shape(&t);
}

#[test]
fn deleted_key_is_absent() {
    let mut t: HashTable<u64, u64> = HashTable::new();
    for k in 0..100u64 {
        assert_eq!(t.put(k, k + 1), Ok(()));
    }
    for k in 0..100u64 {
        t.delete(&k);
        assert_eq!(t.get(&k), None);
    }
    for k in 0..100u64 {
        assert_eq!(t.get(&k), None);
    }
    check_shape(&t);
}

#[test]
fn deleted_key_can_be_put_again() {
    let mut t: HashTable<u64, u64> = HashTable::new();
    assert_eq!(t.put(7, 70), Ok(()));
    t.delete(&7);
    assert_eq!(t.get(&7), None);
    assert_eq!(t.put(7, 71), Ok(()));
    assert_eq!(t.get(&7), Some(71));
}

#[test]
fn delete_of_an_absent_key_changes_nothing() {
    let mut t = HashTable::with_limits(2, 8, FnHasher::new(|k: &u64| *k));
    for k in 0..8u64 {
        assert_eq!(t.put(k, k), Ok(()));
    }
    let depth = t.global_depth();
    let buckets = t.bucket_count();
    let lens: Vec<Option<usize>> = (0..t.directory_len()).map(|i| t.bucket_len(i)).collect();
    t.delete(&100);
    assert_eq!(t.global_depth(), depth);
    assert_eq!(t.bucket_count(), buckets);
    let after: Vec<Option<usize>> = (0..t.directory_len()).map(|i| t.bucket_len(i)).collect();
    assert_eq!(lens, after);
    for k in 0..8u64 {
        assert_eq!(t.get(&k), Some(k));
    }
}

#[test]
fn delete_twice_is_delete_once() {
    let mut t = HashTable::with_limits(2, 8, FnHasher::new(|k: &u64| *k));
    for k in 0..8u64 {
        assert_eq!(t.put(k, k), Ok(()));
    }
    t.delete(&3);
    let lens: Vec<Option<usize>> = (0..t.directory_len()).map(|i| t.bucket_len(i)).collect();
    t.delete(&3);
    let after: Vec<Option<usize>> = (0..t.directory_len()).map(|i| t.bucket_len(i)).collect();
    assert_eq!(lens, after);
    assert_eq!(t.get(&3), None);
    for k in [0u64, 1, 2, 4, 5, 6, 7] {
        assert_eq!(t.get(&k), Some(k));
    }
}

#[test]
fn delete_never_shrinks_the_directory() {
    let mut t = HashTable::with_limits(2, 8, FnHasher::new(|k: &u64| *k));
    for k in 0..16u64 {
        assert_eq!(t.put(k, k), Ok(()));
    }
    let depth = t.global_depth();
    let buckets = t.bucket_count();
    assert_eq!(depth, 3);
    assert_eq!(buckets, 8);
    for k in 0..16u64 {
        t.delete(&k);
    }
    assert_eq!(t.global_depth(), depth);
    assert_eq!(t.directory_len(), 8);
    assert_eq!(t.bucket_count(), buckets);
    for i in 0..8 {
        assert_eq!(t.bucket_len(i), Some(0));
    }
    check_shape(&t);
}

#[test]
fn put_overwrites_and_adds_no_entry() {
    let mut t = HashTable::with_limits(2, 8, FnHasher::new(|k: &u64| *k));
    assert_eq!(t.put(1, 10), Ok(()));
    assert_eq!(t.bucket_len(0), Some(1));
    assert_eq!(t.put(1, 11), Ok(()));
    assert_eq!(t.get(&1), Some(11));
    assert_eq!(t.bucket_len(0), Some(1));
    assert_eq!(t.bucket_count(), 1);
    assert_eq!(t.global_depth(), 0);
}

#[test]
fn put_of_a_present_key_many_times_never_grows() {
    let mut t = HashTable::with_limits(2, 3, FnHasher::new(|_k: &u64| 0));
    for v in 0..10u64 {
        assert_eq!(t.put(1, v), Ok(()));
        assert_eq!(t.get(&1), Some(v));
    }
    assert_eq!(t.global_depth(), 0);
    assert_eq!(t.bucket_len(0), Some(1));
}

#[test]
fn no_bucket_exceeds_the_capacity() {
    let mut t = HashTable::with_limits(3, 16, DefaultKeyHasher);
    for k in 0..500u64 {
        assert_eq!(t.put(k, k), Ok(()));
        for i in 0..t.directory_len() {
            assert!(t.bucket_len(i).unwrap() <= 3);
        }
    }
    check_shape(&t);
}

#[test]
fn shape_holds_after_every_operation() {
    let mut t = HashTable::with_limits(2, 10, FnHasher::new(|k: &u64| k.wrapping_mul(2654435761) >> 7));
    check_shape(&t);
    for k in 0..60u64 {
        assert_eq!(t.put(k, k), Ok(()));
        check_shape(&t);
    }
    for k in (0..60u64).step_by(3) {
        t.delete(&k);
        check_shape(&t);
    }
    for k in 0..60u64 {
        let expected = if k % 3 == 0 { None } else { Some(k) };
        assert_eq!(t.get(&k), expected);
    }
}

#[test]
fn colliding_keys_exhaust_the_depth() {
    // Every key has the hash 0: no split parts two keys.
    let mut t = HashTable::with_limits(2, 3, FnHasher::new(|_k: &u64| 0));
    assert_eq!(t.put(1, 10), Ok(()));
    assert_eq!(t.put(2, 20), Ok(()));
    assert_eq!(t.put(3, 30), Err(Error::DistributionExhausted));
    // Nothing was stored, nothing was lost and nothing has grown.
    assert_eq!(t.get(&3), None);
    assert_eq!(t.get(&1), Some(10));
    assert_eq!(t.get(&2), Some(20));
    assert_eq!(t.global_depth(), 0);
    assert_eq!(t.directory_len(), 1);
    assert_eq!(t.bucket_count(), 1);
    assert_eq!(t.local_depth(0), Some(0));
    assert_eq!(t.bucket_len(0), Some(2));
    check_shape(&t);
    // The refusal repeats, and also meets a key that is present.
    assert_eq!(t.put(3, 30), Err(Error::DistributionExhausted));
    assert_eq!(t.put(1, 11), Err(Error::DistributionExhausted));
    assert_eq!(t.get(&1), Some(10));
    // A deletion makes room.
    t.delete(&2);
    assert_eq!(t.put(3, 30), Ok(()));
    assert_eq!(t.get(&3), Some(30));
    check_shape(&t);
}

#[test]
fn keys_that_differ_in_a_late_bit_are_parted_late() {
    // The hashes 0, 16 and 32 agree on their four low bits.
    let mut t = HashTable::with_limits(2, 8, FnHasher::new(|k: &u64| *k));
    assert_eq!(t.put(0, 0), Ok(()));
    assert_eq!(t.put(16, 16), Ok(()));
    assert_eq!(t.put(32, 32), Ok(()));
    assert_eq!(t.global_depth(), 5);
    assert_eq!(t.directory_len(), 32);
    assert_eq!(t.bucket_count(), 6);
    assert_eq!(t.bucket_len(0), Some(2));
    assert_eq!(t.bucket_len(16), Some(1));
    assert_eq!(t.local_depth(0), Some(5));
    assert_eq!(t.local_depth(16), Some(5));
    assert_eq!(t.local_depth(1), Some(1));
    assert_eq!(t.local_depth(2), Some(2));
    assert_eq!(t.local_depth(4), Some(3));
    assert_eq!(t.local_depth(8), Some(4));
    assert_eq!(t.get(&0), Some(0));
    assert_eq!(t.get(&16), Some(16));
    assert_eq!(t.get(&32), Some(32));
    check_shape(&t);
}

#[test]
fn depth_limit_zero_allows_one_bucket() {
    let mut t = HashTable::with_limits(2, 0, FnHasher::new(|k: &u64| *k));
    assert_eq!(t.put(1, 1), Ok(()));
    assert_eq!(t.put(2, 2), Ok(()));
    assert_eq!(t.put(3, 3), Err(Error::DistributionExhausted));
    assert_eq!(t.global_depth(), 0);
    assert_eq!(t.bucket_count(), 1);
}

#[test]
fn capacity_zero_stores_nothing() {
    let mut t = HashTable::with_limits(0, 2, FnHasher::new(|k: &u64| *k));
    assert_eq!(t.put(1, 1), Err(Error::DistributionExhausted));
    assert_eq!(t.get(&1), None);
    assert_eq!(t.global_depth(), 0);
    assert_eq!(t.bucket_count(), 1);
    check_shape(&t);
}

#[test]
fn reserve_makes_room_without_storing() {
    let mut t = HashTable::with_limits(2, 8, FnHasher::new(|k: &u64| *k));
    assert_eq!(t.put(0, 0), Ok(()));
    assert_eq!(t.put(1, 1), Ok(()));
    assert_eq!(t.reserve(&2), Ok(()));
    assert_eq!(t.global_depth(), 1);
    assert_eq!(t.bucket_count(), 2);
    assert_eq!(t.bucket_len(0), Some(1));
    assert_eq!(t.bucket_len(1), Some(1));
    assert_eq!(t.get(&2), None);
    // Room is there now: nothing more happens.
    assert_eq!(t.reserve(&2), Ok(()));
    assert_eq!(t.global_depth(), 1);
    assert_eq!(t.bucket_count(), 2);
}

#[test]
fn values_need_not_be_copyable() {
    let mut t: HashTable<u64, String> = HashTable::new();
    assert_eq!(t.put(1, String::from("one")), Ok(()));
    assert_eq!(t.put(2, String::from("two")), Ok(()));
    assert_eq!(t.get(&1), Some(String::from("one")));
    assert_eq!(t.put(1, String::from("uno")), Ok(()));
    assert_eq!(t.get(&1), Some(String::from("uno")));
    assert_eq!(t.get(&2), Some(String::from("two")));
}

#[test]
fn keys_need_not_be_integers() {
    let mut t = HashTable::with_limits(2, 12, FnHasher::new(|k: &String| {
        k.bytes().fold(0u64, |h, b| h.wrapping_mul(31).wrapping_add(b as u64))
    }));
    let words = ["alpha", "beta", "gamma", "delta", "epsilon", "zeta", "eta", "theta"];
    for (i, w) in words.iter().enumerate() {
        assert_eq!(t.put(w.to_string(), i), Ok(()));
    }
    for (i, w) in words.iter().enumerate() {
        assert_eq!(t.get(&w.to_string()), Some(i));
    }
    t.delete(&String::from("gamma"));
    assert_eq!(t.get(&String::from("gamma")), None);
    assert_eq!(t.get(&String::from("delta")), Some(3));
    check_shape(&t);
}

#[test]
fn a_thousand_keys_in_and_out() {
    let mut t: HashTable<u64, u64> = HashTable::new();
    for k in 1..1024u64 {
        assert_eq!(t.put(k, k), Ok(()));
    }
    check_shape(&t);
    for k in 1..1024u64 {
        assert_eq!(t.get(&k), Some(k));
    }
    let depth = t.global_depth();
    for k in 1..1024u64 {
        t.delete(&k);
        assert_eq!(t.get(&k), None);
    }
    assert_eq!(t.global_depth(), depth);
    check_shape(&t);
}

#[test]
fn keys_that_collide_up_to_the_limit_are_refused_at_once() {
    // The hashes 0, 8 and 16 agree on their three low bits, and the table
    // may use no more.
    let mut t = HashTable::with_limits(2, 3, FnHasher::new(|k: &u64| *k));
    assert_eq!(t.put(0, 0), Ok(()));
    assert_eq!(t.put(8, 8), Ok(()));
    assert_eq!(t.put(16, 16), Err(Error::DistributionExhausted));
    assert_eq!(t.global_depth(), 0);
    assert_eq!(t.bucket_count(), 1);
    // A key that parts from one of them within the limit finds room.
    assert_eq!(t.put(4, 4), Ok(()));
    assert_eq!(t.global_depth(), 3);
    assert_eq!(t.get(&0), Some(0));
    assert_eq!(t.get(&8), Some(8));
    assert_eq!(t.get(&4), Some(4));
    assert_eq!(t.get(&16), None);
    check_shape(&t);
}

#[test]
fn one_more_bit_of_depth_parts_the_keys() {
    let mut t = HashTable::with_limits(2, 4, FnHasher::new(|k: &u64| *k));
    assert_eq!(t.put(0, 0), Ok(()));
    assert_eq!(t.put(8, 8), Ok(()));
    assert_eq!(t.put(16, 16), Ok(()));
    assert_eq!(t.global_depth(), 4);
    assert_eq!(t.bucket_count(), 5);
    assert_eq!(t.bucket_len(0), Some(2));
    assert_eq!(t.bucket_len(8), Some(1));
    check_shape(&t);
}
