use extendible_hash::{Bucket, FnHasher};

#[test]
fn new_bucket_is_empty_at_depth_zero() {
    let b: Bucket<u64, u64> = Bucket::new(4);
    assert_eq!(b.len(), 0);
    assert_eq!(b.depth(), 0);
    assert_eq!(b.capacity(), 4);
    assert!(!b.full());
    assert_eq!(b.get(&1), None);
}

#[test]
fn bucket_put_then_get() {
    let mut b: Bucket<u64, &str> = Bucket::new(4);
    assert!(b.put(1, "one"));
    assert!(b.put(2, "two"));
    assert_eq!(b.get(&1), Some("one"));
    assert_eq!(b.get(&2), Some("two"));
    assert_eq!(b.get(&3), None);
    assert_eq!(b.len(), 2);
}

#[test]
fn bucket_put_overwrites_a_present_key() {
    let mut b: Bucket<u64, u64> = Bucket::new(4);
    assert!(b.put(1, 10));
    assert!(b.put(1, 11));
    assert_eq!(b.get(&1), Some(11));
    assert_eq!(b.len(), 1);
}

#[test]
fn bucket_put_fails_exactly_when_full() {
    let mut b: Bucket<u64, u64> = Bucket::new(2);
    assert!(b.put(1, 10));
    assert!(!b.full());
    assert!(b.put(2, 20));
    assert!(b.full());
    assert!(!b.put(3, 30));
    assert_eq!(b.get(&3), None);
    assert_eq!(b.len(), 2);
    // A full bucket refuses a present key too, and keeps its value.
    assert!(!b.put(1, 11));
    assert_eq!(b.get(&1), Some(10));
}

#[test]
fn bucket_of_capacity_zero_is_always_full() {
    let mut b: Bucket<u64, u64> = Bucket::new(0);
    assert!(b.full());
    assert!(!b.put(1, 10));
    assert_eq!(b.len(), 0);
}

#[test]
fn bucket_delete_removes_only_the_key() {
    let mut b: Bucket<u64, u64> = Bucket::new(4);
    b.put(1, 10);
    b.put(2, 20);
    b.put(3, 30);
    b.delete(&1);
    assert_eq!(b.get(&1), None);
    assert_eq!(b.get(&2), Some(20));
    assert_eq!(b.get(&3), Some(30));
    assert_eq!(b.len(), 2);
}

#[test]
fn bucket_delete_of_an_absent_key_is_a_no_op() {
    let mut b: Bucket<u64, u64> = Bucket::new(4);
    b.put(1, 10);
    b.delete(&9);
    b.delete(&9);
    assert_eq!(b.len(), 1);
    assert_eq!(b.get(&1), Some(10));
}

#[test]
fn bucket_delete_frees_a_place() {
    let mut b: Bucket<u64, u64> = Bucket::new(2);
    b.put(1, 10);
    b.put(2, 20);
    assert!(b.full());
    b.delete(&2);
    assert!(!b.full());
    assert!(b.put(3, 30));
    assert_eq!(b.get(&3), Some(30));
}

#[test]
fn bucket_hash_is_cut_to_the_local_depth() {
    let hasher = FnHasher::new(|k: &u64| *k);
    let mut b: Bucket<u64, u64> = Bucket::new(4);
    assert_eq!(b.hash(&hasher, &0b1011), 0);
    let _ = b.split(&hasher);
    assert_eq!(b.hash(&hasher, &0b1011), 0b1);
    let _ = b.split(&hasher);
    assert_eq!(b.hash(&hasher, &0b1011), 0b11);
    let _ = b.split(&hasher);
    assert_eq!(b.hash(&hasher, &0b1011), 0b011);
}

#[test]
fn bucket_split_moves_the_entries_with_the_new_bit_set() {
    let hasher = FnHasher::new(|k: &u64| *k);
    let mut b: Bucket<u64, u64> = Bucket::new(4);
    b.put(0b00, 0);
    b.put(0b01, 1);
    b.put(0b10, 2);
    b.put(0b11, 3);
    let other = b.split(&hasher);
    assert_eq!(b.depth(), 1);
    assert_eq!(other.depth(), 1);
    assert_eq!(other.capacity(), 4);
    assert_eq!(b.len(), 2);
    assert_eq!(other.len(), 2);
    assert_eq!(b.get(&0b00), Some(0));
    assert_eq!(b.get(&0b10), Some(2));
    assert_eq!(b.get(&0b01), None);
    assert_eq!(b.get(&0b11), None);
    assert_eq!(other.get(&0b01), Some(1));
    assert_eq!(other.get(&0b11), Some(3));
    assert_eq!(other.get(&0b00), None);
    assert_eq!(other.get(&0b10), None);
}

#[test]
fn bucket_split_uses_the_bit_at_the_old_depth() {
    let hasher = FnHasher::new(|k: &u64| *k);
    let mut b: Bucket<u64, u64> = Bucket::new(4);
    b.put(0b001, 1);
    b.put(0b011, 3);
    b.put(0b101, 5);
    b.put(0b111, 7);
    let first = b.split(&hasher);
    // Every key has bit 0 set: all of them move.
    assert_eq!(b.len(), 0);
    assert_eq!(first.len(), 4);
    let mut first = first;
    let second = first.split(&hasher);
    assert_eq!(first.depth(), 2);
    assert_eq!(second.depth(), 2);
    assert_eq!(first.get(&0b001), Some(1));
    assert_eq!(first.get(&0b101), Some(5));
    assert_eq!(second.get(&0b011), Some(3));
    assert_eq!(second.get(&0b111), Some(7));
}

#[test]
fn bucket_split_can_leave_a_full_bucket_and_an_empty_one() {
    let hasher = FnHasher::new(|_k: &u64| 0);
    let mut b: Bucket<u64, u64> = Bucket::new(2);
    b.put(1, 10);
    b.put(2, 20);
    let other = b.split(&hasher);
    assert!(b.full());
    assert_eq!(other.len(), 0);
    assert_eq!(b.depth(), 1);
    assert_eq!(other.depth(), 1);
}

#[test]
fn bucket_all_agree_compares_the_low_bits() {
    let hasher = FnHasher::new(|k: &u64| *k);
    let mut b: Bucket<u64, u64> = Bucket::new(4);
    assert!(b.all_agree(&hasher, 0b111, 3));
    b.put(0b0101, 1);
    b.put(0b1101, 2);
    assert!(b.all_agree(&hasher, 0b101, 0));
    assert!(b.all_agree(&hasher, 0b101, 3));
    assert!(b.all_agree(&hasher, 0b11101, 3));
    assert!(!b.all_agree(&hasher, 0b0101, 4));
    assert!(!b.all_agree(&hasher, 0b100, 3));
    assert!(!b.all_agree(&hasher, 0b100, 1));
}
