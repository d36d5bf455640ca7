use extendible_hash::bits::{bit_is_set, bitmask};

#[test]
fn bitmask_of_zero_keeps_nothing() {
    assert_eq!(bitmask(0), 0);
}

#[test]
fn bitmask_keeps_the_low_bits() {
    assert_eq!(bitmask(1), 0b1);
    assert_eq!(bitmask(2), 0b11);
    assert_eq!(bitmask(5), 0b1_1111);
    assert_eq!(bitmask(31), 0x7fff_ffff);
    assert_eq!(bitmask(32), 0xffff_ffff);
    assert_eq!(bitmask(63), 0x7fff_ffff_ffff_ffff);
}

#[test]
fn bitmask_of_the_full_width_keeps_everything() {
    assert_eq!(bitmask(64), u64::MAX);
    assert_eq!(bitmask(65), u64::MAX);
    assert_eq!(bitmask(usize::MAX), u64::MAX);
}

#[test]
fn bitmask_applied_to_a_word() {
    assert_eq!(0b1011_0110u64 & bitmask(3), 0b110);
    assert_eq!(0b1011_0110u64 & bitmask(4), 0b0110);
    assert_eq!(0b1011_0110u64 & bitmask(6), 0b11_0110);
}

#[test]
fn bit_is_set_reads_single_bits() {
    assert!(!bit_is_set(0b1010, 0));
    assert!(bit_is_set(0b1010, 1));
    assert!(!bit_is_set(0b1010, 2));
    assert!(bit_is_set(0b1010, 3));
    assert!(bit_is_set(1u64 << 63, 63));
    assert!(!bit_is_set(u64::MAX >> 1, 63));
}
