//! Masks over the low-order bits of a hash, and the bit-level facts the
//! addressing scheme rests on.

use vstd::prelude::*;

verus! {

/// The mask that keeps the `depth` low-order bits of a 64-bit word.
pub open spec fn low_mask(depth: u64) -> u64 {
    if depth >= 64 {
        0xffff_ffff_ffff_ffffu64
    } else {
        ((1u64 << depth) - 1) as u64
    }
}

/// The single bit at position `depth`, counted from the low end.
pub open spec fn bit_at(depth: u64) -> u64 {
    1u64 << depth
}

/// Whether `x` and `y` have the same `depth` low-order bits.
pub open spec fn agree(x: u64, y: u64, depth: u64) -> bool {
    x & low_mask(depth) == y & low_mask(depth)
}

/// Whether bit number `depth` of `x` is set.
pub open spec fn has_bit(x: u64, depth: u64) -> bool {
    x & bit_at(depth) != 0
}

/// Computes the mask of the `depth` low-order bits.
pub fn bitmask(depth: usize) -> (m: u64)
    ensures
        m == low_mask(depth as u64),
{
    if depth >= 64 {
        u64::MAX
    } else {
        let d: u64 = depth as u64;
        assert((1u64 << d) >= 1) by (bit_vector)
            requires
                d < 64,
        ;
        (1u64 << d) - 1
    }
}

/// Tests bit number `depth` of `x`.
pub fn bit_is_set(x: u64, depth: usize) -> (b: bool)
    requires
        depth < 64,
    ensures
        b == has_bit(x, depth as u64),
{
    let d: u64 = depth as u64;
    x & (1u64 << d) != 0
}

/// A masked word is below the power of two that the mask stands for.
pub proof fn lemma_masked_below(x: u64, depth: u64)
    by (bit_vector)
    requires
        depth < 64,
    ensures
        x & low_mask(depth) < bit_at(depth),
        x & low_mask(depth) <= low_mask(depth),
        low_mask(depth) + 1 == bit_at(depth),
{
}

/// A word below `2^depth` is left unchanged by the mask of `depth` bits.
pub proof fn lemma_mask_of_small(x: u64, depth: u64)
    by (bit_vector)
    requires
        depth < 64,
        x < bit_at(depth),
    ensures
        x & low_mask(depth) == x,
{
}

/// Masking to more bits and then to fewer is masking to fewer.
pub proof fn lemma_mask_twice(x: u64, small: u64, large: u64)
    by (bit_vector)
    requires
        small <= large,
    ensures
        (x & low_mask(large)) & low_mask(small) == x & low_mask(small),
{
}

/// Words that share their `large` low-order bits share any fewer.
pub proof fn lemma_agree_fewer(x: u64, y: u64, small: u64, large: u64)
    by (bit_vector)
    requires
        small <= large,
        x & low_mask(large) == y & low_mask(large),
    ensures
        x & low_mask(small) == y & low_mask(small),
{
}

/// One more bit of agreement is agreement so far plus agreement on the next bit.
pub proof fn lemma_agree_next(x: u64, y: u64, depth: u64)
    by (bit_vector)
    requires
        depth < 64,
    ensures
        (x & low_mask((depth + 1) as u64) == y & low_mask((depth + 1) as u64)) <==> (x & low_mask(
            depth,
        ) == y & low_mask(depth) && ((x & bit_at(depth) != 0) <==> (y & bit_at(depth) != 0))),
{
}

/// The `depth + 1` low-order bits of a word are its `depth` low-order bits,
/// with bit number `depth` added where the word has it.
pub proof fn lemma_mask_next(x: u64, depth: u64)
    by (bit_vector)
    requires
        depth < 64,
    ensures
        x & bit_at(depth) == 0 ==> x & low_mask((depth + 1) as u64) == x & low_mask(depth),
        x & bit_at(depth) != 0 ==> x & low_mask((depth + 1) as u64) == (x & low_mask(depth))
            | bit_at(depth),
{
}

/// Bit number `small` of a word survives masking to more than `small` bits.
pub proof fn lemma_bit_of_masked(x: u64, small: u64, large: u64)
    by (bit_vector)
    requires
        small < large,
    ensures
        (x & low_mask(large)) & bit_at(small) == x & bit_at(small),
{
}

/// Doubling a power of two is the next power of two.
pub proof fn lemma_bit_doubles(depth: u64)
    by (bit_vector)
    requires
        depth < 63,
    ensures
        bit_at((depth + 1) as u64) == 2 * bit_at(depth),
        bit_at(depth) >= 1,
{
}

/// In the upper half of a doubled range, dropping the new top bit is the same
/// as subtracting the old size.
pub proof fn lemma_upper_half(i: u64, depth: u64)
    by (bit_vector)
    requires
        depth < 63,
        bit_at(depth) <= i,
        i < 2 * bit_at(depth),
    ensures
        i & low_mask(depth) == i - bit_at(depth),
        i & bit_at(depth) != 0,
{
}

/// The slots that a split hands to the new bucket are those of the old
/// bucket's slots that have the newly significant bit set.
pub proof fn lemma_upper_class(j: u64, x: u64, depth: u64)
    by (bit_vector)
    requires
        depth < 63,
    ensures
        (j & low_mask((depth + 1) as u64) == (x & low_mask(depth)) | bit_at(depth)) <==> (j
            & low_mask(depth) == x & low_mask(depth) && j & bit_at(depth) != 0),
        ((x & low_mask(depth)) | bit_at(depth)) & low_mask((depth + 1) as u64) == (x & low_mask(
            depth,
        )) | bit_at(depth),
        (x & low_mask(depth)) | bit_at(depth) < bit_at((depth + 1) as u64),
        (x & low_mask(depth)) & bit_at(depth) == 0,
{
}

/// The slots with given `depth` low-order bits lie `2^depth` apart: the
/// smallest of them is the bit pattern itself, and each is followed by the
/// one that lies `2^depth` above it, with none between.
pub proof fn lemma_class_stride(i: u64, j: u64, class: u64, depth: u64)
    by (bit_vector)
    requires
        depth < 63,
        class & low_mask(depth) == class,
        i < 0x1_0000_0000_0000,
        j < 0x1_0000_0000_0000,
    ensures
        j & low_mask(depth) == class ==> j >= class,
        i & low_mask(depth) == class ==> ((i + bit_at(depth)) as u64) & low_mask(depth) == class,
        i & low_mask(depth) == class && j & low_mask(depth) == class && i <= j && j < i + bit_at(
            depth,
        ) ==> j == i,
{
}

/// Powers of two grow with the exponent, up to the `2^31` slots of the
/// largest directory.
pub proof fn lemma_bit_grows(small: u64, large: u64)
    by (bit_vector)
    requires
        small <= large,
        large < 64,
    ensures
        bit_at(small) <= bit_at(large),
        bit_at(small) >= 1,
        bit_at(31) == 0x8000_0000,
{
}

/// The depth at which two words part company: the least depth above `from`,
/// and at most `to`, over which their low-order bits differ, or `to` where
/// they agree over every depth up to `to`.
pub open spec fn parting_depth(x: u64, y: u64, from: u64, to: u64) -> u64
    decreases to - from,
{
    if from >= to {
        to
    } else if !agree(x, y, (from + 1) as u64) {
        (from + 1) as u64
    } else {
        parting_depth(x, y, (from + 1) as u64, to)
    }
}

/// How the parting depth moves when the upper bound grows by one: words
/// that agree over `to` bits part at `to + 1` at the earliest, and words
/// that have parted by `to` keep their parting depth.
pub proof fn lemma_parting_step(x: u64, y: u64, from: u64, to: u64)
    requires
        from <= to < 64,
        agree(x, y, from),
    ensures
        from <= parting_depth(x, y, from, to) <= to,
        agree(x, y, to) ==> parting_depth(x, y, from, to) == to && parting_depth(
            x,
            y,
            from,
            (to + 1) as u64,
        ) == to + 1,
        !agree(x, y, to) ==> parting_depth(x, y, from, (to + 1) as u64) == parting_depth(
            x,
            y,
            from,
            to,
        ),
    decreases to - from,
{
    if from < to {
        let next = (from + 1) as u64;
        if agree(x, y, next) {
            lemma_parting_step(x, y, next, to);
        } else {
            if agree(x, y, to) {
                lemma_agree_fewer(x, y, next, to);
            }
        }
    } else {
        assert(parting_depth(x, y, (from + 1) as u64, (to + 1) as u64) == to + 1);
    }
}

/// The highest position in `[from, to)` at which `x` has a one bit.
pub open spec fn last_set_bit(x: u64, from: u64, to: u64) -> Option<u64>
    decreases to,
{
    if to <= from {
        None
    } else if has_bit(x, (to - 1) as u64) {
        Some((to - 1) as u64)
    } else {
        last_set_bit(x, from, (to - 1) as u64)
    }
}

/// The parting depth up to `to` reads only the `to` low-order bits.
pub proof fn lemma_parting_low_bits(x: u64, y: u64, hash: u64, from: u64, to: u64, upto: u64)
    requires
        to <= upto,
        agree(x, y, upto),
    ensures
        from <= upto ==> agree(x, hash, from) == agree(y, hash, from),
        parting_depth(x, hash, from, to) == parting_depth(y, hash, from, to),
    decreases to - from,
{
    if from <= upto {
        lemma_agree_fewer(x, y, from, upto);
    }
    if from < to {
        let next = (from + 1) as u64;
        lemma_agree_fewer(x, y, next, upto);
        lemma_parting_low_bits(x, y, hash, next, to, upto);
    }
}

/// The highest one bit below `to` is found among the `to` low-order bits.
pub proof fn lemma_last_bit_low_bits(x: u64, y: u64, from: u64, to: u64, upto: u64)
    requires
        to <= upto <= 64,
        agree(x, y, upto),
    ensures
        last_set_bit(x, from, to) == last_set_bit(y, from, to),
    decreases to,
{
    if to > from {
        let top = (to - 1) as u64;
        lemma_agree_fewer(x, y, to, upto);
        lemma_agree_next(x, y, top);
        lemma_last_bit_low_bits(x, y, from, top, upto);
    }
}

/// The highest one bit in `[from, to)`, where there is one, lies in that
/// range and is a one bit.
pub proof fn lemma_last_bit_range(x: u64, from: u64, to: u64)
    ensures
        match last_set_bit(x, from, to) {
            Some(d) => from <= d < to && has_bit(x, d),
            None => true,
        },
    decreases to,
{
    if to > from && !has_bit(x, (to - 1) as u64) {
        lemma_last_bit_range(x, from, (to - 1) as u64);
    }
}

} // verus!
