//! What holds of every table: the laws of lookup, insertion and deletion,
//! stated over the table's view, and the shape of the directory.

use crate::bits::{
    agree, bit_at, lemma_bit_doubles, lemma_mask_of_small, lemma_mask_twice, lemma_masked_below,
    lemma_upper_half, low_mask,
};
use crate::hasher::KeyHasher;
use crate::table::HashTable;
use vstd::prelude::*;
use vstd::relations::injective_on;
use vstd::set_lib::{lemma_map_size, lemma_set_disjoint_lens};

verus! {

/// An operation that took effect on a table: an insertion that succeeded, or
/// a deletion.
pub enum Op<K, V> {
    /// `put(key, value)` returned `Ok`.
    Put(K, V),
    /// `delete(key)`.
    Delete(K),
}

impl<K, V> Op<K, V> {
    /// The key that the operation is about.
    pub open spec fn key(self) -> K {
        match self {
            Op::Put(k, _) => k,
            Op::Delete(k) => k,
        }
    }

    /// The view of the table after the operation, given the view before it.
    pub open spec fn apply(self, m: Map<K, V>) -> Map<K, V> {
        match self {
            Op::Put(k, v) => m.insert(k, v),
            Op::Delete(k) => m.remove(k),
        }
    }
}

/// The view of a table after the operations `ops`, in order, given the view
/// before them.
pub open spec fn run<K, V>(m: Map<K, V>, ops: Seq<Op<K, V>>) -> Map<K, V>
    decreases ops.len(),
{
    if ops.len() == 0 {
        m
    } else {
        ops.last().apply(run(m, ops.drop_last()))
    }
}

/// Operations on other keys leave a key as it is.
pub proof fn lemma_run_keeps<K, V>(m: Map<K, V>, ops: Seq<Op<K, V>>, key: K)
    requires
        forall|i: int| 0 <= i < ops.len() ==> (#[trigger] ops[i]).key() != key,
    ensures
        run(m, ops).contains_key(key) == m.contains_key(key),
        m.contains_key(key) ==> run(m, ops)[key] == m[key],
    decreases ops.len(),
{
    if ops.len() > 0 {
        let init = ops.drop_last();
        assert forall|i: int| 0 <= i < init.len() implies (#[trigger] init[i]).key() != key by {
            assert(init[i] == ops[i]);
        }
        lemma_run_keeps(m, init, key);
        assert(ops.last() == ops[ops.len() - 1]);
    }
}

/// Round trip: once `put(key, val)` has succeeded, and as long as only other
/// keys are inserted or deleted, `get(key)` finds `val`.
pub proof fn law_round_trip<K: Eq, V, H: KeyHasher<K>>(
    before: HashTable<K, V, H>,
    after: HashTable<K, V, H>,
    key: K,
    val: V,
    ops: Seq<Op<K, V>>,
)
    requires
        forall|i: int| 0 <= i < ops.len() ==> (#[trigger] ops[i]).key() != key,
        after@ == run(before@.insert(key, val), ops),
    ensures
        after@.contains_key(key),
        after@[key] == val,
{
    lemma_run_keeps(before@.insert(key, val), ops, key);
}

/// A key that is absent stays absent under deletions and under insertions of
/// other keys.
pub proof fn lemma_run_keeps_absent<K, V>(m: Map<K, V>, ops: Seq<Op<K, V>>, key: K)
    requires
        !m.contains_key(key),
        forall|i: int|
            0 <= i < ops.len() ==> !((#[trigger] ops[i]) is Put && ops[i].key() == key),
    ensures
        !run(m, ops).contains_key(key),
    decreases ops.len(),
{
    if ops.len() > 0 {
        let init = ops.drop_last();
        assert forall|i: int| 0 <= i < init.len() implies !((#[trigger] init[i]) is Put
            && init[i].key() == key) by {
            assert(init[i] == ops[i]);
        }
        lemma_run_keeps_absent(m, init, key);
        assert(ops.last() == ops[ops.len() - 1]);
    }
}

/// Deletion: after `delete(key)`, and until `key` is inserted again,
/// `get(key)` finds nothing, whatever the table held before.
pub proof fn law_deleted_is_absent<K: Eq, V, H: KeyHasher<K>>(
    before: HashTable<K, V, H>,
    after: HashTable<K, V, H>,
    key: K,
    ops: Seq<Op<K, V>>,
)
    requires
        forall|i: int|
            0 <= i < ops.len() ==> !((#[trigger] ops[i]) is Put && ops[i].key() == key),
        after@ == run(before@.remove(key), ops),
    ensures
        !after@.contains_key(key),
{
    lemma_run_keeps_absent(before@.remove(key), ops, key);
}

/// Idempotent delete: deleting a key that is absent changes nothing, and
/// deleting a key twice leaves what deleting it once leaves.
pub proof fn law_delete_idempotent<K: Eq, V, H: KeyHasher<K>>(
    before: HashTable<K, V, H>,
    once: HashTable<K, V, H>,
    twice: HashTable<K, V, H>,
    key: K,
)
    requires
        once@ == before@.remove(key),
        twice@ == once@.remove(key),
    ensures
        !before@.contains_key(key) ==> once@ == before@,
        twice@ == once@,
{
    assert(once@.remove(key) =~= once@);
    if !before@.contains_key(key) {
        assert(before@.remove(key) =~= before@);
    }
}

/// Overwrite: where `put(key, first)` and then `put(key, second)` have
/// succeeded, `get(key)` finds `second`, and the second insertion has added
/// no entry: the table holds the keys it held after the first, and its
/// buckets hold as many entries as they did.
pub proof fn law_overwrite<K: Eq, V, H: KeyHasher<K>>(
    before: HashTable<K, V, H>,
    mid: HashTable<K, V, H>,
    after: HashTable<K, V, H>,
    key: K,
    first: V,
    second: V,
)
    requires
        mid.wf(),
        after.wf(),
        mid@ == before@.insert(key, first),
        after@ == mid@.insert(key, second),
    ensures
        after@.contains_key(key),
        after@[key] == second,
        after@ == before@.insert(key, second),
        after@.dom() == mid@.dom(),
        after.entry_count() == mid.entry_count(),
{
    assert(after@ =~= before@.insert(key, second));
    assert(after@.dom() =~= mid@.dom());
    mid.lemma_entry_count();
    after.lemma_entry_count();
}

/// Capacity: at rest no bucket holds more entries than the table's bucket
/// capacity.
pub proof fn law_capacity<K: Eq, V, H: KeyHasher<K>>(table: HashTable<K, V, H>, bucket: int)
    requires
        table.wf(),
        0 <= bucket < table.arena().len(),
    ensures
        table.arena()[bucket]@.dom().finite(),
        table.arena()[bucket]@.len() <= table.spec_capacity(),
{
    assert(table.arena()[bucket].wf());
    table.arena()[bucket].lemma_view_len();
}

/// The slots below `2^global` whose `local` low-order bits are `addr`.
pub open spec fn class_slots(global: u64, local: u64, addr: u64) -> Set<int> {
    Set::new(|j: int| 0 <= j < bit_at(global) && (j as u64) & low_mask(local) == addr)
}

/// Among `2^global` slots, `2^(global - local)` have given `local` low-order
/// bits.
pub proof fn lemma_class_size(global: u64, local: u64, addr: u64)
    requires
        local <= global < 63,
        addr & low_mask(local) == addr,
    ensures
        class_slots(global, local, addr).finite(),
        class_slots(global, local, addr).len() == bit_at((global - local) as u64),
    decreases global - local,
{
    let class = class_slots(global, local, addr);
    if global == local {
        lemma_masked_below(addr, local);
        assert forall|j: int| #[trigger] class.contains(j) <==> j == addr by {
            if 0 <= j < bit_at(global) {
                lemma_mask_of_small(j as u64, local);
            }
        }
        assert(class =~= set![addr as int]);
        assert(bit_at(0) == 1) by (bit_vector);
    } else {
        let prev = (global - 1) as u64;
        let half = bit_at(prev) as int;
        let lower = class_slots(prev, local, addr);
        let shift = |j: int| j + half;
        let upper = lower.map(shift);
        lemma_class_size(prev, local, addr);
        lemma_bit_doubles(prev);
        lemma_bit_doubles((prev - local) as u64);
        assert(injective_on(shift, lower));
        lemma_map_size(lower, upper, shift);
        assert forall|j: int| #[trigger] class.contains(j) <==> (lower.contains(j)
            || upper.contains(j)) by {
            if upper.contains(j) {
                let i = choose|i: int| lower.contains(i) && j == shift(i);
                lemma_upper_half(j as u64, prev);
                lemma_mask_twice(j as u64, local, prev);
            }
            if class.contains(j) && j >= half {
                lemma_upper_half(j as u64, prev);
                lemma_mask_twice(j as u64, local, prev);
                assert(lower.contains(j - half));
                assert(j == shift(j - half));
            }
        }
        assert(class =~= lower + upper);
        assert(lower.disjoint(upper)) by {
            assert forall|j: int| !(lower.contains(j) && upper.contains(j)) by {
                if upper.contains(j) {
                    let i = choose|i: int| lower.contains(i) && j == shift(i);
                }
            }
        }
        lemma_set_disjoint_lens(lower, upper);
    }
}

/// The directory slots that refer to the bucket of slot `slot`.
pub open spec fn slots_of<K: Eq, V, H: KeyHasher<K>>(table: HashTable<K, V, H>, slot: int) -> Set<
    int,
> {
    Set::new(
        |j: int|
            0 <= j < table.directory().len() && table.directory()[j] == table.directory()[slot],
    )
}

/// Directory invariant: a bucket of local depth `l` in a table of global
/// depth `g` is referred to by exactly the slots that share their `l`
/// low-order bits, which are `2^(g - l)` slots; and the hash of every key
/// stored in the bucket has those same `l` low-order bits.
pub proof fn law_directory<K: Eq, V, H: KeyHasher<K>>(table: HashTable<K, V, H>, slot: int)
    requires
        table.wf(),
        0 <= slot < table.directory().len(),
    ensures
        table.bucket_at(slot).spec_depth() <= table.spec_global_depth(),
        forall|j: int|
            0 <= j < table.directory().len() ==> (#[trigger] slots_of(table, slot).contains(j)
                <==> agree(j as u64, slot as u64, table.bucket_at(slot).spec_depth() as u64)),
        slots_of(table, slot).finite(),
        slots_of(table, slot).len() == bit_at(
            (table.spec_global_depth() - table.bucket_at(slot).spec_depth()) as u64,
        ),
        forall|k: K| #[trigger]
            table.bucket_at(slot)@.contains_key(k) ==> agree(
                table.hasher().hash_of(k),
                slot as u64,
                table.bucket_at(slot).spec_depth() as u64,
            ),
{
    let g = table.spec_global_depth() as u64;
    let l = table.bucket_at(slot).spec_depth() as u64;
    let addr = (slot as u64) & low_mask(l);
    assert(table.arena()[table.directory()[slot] as int].wf());
    lemma_mask_twice(slot as u64, l, l);
    lemma_class_size(g, l, addr);
    assert forall|j: int| #[trigger] slots_of(table, slot).contains(j) <==> class_slots(
        g,
        l,
        addr,
    ).contains(j) by {
        if 0 <= j < table.directory().len() {
            assert(table.directory()[slot] == table.directory()[j] <==> agree(
                slot as u64,
                j as u64,
                l,
            ));
        }
    }
    assert(slots_of(table, slot) =~= class_slots(g, l, addr));
    assert(table.bucket_at(slot).has_address(&table.hasher(), addr));
}

} // verus!
