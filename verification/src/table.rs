//! The directory: `2^global_depth` slots that refer to buckets, and the
//! routing, doubling and splitting that keep every key in reach.
//!
//! Buckets live in an arena and a directory slot holds the index of its
//! bucket there, so several slots can refer to one bucket. Doubling the
//! directory copies indices only; no entry is rehashed.

use crate::bits::{
    agree, bit_at, bitmask, has_bit, last_set_bit, lemma_bit_grows, lemma_class_stride,
    lemma_mask_of_small, lemma_mask_twice, lemma_masked_below, lemma_upper_class, low_mask,
    parting_depth,
};
use crate::bucket::Bucket;
use crate::hasher::{DefaultKeyHasher, KeyHasher};
use vstd::laws_eq::*;
use vstd::prelude::*;

verus! {

/// The bucket capacity of a table made without naming one.
pub const BUCKET_SIZE: usize = 32;

/// The largest global depth a table can be given: a directory of
/// `2^MAX_DEPTH` slots is the largest that every supported machine can index.
pub const MAX_DEPTH: usize = 31;

/// Why an insertion was refused.
#[derive(Debug, Clone, Copy, PartialEq, Eq)]
pub enum Error {
    /// The key collides with a full bucket's worth of stored keys on every
    /// hash bit the table may use, so no split can make room for it.
    DistributionExhausted,
}

/// The slot with the `depth` low-order bits of `slot`.
pub open spec fn fold_slot(slot: int, depth: u64) -> int {
    ((slot as u64) & low_mask(depth)) as int
}

/// The split that handed slot `slot` to a new bucket last, where a bucket
/// with the low-order bits of `hash` has been split at each depth from `from`
/// up to, but not including, `to`.
///
/// A slot takes part in those splits for as long as it agrees with `hash`;
/// a split at depth `d` hands it to the new bucket where it has bit `d` set.
pub open spec fn last_handover(slot: u64, hash: u64, from: u64, to: u64) -> Option<u64> {
    if agree(slot, hash, from) {
        last_set_bit(slot, from, parting_depth(slot, hash, from, to))
    } else {
        None
    }
}

/// The number of entries that the first `n` buckets of an arena hold.
pub open spec fn entries_upto<K, V>(arena: Seq<Bucket<K, V>>, n: int) -> nat
    decreases n,
{
    if n <= 0 {
        0
    } else {
        entries_upto(arena, n - 1) + arena[n - 1]@.len()
    }
}

/// The keys of `m` whose hash has the `depth` low-order bits of `hash`.
pub open spec fn agreeing_keys<K, V, H: KeyHasher<K>>(
    m: Map<K, V>,
    hasher: H,
    hash: u64,
    depth: u64,
) -> Set<K> {
    m.dom().filter(|k: K| agree(hasher.hash_of(k), hash, depth))
}

/// An extendible hash table from `K` to `V`, hashing keys with `H`.
pub struct HashTable<K, V, H = DefaultKeyHasher> {
    buckets: Vec<Bucket<K, V>>,
    dir: Vec<usize>,
    depth: usize,
    capacity: usize,
    max_depth: usize,
    hasher: H,
}

impl<K: Eq, V, H: KeyHasher<K>> View for HashTable<K, V, H> {
    type V = Map<K, V>;

    /// The table as a map: a key is present where the bucket it is routed to
    /// holds it.
    open spec fn view(&self) -> Map<K, V> {
        Map::new(|k: K| self.home(k)@.contains_key(k), |k: K| self.home(k)@[k])
    }
}

impl<K: Eq, V, H: KeyHasher<K>> HashTable<K, V, H> {
    /// The hash function the table was made with.
    pub closed spec fn hasher(&self) -> H {
        self.hasher
    }

    /// The global depth: the number of low-order hash bits the directory uses.
    pub closed spec fn spec_global_depth(&self) -> usize {
        self.depth
    }

    /// The global depth that the table will not grow beyond.
    pub closed spec fn spec_max_depth(&self) -> usize {
        self.max_depth
    }

    /// The capacity of each bucket.
    pub closed spec fn spec_capacity(&self) -> usize {
        self.capacity
    }

    /// The directory: for each slot, the arena index of the bucket it refers to.
    pub closed spec fn directory(&self) -> Seq<usize> {
        self.dir@
    }

    /// The arena of buckets.
    pub closed spec fn arena(&self) -> Seq<Bucket<K, V>> {
        self.buckets@
    }

    /// The bucket that directory slot `slot` refers to.
    pub open spec fn bucket_at(&self, slot: int) -> Bucket<K, V> {
        self.arena()[self.directory()[slot] as int]
    }

    /// The directory slot that `key` is routed to: its hash, cut down to the
    /// global depth.
    pub open spec fn route(&self, key: K) -> int {
        (self.hasher().hash_of(key) & low_mask(self.spec_global_depth() as u64)) as int
    }

    /// The bucket that `key` is routed to.
    pub open spec fn home(&self, key: K) -> Bucket<K, V> {
        self.bucket_at(self.route(key))
    }

    /// The number of entries that the buckets hold, all together.
    pub open spec fn entry_count(&self) -> nat {
        entries_upto(self.arena(), self.arena().len() as int)
    }

    /// The stored keys that no split can part from `key`: those whose hash
    /// has the same low-order bits as the hash of `key`, over the largest
    /// depth the table may reach.
    pub open spec fn colliding_keys(&self, key: K) -> Set<K> {
        agreeing_keys(
            self@,
            self.hasher(),
            self.hasher().hash_of(key),
            self.spec_max_depth() as u64,
        )
    }

    /// Whether no room can be made for `key`: a full bucket's worth of stored
    /// keys collides with it.
    pub open spec fn is_saturated(&self, key: K) -> bool {
        self.colliding_keys(key).len() >= self.spec_capacity()
    }

    /// How a table has grown from `before` to make room for `key`.
    ///
    /// The bucket that `key` is routed to was split once for each depth from
    /// its old local depth up to its new one, and only because it was full:
    /// at each of those depths a full bucket's worth of stored keys agreed
    /// with `key`. The directory doubled only as far as the new local depth
    /// needs, and each split added one bucket. A key that was routed to that
    /// bucket is now routed to a bucket whose local depth is the depth at
    /// which its hash parts from the hash of `key`; every other key is routed
    /// to a bucket of the local depth it had before. A slot refers to the
    /// bucket that the last split it took part in handed it to, or else to
    /// the bucket that the slot it was copied from referred to. Every other
    /// bucket than the one that was split is as it was.
    pub open spec fn grown_for(&self, before: Self, key: K) -> bool {
        let hash = before.hasher().hash_of(key);
        let from = before.home(key).spec_depth() as u64;
        let to = self.home(key).spec_depth() as u64;
        &&& from <= to
        &&& self.spec_global_depth() == (if before.spec_global_depth() >= to {
            before.spec_global_depth() as int
        } else {
            to as int
        })
        &&& self.arena().len() == before.arena().len() + (to - from)
        &&& forall|d: u64|
            from <= d < to ==> (#[trigger] agreeing_keys(before@, before.hasher(), hash, d)).len()
                >= before.spec_capacity()
        &&& forall|k: K|
            (#[trigger] self.home(k)).spec_depth() == (if agree(
                before.hasher().hash_of(k),
                hash,
                from,
            ) {
                parting_depth(before.hasher().hash_of(k), hash, from, to)
            } else {
                before.home(k).spec_depth() as u64
            })
        &&& forall|i: int|
            0 <= i < self.directory().len() ==> (#[trigger] self.directory()[i]) as int
                == (match last_handover(i as u64, hash, from, to) {
                Some(d) => before.arena().len() + (d - from),
                None => before.directory()[fold_slot(i, before.spec_global_depth() as u64)] as int,
            })
        &&& forall|b: int|
            0 <= b < before.arena().len() && b != before.directory()[before.route(key)]
                ==> #[trigger] self.arena()[b] == before.arena()[b]
    }

    /// The directory has `2^global_depth` slots, each of which refers to a
    /// bucket of the arena.
    pub open spec fn directory_shaped(&self) -> bool {
        &&& self.spec_global_depth() <= self.spec_max_depth() <= MAX_DEPTH
        &&& self.directory().len() == bit_at(self.spec_global_depth() as u64)
        &&& forall|i: int|
            0 <= i < self.directory().len() ==> (#[trigger] self.directory()[i])
                < self.arena().len()
    }

    /// Every bucket of the arena is well formed, has the table's capacity and
    /// a local depth no larger than the global depth, and is referred to by
    /// some slot.
    pub open spec fn buckets_sound(&self) -> bool {
        forall|b: int|
            0 <= b < self.arena().len() ==> {
                &&& (#[trigger] self.arena()[b]).wf()
                &&& self.arena()[b].spec_capacity() == self.spec_capacity()
                &&& self.arena()[b].spec_depth() <= self.spec_global_depth()
                &&& exists|i: int|
                    0 <= i < self.directory().len() && (#[trigger] self.directory()[i]) == b
            }
    }

    /// Two slots refer to the same bucket exactly when they have the same
    /// low-order bits over that bucket's local depth.
    pub open spec fn slots_grouped(&self) -> bool {
        forall|i: int, j: int|
            0 <= i < self.directory().len() && 0 <= j < self.directory().len() ==> ((
            #[trigger] self.directory()[i]) == (#[trigger] self.directory()[j]) <==> agree(
                i as u64,
                j as u64,
                self.bucket_at(i).spec_depth() as u64,
            ))
    }

    /// The hash of every key stored in a bucket has, over the bucket's local
    /// depth, the low-order bits of each slot that refers to the bucket.
    pub open spec fn keys_placed(&self) -> bool {
        forall|i: int|
            0 <= i < self.directory().len() ==> (#[trigger] self.bucket_at(i)).has_address(
                &self.hasher(),
                (i as u64) & low_mask(self.bucket_at(i).spec_depth() as u64),
            )
    }

    /// The table's invariant.
    pub open spec fn wf(&self) -> bool {
        &&& obeys_concrete_eq::<K>()
        &&& self.directory_shaped()
        &&& self.buckets_sound()
        &&& self.slots_grouped()
        &&& self.keys_placed()
    }

    /// Creates an empty table: global depth 0, and one slot that refers to
    /// one empty bucket.
    ///
    /// Buckets hold up to `capacity` entries. The directory grows to at most
    /// `2^max_depth` slots, where a `max_depth` above [`MAX_DEPTH`] counts as
    /// `MAX_DEPTH`.
    pub fn with_limits(capacity: usize, max_depth: usize, hasher: H) -> (t: Self)
        requires
            obeys_concrete_eq::<K>(),
        ensures
            t.wf(),
            t@ == Map::<K, V>::empty(),
            t.hasher() == hasher,
            t.spec_capacity() == capacity,
            t.spec_max_depth() == if max_depth <= MAX_DEPTH {
                max_depth
            } else {
                MAX_DEPTH
            },
            t.spec_global_depth() == 0,
            t.directory() == seq![0usize],
            t.arena().len() == 1,
    {
        let mut buckets: Vec<Bucket<K, V>> = Vec::new();
        buckets.push(Bucket::new(capacity));
        let mut dir: Vec<usize> = Vec::new();
        dir.push(0);
        let max_depth = if max_depth <= MAX_DEPTH {
            max_depth
        } else {
            MAX_DEPTH
        };
        let t = HashTable { buckets, dir, depth: 0, capacity, max_depth, hasher };
        proof {
            assert(bit_at(0) == 1) by (bit_vector);
            assert(t.directory() =~= seq![0usize]);
            assert(t.directory()[0] == 0);
            assert(t.bucket_at(0)@ == Map::<K, V>::empty());
            assert forall|i: int, j: int|
                0 <= i < t.directory().len() && 0 <= j < t.directory().len() implies ((
            #[trigger] t.directory()[i]) == (#[trigger] t.directory()[j]) <==> agree(
                i as u64,
                j as u64,
                t.bucket_at(i).spec_depth() as u64,
            )) by {}
            assert forall|k: K| !(#[trigger] t@.contains_key(k)) by {
                lemma_masked_below(t.hasher().hash_of(k), 0);
            }
            assert(t@ =~= Map::<K, V>::empty());
        }
        t
    }

    /// Creates an empty table with buckets of [`BUCKET_SIZE`] entries and the
    /// largest depth limit.
    pub fn with_hasher(hasher: H) -> (t: Self)
        requires
            obeys_concrete_eq::<K>(),
        ensures
            t.wf(),
            t@ == Map::<K, V>::empty(),
            t.hasher() == hasher,
            t.spec_capacity() == BUCKET_SIZE,
            t.spec_max_depth() == MAX_DEPTH,
            t.spec_global_depth() == 0,
            t.directory() == seq![0usize],
            t.arena().len() == 1,
    {
        Self::with_limits(BUCKET_SIZE, MAX_DEPTH, hasher)
    }

    /// The hash of `key`, cut down to the global depth: the directory slot
    /// that the key is routed to, which fits a `usize`.
    pub fn hash(&self, key: &K) -> (h: u64)
        requires
            self.wf(),
        ensures
            h == self.route(*key),
            h < self.directory().len(),
            h <= usize::MAX,
    {
        let h = self.hasher.hash(key);
        proof {
            lemma_masked_below(h, self.depth as u64);
            assert(self.dir@.len() == self.dir.len());
        }
        h & bitmask(self.depth)
    }

    /// The global depth: the number of low-order hash bits the directory uses.
    #[verifier::when_used_as_spec(spec_global_depth)]
    pub fn global_depth(&self) -> (d: usize)
        ensures
            d == self.spec_global_depth(),
    {
        self.depth
    }

    /// The global depth that the table will not grow beyond.
    #[verifier::when_used_as_spec(spec_max_depth)]
    pub fn max_depth(&self) -> (d: usize)
        ensures
            d == self.spec_max_depth(),
    {
        self.max_depth
    }

    /// The capacity of each bucket.
    #[verifier::when_used_as_spec(spec_capacity)]
    pub fn capacity(&self) -> (c: usize)
        ensures
            c == self.spec_capacity(),
    {
        self.capacity
    }

    /// The number of directory slots: `2^global_depth` in a well-formed table.
    pub fn directory_len(&self) -> (n: usize)
        ensures
            n == self.directory().len(),
            self.wf() ==> n == bit_at(self.spec_global_depth() as u64),
    {
        self.dir.len()
    }

    /// The number of buckets. In a well-formed table each of them is
    /// referred to by at least one directory slot.
    pub fn bucket_count(&self) -> (n: usize)
        ensures
            n == self.arena().len(),
    {
        self.buckets.len()
    }

    /// The arena index of the bucket that directory slot `slot` refers to,
    /// where the directory has such a slot.
    pub fn bucket_index(&self, slot: usize) -> (r: Option<usize>)
        ensures
            r == (if slot < self.directory().len() {
                Some(self.directory()[slot as int])
            } else {
                None
            }),
    {
        if slot < self.dir.len() {
            Some(self.dir[slot])
        } else {
            None
        }
    }

    /// The local depth of the bucket that directory slot `slot` refers to,
    /// where the directory has such a slot.
    pub fn local_depth(&self, slot: usize) -> (r: Option<usize>)
        requires
            self.wf(),
        ensures
            r == (if slot < self.directory().len() {
                Some(self.bucket_at(slot as int).spec_depth())
            } else {
                None
            }),
    {
        if slot < self.dir.len() {
            let b = self.dir[slot];
            Some(self.buckets[b].depth())
        } else {
            None
        }
    }

    /// The number of entries in the bucket that directory slot `slot` refers
    /// to, where the directory has such a slot.
    pub fn bucket_len(&self, slot: usize) -> (r: Option<usize>)
        requires
            self.wf(),
        ensures
            match r {
                Some(n) => slot < self.directory().len() && n == self.bucket_at(slot as int)@.len()
                    && n <= self.spec_capacity(),
                None => slot >= self.directory().len(),
            },
    {
        if slot < self.dir.len() {
            let b = self.dir[slot];
            proof {
                assert(self.arena()[b as int].wf());
                self.arena()[b as int].lemma_view_len();
            }
            Some(self.buckets[b].len())
        } else {
            None
        }
    }

    /// Stores `val` under `key`, overwriting the value of a key that is
    /// already present.
    ///
    /// Room is made first, by splitting the bucket that the key is routed to
    /// and doubling the directory as often as needed. This holds for a key
    /// that is present too: overwriting it can split a full bucket. The call
    /// fails exactly when the table is saturated for `key`, and then changes
    /// nothing.
    pub fn put(&mut self, key: K, val: V) -> (r: Result<(), Error>)
        requires
            old(self).wf(),
        ensures
            final(self).wf(),
            final(self).hasher() == old(self).hasher(),
            final(self).spec_capacity() == old(self).spec_capacity(),
            final(self).spec_max_depth() == old(self).spec_max_depth(),
            final(self).grown_for(*old(self), key),
            r is Err <==> old(self).is_saturated(key),
            r is Ok ==> final(self)@ == old(self)@.insert(key, val),
            r is Ok ==> agreeing_keys(
                old(self)@,
                old(self).hasher(),
                old(self).hasher().hash_of(key),
                final(self).home(key).spec_depth() as u64,
            ).len() < old(self).spec_capacity(),
            r is Err ==> {
                &&& final(self).arena() == old(self).arena()
                &&& final(self).directory() == old(self).directory()
                &&& final(self).spec_global_depth() == old(self).spec_global_depth()
            },
    {
        match self.reserve(&key) {
            Err(e) => Err(e),
            Ok(()) => {
                let slot = self.hash(&key) as usize;
                let b = self.dir[slot];
                let ghost mid = *self;
                let ghost k0 = key;
                proof {
                    mid.lemma_home_keys(k0);
                }
                let stored = self.buckets[b].put(key, val);
                assert(stored);
                proof {
                    self.lemma_bucket_replaced(mid, slot as int);
                    assert forall|k: K| #[trigger]
                        self@.contains_key(k) == mid@.insert(k0, val).contains_key(k) && (
                        self@.contains_key(k) ==> self@[k] == mid@.insert(k0, val)[k]) by {
                        mid.lemma_route_in_range(k);
                        assert(self.home(k) == self.bucket_at(self.route(k)));
                    }
                    assert(self@ =~= mid@.insert(k0, val));
                    assert forall|k: K|
                        (#[trigger] self.home(k)).spec_depth() == mid.home(k).spec_depth() by {
                        mid.lemma_route_in_range(k);
                        assert(self.home(k) == self.bucket_at(self.route(k)));
                    }
                    mid.lemma_home_after_growth(*old(self), k0);
                }
                Ok(())
            },
        }
    }

    /// Makes room for `key`: while the bucket that the key is routed to is
    /// full, that bucket is split, after the directory has been doubled
    /// where the bucket already uses every bit of the global depth.
    ///
    /// No entry is added or removed. The call fails exactly when the table
    /// is saturated for `key`: no split could then make room, so none is
    /// tried and the table stays as it is.
    pub fn reserve(&mut self, key: &K) -> (r: Result<(), Error>)
        requires
            old(self).wf(),
        ensures
            final(self).wf(),
            final(self)@ == old(self)@,
            final(self).hasher() == old(self).hasher(),
            final(self).spec_capacity() == old(self).spec_capacity(),
            final(self).spec_max_depth() == old(self).spec_max_depth(),
            final(self).grown_for(*old(self), *key),
            r is Err <==> old(self).is_saturated(*key),
            r is Ok ==> final(self).home(*key)@.len() < final(self).spec_capacity(),
            r is Ok ==> agreeing_keys(
                old(self)@,
                old(self).hasher(),
                old(self).hasher().hash_of(*key),
                final(self).home(*key).spec_depth() as u64,
            ).len() < old(self).spec_capacity(),
            r is Err || final(self).home(*key).spec_depth() == old(self).home(*key).spec_depth()
                ==> {
                &&& final(self).arena() == old(self).arena()
                &&& final(self).directory() == old(self).directory()
                &&& final(self).spec_global_depth() == old(self).spec_global_depth()
            },
    {
        let h = self.hasher.hash(key);
        proof {
            self.lemma_grown_from_itself(*key);
            self.lemma_route_in_range(*key);
            self.lemma_saturated_iff(*key);
            assert(self.dir@.len() == self.dir.len());
        }
        let slot = (h & bitmask(self.depth)) as usize;
        let b = self.dir[slot];
        if self.buckets[b].full() && self.buckets[b].all_agree(&self.hasher, h, self.max_depth) {
            return Err(Error::DistributionExhausted);
        }
        loop
            invariant
                old(self).wf(),
                !old(self).is_saturated(*key),
                self.wf(),
                self@ == old(self)@,
                self.hasher() == old(self).hasher(),
                self.spec_capacity() == old(self).spec_capacity(),
                self.spec_max_depth() == old(self).spec_max_depth(),
                self.grown_for(*old(self), *key),
                self.home(*key).spec_depth() == old(self).home(*key).spec_depth() ==> {
                    &&& self.arena() == old(self).arena()
                    &&& self.directory() == old(self).directory()
                    &&& self.spec_global_depth() == old(self).spec_global_depth()
                },
                h == self.hasher().hash_of(*key),
            decreases self.spec_max_depth() - self.home(*key).spec_depth(),
        {
            proof {
                self.lemma_route_in_range(*key);
                self.lemma_home_keys(*key);
                assert(self.dir@.len() == self.dir.len());
            }
            let slot = (h & bitmask(self.depth)) as usize;
            let b = self.dir[slot];
            if !self.buckets[b].full() {
                return Ok(());
            }
            let ld = self.buckets[b].depth();
            let ghost head = *self;
            if ld == self.depth {
                // A full bucket of the largest depth would hold colliding
                // keys only, and the table is not saturated.
                assert(self.depth < self.max_depth);
                self.double();
            }
            let ghost mid = *self;
            proof {
                assert(mid.directory()[slot as int] == b);
            }
            self.split_at(slot);
            proof {
                assert forall|k: K|
                    (#[trigger] self.home(k)).spec_depth() == (if agree(
                        head.hasher().hash_of(k),
                        h,
                        ld as u64,
                    ) {
                        head.home(k).spec_depth() + 1
                    } else {
                        head.home(k).spec_depth() as int
                    }) by {
                    let hk = head.hasher().hash_of(k);
                    mid.lemma_route_in_range(k);
                    head.lemma_same_home(*key, k);
                    assert(mid.home(k) == head.home(k));
                    assert(self.home(k) == self.bucket_at(mid.route(k)));
                    lemma_mask_twice(h, ld as u64, head.spec_global_depth() as u64);
                    lemma_mask_twice(hk, ld as u64, mid.spec_global_depth() as u64);
                    assert(mid.directory()[slot as int] == mid.directory()[mid.route(k)] <==> agree(
                        slot as u64,
                        mid.route(k) as u64,
                        ld as u64,
                    ));
                }
                assert forall|i: int| 0 <= i < self.directory().len() implies (
                #[trigger] self.directory()[i]) as int == (if agree(i as u64, h, ld as u64)
                    && has_bit(i as u64, ld as u64) {
                    head.arena().len() as int
                } else {
                    head.directory()[fold_slot(i, head.spec_global_depth() as u64)] as int
                }) by {
                    if mid.spec_global_depth() == head.spec_global_depth() {
                        lemma_mask_of_small(i as u64, head.spec_global_depth() as u64);
                    } else {
                        mid.lemma_doubled_slot(head, i);
                    }
                    lemma_mask_twice(h, ld as u64, head.spec_global_depth() as u64);
                    assert(mid.directory()[slot as int] == mid.directory()[i] <==> agree(
                        slot as u64,
                        i as u64,
                        ld as u64,
                    ));
                }
                self.lemma_grown_step(head, *old(self), *key);
            }
        }
    }

    /// Removes `key` and its value; does nothing at all where the key is
    /// absent.
    ///
    /// The directory never shrinks and buckets are never merged: only the
    /// bucket that the key is routed to can change, and only in what it
    /// holds.
    pub fn delete(&mut self, key: &K)
        requires
            old(self).wf(),
        ensures
            final(self).wf(),
            final(self)@ == old(self)@.remove(*key),
            final(self).hasher() == old(self).hasher(),
            final(self).spec_capacity() == old(self).spec_capacity(),
            final(self).spec_max_depth() == old(self).spec_max_depth(),
            final(self).spec_global_depth() == old(self).spec_global_depth(),
            final(self).directory() == old(self).directory(),
            final(self).arena().len() == old(self).arena().len(),
            forall|b: int|
                0 <= b < old(self).arena().len() ==> (#[trigger] final(self).arena()[b]).spec_depth()
                    == old(self).arena()[b].spec_depth(),
            forall|b: int|
                0 <= b < old(self).arena().len() && b != old(self).directory()[old(self).route(
                    *key,
                )] ==> #[trigger] final(self).arena()[b] == old(self).arena()[b],
            !old(self)@.contains_key(*key) ==> final(self).arena() == old(self).arena(),
    {
        let idx = self.hash(key) as usize;
        let b = self.dir[idx];
        self.buckets[b].delete(key);
        proof {
            self.lemma_bucket_replaced(*old(self), idx as int);
            if !old(self)@.contains_key(*key) {
                assert(self.arena() =~= old(self).arena());
            }
            assert forall|k: K| #[trigger]
                self@.contains_key(k) == old(self)@.remove(*key).contains_key(k) && (
                self@.contains_key(k) ==> self@[k] == old(self)@.remove(*key)[k]) by {
                old(self).lemma_route_in_range(k);
                assert(self.home(k) == self.bucket_at(self.route(k)));
            }
            assert(self@ =~= old(self)@.remove(*key));
        }
    }

    /// Doubles the directory: every slot is copied, so that slot `i + 2^d`
    /// refers to the bucket of slot `i`, and the global depth `d` grows by
    /// one. No bucket is touched.
    fn double(&mut self)
        requires
            old(self).wf(),
            old(self).spec_global_depth() < old(self).spec_max_depth(),
        ensures
            final(self).wf(),
            final(self)@ == old(self)@,
            final(self).hasher() == old(self).hasher(),
            final(self).spec_capacity() == old(self).spec_capacity(),
            final(self).spec_max_depth() == old(self).spec_max_depth(),
            final(self).spec_global_depth() == old(self).spec_global_depth() + 1,
            final(self).arena() == old(self).arena(),
            final(self).directory() == old(self).directory() + old(self).directory(),
            forall|k: K| #[trigger] final(self).home(k) == old(self).home(k),
    {
        let n = self.dir.len();
        self.dir.reserve(n);
        let mut i: usize = 0;
        while i < n
            invariant
                i <= n,
                n == old(self).dir@.len(),
                self.dir@ == old(self).dir@ + old(self).dir@.subrange(0, i as int),
                self.buckets@ == old(self).buckets@,
                self.hasher == old(self).hasher,
                self.depth == old(self).depth,
                self.capacity == old(self).capacity,
                self.max_depth == old(self).max_depth,
            decreases n - i,
        {
            let b = self.dir[i];
            self.dir.push(b);
            i += 1;
            assert(self.dir@ =~= old(self).dir@ + old(self).dir@.subrange(0, i as int));
        }
        self.depth = self.depth + 1;
        proof {
            assert(old(self).dir@.subrange(0, n as int) =~= old(self).dir@);
            self.lemma_doubled(*old(self));
        }
    }

    /// Splits the bucket that directory slot `slot` refers to, and repoints
    /// to the new bucket those of its slots that have the newly significant
    /// bit set.
    fn split_at(&mut self, slot: usize)
        requires
            old(self).wf(),
            slot < old(self).directory().len(),
            old(self).bucket_at(slot as int).spec_depth() < old(self).spec_global_depth(),
        ensures
            final(self).wf(),
            final(self)@ == old(self)@,
            final(self).hasher() == old(self).hasher(),
            final(self).spec_capacity() == old(self).spec_capacity(),
            final(self).spec_max_depth() == old(self).spec_max_depth(),
            final(self).spec_global_depth() == old(self).spec_global_depth(),
            final(self).arena().len() == old(self).arena().len() + 1,
            final(self).directory().len() == old(self).directory().len(),
            forall|j: int|
                0 <= j < old(self).directory().len() ==> (#[trigger] final(self).bucket_at(
                    j,
                )).spec_depth() == (if old(self).directory()[j] == old(self).directory()[slot as int] {
                    old(self).bucket_at(j).spec_depth() + 1
                } else {
                    old(self).bucket_at(j).spec_depth() as int
                }),
            forall|j: int|
                0 <= j < old(self).directory().len() ==> (#[trigger] final(self).directory()[j])
                    as int == (if old(self).directory()[j] == old(self).directory()[slot as int]
                    && has_bit(j as u64, old(self).bucket_at(slot as int).spec_depth() as u64) {
                    old(self).arena().len() as int
                } else {
                    old(self).directory()[j] as int
                }),
            forall|b: int|
                0 <= b < old(self).arena().len() && b != old(self).directory()[slot as int]
                    ==> #[trigger] final(self).arena()[b] == old(self).arena()[b],
    {
        let b0 = self.dir[slot];
        let nb = self.buckets.len();
        let ld = self.buckets[b0].depth();
        let other = self.buckets[b0].split(&self.hasher);
        self.buckets.push(other);
        let ghost d = ld as u64;
        let ghost m = low_mask((d + 1) as u64);
        proof {
            lemma_bit_grows((d + 1) as u64, self.depth as u64);
            lemma_bit_grows(self.depth as u64, 31);
            lemma_bit_grows(d, (d + 1) as u64);
            lemma_masked_below(slot as u64, d);
            lemma_upper_class(slot as u64, slot as u64, d);
            assert(self.dir@.len() == self.dir.len());
            assert(self.buckets@.len() == self.buckets.len());
        }
        let step: u64 = 1u64 << ((ld + 1) as u64);
        let class: u64 = (slot as u64 & bitmask(ld)) | (1u64 << (ld as u64));
        let n: u64 = self.dir.len() as u64;
        let mut i: u64 = class;
        proof {
            assert forall|j: int| 0 <= j < n implies #[trigger] self.dir@[j] == (if j < i && (
            j as u64) & m == class {
                nb
            } else {
                old(self).dir@[j]
            }) by {
                lemma_class_stride(i, j as u64, class, (d + 1) as u64);
            }
        }
        while i < n
            invariant
                d < 31,
                d == ld,
                m == low_mask((d + 1) as u64),
                step == bit_at((d + 1) as u64),
                1 <= step <= n,
                n == self.dir@.len(),
                n == old(self).dir@.len(),
                n <= 0x8000_0000,
                class & m == class,
                i & m == class,
                i < n + step,
                nb < usize::MAX,
                forall|j: int|
                    0 <= j < n ==> #[trigger] self.dir@[j] == (if j < i && (j as u64) & m == class {
                        nb
                    } else {
                        old(self).dir@[j]
                    }),
                self.buckets@ == old(self).buckets@.update(
                    b0 as int,
                    self.buckets@[b0 as int],
                ).push(self.buckets@[nb as int]),
                self.buckets@.len() == nb + 1,
                nb == old(self).buckets@.len(),
                b0 < nb,
                b0 == old(self).dir@[slot as int],
                Bucket::is_split_of(
                    old(self).buckets@[b0 as int],
                    self.buckets@[b0 as int],
                    self.buckets@[nb as int],
                    &self.hasher,
                ),
                self.hasher == old(self).hasher,
                self.depth == old(self).depth,
                self.capacity == old(self).capacity,
                self.max_depth == old(self).max_depth,
            decreases n + step - i,
        {
            let ghost before = self.dir@;
            let ghost at = i;
            self.dir[i as usize] = nb;
            i = i + step;
            proof {
                lemma_class_stride(at, at, class, (d + 1) as u64);
                assert forall|j: int| 0 <= j < n implies #[trigger] self.dir@[j] == (if j < i && (
                j as u64) & m == class {
                    nb
                } else {
                    old(self).dir@[j]
                }) by {
                    lemma_class_stride(at, j as u64, class, (d + 1) as u64);
                }
            }
        }
        proof {
            self.lemma_split_applied(*old(self), slot as int);
        }
    }
}

impl<K: Eq, V: Clone, H: KeyHasher<K>> HashTable<K, V, H> {
    /// Looks `key` up in the bucket it is routed to and returns a clone of
    /// its value.
    pub fn get(&self, key: &K) -> (r: Option<V>)
        requires
            self.wf(),
        ensures
            match r {
                Some(v) => self@.contains_key(*key) && cloned(self@[*key], v),
                None => !self@.contains_key(*key),
            },
    {
        let idx = self.hash(key) as usize;
        let b = self.dir[idx];
        self.buckets[b].get(key)
    }
}

impl<V> HashTable<u64, V, DefaultKeyHasher> {
    /// Creates an empty table on `u64` keys with the default hasher, buckets
    /// of [`BUCKET_SIZE`] entries and the largest depth limit.
    pub fn new() -> (t: Self)
        ensures
            t.wf(),
            t@ == Map::<u64, V>::empty(),
            t.hasher() == DefaultKeyHasher,
            t.spec_capacity() == BUCKET_SIZE,
            t.spec_max_depth() == MAX_DEPTH,
            t.spec_global_depth() == 0,
            t.directory() == seq![0usize],
            t.arena().len() == 1,
    {
        Self::with_hasher(DefaultKeyHasher)
    }
}

} // verus!
