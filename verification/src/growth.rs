//! Why the table's invariant survives every operation, and what follows
//! from it: the proofs behind routing, doubling, splitting and growth.

use crate::bits::{
    agree, bit_at, has_bit, lemma_agree_fewer, lemma_agree_next, lemma_bit_doubles,
    lemma_bit_grows, lemma_bit_of_masked, lemma_last_bit_low_bits, lemma_last_bit_range,
    lemma_mask_next, lemma_mask_of_small, lemma_mask_twice, lemma_masked_below,
    lemma_parting_low_bits, lemma_parting_step, lemma_upper_class, lemma_upper_half, low_mask,
    parting_depth,
};
use crate::bucket::{keys_by_bit, Bucket};
use crate::hasher::KeyHasher;
use crate::table::{agreeing_keys, entries_upto, fold_slot, last_handover, HashTable};
use vstd::prelude::*;

verus! {

/// The keys that the first `n` buckets of an arena hold.
pub open spec fn keys_upto<K, V>(arena: Seq<Bucket<K, V>>, n: int) -> Set<K>
    decreases n,
{
    if n <= 0 {
        Set::empty()
    } else {
        keys_upto(arena, n - 1) + arena[n - 1]@.dom()
    }
}

impl<K: Eq, V, H: KeyHasher<K>> HashTable<K, V, H> {
    /// Every key is routed to a slot of the directory.
    pub proof fn lemma_route_in_range(&self, key: K)
        requires
            self.directory_shaped(),
        ensures
            0 <= self.route(key) < self.directory().len(),
    {
        lemma_masked_below(self.hasher().hash_of(key), self.spec_global_depth() as u64);
    }

    /// Two keys are routed to the same bucket exactly when their hashes
    /// agree over that bucket's local depth.
    pub proof fn lemma_same_home(&self, a: K, b: K)
        requires
            self.wf(),
        ensures
            self.home(a).spec_depth() <= self.spec_global_depth(),
            self.directory()[self.route(a)] == self.directory()[self.route(b)] <==> agree(
                self.hasher().hash_of(a),
                self.hasher().hash_of(b),
                self.home(a).spec_depth() as u64,
            ),
    {
        let g = self.spec_global_depth() as u64;
        let ld = self.home(a).spec_depth() as u64;
        self.lemma_route_in_range(a);
        self.lemma_route_in_range(b);
        assert(self.arena()[self.directory()[self.route(a)] as int].wf());
        lemma_mask_twice(self.hasher().hash_of(a), ld, g);
        lemma_mask_twice(self.hasher().hash_of(b), ld, g);
        assert(self.directory()[self.route(a)] == self.directory()[self.route(b)] <==> agree(
            self.route(a) as u64,
            self.route(b) as u64,
            ld,
        ));
    }

    /// A key that a bucket holds is routed to that bucket.
    pub proof fn lemma_held_key_is_home(&self, bucket: int, key: K)
        requires
            self.wf(),
            0 <= bucket < self.arena().len(),
            self.arena()[bucket]@.contains_key(key),
        ensures
            self.directory()[self.route(key)] == bucket,
            self@.contains_key(key),
    {
        let g = self.spec_global_depth() as u64;
        let ld = self.arena()[bucket].spec_depth() as u64;
        assert(self.arena()[bucket].wf());
        let i = choose|i: int|
            0 <= i < self.directory().len() && (#[trigger] self.directory()[i]) == bucket;
        assert(self.bucket_at(i).has_address(&self.hasher(), (i as u64) & low_mask(ld)));
        self.lemma_route_in_range(key);
        lemma_mask_twice(self.hasher().hash_of(key), ld, g);
        assert(self.directory()[i] == self.directory()[self.route(key)] <==> agree(
            i as u64,
            self.route(key) as u64,
            ld,
        ));
    }

    /// The bucket that `key` is routed to holds exactly the stored keys whose
    /// hash agrees with the hash of `key` over the bucket's local depth. The
    /// keys that collide with `key` over the largest depth are among them,
    /// and are all of them once the bucket has that depth.
    pub proof fn lemma_home_keys(&self, key: K)
        requires
            self.wf(),
        ensures
            self.home(key).wf(),
            self.home(key).spec_depth() <= self.spec_global_depth(),
            self.home(key)@.dom() == agreeing_keys(
                self@,
                self.hasher(),
                self.hasher().hash_of(key),
                self.home(key).spec_depth() as u64,
            ),
            self.home(key)@.dom().finite(),
            self.home(key)@.len() <= self.spec_capacity(),
            self.colliding_keys(key).subset_of(self.home(key)@.dom()),
            self.colliding_keys(key).finite(),
            self.colliding_keys(key).len() <= self.home(key)@.len(),
            self.home(key).spec_depth() == self.spec_max_depth() ==> self.colliding_keys(key)
                == self.home(key)@.dom(),
    {
        let g = self.spec_global_depth() as u64;
        let top = self.spec_max_depth() as u64;
        let hk = self.hasher().hash_of(key);
        let r = self.route(key);
        self.lemma_route_in_range(key);
        let ld = self.home(key).spec_depth() as u64;
        assert(self.arena()[self.directory()[r] as int].wf());
        self.home(key).lemma_view_len();
        let near = agreeing_keys(self@, self.hasher(), hk, ld);
        assert forall|k: K| #[trigger] self.home(key)@.dom().contains(k) == near.contains(k) by {
            self.lemma_same_home(key, k);
            lemma_mask_twice(hk, ld, g);
            assert(self.bucket_at(r).has_address(&self.hasher(), (r as u64) & low_mask(ld)));
            assert(self.home(k) == self.bucket_at(self.route(k)));
        }
        assert(self.home(key)@.dom() =~= near);
        assert forall|k: K| #[trigger] self.colliding_keys(key).contains(k) implies near.contains(
            k,
        ) by {
            lemma_agree_fewer(self.hasher().hash_of(k), hk, ld, top);
        }
        vstd::set_lib::lemma_len_subset(self.colliding_keys(key), near);
        if ld == top {
            assert(self.colliding_keys(key) =~= near);
        }
    }

    /// A table is saturated for `key` exactly when the bucket that the key is
    /// routed to is full of keys that collide with it over the largest depth.
    pub proof fn lemma_saturated_iff(&self, key: K)
        requires
            self.wf(),
        ensures
            self.is_saturated(key) <==> self.home(key)@.len() == self.spec_capacity() && (forall|
                k: K,
            | #[trigger]
                self.home(key)@.contains_key(k) ==> agree(
                    self.hasher().hash_of(k),
                    self.hasher().hash_of(key),
                    self.spec_max_depth() as u64,
                )),
    {
        let crowd = self.colliding_keys(key);
        let held = self.home(key)@.dom();
        self.lemma_home_keys(key);
        if self.is_saturated(key) {
            vstd::set_lib::lemma_subset_equality(crowd, held);
            assert forall|k: K| #[trigger] self.home(key)@.contains_key(k) implies agree(
                self.hasher().hash_of(k),
                self.hasher().hash_of(key),
                self.spec_max_depth() as u64,
            ) by {
                assert(crowd.contains(k));
            }
        }
        if forall|k: K| #[trigger]
            self.home(key)@.contains_key(k) ==> agree(
                self.hasher().hash_of(k),
                self.hasher().hash_of(key),
                self.spec_max_depth() as u64,
            ) {
            assert forall|k: K| held.contains(k) implies crowd.contains(k) by {
                assert(self.home(key)@.contains_key(k));
            }
            assert(crowd =~= held);
        }
    }

    /// The first `n` buckets hold the stored keys that are routed to them,
    /// each key once.
    pub(crate) proof fn lemma_keys_upto(&self, n: int)
        requires
            self.wf(),
            0 <= n <= self.arena().len(),
        ensures
            keys_upto(self.arena(), n).finite(),
            keys_upto(self.arena(), n).len() == entries_upto(self.arena(), n),
            forall|k: K| #[trigger]
                keys_upto(self.arena(), n).contains(k) <==> self@.contains_key(k)
                    && self.directory()[self.route(k)] < n,
        decreases n,
    {
        if n > 0 {
            let rest = keys_upto(self.arena(), n - 1);
            let last = self.arena()[n - 1]@.dom();
            self.lemma_keys_upto(n - 1);
            assert(self.arena()[n - 1].wf());
            self.arena()[n - 1].lemma_view_len();
            assert forall|k: K| #[trigger] last.contains(k) <==> self@.contains_key(k)
                && self.directory()[self.route(k)] == n - 1 by {
                if last.contains(k) {
                    self.lemma_held_key_is_home(n - 1, k);
                }
            }
            assert(rest.disjoint(last));
            vstd::set_lib::lemma_set_disjoint_lens(rest, last);
        }
    }

    /// The table holds finitely many keys, and as many as its buckets hold
    /// entries: no key is stored twice.
    pub proof fn lemma_entry_count(&self)
        requires
            self.wf(),
        ensures
            self@.dom().finite(),
            self@.len() == self.entry_count(),
    {
        let n = self.arena().len() as int;
        self.lemma_keys_upto(n);
        assert forall|k: K| #[trigger] self@.dom().contains(k) implies keys_upto(
            self.arena(),
            n,
        ).contains(k) by {
            self.lemma_route_in_range(k);
        }
        assert(self@.dom() =~= keys_upto(self.arena(), n));
    }

    /// Where one bucket of a well-formed table is replaced by a bucket of the
    /// same depth and capacity whose keys are keys of the old bucket, or are
    /// routed to it, the table is still well formed.
    pub(crate) proof fn lemma_bucket_replaced(&self, before: Self, slot: int)
        requires
            before.wf(),
            0 <= slot < before.directory().len(),
            self.hasher() == before.hasher(),
            self.spec_capacity() == before.spec_capacity(),
            self.spec_max_depth() == before.spec_max_depth(),
            self.spec_global_depth() == before.spec_global_depth(),
            self.directory() == before.directory(),
            self.arena() == before.arena().update(
                before.directory()[slot] as int,
                self.bucket_at(slot),
            ),
            self.bucket_at(slot).wf(),
            self.bucket_at(slot).spec_capacity() == before.bucket_at(slot).spec_capacity(),
            self.bucket_at(slot).spec_depth() == before.bucket_at(slot).spec_depth(),
            forall|k: K| #[trigger]
                self.bucket_at(slot)@.contains_key(k) ==> before.bucket_at(slot)@.contains_key(k)
                    || before.route(k) == slot,
        ensures
            self.wf(),
            forall|i: int|
                0 <= i < self.directory().len() ==> #[trigger] self.bucket_at(i) == (if
                    before.directory()[i] == before.directory()[slot] {
                    self.bucket_at(slot)
                } else {
                    before.bucket_at(i)
                }),
    {
        let b = before.directory()[slot] as int;
        let ld = before.bucket_at(slot).spec_depth() as u64;
        let g = before.spec_global_depth() as u64;
        assert forall|i: int| 0 <= i < self.directory().len() implies #[trigger] self.bucket_at(i)
            == (if before.directory()[i] == before.directory()[slot] {
            self.bucket_at(slot)
        } else {
            before.bucket_at(i)
        }) by {}
        assert(self.buckets_sound()) by {
            assert forall|c: int| 0 <= c < self.arena().len() implies {
                &&& (#[trigger] self.arena()[c]).wf()
                &&& self.arena()[c].spec_capacity() == self.spec_capacity()
                &&& self.arena()[c].spec_depth() <= self.spec_global_depth()
                &&& exists|i: int|
                    0 <= i < self.directory().len() && (#[trigger] self.directory()[i]) == c
            } by {
                assert(before.arena()[c].wf());
                let i = choose|i: int|
                    0 <= i < before.directory().len() && (#[trigger] before.directory()[i]) == c;
                assert(self.directory()[i] == c);
            }
        }
        assert(self.slots_grouped()) by {
            assert forall|i: int, j: int|
                0 <= i < self.directory().len() && 0 <= j < self.directory().len() implies ((
            #[trigger] self.directory()[i]) == (#[trigger] self.directory()[j]) <==> agree(
                i as u64,
                j as u64,
                self.bucket_at(i).spec_depth() as u64,
            )) by {
                assert(before.bucket_at(i).spec_depth() == self.bucket_at(i).spec_depth());
            }
        }
        assert(self.keys_placed()) by {
            assert forall|i: int| 0 <= i < self.directory().len() implies (
            #[trigger] self.bucket_at(i)).has_address(
                &self.hasher(),
                (i as u64) & low_mask(self.bucket_at(i).spec_depth() as u64),
            ) by {
                assert(before.bucket_at(i).has_address(
                    &before.hasher(),
                    (i as u64) & low_mask(before.bucket_at(i).spec_depth() as u64),
                ));
                if before.directory()[i] == before.directory()[slot] {
                    assert(agree(i as u64, slot as u64, ld));
                    assert forall|k: K| #[trigger]
                        self.bucket_at(i)@.contains_key(k) implies self.hasher().hash_of(k)
                        & low_mask(ld) == (i as u64) & low_mask(ld) by {
                        if !before.bucket_at(slot)@.contains_key(k) {
                            lemma_mask_twice(self.hasher().hash_of(k), ld, g);
                        }
                    }
                }
            }
        }
    }

    /// In a doubled directory, slot `i` refers to the bucket that the slot
    /// with the low-order bits of `i` referred to before.
    pub(crate) proof fn lemma_doubled_slot(&self, before: Self, i: int)
        requires
            before.directory_shaped(),
            before.spec_global_depth() < before.spec_max_depth(),
            self.directory() == before.directory() + before.directory(),
            0 <= i < self.directory().len(),
        ensures
            0 <= fold_slot(i, before.spec_global_depth() as u64) < before.directory().len(),
            self.directory()[i] == before.directory()[fold_slot(
                i,
                before.spec_global_depth() as u64,
            )],
    {
        let g = before.spec_global_depth() as u64;
        lemma_bit_doubles(g);
        if i < before.directory().len() {
            lemma_mask_of_small(i as u64, g);
        } else {
            lemma_upper_half(i as u64, g);
        }
    }

    /// A well-formed table whose directory is doubled is well formed and
    /// holds the same entries.
    pub(crate) proof fn lemma_doubled(&self, before: Self)
        requires
            before.wf(),
            before.spec_global_depth() < before.spec_max_depth(),
            self.hasher() == before.hasher(),
            self.spec_capacity() == before.spec_capacity(),
            self.spec_max_depth() == before.spec_max_depth(),
            self.spec_global_depth() == before.spec_global_depth() + 1,
            self.arena() == before.arena(),
            self.directory() == before.directory() + before.directory(),
        ensures
            self.wf(),
            self@ == before@,
            forall|k: K| #[trigger] self.home(k) == before.home(k),
    {
        let g = before.spec_global_depth() as u64;
        let n = before.directory().len() as int;
        lemma_bit_doubles(g);
        assert(self.directory_shaped()) by {
            assert forall|i: int| 0 <= i < self.directory().len() implies (
            #[trigger] self.directory()[i]) < self.arena().len() by {
                self.lemma_doubled_slot(before, i);
            }
        }
        assert(self.buckets_sound()) by {
            assert forall|c: int| 0 <= c < self.arena().len() implies {
                &&& (#[trigger] self.arena()[c]).wf()
                &&& self.arena()[c].spec_capacity() == self.spec_capacity()
                &&& self.arena()[c].spec_depth() <= self.spec_global_depth()
                &&& exists|i: int|
                    0 <= i < self.directory().len() && (#[trigger] self.directory()[i]) == c
            } by {
                assert(before.arena()[c].wf());
                let i = choose|i: int|
                    0 <= i < before.directory().len() && (#[trigger] before.directory()[i]) == c;
                assert(self.directory()[i] == c);
            }
        }
        assert(self.slots_grouped()) by {
            assert forall|i: int, j: int|
                0 <= i < self.directory().len() && 0 <= j < self.directory().len() implies ((
            #[trigger] self.directory()[i]) == (#[trigger] self.directory()[j]) <==> agree(
                i as u64,
                j as u64,
                self.bucket_at(i).spec_depth() as u64,
            )) by {
                self.lemma_doubled_slot(before, i);
                self.lemma_doubled_slot(before, j);
                let i0 = fold_slot(i, g);
                let j0 = fold_slot(j, g);
                let ld = before.bucket_at(i0).spec_depth() as u64;
                assert(before.directory()[i0] == before.directory()[j0] <==> agree(
                    i0 as u64,
                    j0 as u64,
                    ld,
                ));
                assert(before.arena()[before.directory()[i0] as int].spec_depth() <= g);
                lemma_mask_twice(i as u64, ld, g);
                lemma_mask_twice(j as u64, ld, g);
            }
        }
        assert(self.keys_placed()) by {
            assert forall|i: int| 0 <= i < self.directory().len() implies (
            #[trigger] self.bucket_at(i)).has_address(
                &self.hasher(),
                (i as u64) & low_mask(self.bucket_at(i).spec_depth() as u64),
            ) by {
                self.lemma_doubled_slot(before, i);
                let i0 = fold_slot(i, g);
                let ld = before.bucket_at(i0).spec_depth() as u64;
                assert(before.bucket_at(i0).has_address(
                    &before.hasher(),
                    (i0 as u64) & low_mask(ld),
                ));
                assert(before.arena()[before.directory()[i0] as int].spec_depth() <= g);
                lemma_mask_twice(i as u64, ld, g);
            }
        }
        assert forall|k: K| #[trigger] self.home(k) == before.home(k) by {
            let h = self.hasher().hash_of(k);
            lemma_masked_below(h, (g + 1) as u64);
            lemma_mask_twice(h, g, (g + 1) as u64);
            self.lemma_doubled_slot(before, self.route(k));
            assert(fold_slot(self.route(k), g) == before.route(k));
        }
        assert(self@ =~= before@);
    }

    /// A well-formed table in which one bucket has been split on its next
    /// hash bit, with the slots that have that bit set repointed to the new
    /// bucket, is well formed and holds the same entries.
    pub(crate) proof fn lemma_split_applied(&self, before: Self, slot: int)
        requires
            before.wf(),
            0 <= slot < before.directory().len(),
            before.bucket_at(slot).spec_depth() < before.spec_global_depth(),
            self.hasher() == before.hasher(),
            self.spec_capacity() == before.spec_capacity(),
            self.spec_max_depth() == before.spec_max_depth(),
            self.spec_global_depth() == before.spec_global_depth(),
            self.arena().len() == before.arena().len() + 1,
            self.arena() == before.arena().update(
                before.directory()[slot] as int,
                self.arena()[before.directory()[slot] as int],
            ).push(self.arena()[before.arena().len() as int]),
            self.directory().len() == before.directory().len(),
            forall|j: int|
                0 <= j < before.directory().len() ==> #[trigger] self.directory()[j] == (if (
                j as u64) & low_mask((before.bucket_at(slot).spec_depth() + 1) as u64) == (
                slot as u64) & low_mask(before.bucket_at(slot).spec_depth() as u64) | bit_at(
                    before.bucket_at(slot).spec_depth() as u64,
                ) {
                    before.arena().len() as int
                } else {
                    before.directory()[j] as int
                }),
            Bucket::is_split_of(
                before.bucket_at(slot),
                self.arena()[before.directory()[slot] as int],
                self.arena()[before.arena().len() as int],
                &before.hasher(),
            ),
        ensures
            self.wf(),
            self@ == before@,
            forall|j: int|
                0 <= j < before.directory().len() ==> (#[trigger] self.bucket_at(j)).spec_depth()
                    == (if before.directory()[j] == before.directory()[slot] {
                    before.bucket_at(j).spec_depth() + 1
                } else {
                    before.bucket_at(j).spec_depth() as int
                }),
            forall|j: int|
                0 <= j < before.directory().len() ==> (#[trigger] self.directory()[j]) as int == (
                if before.directory()[j] == before.directory()[slot] && has_bit(
                    j as u64,
                    before.bucket_at(slot).spec_depth() as u64,
                ) {
                    before.arena().len() as int
                } else {
                    before.directory()[j] as int
                }),
            forall|b: int|
                0 <= b < before.arena().len() && b != before.directory()[slot]
                    ==> #[trigger] self.arena()[b] == before.arena()[b],
    {
        let b0 = before.directory()[slot] as int;
        let nb = before.arena().len() as int;
        let whole = before.arena()[b0];
        let low = self.arena()[b0];
        let high = self.arena()[nb];
        let d = whole.spec_depth() as u64;
        let g = before.spec_global_depth() as u64;
        let hasher = before.hasher();
        // Where each slot points after the split.
        assert forall|j: int| 0 <= j < before.directory().len() implies #[trigger] self.directory()[j]
            == (if before.directory()[j] == b0 && has_bit(j as u64, d) {
            nb
        } else {
            before.directory()[j] as int
        }) by {
            lemma_upper_class(j as u64, slot as u64, d);
            assert(before.directory()[slot] == before.directory()[j] <==> agree(
                slot as u64,
                j as u64,
                d,
            ));
        }
        assert forall|j: int| 0 <= j < before.directory().len() implies #[trigger] self.bucket_at(j)
            == (if before.directory()[j] == b0 {
            if has_bit(j as u64, d) {
                high
            } else {
                low
            }
        } else {
            before.bucket_at(j)
        }) by {
            assert(before.directory()[j] < before.arena().len());
        }
        assert(self.directory_shaped()) by {
            assert forall|i: int| 0 <= i < self.directory().len() implies (
            #[trigger] self.directory()[i]) < self.arena().len() by {
                assert(before.directory()[i] < before.arena().len());
            }
        }
        assert(self.buckets_sound()) by {
            assert forall|c: int| 0 <= c < self.arena().len() implies {
                &&& (#[trigger] self.arena()[c]).wf()
                &&& self.arena()[c].spec_capacity() == self.spec_capacity()
                &&& self.arena()[c].spec_depth() <= self.spec_global_depth()
                &&& exists|i: int|
                    0 <= i < self.directory().len() && (#[trigger] self.directory()[i]) == c
            } by {
                assert(before.arena()[b0].wf());
                let base = (slot as u64) & low_mask(d);
                lemma_masked_below(slot as u64, d);
                lemma_bit_grows(d, g);
                lemma_bit_grows((d + 1) as u64, g);
                lemma_bit_doubles(d);
                if c == nb {
                    let w = (base | bit_at(d)) as int;
                    lemma_upper_class((base | bit_at(d)) as u64, slot as u64, d);
                    assert(self.directory()[w] == c);
                } else if c == b0 {
                    let w = base as int;
                    lemma_mask_twice(slot as u64, d, d);
                    lemma_upper_class(base, slot as u64, d);
                    assert(before.directory()[slot] == before.directory()[w] <==> agree(
                        slot as u64,
                        w as u64,
                        d,
                    ));
                    assert(self.directory()[w] == c);
                } else {
                    assert(before.arena()[c].wf());
                    let w = choose|i: int|
                        0 <= i < before.directory().len() && (#[trigger] before.directory()[i])
                            == c;
                    assert(self.directory()[w] == c);
                }
            }
        }
        assert(self.slots_grouped()) by {
            assert forall|i: int, j: int|
                0 <= i < self.directory().len() && 0 <= j < self.directory().len() implies ((
            #[trigger] self.directory()[i]) == (#[trigger] self.directory()[j]) <==> agree(
                i as u64,
                j as u64,
                self.bucket_at(i).spec_depth() as u64,
            )) by {
                assert(before.directory()[i] == before.directory()[j] <==> agree(
                    i as u64,
                    j as u64,
                    before.bucket_at(i).spec_depth() as u64,
                ));
                assert(before.directory()[i] < before.arena().len());
                assert(before.directory()[j] < before.arena().len());
                if before.directory()[i] == b0 {
                    lemma_agree_next(i as u64, j as u64, d);
                }
            }
        }
        assert(self.keys_placed()) by {
            assert forall|i: int| 0 <= i < self.directory().len() implies (
            #[trigger] self.bucket_at(i)).has_address(
                &self.hasher(),
                (i as u64) & low_mask(self.bucket_at(i).spec_depth() as u64),
            ) by {
                assert(before.bucket_at(i).has_address(
                    &before.hasher(),
                    (i as u64) & low_mask(before.bucket_at(i).spec_depth() as u64),
                ));
                if before.directory()[i] == b0 {
                    lemma_mask_next(i as u64, d);
                }
            }
        }
        assert forall|k: K| #[trigger]
            self@.contains_key(k) == before@.contains_key(k) && (self@.contains_key(k)
                ==> self@[k] == before@[k]) by {
            let h = hasher.hash_of(k);
            before.lemma_route_in_range(k);
            let r = before.route(k);
            assert(self.home(k) == self.bucket_at(r));
            if before.directory()[r] == b0 {
                lemma_bit_of_masked(h, d, g);
                assert(keys_by_bit(&hasher, d, true).contains(k) == has_bit(h, d));
                assert(keys_by_bit(&hasher, d, false).contains(k) == !has_bit(h, d));
            }
        }
        assert(self@ =~= before@);
    }

    /// A table has grown for any key from itself, by no split at all.
    pub proof fn lemma_grown_from_itself(&self, key: K)
        requires
            self.wf(),
        ensures
            self.grown_for(*self, key),
    {
        let hash = self.hasher().hash_of(key);
        let from = self.home(key).spec_depth() as u64;
        let g = self.spec_global_depth() as u64;
        self.lemma_same_home(key, key);
        assert forall|k: K|
            (#[trigger] self.home(k)).spec_depth() == (if agree(
                self.hasher().hash_of(k),
                hash,
                from,
            ) {
                parting_depth(self.hasher().hash_of(k), hash, from, from)
            } else {
                self.home(k).spec_depth() as u64
            }) by {
            self.lemma_same_home(key, k);
        }
        assert forall|i: int| 0 <= i < self.directory().len() implies (
        #[trigger] self.directory()[i]) as int == (match last_handover(i as u64, hash, from, from) {
            Some(d) => self.arena().len() + (d - from),
            None => self.directory()[fold_slot(i, g)] as int,
        }) by {
            lemma_mask_of_small(i as u64, g);
        }
    }

    /// After growth for `key`, the key is routed to the bucket it was routed
    /// to before, or to a bucket that a split has added.
    pub(crate) proof fn lemma_home_after_growth(&self, before: Self, key: K)
        requires
            before.wf(),
            self.wf(),
            self.hasher() == before.hasher(),
            self.grown_for(before, key),
        ensures
            self.directory()[self.route(key)] == before.directory()[before.route(key)]
                || self.directory()[self.route(key)] >= before.arena().len(),
    {
        let hash = before.hasher().hash_of(key);
        self.lemma_route_in_range(key);
        before.lemma_route_in_range(key);
        self.lemma_same_home(key, key);
        before.lemma_same_home(key, key);
        lemma_mask_twice(hash, before.spec_global_depth() as u64, self.spec_global_depth() as u64);
        lemma_last_bit_range(
            self.route(key) as u64,
            before.home(key).spec_depth() as u64,
            parting_depth(
                self.route(key) as u64,
                hash,
                before.home(key).spec_depth() as u64,
                self.home(key).spec_depth() as u64,
            ),
        );
    }

    /// One more split of the bucket that `key` is routed to, where that
    /// bucket was full, continues the growth for `key`.
    pub(crate) proof fn lemma_grown_step(&self, mid: Self, before: Self, key: K)
        requires
            before.wf(),
            mid.wf(),
            self.wf(),
            mid.grown_for(before, key),
            mid@ == before@,
            mid.hasher() == before.hasher(),
            mid.spec_capacity() == before.spec_capacity(),
            self.hasher() == before.hasher(),
            mid.home(key)@.len() == mid.spec_capacity(),
            mid.home(key).spec_depth() < 63,
            self.spec_global_depth() == (if mid.spec_global_depth() > mid.home(key).spec_depth() {
                mid.spec_global_depth() as int
            } else {
                mid.home(key).spec_depth() + 1
            }),
            self.arena().len() == mid.arena().len() + 1,
            forall|k: K|
                (#[trigger] self.home(k)).spec_depth() == (if agree(
                    mid.hasher().hash_of(k),
                    mid.hasher().hash_of(key),
                    mid.home(key).spec_depth() as u64,
                ) {
                    mid.home(k).spec_depth() + 1
                } else {
                    mid.home(k).spec_depth() as int
                }),
            forall|i: int|
                0 <= i < self.directory().len() ==> (#[trigger] self.directory()[i]) as int == (
                if agree(i as u64, mid.hasher().hash_of(key), mid.home(key).spec_depth() as u64)
                    && has_bit(i as u64, mid.home(key).spec_depth() as u64) {
                    mid.arena().len() as int
                } else {
                    mid.directory()[fold_slot(i, mid.spec_global_depth() as u64)] as int
                }),
            forall|b: int|
                0 <= b < mid.arena().len() && b != mid.directory()[mid.route(key)]
                    ==> #[trigger] self.arena()[b] == mid.arena()[b],
        ensures
            self.grown_for(before, key),
    {
        let hash = before.hasher().hash_of(key);
        let from = before.home(key).spec_depth() as u64;
        let at = mid.home(key).spec_depth() as u64;
        let to = self.home(key).spec_depth() as u64;
        let g0 = before.spec_global_depth() as u64;
        let g1 = mid.spec_global_depth() as u64;
        mid.lemma_home_keys(key);
        mid.lemma_same_home(key, key);
        mid.lemma_home_after_growth(before, key);
        assert(agree(hash, hash, at));
        assert(to == at + 1);
        assert forall|d: u64| from <= d < to implies (#[trigger] agreeing_keys(
            before@,
            before.hasher(),
            hash,
            d,
        )).len() >= before.spec_capacity() by {}
        assert forall|k: K|
            (#[trigger] self.home(k)).spec_depth() == (if agree(
                before.hasher().hash_of(k),
                hash,
                from,
            ) {
                parting_depth(before.hasher().hash_of(k), hash, from, to)
            } else {
                before.home(k).spec_depth() as u64
            }) by {
            let hk = before.hasher().hash_of(k);
            assert(mid.home(k).spec_depth() == (if agree(hk, hash, from) {
                parting_depth(hk, hash, from, at)
            } else {
                before.home(k).spec_depth() as u64
            }));
            if agree(hk, hash, from) {
                lemma_parting_step(hk, hash, from, at);
            } else {
                if agree(hk, hash, at) {
                    lemma_agree_fewer(hk, hash, from, at);
                }
            }
        }
        assert forall|i: int| 0 <= i < self.directory().len() implies (
        #[trigger] self.directory()[i]) as int == (match last_handover(i as u64, hash, from, to) {
            Some(d) => before.arena().len() + (d - from),
            None => before.directory()[fold_slot(i, g0)] as int,
        }) by {
            let x = i as u64;
            let i0 = fold_slot(i, g1);
            let x0 = i0 as u64;
            lemma_masked_below(x, g1);
            lemma_mask_twice(x, g1, g1);
            lemma_mask_twice(x, g0, g1);
            assert(agree(x0, x, g1));
            assert(mid.directory()[i0] as int == (match last_handover(x0, hash, from, at) {
                Some(d) => before.arena().len() + (d - from),
                None => before.directory()[fold_slot(i0, g0)] as int,
            }));
            lemma_parting_low_bits(x0, x, hash, from, at, g1);
            if agree(x, hash, from) {
                lemma_parting_step(x, hash, from, at);
                lemma_last_bit_low_bits(x0, x, from, parting_depth(x, hash, from, at), g1);
            } else {
                if agree(x, hash, at) {
                    lemma_agree_fewer(x, hash, from, at);
                }
            }
        }
    }
}

} // verus!
