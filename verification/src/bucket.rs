//! The bucket: a fixed-capacity container of entries with distinct keys, and
//! the number of low-order hash bits that all of its keys share.

use crate::bits::{agree, bit_at, bit_is_set, bitmask, has_bit, lemma_mask_next, low_mask};
use crate::hasher::KeyHasher;
use vstd::laws_eq::*;
use vstd::prelude::*;

verus! {

/// Whether some entry of `s` has the key `k`.
pub open spec fn holds_key<K, V>(s: Seq<(K, V)>, k: K) -> bool {
    exists|i: int| 0 <= i < s.len() && (#[trigger] s[i]).0 == k
}

/// The position of an entry of `s` with the key `k`, where there is one.
pub open spec fn slot_of<K, V>(s: Seq<(K, V)>, k: K) -> int {
    choose|i: int| 0 <= i < s.len() && (#[trigger] s[i]).0 == k
}

/// No two entries of `s` have the same key.
pub open spec fn distinct_keys<K, V>(s: Seq<(K, V)>) -> bool {
    forall|i: int, j: int|
        0 <= i < s.len() && 0 <= j < s.len() && i != j ==> (#[trigger] s[i]).0 != (#[trigger] s[j]).0
}

/// The map from each key of `s` to the value stored with it.
pub open spec fn as_map<K, V>(s: Seq<(K, V)>) -> Map<K, V> {
    Map::new(|k: K| holds_key(s, k), |k: K| s[slot_of(s, k)].1)
}

/// The keys whose hash has bit number `depth` set (`set == true`) or clear.
pub open spec fn keys_by_bit<K, H: KeyHasher<K>>(hasher: &H, depth: u64, set: bool) -> Set<K> {
    Set::new(|k: K| has_bit(hasher.hash_of(k), depth) == set)
}

/// Each entry of a sequence with distinct keys is found in its map.
pub proof fn lemma_as_map_at<K, V>(s: Seq<(K, V)>, i: int)
    requires
        distinct_keys(s),
        0 <= i < s.len(),
    ensures
        as_map(s).contains_key(s[i].0),
        as_map(s)[s[i].0] == s[i].1,
{
    assert(holds_key(s, s[i].0));
}

/// Appending an entry with a new key inserts it into the map.
pub proof fn lemma_as_map_push<K, V>(s: Seq<(K, V)>, k: K, v: V)
    requires
        distinct_keys(s),
        !holds_key(s, k),
    ensures
        distinct_keys(s.push((k, v))),
        as_map(s.push((k, v))) == as_map(s).insert(k, v),
{
    let t = s.push((k, v));
    assert(distinct_keys(t)) by {
        assert forall|i: int, j: int| 0 <= i < t.len() && 0 <= j < t.len() && i != j implies (
        #[trigger] t[i]).0 != (#[trigger] t[j]).0 by {
            if i < s.len() {
                assert(t[i] == s[i]);
            }
            if j < s.len() {
                assert(t[j] == s[j]);
            }
        }
    }
    assert forall|q: K| #[trigger] as_map(t).contains_key(q) <==> as_map(s).insert(
        k,
        v,
    ).contains_key(q) by {
        if holds_key(t, q) {
            let i = slot_of(t, q);
            if i < s.len() {
                assert(s[i] == t[i]);
            }
        }
        if holds_key(s, q) {
            let i = slot_of(s, q);
            assert(t[i] == s[i]);
        }
        if q == k {
            assert(t[s.len() as int].0 == k);
        }
    }
    assert forall|q: K| #[trigger] as_map(t).contains_key(q) implies as_map(t)[q] == as_map(
        s,
    ).insert(k, v)[q] by {
        let i = slot_of(t, q);
        lemma_as_map_at(t, i);
        if i < s.len() {
            assert(s[i] == t[i]);
            lemma_as_map_at(s, i);
        }
    }
    assert(as_map(t) =~= as_map(s).insert(k, v));
}

/// Replacing the value of an entry replaces it in the map.
pub proof fn lemma_as_map_update<K, V>(s: Seq<(K, V)>, i: int, v: V)
    requires
        distinct_keys(s),
        0 <= i < s.len(),
    ensures
        distinct_keys(s.update(i, (s[i].0, v))),
        as_map(s.update(i, (s[i].0, v))) == as_map(s).insert(s[i].0, v),
{
    let k = s[i].0;
    let t = s.update(i, (k, v));
    assert forall|a: int| 0 <= a < s.len() implies (#[trigger] t[a]).0 == s[a].0 by {}
    assert(distinct_keys(t)) by {
        assert forall|a: int, b: int| 0 <= a < t.len() && 0 <= b < t.len() && a != b implies (
        #[trigger] t[a]).0 != (#[trigger] t[b]).0 by {
            assert(t[a].0 == s[a].0);
            assert(t[b].0 == s[b].0);
        }
    }
    assert forall|q: K| #[trigger] as_map(t).contains_key(q) <==> as_map(s).insert(
        k,
        v,
    ).contains_key(q) by {
        if holds_key(t, q) {
            let a = slot_of(t, q);
            assert(s[a].0 == t[a].0);
        }
        if holds_key(s, q) {
            let a = slot_of(s, q);
            assert(t[a].0 == s[a].0);
        }
        if q == k {
            assert(t[i].0 == k);
        }
    }
    assert forall|q: K| #[trigger] as_map(t).contains_key(q) implies as_map(t)[q] == as_map(
        s,
    ).insert(k, v)[q] by {
        let a = slot_of(t, q);
        lemma_as_map_at(t, a);
        assert(t[a].0 == s[a].0);
        if a != i {
            lemma_as_map_at(s, a);
        }
    }
    assert(as_map(t) =~= as_map(s).insert(k, v));
}

/// Moving the last entry into position `i` and dropping the last position
/// removes the key that stood at `i` from the map.
pub proof fn lemma_as_map_swap_remove<K, V>(s: Seq<(K, V)>, i: int)
    requires
        distinct_keys(s),
        0 <= i < s.len(),
    ensures
        distinct_keys(s.update(i, s.last()).drop_last()),
        as_map(s.update(i, s.last()).drop_last()) == as_map(s).remove(s[i].0),
{
    let k = s[i].0;
    let n = s.len() - 1;
    let t = s.update(i, s.last()).drop_last();
    // Position `a` of `t` holds the entry that stood at `from(a)` in `s`.
    let from = |a: int| if a == i { n } else { a };
    assert forall|a: int| 0 <= a < t.len() implies #[trigger] t[a] == s[from(a)] by {}
    assert(distinct_keys(t)) by {
        assert forall|a: int, b: int| 0 <= a < t.len() && 0 <= b < t.len() && a != b implies (
        #[trigger] t[a]).0 != (#[trigger] t[b]).0 by {
            assert(t[a] == s[from(a)]);
            assert(t[b] == s[from(b)]);
        }
    }
    assert forall|q: K| #[trigger] as_map(t).contains_key(q) <==> as_map(s).remove(k).contains_key(
        q,
    ) by {
        if holds_key(t, q) {
            let a = slot_of(t, q);
            assert(t[a] == s[from(a)]);
            assert(s[from(a)].0 == q);
            assert(from(a) != i);
        }
        if holds_key(s, q) && q != k {
            let a = slot_of(s, q);
            if a == n {
                assert(t[i] == s[n]);
            } else {
                assert(t[a] == s[from(a)]);
            }
        }
    }
    assert forall|q: K| #[trigger] as_map(t).contains_key(q) implies as_map(t)[q] == as_map(
        s,
    ).remove(k)[q] by {
        let a = slot_of(t, q);
        lemma_as_map_at(t, a);
        assert(t[a] == s[from(a)]);
        lemma_as_map_at(s, from(a));
    }
    assert(as_map(t) =~= as_map(s).remove(k));
}

/// A sequence with distinct keys has as many entries as its map has keys.
pub proof fn lemma_as_map_len<K, V>(s: Seq<(K, V)>)
    requires
        distinct_keys(s),
    ensures
        as_map(s).dom().finite(),
        as_map(s).len() == s.len(),
    decreases s.len(),
{
    if s.len() == 0 {
        assert(as_map(s) =~= Map::<K, V>::empty());
    } else {
        let p = s.drop_last();
        let e = s.last();
        assert(distinct_keys(p)) by {
            assert forall|i: int, j: int| 0 <= i < p.len() && 0 <= j < p.len() && i != j implies (
            #[trigger] p[i]).0 != (#[trigger] p[j]).0 by {
                assert(p[i] == s[i]);
                assert(p[j] == s[j]);
            }
        }
        assert(!holds_key(p, e.0)) by {
            if holds_key(p, e.0) {
                let i = slot_of(p, e.0);
                assert(p[i] == s[i]);
                assert(s[s.len() - 1].0 == e.0);
            }
        }
        lemma_as_map_len(p);
        lemma_as_map_push(p, e.0, e.1);
        assert(p.push((e.0, e.1)) =~= s);
        assert(!as_map(p).dom().contains(e.0));
        assert(as_map(s).dom() =~= as_map(p).dom().insert(e.0));
    }
}

/// A fixed-capacity container of key-value entries with distinct keys.
///
/// A bucket also carries its local depth: the number of low-order hash bits
/// that the keys stored in it are known to share. The bucket itself knows
/// nothing of the directory that refers to it.
pub struct Bucket<K, V> {
    entries: Vec<(K, V)>,
    capacity: usize,
    depth: usize,
}

impl<K, V> View for Bucket<K, V> {
    type V = Map<K, V>;

    /// The entries of the bucket as a map from key to value.
    closed spec fn view(&self) -> Map<K, V> {
        as_map(self.entries@)
    }
}

impl<K, V> Bucket<K, V> {
    /// The bucket's invariant: keys are distinct and at most `capacity`
    /// entries are stored.
    pub closed spec fn wf(&self) -> bool {
        &&& distinct_keys(self.entries@)
        &&& self.entries@.len() <= self.capacity
    }

    /// The largest number of entries the bucket may hold.
    pub closed spec fn spec_capacity(&self) -> usize {
        self.capacity
    }

    /// The local depth.
    pub closed spec fn spec_depth(&self) -> usize {
        self.depth
    }

    /// Whether every key in the bucket has the low-order hash bits `addr`,
    /// taken over the bucket's local depth.
    pub open spec fn has_address<H: KeyHasher<K>>(&self, hasher: &H, addr: u64) -> bool {
        forall|k: K| #[trigger]
            self@.contains_key(k) ==> hasher.hash_of(k) & low_mask(self.spec_depth() as u64)
                == addr
    }

    /// Whether `low` and `high` are what a split makes of `whole`: the
    /// entries are shared out by the hash bit at the old local depth, and
    /// both buckets have the next depth and the old capacity.
    pub open spec fn is_split_of<H: KeyHasher<K>>(
        whole: Self,
        low: Self,
        high: Self,
        hasher: &H,
    ) -> bool {
        &&& low.wf()
        &&& high.wf()
        &&& low.spec_capacity() == whole.spec_capacity()
        &&& high.spec_capacity() == whole.spec_capacity()
        &&& low.spec_depth() == whole.spec_depth() + 1
        &&& high.spec_depth() == whole.spec_depth() + 1
        &&& low@ == whole@.restrict(keys_by_bit(hasher, whole.spec_depth() as u64, false))
        &&& high@ == whole@.restrict(keys_by_bit(hasher, whole.spec_depth() as u64, true))
        &&& forall|addr: u64| #[trigger]
            whole.has_address(hasher, addr) ==> low.has_address(hasher, addr) && high.has_address(
                hasher,
                addr | bit_at(whole.spec_depth() as u64),
            )
    }

    /// A well-formed bucket holds finitely many keys and no more than its
    /// capacity.
    pub proof fn lemma_view_len(&self)
        requires
            self.wf(),
        ensures
            self@.dom().finite(),
            self@.len() <= self.spec_capacity(),
    {
        lemma_as_map_len(self.entries@);
    }

    /// Creates an empty bucket of local depth 0.
    pub fn new(capacity: usize) -> (b: Self)
        ensures
            b.wf(),
            b@ == Map::<K, V>::empty(),
            b.spec_capacity() == capacity,
            b.spec_depth() == 0,
    {
        let b = Bucket { entries: Vec::new(), capacity, depth: 0 };
        assert(b@ =~= Map::<K, V>::empty());
        b
    }

    /// The largest number of entries the bucket may hold.
    #[verifier::when_used_as_spec(spec_capacity)]
    pub fn capacity(&self) -> (c: usize)
        ensures
            c == self.spec_capacity(),
    {
        self.capacity
    }

    /// The local depth: how many low-order hash bits the stored keys share.
    #[verifier::when_used_as_spec(spec_depth)]
    pub fn depth(&self) -> (d: usize)
        ensures
            d == self.spec_depth(),
    {
        self.depth
    }

    /// The number of entries stored.
    pub fn len(&self) -> (n: usize)
        requires
            self.wf(),
        ensures
            n == self@.len(),
    {
        proof {
            lemma_as_map_len(self.entries@);
        }
        self.entries.len()
    }

    /// Whether the bucket holds as many entries as it may.
    pub fn full(&self) -> (b: bool)
        requires
            self.wf(),
        ensures
            b == (self@.len() == self.spec_capacity()),
    {
        proof {
            lemma_as_map_len(self.entries@);
        }
        self.entries.len() == self.capacity
    }

    /// The hash of `key`, cut down to the bucket's local depth.
    pub fn hash<H: KeyHasher<K>>(&self, hasher: &H, key: &K) -> (h: u64)
        ensures
            h == hasher.hash_of(*key) & low_mask(self.spec_depth() as u64),
    {
        hasher.hash(key) & bitmask(self.depth)
    }
}

impl<K, V> Bucket<K, V> {
    /// Whether the hash of every stored key has the `depth` low-order bits
    /// of `hash`.
    pub fn all_agree<H: KeyHasher<K>>(&self, hasher: &H, hash: u64, depth: usize) -> (b: bool)
        requires
            self.wf(),
        ensures
            b == (forall|k: K| #[trigger]
                self@.contains_key(k) ==> agree(hasher.hash_of(k), hash, depth as u64)),
    {
        let mask = bitmask(depth);
        let mut i: usize = 0;
        while i < self.entries.len()
            invariant
                self.wf(),
                i <= self.entries@.len(),
                mask == low_mask(depth as u64),
                forall|j: int|
                    0 <= j < i ==> agree(
                        hasher.hash_of((#[trigger] self.entries@[j]).0),
                        hash,
                        depth as u64,
                    ),
            decreases self.entries@.len() - i,
        {
            if hasher.hash(&self.entries[i].0) & mask != hash & mask {
                proof {
                    let k = self.entries@[i as int].0;
                    lemma_as_map_at(self.entries@, i as int);
                    assert(self@.contains_key(k) && !agree(hasher.hash_of(k), hash, depth as u64));
                }
                return false;
            }
            i += 1;
        }
        proof {
            assert forall|k: K| #[trigger] self@.contains_key(k) implies agree(
                hasher.hash_of(k),
                hash,
                depth as u64,
            ) by {
                let j = slot_of(self.entries@, k);
                assert(self.entries@[j].0 == k);
            }
        }
        true
    }

    /// Splits the bucket on the next hash bit.
    ///
    /// The local depth grows by one. Every entry whose hash has the newly
    /// significant bit set moves into a fresh bucket of the same capacity and
    /// the same new depth, which is returned; the other entries stay. Where
    /// all entries agree on that bit, one of the two buckets comes out empty.
    pub fn split<H: KeyHasher<K>>(&mut self, hasher: &H) -> (other: Self)
        requires
            old(self).wf(),
            old(self).spec_depth() < 64,
        ensures
            Self::is_split_of(*old(self), *final(self), other, hasher),
            final(self)@.len() + other@.len() == old(self)@.len(),
    {
        let ghost s0 = self.entries@;
        let d = self.depth;
        let mut other = Bucket { entries: Vec::new(), capacity: self.capacity, depth: d + 1 };
        self.depth = d + 1;
        let mut i: usize = 0;
        while i < self.entries.len()
            invariant
                d < 64,
                d == old(self).depth,
                self.depth == d + 1,
                other.depth == d + 1,
                self.capacity == old(self).capacity,
                other.capacity == old(self).capacity,
                s0 == old(self).entries@,
                s0.len() <= self.capacity,
                i <= self.entries@.len(),
                distinct_keys(s0),
                distinct_keys(self.entries@),
                distinct_keys(other.entries@),
                self.entries@.len() + other.entries@.len() == s0.len(),
                forall|j: int|
                    0 <= j < i ==> !has_bit(
                        hasher.hash_of((#[trigger] self.entries@[j]).0),
                        d as u64,
                    ),
                forall|j: int|
                    0 <= j < other.entries@.len() ==> has_bit(
                        hasher.hash_of((#[trigger] other.entries@[j]).0),
                        d as u64,
                    ),
                forall|k: K| #[trigger]
                    as_map(s0).contains_key(k) <==> (as_map(self.entries@).contains_key(k)
                        || as_map(other.entries@).contains_key(k)),
                forall|k: K| #[trigger]
                    as_map(self.entries@).contains_key(k) ==> as_map(s0)[k] == as_map(
                        self.entries@,
                    )[k],
                forall|k: K| #[trigger]
                    as_map(other.entries@).contains_key(k) ==> as_map(s0)[k] == as_map(
                        other.entries@,
                    )[k] && !as_map(self.entries@).contains_key(k),
            decreases self.entries@.len() - i,
        {
            let h = hasher.hash(&self.entries[i].0);
            if bit_is_set(h, d) {
                let ghost kept = self.entries@;
                let ghost moved = other.entries@;
                proof {
                    lemma_as_map_at(kept, i as int);
                    lemma_as_map_swap_remove(kept, i as int);
                    assert(!as_map(moved).contains_key(kept[i as int].0));
                    lemma_as_map_push(moved, kept[i as int].0, kept[i as int].1);
                }
                let e = self.entries.swap_remove(i);
                other.entries.push(e);
                proof {
                    assert(e == (kept[i as int].0, kept[i as int].1));
                    assert forall|j: int| 0 <= j < i implies #[trigger] self.entries@[j]
                        == kept[j] by {}
                    assert forall|j: int| 0 <= j < other.entries@.len() implies has_bit(
                        hasher.hash_of((#[trigger] other.entries@[j]).0),
                        d as u64,
                    ) by {
                        if j < moved.len() {
                            assert(other.entries@[j] == moved[j]);
                        }
                    }
                }
            } else {
                i += 1;
            }
        }
        proof {
            let low = keys_by_bit(hasher, d as u64, false);
            let high = keys_by_bit(hasher, d as u64, true);
            let m0 = as_map(s0);
            assert forall|k: K| #[trigger] as_map(self.entries@).contains_key(k) implies low.contains(
                k,
            ) by {
                let j = slot_of(self.entries@, k);
                assert(self.entries@[j].0 == k);
            }
            assert forall|k: K| #[trigger] as_map(other.entries@).contains_key(k) implies high.contains(
                k,
            ) by {
                let j = slot_of(other.entries@, k);
                assert(other.entries@[j].0 == k);
            }
            assert(as_map(self.entries@) =~= m0.restrict(low));
            assert(as_map(other.entries@) =~= m0.restrict(high));
            lemma_as_map_len(s0);
            lemma_as_map_len(self.entries@);
            lemma_as_map_len(other.entries@);
            assert forall|addr: u64| #[trigger] old(self).has_address(hasher, addr) implies self.has_address(
                hasher,
                addr,
            ) && other.has_address(hasher, addr | bit_at(d as u64)) by {
                assert forall|k: K| #[trigger] self@.contains_key(k) implies hasher.hash_of(k)
                    & low_mask(self.spec_depth() as u64) == addr by {
                    assert(old(self)@.contains_key(k));
                    lemma_mask_next(hasher.hash_of(k), d as u64);
                }
                assert forall|k: K| #[trigger] other@.contains_key(k) implies hasher.hash_of(k)
                    & low_mask(other.spec_depth() as u64) == addr | bit_at(d as u64) by {
                    assert(old(self)@.contains_key(k));
                    lemma_mask_next(hasher.hash_of(k), d as u64);
                }
            }
        }
        other
    }
}

impl<K: Eq, V> Bucket<K, V> {
    /// The position of the entry with the given key, by a linear scan.
    fn find(&self, key: &K) -> (r: Option<usize>)
        requires
            obeys_concrete_eq::<K>(),
        ensures
            match r {
                Some(i) => i < self.entries@.len() && self.entries@[i as int].0 == *key,
                None => !holds_key(self.entries@, *key),
            },
    {
        proof {
            reveal(obeys_concrete_eq);
        }
        let mut i: usize = 0;
        while i < self.entries.len()
            invariant
                i <= self.entries@.len(),
                obeys_concrete_eq::<K>(),
                forall|j: int| 0 <= j < i ==> (#[trigger] self.entries@[j]).0 != *key,
            decreases self.entries@.len() - i,
        {
            proof {
                reveal(obeys_concrete_eq);
            }
            if self.entries[i].0 == *key {
                return Some(i);
            }
            i += 1;
        }
        None
    }

    /// Inserts the entry, or overwrites the value where the key is present.
    ///
    /// Fails, and changes nothing, exactly when the bucket is full.
    pub fn put(&mut self, key: K, val: V) -> (ok: bool)
        requires
            old(self).wf(),
            obeys_concrete_eq::<K>(),
        ensures
            final(self).wf(),
            final(self).spec_capacity() == old(self).spec_capacity(),
            final(self).spec_depth() == old(self).spec_depth(),
            ok == (old(self)@.len() < old(self).spec_capacity()),
            ok ==> final(self)@ == old(self)@.insert(key, val),
            !ok ==> *final(self) == *old(self),
    {
        proof {
            lemma_as_map_len(self.entries@);
        }
        if self.entries.len() == self.capacity {
            return false;
        }
        match self.find(&key) {
            Some(i) => {
                proof {
                    lemma_as_map_update(self.entries@, i as int, val);
                }
                self.entries[i] = (key, val);
            },
            None => {
                proof {
                    lemma_as_map_push(self.entries@, key, val);
                }
                self.entries.push((key, val));
            },
        }
        true
    }

    /// Removes the entry with the given key; does nothing where there is none.
    pub fn delete(&mut self, key: &K)
        requires
            old(self).wf(),
            obeys_concrete_eq::<K>(),
        ensures
            final(self).wf(),
            final(self).spec_capacity() == old(self).spec_capacity(),
            final(self).spec_depth() == old(self).spec_depth(),
            final(self)@ == old(self)@.remove(*key),
            !old(self)@.contains_key(*key) ==> *final(self) == *old(self),
    {
        match self.find(key) {
            Some(i) => {
                proof {
                    lemma_as_map_at(self.entries@, i as int);
                    lemma_as_map_swap_remove(self.entries@, i as int);
                }
                let _ = self.entries.swap_remove(i);
            },
            None => {
                assert(self@ =~= self@.remove(*key));
            },
        }
    }
}

impl<K: Eq, V: Clone> Bucket<K, V> {
    /// Looks the key up by a linear scan and returns a clone of its value.
    pub fn get(&self, key: &K) -> (r: Option<V>)
        requires
            self.wf(),
            obeys_concrete_eq::<K>(),
        ensures
            match r {
                Some(v) => self@.contains_key(*key) && cloned(self@[*key], v),
                None => !self@.contains_key(*key),
            },
    {
        match self.find(key) {
            Some(i) => {
                proof {
                    lemma_as_map_at(self.entries@, i as int);
                }
                Some(self.entries[i].1.clone())
            },
            None => None,
        }
    }
}

} // verus!
