//! The hash function as a capability that the table is given.

use std::collections::hash_map::DefaultHasher;
use std::hash::Hasher;
use std::marker::PhantomData;
use vstd::bytes::{spec_u64_to_le_bytes, u64_to_le_bytes};
use vstd::prelude::*;
use vstd::std_specs::hash::DefaultHasherAdditionalSpecFns;

verus! {

/// A deterministic hash function on keys of type `K`.
///
/// The table consumes only low-order bits of the hash, so the quality of the
/// low bits decides how evenly keys spread over buckets.
pub trait KeyHasher<K> {
    /// The hash of `key`, as a mathematical function of the key.
    spec fn hash_of(&self, key: K) -> u64;

    /// Computes the hash of `key`.
    fn hash(&self, key: &K) -> (h: u64)
        ensures
            h == self.hash_of(*key),
    ;
}

/// Whether `f` can serve as a hash function: it accepts every key and its
/// result is determined by the key.
pub open spec fn is_hash_fn<K, F: Fn(&K) -> u64>(f: F) -> bool {
    &&& forall|k: &K| #[trigger] call_requires(f, (k,))
    &&& forall|k: &K, h1: u64, h2: u64|
        #![trigger call_ensures(f, (k,), h1), call_ensures(f, (k,), h2)]
        call_ensures(f, (k,), h1) && call_ensures(f, (k,), h2) ==> h1 == h2
}

/// A hasher made from a function or closure.
///
/// What the function returns for a key is known from the result of
/// [`KeyHasher::hash`]; a hasher whose hashes are to be known ahead of any
/// call implements [`KeyHasher`] itself.
pub struct FnHasher<K, F: Fn(&K) -> u64> {
    f: F,
    key: PhantomData<K>,
}

impl<K, F: Fn(&K) -> u64> FnHasher<K, F> {
    /// The wrapped function is a hash function.
    #[verifier::type_invariant]
    spec fn wf(self) -> bool {
        is_hash_fn::<K, F>(self.f)
    }

    /// The function that the hasher applies.
    pub closed spec fn func(&self) -> F {
        self.f
    }

    /// Wraps a function that hashes keys.
    pub fn new(f: F) -> (r: Self)
        requires
            is_hash_fn::<K, F>(f),
        ensures
            r.func() == f,
    {
        FnHasher { f, key: PhantomData }
    }
}

impl<K, F: Fn(&K) -> u64> KeyHasher<K> for FnHasher<K, F> {
    /// The one result that the wrapped function can return for `key`.
    open spec fn hash_of(&self, key: K) -> u64 {
        choose|h: u64| call_ensures(self.func(), (&key,), h)
    }

    fn hash(&self, key: &K) -> (h: u64)
        ensures
            call_ensures(self.func(), (key,), h),
    {
        proof {
            use_type_invariant(self);
        }
        (self.f)(key)
    }
}

/// The hasher of a table made without naming one: the standard library's
/// default hasher, fed the eight bytes of a `u64` key, low byte first.
pub struct DefaultKeyHasher;

impl KeyHasher<u64> for DefaultKeyHasher {
    /// What the standard hasher makes of the little-endian bytes of `key`,
    /// written to it in one piece.
    open spec fn hash_of(&self, key: u64) -> u64 {
        DefaultHasher::spec_finish(seq![spec_u64_to_le_bytes(key)])
    }

    fn hash(&self, key: &u64) -> (h: u64) {
        let bytes = u64_to_le_bytes(*key);
        let mut state = DefaultHasher::new();
        state.write(bytes.as_slice());
        assert(state@ =~= seq![spec_u64_to_le_bytes(*key)]);
        state.finish()
    }
}

} // verus!
