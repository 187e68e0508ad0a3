//! The two calls that a map makes on behalf of its keys: hashing one, and
//! borrowing the form of a stored key that a lookup is made with.
//!
//! Nothing is said of what either call gives back: a hash builder and a
//! key's `Borrow` are the caller's own code. Whatever the map promises, it
//! promises for every hash and every borrowed form. What it can say is
//! which values the calls gave: `gives_hash` and `answers` hold of the
//! values that calls have returned, and of nothing that was not returned.
//! A map whose hash builder gives one hash for a key on every call, and
//! whose keys compare the same way on every call, is then specified exactly.

use vstd::prelude::*;
use vstd::std_specs::cmp::PartialEqSpec;
use std::borrow::Borrow;
use std::hash::{BuildHasher, Hash};

verus! {

/// `BuildHasher::hash_one`: the hash that `hasher` gives for `key`.
#[verifier::external_body]
pub(crate) fn hash_one<S: BuildHasher, Q: Hash + ?Sized>(hasher: &S, key: &Q) -> (hash: u64) {
    hasher.hash_one(key)
}

/// `Borrow::borrow`: the form of `stored` that lookups are made with.
#[verifier::external_body]
pub(crate) fn borrow_key<K: Borrow<Q>, Q: ?Sized>(stored: &K) -> (form: &Q) {
    stored.borrow()
}

/// Whether `hash` is a value that the hash builder gives for `key`: what
/// one call of `BuildHasher::hash_one` on the two returns. Nothing says
/// that two calls return one value.
pub closed spec fn gives_hash<S: BuildHasher, Q: Hash + ?Sized>(
    hasher: &S,
    key: &Q,
    hash: u64,
) -> bool {
    call_ensures(hash_one::<S, Q>, (hasher, key), hash)
}

/// Whether the hash builder gives `hash` for `key` on every call.
pub open spec fn always_hashes<S: BuildHasher, Q: Hash + ?Sized>(
    hasher: &S,
    key: &Q,
    hash: u64,
) -> bool {
    forall|h: u64| #[trigger] gives_hash(hasher, key, h) ==> h == hash
}

/// Whether `same` is an answer that the comparison of `stored` with `key`
/// gives: what `==` says of `key` and of a form of `stored` that one call of
/// `Borrow::borrow` returns.
pub closed spec fn answers<K: Borrow<Q>, Q: PartialEq + ?Sized>(
    stored: &K,
    key: &Q,
    same: bool,
) -> bool {
    exists|form: &Q|
        #[trigger] call_ensures(borrow_key::<K, Q>, (stored,), form) && (Q::obeys_eq_spec()
            ==> same == form.eq_spec(key))
}

/// Whether the comparison of `stored` with `key` gives the answer
/// `verdict` on every call.
pub open spec fn always_answers<K: Borrow<Q>, Q: PartialEq + ?Sized>(
    stored: &K,
    key: &Q,
    verdict: bool,
) -> bool {
    forall|same: bool| #[trigger] answers(stored, key, same) ==> same == verdict
}

/// The hash that `hasher` gives for `key` at this call.
pub(crate) fn hash_for<S: BuildHasher, Q: Hash + ?Sized>(hasher: &S, key: &Q) -> (hash: u64)
    ensures
        gives_hash(hasher, key, hash),
{
    hash_one(hasher, key)
}

/// Whether `stored`, in the form that lookups are made with, `==` `key`, at
/// this call.
pub(crate) fn same_form<K: Borrow<Q>, Q: PartialEq + ?Sized>(stored: &K, key: &Q) -> (same: bool)
    ensures
        answers(stored, key, same),
{
    let form: &Q = borrow_key::<K, Q>(stored);
    form == key
}

} // verus!
