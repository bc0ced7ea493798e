//! The hash map and the hasher of the `rustc_hash` crate.
//!
//! `rustc_hash::FxHashMap` is the standard hash map with a hasher that has no per-process
//! seed. The tabular encoder interns shapes by a digest of their keys, and looks plans up by
//! node index; it never walks a map. The functions of this module are the calls it makes,
//! with what they are taken to do.

use rustc_hash::{FxBuildHasher, FxHasher};
use std::collections::HashMap;
use std::hash::Hasher;
use vstd::prelude::*;

verus! {

/// `rustc_hash::FxBuildHasher`, the hasher factory of `FxHashMap`.
#[verifier::external_type_specification]
#[verifier::external_body]
pub struct ExFxBuildHasher(FxBuildHasher);

/// `rustc_hash::FxHasher`.
#[verifier::external_type_specification]
#[verifier::external_body]
pub struct ExFxHasher(FxHasher);

/// What a hasher has been fed since it was made, in order: each slice written whole, marked
/// `true`, and each byte written on its own, marked `false`.
pub uninterp spec fn fx_fed(hasher: FxHasher) -> Seq<(bool, Seq<u8>)>;

/// The digest of a hasher that has been fed `fed`, on a machine whose `usize` has
/// `word_bits` bits.
pub uninterp spec fn fx_digest(word_bits: nat, fed: Seq<(bool, Seq<u8>)>) -> u64;

/// `FxHasher::default` makes a hasher that has been fed nothing.
#[verifier::external_body]
pub(crate) fn fx_hasher() -> (hasher: FxHasher)
    ensures
        fx_fed(hasher) == Seq::<(bool, Seq<u8>)>::empty(),
{
    FxHasher::default()
}

/// `Hasher::write` on an `FxHasher` feeds it a slice.
#[verifier::external_body]
pub(crate) fn fx_write(hasher: &mut FxHasher, bytes: &[u8])
    ensures
        fx_fed(*final(hasher)) == fx_fed(*old(hasher)).push((true, bytes@)),
{
    hasher.write(bytes)
}

/// `Hasher::write_u8` on an `FxHasher` feeds it one byte.
#[verifier::external_body]
pub(crate) fn fx_write_u8(hasher: &mut FxHasher, byte: u8)
    ensures
        fx_fed(*final(hasher)) == fx_fed(*old(hasher)).push((false, seq![byte])),
{
    hasher.write_u8(byte)
}

/// `Hasher::finish` on an `FxHasher` gives a digest that depends on what the hasher has been
/// fed and on the width of `usize`, and on nothing else.
#[verifier::external_body]
pub(crate) fn fx_finish(hasher: &FxHasher) -> (digest: u64)
    ensures
        digest == fx_digest(usize::BITS as nat, fx_fed(*hasher)),
{
    hasher.finish()
}

/// `FxHashMap::default` makes an empty map.
#[verifier::external_body]
pub(crate) fn fx_map<V>() -> (map: HashMap<u64, V, FxBuildHasher>)
    ensures
        map@.dom() == Set::<u64>::empty(),
{
    HashMap::default()
}

/// `FxHashMap::insert` maps a key to a value, in place of any value it had.
#[verifier::external_body]
pub(crate) fn fx_insert<V>(map: &mut HashMap<u64, V, FxBuildHasher>, key: u64, value: V)
    ensures
        final(map)@ == old(map)@.insert(key, value),
{
    map.insert(key, value);
}

/// `FxHashMap::get` finds the value of a key.
#[verifier::external_body]
pub(crate) fn fx_get<'a, V>(map: &'a HashMap<u64, V, FxBuildHasher>, key: u64) -> (found: Option<
    &'a V,
>)
    ensures
        match found {
            Some(value) => map@.dom().contains(key) && map@[key] == *value,
            None => !map@.dom().contains(key),
        },
{
    map.get(&key)
}

/// `FxHashMap::is_empty` tells whether the map has no key.
#[verifier::external_body]
pub(crate) fn fx_is_empty<V>(map: &HashMap<u64, V, FxBuildHasher>) -> (empty: bool)
    ensures
        empty == (forall|key: u64| !map@.dom().contains(key)),
{
    map.is_empty()
}

} // verus!
