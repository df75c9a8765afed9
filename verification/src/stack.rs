//! The bounded sorted array that holds a leaf's entries, `stack_map::StackMap`
//! with byte-string keys and values. Verus does not look inside it: the
//! contracts in this file are taken from its source and are not proved.

use crate::entries::{delete, lookup, put, sorted};
use vstd::prelude::*;

verus! {

/// The most entries a leaf can hold.
pub const LEAF_FANOUT: usize = 1024;

/// `stack_map::StackMap`, declared so that a leaf can hold one. Nothing is
/// known of what is inside but through the functions below.
#[verifier::external_type_specification]
#[verifier::external_body]
#[verifier::reject_recursive_types(K)]
#[verifier::reject_recursive_types(V)]
pub struct ExStackMap<K: Ord, V, const FANOUT: usize>(stack_map::StackMap<K, V, FANOUT>);

/// What a `StackMap` holds: its pairs in the order of its backing array,
/// each key and value as its bytes.
pub uninterp spec fn stack_entries(m: stack_map::StackMap<Vec<u8>, Vec<u8>, 1024>) -> Seq<
    (Seq<u8>, Seq<u8>),
>;

/// `StackMap::new`: a map that holds nothing.
#[verifier::external_body]
pub(crate) fn stack_new() -> (m: stack_map::StackMap<Vec<u8>, Vec<u8>, 1024>)
    ensures
        stack_entries(m).len() == 0,
{
    stack_map::StackMap::new()
}

/// `StackMap::len`: the number of pairs held, which never exceeds the size
/// of the backing array.
#[verifier::external_body]
pub(crate) fn stack_len(m: &stack_map::StackMap<Vec<u8>, Vec<u8>, 1024>) -> (n: usize)
    ensures
        n == stack_entries(*m).len(),
        n <= LEAF_FANOUT,
{
    m.len()
}

/// `StackMap::get`: a binary search over the keys, which on keys in
/// ascending order finds the value stored under `key`, if there is one. The
/// value is handed out as a copy.
#[verifier::external_body]
pub(crate) fn stack_get(m: &stack_map::StackMap<Vec<u8>, Vec<u8>, 1024>, key: &[u8]) -> (r: Option<
    Vec<u8>,
>)
    requires
        sorted(stack_entries(*m)),
    ensures
        (match r {
            Some(v) => lookup(stack_entries(*m), key@) == Some(v@),
            None => lookup(stack_entries(*m), key@).is_none(),
        }),
{
    m.get(key).cloned()
}

/// `StackMap::insert`: on keys in ascending order, replaces the value of a
/// key that is present and returns the old one; otherwise shifts the later
/// pairs up by one and writes the new pair where the key belongs. It panics
/// when the key is new and the array is full, which `requires` rules out.
#[verifier::external_body]
pub(crate) fn stack_insert(
    m: &mut stack_map::StackMap<Vec<u8>, Vec<u8>, 1024>,
    key: Vec<u8>,
    value: Vec<u8>,
) -> (r: Option<Vec<u8>>)
    requires
        sorted(stack_entries(*old(m))),
        lookup(stack_entries(*old(m)), key@).is_some() || stack_entries(*old(m)).len()
            < LEAF_FANOUT,
    ensures
        stack_entries(*final(m)) == put(stack_entries(*old(m)), key@, value@),
        (match r {
            Some(v) => lookup(stack_entries(*old(m)), key@) == Some(v@),
            None => lookup(stack_entries(*old(m)), key@).is_none(),
        }),
{
    m.insert(key, value)
}

/// `StackMap::remove`: on keys in ascending order, takes out the pair stored
/// under `key`, if there is one, shifts the later pairs down by one and
/// returns the value. The shift reads one slot past the last pair, so the
/// array must not be full.
#[verifier::external_body]
pub(crate) fn stack_remove(m: &mut stack_map::StackMap<Vec<u8>, Vec<u8>, 1024>, key: &[u8]) -> (r:
    Option<Vec<u8>>)
    requires
        sorted(stack_entries(*old(m))),
        stack_entries(*old(m)).len() < LEAF_FANOUT,
    ensures
        stack_entries(*final(m)) == delete(stack_entries(*old(m)), key@),
        (match r {
            Some(v) => lookup(stack_entries(*old(m)), key@) == Some(v@),
            None => lookup(stack_entries(*old(m)), key@).is_none(),
        }),
{
    m.remove(key)
}

/// `StackMap::split_off`: the map keeps the pairs before `at` and a new map
/// with the pairs from `at` on is returned. It panics unless `at` is below
/// the number of pairs.
#[verifier::external_body]
pub(crate) fn stack_split_off(m: &mut stack_map::StackMap<Vec<u8>, Vec<u8>, 1024>, at: usize) -> (r:
    stack_map::StackMap<Vec<u8>, Vec<u8>, 1024>)
    requires
        at < stack_entries(*old(m)).len(),
    ensures
        stack_entries(*final(m)) == stack_entries(*old(m)).take(at as int),
        stack_entries(r) == stack_entries(*old(m)).skip(at as int),
{
    m.split_off(at)
}

/// `StackMap::get_index`: the pair at position `index` of the backing array,
/// handed out as a copy, or nothing when `index` is not below the number of
/// pairs.
#[verifier::external_body]
pub(crate) fn stack_get_index(m: &stack_map::StackMap<Vec<u8>, Vec<u8>, 1024>, index: usize) -> (r:
    Option<(Vec<u8>, Vec<u8>)>)
    ensures
        (match r {
            Some(kv) => index < stack_entries(*m).len() && stack_entries(*m)[index as int] == (
                kv.0@,
                kv.1@,
            ),
            None => index >= stack_entries(*m).len(),
        }),
{
    m.get_index(index).cloned()
}

} // verus!
