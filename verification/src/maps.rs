//! The three ordered maps of the store, each a `concurrent_map::ConcurrentMap`
//! held in a struct that Verus does not look inside: low key to node, node to
//! low key, and the dirty set. The contracts in this file are taken from that
//! crate's source and are not proved. Each map has one owner and is never
//! cloned, so what it holds changes only through the functions below.

use crate::bytes::{lex_le, lex_lt, opt_view};
use vstd::prelude::*;

verus! {

/// Low key to node id: a `ConcurrentMap` from byte strings to `u64`.
#[verifier::external_body]
pub struct LowKeyIndex {
    inner: concurrent_map::ConcurrentMap<Vec<u8>, u64, 64, 128>,
}

/// Node id to low key: a `ConcurrentMap` from `u64` to byte strings.
#[verifier::external_body]
pub struct NodeLowKeys {
    inner: concurrent_map::ConcurrentMap<u64, Vec<u8>, 64, 128>,
}

/// Flush epoch and low key to the bytes serialized ahead of the flush, if
/// any: a `ConcurrentMap` from pairs of `u64` and byte string to optional
/// byte strings. Its keys are ordered by epoch first, then by low key.
#[verifier::external_body]
pub struct DirtySet {
    inner: concurrent_map::ConcurrentMap<(u64, Vec<u8>), Option<Vec<u8>>, 64, 128>,
}

/// What the index holds.
pub uninterp spec fn index_map(m: LowKeyIndex) -> Map<Seq<u8>, u64>;

/// What the map from node ids to low keys holds.
pub uninterp spec fn low_key_map(m: NodeLowKeys) -> Map<u64, Seq<u8>>;

/// What the dirty set holds.
pub uninterp spec fn dirty_map(m: DirtySet) -> Map<(u64, Seq<u8>), Option<Seq<u8>>>;

/// A dirty key as plain values.
pub open spec fn dirty_key(k: (u64, Vec<u8>)) -> (u64, Seq<u8>) {
    (k.0, k.1@)
}

/// The order of the dirty set: by epoch, then by low key.
pub open spec fn dirty_key_lt(a: (u64, Seq<u8>), b: (u64, Seq<u8>)) -> bool {
    a.0 < b.0 || (a.0 == b.0 && lex_lt(a.1, b.1))
}

/// `ConcurrentMap::default`: an empty map.
#[verifier::external_body]
pub(crate) fn index_new() -> (m: LowKeyIndex)
    ensures
        index_map(m).dom() == Set::<Seq<u8>>::empty(),
{
    LowKeyIndex { inner: concurrent_map::ConcurrentMap::default() }
}

/// `ConcurrentMap::get`: the value stored under `key`, if any.
#[verifier::external_body]
pub(crate) fn index_get(m: &LowKeyIndex, key: &[u8]) -> (r: Option<u64>)
    ensures
        r == (if index_map(*m).contains_key(key@) {
            Some(index_map(*m)[key@])
        } else {
            None
        }),
{
    m.inner.get(key)
}

/// `ConcurrentMap::get_lte`: the entry with the greatest key that is at or
/// below `key`, if there is one.
#[verifier::external_body]
pub(crate) fn index_get_lte(m: &LowKeyIndex, key: &[u8]) -> (r: Option<(Vec<u8>, u64)>)
    ensures
        (match r {
            Some(kv) => {
                &&& index_map(*m).contains_key(kv.0@)
                &&& index_map(*m)[kv.0@] == kv.1
                &&& lex_le(kv.0@, key@)
                &&& forall|k: Seq<u8>| #[trigger]
                    index_map(*m).contains_key(k) && lex_le(k, key@) ==> lex_le(k, kv.0@)
            },
            None => forall|k: Seq<u8>| #[trigger] index_map(*m).contains_key(k) ==> !lex_le(k, key@),
        }),
{
    m.inner.get_lte(key)
}

/// `ConcurrentMap::get_lt`: the entry with the greatest key that is below
/// `key`, if there is one.
#[verifier::external_body]
pub(crate) fn index_get_lt(m: &LowKeyIndex, key: &[u8]) -> (r: Option<(Vec<u8>, u64)>)
    ensures
        (match r {
            Some(kv) => {
                &&& index_map(*m).contains_key(kv.0@)
                &&& index_map(*m)[kv.0@] == kv.1
                &&& lex_lt(kv.0@, key@)
                &&& forall|k: Seq<u8>| #[trigger]
                    index_map(*m).contains_key(k) && lex_lt(k, key@) ==> lex_le(k, kv.0@)
            },
            None => forall|k: Seq<u8>| #[trigger] index_map(*m).contains_key(k) ==> !lex_lt(k, key@),
        }),
{
    m.inner.get_lt(key)
}

/// `ConcurrentMap::last`: the entry with the greatest key, if the map holds
/// any.
#[verifier::external_body]
pub(crate) fn index_last(m: &LowKeyIndex) -> (r: Option<(Vec<u8>, u64)>)
    ensures
        (match r {
            Some(kv) => {
                &&& index_map(*m).contains_key(kv.0@)
                &&& index_map(*m)[kv.0@] == kv.1
                &&& forall|k: Seq<u8>| #[trigger] index_map(*m).contains_key(k) ==> lex_le(k, kv.0@)
            },
            None => forall|k: Seq<u8>| !(#[trigger] index_map(*m).contains_key(k)),
        }),
{
    m.inner.last()
}

/// `ConcurrentMap::insert`: stores `id` under `key` and returns the value that
/// was there.
#[verifier::external_body]
pub(crate) fn index_insert(m: &mut LowKeyIndex, key: Vec<u8>, id: u64) -> (r: Option<u64>)
    ensures
        index_map(*final(m)) == index_map(*old(m)).insert(key@, id),
        r == (if index_map(*old(m)).contains_key(key@) {
            Some(index_map(*old(m))[key@])
        } else {
            None
        }),
{
    m.inner.insert(key, id)
}

/// `ConcurrentMap::default`: an empty map.
#[verifier::external_body]
pub(crate) fn low_keys_new() -> (m: NodeLowKeys)
    ensures
        low_key_map(m).dom() == Set::<u64>::empty(),
{
    NodeLowKeys { inner: concurrent_map::ConcurrentMap::default() }
}

/// `ConcurrentMap::get`: the low key stored under `id`, if any.
#[verifier::external_body]
pub(crate) fn low_keys_get(m: &NodeLowKeys, id: u64) -> (r: Option<Vec<u8>>)
    ensures
        opt_view(r) == (if low_key_map(*m).contains_key(id) {
            Some(low_key_map(*m)[id])
        } else {
            None
        }),
{
    m.inner.get(&id)
}

/// `ConcurrentMap::insert`: stores `key` under `id`.
#[verifier::external_body]
pub(crate) fn low_keys_insert(m: &mut NodeLowKeys, id: u64, key: Vec<u8>)
    ensures
        low_key_map(*final(m)) == low_key_map(*old(m)).insert(id, key@),
{
    m.inner.insert(id, key);
}

/// `ConcurrentMap::default`: an empty map.
#[verifier::external_body]
pub(crate) fn dirty_new() -> (m: DirtySet)
    ensures
        forall|k: (u64, Seq<u8>)| !(#[trigger] dirty_map(m).contains_key(k)),
{
    DirtySet { inner: concurrent_map::ConcurrentMap::default() }
}

/// `ConcurrentMap::get`: what is stored under the epoch and low key, if
/// anything.
#[verifier::external_body]
pub(crate) fn dirty_get(m: &DirtySet, epoch: u64, low_key: Vec<u8>) -> (r: Option<Option<Vec<u8>>>)
    ensures
        (match r {
            Some(slot) => dirty_map(*m).contains_key((epoch, low_key@)) && dirty_map(*m)[(
                epoch,
                low_key@,
            )] == opt_view(slot),
            None => !dirty_map(*m).contains_key((epoch, low_key@)),
        }),
{
    m.inner.get(&(epoch, low_key))
}

/// `ConcurrentMap::insert`: stores `bytes` under the epoch and low key,
/// whatever was there.
#[verifier::external_body]
pub(crate) fn dirty_insert(m: &mut DirtySet, epoch: u64, low_key: Vec<u8>, bytes: Option<Vec<u8>>)
    ensures
        dirty_map(*final(m)) == dirty_map(*old(m)).insert((epoch, low_key@), opt_view(bytes)),
{
    m.inner.insert((epoch, low_key), bytes);
}

/// `ConcurrentMap::remove`: takes out what is stored under the epoch and low
/// key, and returns it.
#[verifier::external_body]
pub(crate) fn dirty_remove(m: &mut DirtySet, epoch: u64, low_key: Vec<u8>) -> (r: Option<
    Option<Vec<u8>>,
>)
    ensures
        dirty_map(*final(m)) == dirty_map(*old(m)).remove((epoch, low_key@)),
        (match r {
            Some(slot) => dirty_map(*old(m)).contains_key((epoch, low_key@)) && dirty_map(
                *old(m),
            )[(epoch, low_key@)] == opt_view(slot),
            None => !dirty_map(*old(m)).contains_key((epoch, low_key@)),
        }),
{
    m.inner.remove(&(epoch, low_key))
}

/// `ConcurrentMap::range` up to, and without, the key made of `epoch` and
/// `low_key`: the keys below it, each once, in ascending order. It panics
/// where that end is the least key there is, epoch zero with the empty low
/// key, which `requires` rules out.
#[verifier::external_body]
pub(crate) fn dirty_keys_before(m: &DirtySet, epoch: u64, low_key: Vec<u8>) -> (r: Vec<
    (u64, Vec<u8>),
>)
    requires
        epoch > 0 || low_key@.len() > 0,
    ensures
        forall|i: int|
            0 <= i < r.len() ==> dirty_key_lt(dirty_key(#[trigger] r[i]), (epoch, low_key@))
                && dirty_map(*m).contains_key(dirty_key(r[i])),
        forall|k: (u64, Seq<u8>)| #[trigger]
            dirty_map(*m).contains_key(k) && dirty_key_lt(k, (epoch, low_key@)) ==> exists|i: int|
                0 <= i < r.len() && dirty_key(#[trigger] r[i]) == k,
        forall|i: int, j: int|
            0 <= i < j < r.len() ==> dirty_key_lt(
                dirty_key(#[trigger] r[i]),
                dirty_key(#[trigger] r[j]),
            ),
{
    m.inner.range(..(epoch, low_key)).map(|kv| kv.0).collect()
}

} // verus!
