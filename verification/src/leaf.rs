//! A leaf: the entries of one key range `[lo, hi)`, the flush epoch in which
//! it was last changed, and a rough count of the memory it takes.

use crate::bytes::{
    key_copy, key_le, key_lt, lemma_lex_le_lt_transitive, lemma_lex_lt_le_transitive,
    lemma_lex_lt_transitive, lemma_lex_trichotomy, lemma_separator_between,
    lemma_separator_shortest, lex_le, lex_lt, opt_copy, opt_view, separator, split_key,
};
use crate::codec::{
    compress, decode_record, decompress, encode_record, pairs_view, record_bytes, record_fields,
    zstd_content, zstd_frame,
};
use crate::entries::{
    delete, in_range, lemma_delete_lookup, lemma_delete_sorted, lemma_delete_within, lemma_put_last,
    lemma_put_lookup, lemma_put_sorted, lemma_put_within, lookup, payload, put, sorted, within,
};
use crate::error::{Error, ErrorKind};
use crate::range::{
    above_start, below_end, bound_view, in_bounds, is_above_start, is_below_end, Bound,
};
use crate::stack::{
    LEAF_FANOUT, stack_entries, stack_get, stack_get_index, stack_insert, stack_len, stack_new,
    stack_remove, stack_split_off,
};
use vstd::prelude::*;

verus! {

/// What an empty leaf is counted as taking in memory.
pub const LEAF_BASE_SIZE: usize = 49240;

/// `x` brought into the range of `usize`.
pub open spec fn sat(x: int) -> usize {
    if x >= usize::MAX {
        usize::MAX
    } else if x < 0 {
        0usize
    } else {
        x as usize
    }
}

/// Addition that stops at `usize::MAX`.
pub fn sat_add(a: usize, b: usize) -> (r: usize)
    ensures
        r == sat(a + b),
{
    if a > usize::MAX - b {
        usize::MAX
    } else {
        a + b
    }
}

/// Subtraction that stops at zero.
pub fn sat_sub(a: usize, b: usize) -> (r: usize)
    ensures
        r == sat(a - b),
{
    if a < b {
        0
    } else {
        a - b
    }
}

/// The size of a leaf after the value under a key of `klen` bytes changed
/// from `old` (a length, or nothing) to one of `vlen` bytes.
pub open spec fn size_after_put(size: usize, klen: int, vlen: int, old: Option<int>) -> usize {
    let new_size = sat(klen + vlen);
    let old_size = match old {
        Some(ov) => sat(klen + ov),
        None => 0usize,
    };
    if new_size > old_size {
        sat(size + (new_size - old_size))
    } else {
        sat(size - (old_size - new_size))
    }
}

/// The size of a leaf after a key of `klen` bytes left it with its value of
/// `old` bytes, if it was there.
pub open spec fn size_after_remove(size: usize, klen: int, old: Option<int>) -> usize {
    match old {
        Some(ov) => sat(size - sat(klen + ov)),
        None => size,
    }
}

/// A leaf as a mathematical value.
pub struct LeafView {
    pub lo: Seq<u8>,
    pub hi: Option<Seq<u8>>,
    pub prefix_length: usize,
    pub entries: Seq<(Seq<u8>, Seq<u8>)>,
    pub dirty_flush_epoch: Option<u64>,
    pub in_memory_size: usize,
}

impl LeafView {
    /// Keys ascend, all of them lie in `[lo, hi)`, the range is not empty,
    /// and a dirty epoch is positive.
    pub open spec fn wf(self) -> bool {
        &&& sorted(self.entries)
        &&& within(self.entries, self.lo, self.hi)
        &&& self.entries.len() <= LEAF_FANOUT
        &&& (self.hi matches Some(h) ==> lex_lt(self.lo, h))
        &&& (self.dirty_flush_epoch matches Some(e) ==> e >= 1)
    }

    /// Whether the leaf holds as many entries as a leaf can.
    pub open spec fn is_full(self) -> bool {
        self.entries.len() == LEAF_FANOUT
    }

    /// Whether `k` belongs to this leaf's range.
    pub open spec fn owns(self, k: Seq<u8>) -> bool {
        in_range(k, self.lo, self.hi)
    }

    /// The value stored under `k`, if any.
    pub open spec fn get(self, k: Seq<u8>) -> Option<Seq<u8>> {
        lookup(self.entries, k)
    }

    /// The leaf after `k` was set to `v`: the entries with the pair put in,
    /// and the size moved by the difference between the new pair and the old.
    pub open spec fn insert(self, k: Seq<u8>, v: Seq<u8>) -> LeafView {
        LeafView {
            entries: put(self.entries, k, v),
            in_memory_size: size_after_put(
                self.in_memory_size,
                k.len() as int,
                v.len() as int,
                match self.get(k) {
                    Some(ov) => Some(ov.len() as int),
                    None => None,
                },
            ),
            ..self
        }
    }

    /// The leaf after `k` was removed: the entries without it, and the size
    /// less the pair that left.
    pub open spec fn remove(self, k: Seq<u8>) -> LeafView {
        LeafView {
            entries: delete(self.entries, k),
            in_memory_size: size_after_remove(
                self.in_memory_size,
                k.len() as int,
                match self.get(k) {
                    Some(ov) => Some(ov.len() as int),
                    None => None,
                },
            ),
            ..self
        }
    }

    /// The leaf marked dirty in `epoch`, or clean.
    pub open spec fn with_dirty(self, epoch: Option<u64>) -> LeafView {
        LeafView { dirty_flush_epoch: epoch, ..self }
    }

    /// The memory a leaf with these bounds and entries is counted as taking.
    pub open spec fn footprint(self) -> usize {
        sat(
            LEAF_BASE_SIZE + (match self.hi {
                Some(h) => h.len() as int,
                None => 0int,
            }) + self.lo.len() + payload(self.entries, self.entries.len() as int),
        )
    }

    /// How many entries stay in a full leaf when it splits: one for the
    /// left-most leaf, all but two for the right-most, half otherwise.
    pub open spec fn split_offset(self) -> int {
        if self.lo.len() == 0 {
            1
        } else if self.hi.is_none() {
            self.entries.len() - 2
        } else {
            self.entries.len() as int / 2
        }
    }

    /// The key at which a full leaf splits: the shortest prefix of the first
    /// key that leaves which is above the last key that stays.
    pub open spec fn split_key(self) -> Seq<u8> {
        let at = self.split_offset();
        separator(self.entries[at - 1].0, self.entries[at].0)
    }

    /// What stays after a split.
    pub open spec fn split_left(self) -> LeafView {
        let left = LeafView {
            hi: Some(self.split_key()),
            entries: self.entries.take(self.split_offset()),
            ..self
        };
        LeafView { in_memory_size: left.footprint(), ..left }
    }

    /// What leaves in a split, dirty in `epoch`.
    pub open spec fn split_right(self, epoch: u64) -> LeafView {
        let right = LeafView {
            lo: self.split_key(),
            hi: self.hi,
            prefix_length: 0,
            entries: self.entries.skip(self.split_offset()),
            dirty_flush_epoch: Some(epoch),
            in_memory_size: 0,
        };
        LeafView { in_memory_size: right.footprint(), ..right }
    }
}


impl LeafView {
    /// The record of the leaf's fields, before compression.
    pub open spec fn record(self) -> Option<Seq<u8>> {
        record_bytes(
            self.lo,
            self.hi,
            self.prefix_length as u64,
            self.entries,
            self.in_memory_size as u64,
        )
    }

    /// The bytes that stand for the leaf in the store: its record,
    /// compressed at `level`.
    pub open spec fn serialized(self, level: i32) -> Option<Seq<u8>> {
        match self.record() {
            Some(b) => zstd_frame(b, level),
            None => None,
        }
    }

    /// The same leaf, clean and with another size.
    pub open spec fn reloaded(self, size: usize) -> LeafView {
        LeafView { dirty_flush_epoch: None, in_memory_size: size, ..self }
    }

    /// The bytes that are written for the leaf, where they can be made: the
    /// leaf serialized at `level`, in bytes that read back as this leaf,
    /// clean, with the record's length as its size.
    pub open spec fn written(self, level: i32) -> Option<Seq<u8>> {
        match self.serialized(level) {
            Some(b) => if deserialized(b) == Some(
                self.reloaded(self.record().unwrap().len() as usize),
            ) {
                Some(b)
            } else {
                None
            },
            None => None,
        }
    }
}

/// The fields of a record read as a leaf, valid or not.
pub open spec fn leaf_view_of(
    f: (Seq<u8>, Option<Seq<u8>>, u64, Seq<(Seq<u8>, Seq<u8>)>, u64),
    size: usize,
) -> LeafView {
    LeafView {
        lo: f.0,
        hi: f.1,
        prefix_length: f.2 as usize,
        entries: f.3,
        dirty_flush_epoch: None,
        in_memory_size: size,
    }
}

/// The leaf that a record's fields describe, counted as taking `size` bytes,
/// if they describe one: keys ascending and within the bounds, no more of
/// them than a leaf can hold, and a range that is not empty.
pub open spec fn leaf_of_fields(
    f: (Seq<u8>, Option<Seq<u8>>, u64, Seq<(Seq<u8>, Seq<u8>)>, u64),
    size: usize,
) -> Option<LeafView> {
    let l = leaf_view_of(f, size);
    if f.2 <= usize::MAX && l.wf() {
        Some(l)
    } else {
        None
    }
}

/// The leaf that `bytes` stand for, if they stand for one. Its size is the
/// length of the decompressed record.
pub open spec fn deserialized(bytes: Seq<u8>) -> Option<LeafView> {
    match zstd_content(bytes) {
        Some(raw) => match record_fields(raw) {
            Some(f) => leaf_of_fields(f, raw.len() as usize),
            None => None,
        },
        None => None,
    }
}

/// Inserting a key of the leaf's range keeps the leaf well formed, as long
/// as the key is there already or the leaf has room.
pub proof fn lemma_insert_wf(l: LeafView, k: Seq<u8>, v: Seq<u8>)
    requires
        l.wf(),
        l.owns(k),
        l.get(k).is_some() || !l.is_full(),
    ensures
        l.insert(k, v).wf(),
        l.insert(k, v).get(k) == Some(v),
        l.insert(k, v).entries.len() == l.entries.len() + (if l.get(k).is_some() {
            0int
        } else {
            1int
        }),
{
    lemma_put_sorted(l.entries, k, v);
    lemma_put_within(l.entries, k, v, l.lo, l.hi);
    lemma_put_lookup(l.entries, k, v, k);
}

/// Removing a key keeps the leaf well formed.
pub proof fn lemma_remove_wf(l: LeafView, k: Seq<u8>)
    requires
        l.wf(),
    ensures
        l.remove(k).wf(),
        l.remove(k).get(k).is_none(),
        l.remove(k).entries.len() <= l.entries.len(),
{
    lemma_delete_sorted(l.entries, k);
    lemma_delete_within(l.entries, k, l.lo, l.hi);
    lemma_delete_lookup(l.entries, k, k);
}

/// A full leaf splits into two well-formed leaves, neither of them full nor
/// empty, whose ranges meet at the split key and together make up the range
/// of the leaf that split.
pub proof fn lemma_split_wf(l: LeafView, epoch: u64)
    requires
        l.wf(),
        l.is_full(),
        epoch >= 1,
    ensures
        0 < l.split_offset() < l.entries.len(),
        l.split_left().wf(),
        l.split_right(epoch).wf(),
        !l.split_left().is_full(),
        !l.split_right(epoch).is_full(),
        l.split_left().entries.len() > 0,
        l.split_right(epoch).entries.len() > 0,
        l.split_left().lo == l.lo,
        l.split_left().hi == Some(l.split_key()),
        l.split_right(epoch).lo == l.split_key(),
        l.split_right(epoch).hi == l.hi,
        l.owns(l.split_key()),
        lex_lt(l.lo, l.split_key()),
        forall|k: Seq<u8>|
            l.owns(k) <==> (l.split_left().owns(k) || l.split_right(epoch).owns(k)),
        forall|k: Seq<u8>| !(l.split_left().owns(k) && l.split_right(epoch).owns(k)),
{
    let at = l.split_offset();
    let lmax = l.entries[at - 1].0;
    let rmin = l.entries[at].0;
    let key = l.split_key();
    assert(lex_lt(lmax, rmin));
    lemma_separator_between(lmax, rmin);
    let left = l.split_left();
    let right = l.split_right(epoch);
    assert(in_range(lmax, l.lo, l.hi));
    assert(in_range(rmin, l.lo, l.hi));
    lemma_lex_le_lt_transitive(l.lo, lmax, key);
    if l.hi is Some {
        lemma_lex_le_lt_transitive(key, rmin, l.hi.unwrap());
    }
    assert forall|i: int| 0 <= i < left.entries.len() implies in_range(
        #[trigger] left.entries[i].0,
        left.lo,
        left.hi,
    ) by {
        assert(left.entries[i] == l.entries[i]);
        assert(in_range(l.entries[i].0, l.lo, l.hi));
        if i < at - 1 {
            assert(lex_lt(l.entries[i].0, l.entries[at - 1].0));
            lemma_lex_lt_transitive(l.entries[i].0, lmax, key);
        }
    }
    assert forall|i: int| 0 <= i < right.entries.len() implies in_range(
        #[trigger] right.entries[i].0,
        right.lo,
        right.hi,
    ) by {
        assert(right.entries[i] == l.entries[at + i]);
        assert(in_range(l.entries[at + i].0, l.lo, l.hi));
        if i > 0 {
            assert(lex_lt(l.entries[at].0, l.entries[at + i].0));
            lemma_lex_le_lt_transitive(key, rmin, l.entries[at + i].0);
        }
    }
    assert forall|i: int, j: int| 0 <= i < j < left.entries.len() implies lex_lt(
        #[trigger] left.entries[i].0,
        #[trigger] left.entries[j].0,
    ) by {
        assert(left.entries[i] == l.entries[i] && left.entries[j] == l.entries[j]);
    }
    assert forall|i: int, j: int| 0 <= i < j < right.entries.len() implies lex_lt(
        #[trigger] right.entries[i].0,
        #[trigger] right.entries[j].0,
    ) by {
        assert(right.entries[i] == l.entries[at + i] && right.entries[j] == l.entries[at + j]);
    }
    assert forall|k: Seq<u8>|
        l.owns(k) <==> (l.split_left().owns(k) || l.split_right(epoch).owns(k)) by {
        lemma_lex_trichotomy(key, k);
        if left.owns(k) {
            if l.hi is Some {
                lemma_lex_lt_transitive(k, key, l.hi.unwrap());
            }
        }
        if right.owns(k) {
            lemma_lex_lt_le_transitive(l.lo, key, k);
        }
    }
    assert forall|k: Seq<u8>| !(l.split_left().owns(k) && l.split_right(epoch).owns(k)) by {
        lemma_lex_trichotomy(key, k);
    }
}

/// A split loses and adds nothing: the entries that stay, followed by those
/// that leave, are the entries of the leaf that split, so the two leaves
/// hold the same pairs, each as often, as that leaf did.
pub proof fn lemma_split_preserves_content(l: LeafView, epoch: u64)
    requires
        l.wf(),
        l.is_full(),
        epoch >= 1,
    ensures
        l.split_left().entries + l.split_right(epoch).entries == l.entries,
        l.split_left().entries.to_multiset().add(l.split_right(epoch).entries.to_multiset())
            == l.entries.to_multiset(),
        forall|k: Seq<u8>|
            l.get(k) == (if l.split_left().owns(k) {
                l.split_left().get(k)
            } else {
                l.split_right(epoch).get(k)
            }),
{
    lemma_split_wf(l, epoch);
    let at = l.split_offset();
    let left = l.split_left();
    let right = l.split_right(epoch);
    assert(left.entries + right.entries =~= l.entries);
    vstd::seq_lib::lemma_multiset_commutative(left.entries, right.entries);
    assert forall|k: Seq<u8>|
        l.get(k) == (if l.split_left().owns(k) {
            l.split_left().get(k)
        } else {
            l.split_right(epoch).get(k)
        }) by {
        lemma_split_lookup(l, epoch, k);
    }
}

/// After a split a key is found in the half that owns it, with the value it
/// had before.
pub proof fn lemma_split_lookup(l: LeafView, epoch: u64, k: Seq<u8>)
    requires
        l.wf(),
        l.is_full(),
        epoch >= 1,
    ensures
        l.get(k) == (if l.split_left().owns(k) {
            l.split_left().get(k)
        } else {
            l.split_right(epoch).get(k)
        }),
{
    lemma_split_wf(l, epoch);
    let at = l.split_offset();
    let left = l.split_left();
    let right = l.split_right(epoch);
    let key = l.split_key();
    let s = l.entries;
    crate::entries::lemma_lower_bound(s, k);
    crate::entries::lemma_lower_bound(left.entries, k);
    crate::entries::lemma_lower_bound(right.entries, k);
    crate::entries::lemma_has_key_iff(s, k);
    crate::entries::lemma_has_key_iff(left.entries, k);
    crate::entries::lemma_has_key_iff(right.entries, k);
    lemma_lex_trichotomy(key, k);
    if crate::entries::has_key(s, k) {
        let i = choose|i: int| 0 <= i < s.len() && #[trigger] s[i].0 == k;
        crate::entries::lemma_lookup_at(s, i);
        if i < at {
            assert(left.entries[i] == s[i]);
            crate::entries::lemma_lookup_at(left.entries, i);
            assert(in_range(left.entries[i].0, left.lo, left.hi));
        } else {
            assert(right.entries[i - at] == s[i]);
            crate::entries::lemma_lookup_at(right.entries, i - at);
            assert(in_range(right.entries[i - at].0, right.lo, right.hi));
        }
    } else {
        if crate::entries::has_key(left.entries, k) {
            let i = choose|i: int| 0 <= i < left.entries.len() && #[trigger] left.entries[i].0 == k;
            assert(left.entries[i] == s[i]);
        }
        if crate::entries::has_key(right.entries, k) {
            let i = choose|i: int|
                0 <= i < right.entries.len() && #[trigger] right.entries[i].0 == k;
            assert(right.entries[i] == s[at + i]);
        }
    }
}

/// The split key is above the last key that stays, at or below the first key
/// that leaves, and no byte string with that property is shorter.
pub proof fn lemma_split_key_minimal(l: LeafView, t: Seq<u8>)
    requires
        l.wf(),
        l.is_full(),
        lex_lt(l.entries[l.split_offset() - 1].0, t),
        lex_le(t, l.entries[l.split_offset()].0),
    ensures
        lex_lt(l.entries[l.split_offset() - 1].0, l.split_key()),
        lex_le(l.split_key(), l.entries[l.split_offset()].0),
        l.split_key().len() <= t.len(),
{
    let at = l.split_offset();
    assert(lex_lt(l.entries[at - 1].0, l.entries[at].0));
    lemma_separator_between(l.entries[at - 1].0, l.entries[at].0);
    lemma_separator_shortest(l.entries[at - 1].0, l.entries[at].0, t);
}

/// A leaf: a sorted, bounded map over the key range `[lo, hi)`.
pub struct Leaf {
    lo: Vec<u8>,
    hi: Option<Vec<u8>>,
    prefix_length: usize,
    data: stack_map::StackMap<Vec<u8>, Vec<u8>, 1024>,
    dirty_flush_epoch: Option<u64>,
    in_memory_size: usize,
}

impl View for Leaf {
    type V = LeafView;

    closed spec fn view(&self) -> LeafView {
        LeafView {
            lo: self.lo@,
            hi: opt_view(self.hi),
            prefix_length: self.prefix_length,
            entries: stack_entries(self.data),
            dirty_flush_epoch: self.dirty_flush_epoch,
            in_memory_size: self.in_memory_size,
        }
    }
}

impl Leaf {
    /// An empty leaf over `[lo, hi)`, not dirty.
    pub fn new(lo: Vec<u8>, hi: Option<Vec<u8>>) -> (leaf: Leaf)
        requires
            hi matches Some(h) ==> lex_lt(lo@, h@),
        ensures
            leaf@.wf(),
            leaf@ == (LeafView {
                lo: lo@,
                hi: opt_view(hi),
                prefix_length: 0,
                entries: Seq::empty(),
                dirty_flush_epoch: None,
                in_memory_size: LEAF_BASE_SIZE,
            }),
    {
        let data = stack_new();
        proof {
            assert(stack_entries(data) =~= Seq::empty());
        }
        Leaf {
            lo,
            hi,
            prefix_length: 0,
            data,
            dirty_flush_epoch: None,
            in_memory_size: LEAF_BASE_SIZE,
        }
    }

    /// The inclusive lower bound of the leaf's range.
    pub fn lo(&self) -> (r: &Vec<u8>)
        ensures
            r@ == self@.lo,
    {
        &self.lo
    }

    /// The exclusive upper bound of the leaf's range, if it has one.
    pub fn hi(&self) -> (r: &Option<Vec<u8>>)
        ensures
            opt_view(*r) == self@.hi,
    {
        &self.hi
    }

    /// The length of the key prefix that the leaf factors out; always zero.
    pub fn prefix_length(&self) -> (r: usize)
        ensures
            r == self@.prefix_length,
    {
        self.prefix_length
    }

    /// The epoch in which the leaf was last changed and not yet written.
    pub fn dirty_flush_epoch(&self) -> (r: Option<u64>)
        ensures
            r == self@.dirty_flush_epoch,
    {
        self.dirty_flush_epoch
    }

    /// The memory that the leaf is counted as taking.
    pub fn in_memory_size(&self) -> (r: usize)
        ensures
            r == self@.in_memory_size,
    {
        self.in_memory_size
    }

    /// The number of entries.
    pub fn len(&self) -> (r: usize)
        ensures
            r == self@.entries.len(),
            r <= LEAF_FANOUT,
    {
        stack_len(&self.data)
    }

    /// Whether the leaf holds as many entries as a leaf can.
    pub fn is_full(&self) -> (r: bool)
        ensures
            r == self@.is_full(),
    {
        stack_len(&self.data) == LEAF_FANOUT
    }

    /// Whether `key` lies in `[lo, hi)`.
    pub fn owns(&self, key: &[u8]) -> (r: bool)
        ensures
            r == self@.owns(key@),
    {
        if !key_le(self.lo.as_slice(), key) {
            return false;
        }
        match &self.hi {
            Some(h) => key_lt(key, h.as_slice()),
            None => true,
        }
    }

    /// The entry at position `i` in key order.
    pub fn entry(&self, i: usize) -> (r: (Vec<u8>, Vec<u8>))
        requires
            i < self@.entries.len(),
        ensures
            (r.0@, r.1@) == self@.entries[i as int],
    {
        match stack_get_index(&self.data, i) {
            Some(kv) => kv,
            None => (Vec::new(), Vec::new()),
        }
    }

    /// Marks the leaf as changed in `epoch`, or as clean.
    pub fn set_dirty_flush_epoch(&mut self, epoch: Option<u64>)
        requires
            epoch matches Some(e) ==> e >= 1,
        ensures
            final(self)@ == old(self)@.with_dirty(epoch),
    {
        self.dirty_flush_epoch = epoch;
    }

    /// The value stored under `key`.
    pub fn get(&self, key: &[u8]) -> (r: Option<Vec<u8>>)
        requires
            self@.wf(),
        ensures
            opt_view(r) == self@.get(key@),
    {
        stack_get(&self.data, key)
    }

    /// Sets `key` to `value` and returns the value it had. The size moves by
    /// the difference between the new pair and the old one.
    pub fn insert(&mut self, key: &[u8], value: Vec<u8>) -> (r: Option<Vec<u8>>)
        requires
            old(self)@.wf(),
            old(self)@.owns(key@),
            old(self)@.get(key@).is_some() || !old(self)@.is_full(),
        ensures
            final(self)@ == old(self)@.insert(key@, value@),
            final(self)@.wf(),
            opt_view(r) == old(self)@.get(key@),
    {
        proof {
            lemma_insert_wf(self@, key@, value@);
        }
        let klen = key.len();
        let vlen = value.len();
        let r = stack_insert(&mut self.data, key_copy(key), value);
        let new_size = sat_add(klen, vlen);
        let old_size = match &r {
            Some(ov) => sat_add(klen, ov.len()),
            None => 0,
        };
        if new_size > old_size {
            self.in_memory_size = sat_add(self.in_memory_size, new_size - old_size);
        } else {
            self.in_memory_size = sat_sub(self.in_memory_size, old_size - new_size);
        }
        r
    }

    /// Removes `key` and returns the value it had. The size drops by the
    /// pair that left.
    pub fn remove(&mut self, key: &[u8]) -> (r: Option<Vec<u8>>)
        requires
            old(self)@.wf(),
            !old(self)@.is_full(),
        ensures
            final(self)@ == old(self)@.remove(key@),
            final(self)@.wf(),
            opt_view(r) == old(self)@.get(key@),
    {
        proof {
            lemma_remove_wf(self@, key@);
        }
        let r = stack_remove(&mut self.data, key);
        match &r {
            Some(ov) => {
                self.in_memory_size = sat_sub(self.in_memory_size, sat_add(key.len(), ov.len()));
            },
            None => {},
        }
        r
    }

    /// Counts the leaf's memory afresh from its bounds and entries.
    pub fn set_in_memory_size(&mut self)
        ensures
            final(self)@ == (LeafView { in_memory_size: old(self)@.footprint(), ..old(self)@ }),
    {
        let hi_len = match &self.hi {
            Some(h) => h.len(),
            None => 0,
        };
        let mut size = sat_add(sat_add(LEAF_BASE_SIZE, hi_len), self.lo.len());
        let n = stack_len(&self.data);
        let ghost base = LEAF_BASE_SIZE + hi_len + self.lo@.len();
        let mut i: usize = 0;
        while i < n
            invariant
                0 <= i <= n,
                n == stack_entries(self.data).len(),
                base >= 0,
                size == sat(base + payload(stack_entries(self.data), i as int)),
                payload(stack_entries(self.data), i as int) >= 0,
            decreases n - i,
        {
            match stack_get_index(&self.data, i) {
                Some(kv) => {
                    size = sat_add(sat_add(size, kv.0.len()), kv.1.len());
                },
                None => {},
            }
            i += 1;
        }
        self.in_memory_size = size;
    }


    /// The entries in key order.
    pub fn entries(&self) -> (r: Vec<(Vec<u8>, Vec<u8>)>)
        ensures
            pairs_view(r@) == self@.entries,
    {
        let n = stack_len(&self.data);
        let mut out: Vec<(Vec<u8>, Vec<u8>)> = Vec::new();
        let mut i: usize = 0;
        while i < n
            invariant
                0 <= i <= n,
                n == stack_entries(self.data).len(),
                out@.len() == i,
                forall|j: int|
                    0 <= j < i ==> (#[trigger] out@[j]).0@ == stack_entries(self.data)[j].0
                        && out@[j].1@ == stack_entries(self.data)[j].1,
            decreases n - i,
        {
            match stack_get_index(&self.data, i) {
                Some(kv) => {
                    out.push(kv);
                },
                None => {},
            }
            i += 1;
        }
        proof {
            assert(pairs_view(out@) =~= stack_entries(self.data));
        }
        out
    }

    /// The number of entries whose key is below `key`.
    pub fn position(&self, key: &[u8]) -> (i: usize)
        requires
            self@.wf(),
        ensures
            i == crate::entries::lower_bound(self@.entries, key@),
            i <= self@.entries.len(),
    {
        let n = stack_len(&self.data);
        let ghost all = self@.entries;
        let mut lo: usize = 0;
        let mut hi: usize = n;
        while lo < hi
            invariant
                0 <= lo <= hi <= n,
                n == all.len(),
                all == stack_entries(self.data),
                sorted(all),
                forall|j: int| 0 <= j < lo ==> lex_lt(#[trigger] all[j].0, key@),
                forall|j: int| hi <= j < n ==> !lex_lt(#[trigger] all[j].0, key@),
            decreases hi - lo,
        {
            let mid = lo + (hi - lo) / 2;
            let below = match stack_get_index(&self.data, mid) {
                Some(kv) => key_lt(kv.0.as_slice(), key),
                None => false,
            };
            if below {
                proof {
                    assert forall|j: int| 0 <= j < mid + 1 implies lex_lt(
                        #[trigger] all[j].0,
                        key@,
                    ) by {
                        if j < mid {
                            lemma_lex_lt_transitive(all[j].0, all[mid as int].0, key@);
                        }
                    }
                }
                lo = mid + 1;
            } else {
                proof {
                    assert forall|j: int| mid <= j < n implies !lex_lt(
                        #[trigger] all[j].0,
                        key@,
                    ) by {
                        if mid < j && lex_lt(all[j].0, key@) {
                            lemma_lex_lt_transitive(all[mid as int].0, all[j].0, key@);
                        }
                    }
                }
                hi = mid;
            }
        }
        proof {
            crate::entries::lemma_lower_bound_is(all, key@, lo as int);
        }
        lo
    }

    /// The position of the first entry at or after `start`.
    fn start_index(&self, start: &Bound<Vec<u8>>) -> (i: usize)
        requires
            self@.wf(),
        ensures
            i <= self@.entries.len(),
            forall|j: int| 0 <= j < i ==> !above_start(bound_view(*start), #[trigger] self@.entries[j].0),
            forall|j: int|
                i <= j < self@.entries.len() ==> above_start(
                    bound_view(*start),
                    #[trigger] self@.entries[j].0,
                ),
    {
        let ghost all = self@.entries;
        match start {
            Bound::Unbounded => 0,
            Bound::Included(b) => {
                let p = self.position(b.as_slice());
                proof {
                    crate::entries::lemma_lower_bound(all, b@);
                    assert forall|j: int| 0 <= j < p implies !lex_le(b@, #[trigger] all[j].0) by {
                        lemma_lex_trichotomy(b@, all[j].0);
                    }
                }
                p
            },
            Bound::Excluded(b) => {
                let p = self.position(b.as_slice());
                let same = match stack_get_index(&self.data, p) {
                    Some(kv) => crate::bytes::key_eq(kv.0.as_slice(), b.as_slice()),
                    None => false,
                };
                proof {
                    crate::entries::lemma_lower_bound(all, b@);
                    assert forall|j: int| 0 <= j < p implies !lex_lt(b@, #[trigger] all[j].0) by {
                        lemma_lex_trichotomy(b@, all[j].0);
                    }
                    lemma_lex_trichotomy(b@, b@);
                    if same {
                        assert forall|j: int| p + 1 <= j < all.len() implies lex_lt(
                            b@,
                            #[trigger] all[j].0,
                        ) by {
                            assert(lex_lt(all[p as int].0, all[j].0));
                        }
                    } else {
                        assert(!crate::entries::has_key(all, b@));
                    }
                }
                if same {
                    p + 1
                } else {
                    p
                }
            },
        }
    }

    /// The position just after the last entry at or before `end`.
    fn end_index(&self, end: &Bound<Vec<u8>>) -> (i: usize)
        requires
            self@.wf(),
        ensures
            i <= self@.entries.len(),
            forall|j: int| 0 <= j < i ==> below_end(bound_view(*end), #[trigger] self@.entries[j].0),
            forall|j: int|
                i <= j < self@.entries.len() ==> !below_end(
                    bound_view(*end),
                    #[trigger] self@.entries[j].0,
                ),
    {
        let ghost all = self@.entries;
        match end {
            Bound::Unbounded => stack_len(&self.data),
            Bound::Excluded(e) => {
                let p = self.position(e.as_slice());
                proof {
                    crate::entries::lemma_lower_bound(all, e@);
                    assert forall|j: int| p <= j < all.len() implies !lex_lt(
                        #[trigger] all[j].0,
                        e@,
                    ) by {
                        lemma_lex_trichotomy(e@, all[j].0);
                    }
                }
                p
            },
            Bound::Included(e) => {
                let p = self.position(e.as_slice());
                let same = match stack_get_index(&self.data, p) {
                    Some(kv) => crate::bytes::key_eq(kv.0.as_slice(), e.as_slice()),
                    None => false,
                };
                proof {
                    crate::entries::lemma_lower_bound(all, e@);
                    assert forall|j: int| 0 <= j < p implies lex_le(#[trigger] all[j].0, e@) by {}
                    if same {
                        assert forall|j: int| p + 1 <= j < all.len() implies !lex_le(
                            #[trigger] all[j].0,
                            e@,
                        ) by {
                            assert(lex_lt(all[p as int].0, all[j].0));
                            lemma_lex_trichotomy(all[j].0, e@);
                        }
                    } else {
                        assert(!crate::entries::has_key(all, e@));
                        assert forall|j: int| p <= j < all.len() implies !lex_le(
                            #[trigger] all[j].0,
                            e@,
                        ) by {
                            lemma_lex_trichotomy(all[j].0, e@);
                        }
                    }
                }
                if same {
                    p + 1
                } else {
                    p
                }
            },
        }
    }

    /// The entry with the least key between `start` and `end`, if the leaf
    /// holds one.
    pub fn first_in(&self, start: &Bound<Vec<u8>>, end: &Bound<Vec<u8>>) -> (r: Option<
        (Vec<u8>, Vec<u8>),
    >)
        requires
            self@.wf(),
        ensures
            (match r {
                Some(kv) => {
                    &&& in_bounds(bound_view(*start), bound_view(*end), kv.0@)
                    &&& self@.get(kv.0@) == Some(kv.1@)
                    &&& forall|q: Seq<u8>|
                        in_bounds(bound_view(*start), bound_view(*end), q) && lex_lt(q, kv.0@)
                            ==> (#[trigger] self@.get(q)).is_none()
                },
                None => forall|q: Seq<u8>|
                    in_bounds(bound_view(*start), bound_view(*end), q) ==> (#[trigger] self@.get(
                        q,
                    )).is_none(),
            }),
    {
        let ghost all = self@.entries;
        let i = self.start_index(start);
        let found = match stack_get_index(&self.data, i) {
            Some(kv) => {
                if is_below_end(end, kv.0.as_slice()) {
                    Some(kv)
                } else {
                    None
                }
            },
            None => None,
        };
        proof {
            assert forall|q: Seq<u8>|
                in_bounds(bound_view(*start), bound_view(*end), q) && (#[trigger] self@.get(
                    q,
                )).is_some() implies i < all.len() && lex_le(all[i as int].0, q) && below_end(
                bound_view(*end),
                all[i as int].0,
            ) by {
                crate::entries::lemma_has_key_iff(all, q);
                let j = choose|j: int| 0 <= j < all.len() && (#[trigger] all[j]).0 == q;
                assert(above_start(bound_view(*start), all[j].0));
                if i < j {
                    assert(lex_lt(all[i as int].0, all[j].0));
                    if !below_end(bound_view(*end), all[i as int].0) {
                        crate::range::lemma_end_separates(bound_view(*end), q, all[i as int].0);
                        lemma_lex_trichotomy(q, all[i as int].0);
                    }
                }
            }
            if found.is_some() {
                crate::entries::lemma_lookup_at(all, i as int);
                assert forall|q: Seq<u8>|
                    in_bounds(bound_view(*start), bound_view(*end), q) && lex_lt(
                        q,
                        all[i as int].0,
                    ) implies (#[trigger] self@.get(q)).is_none() by {
                    lemma_lex_trichotomy(q, all[i as int].0);
                }
            }
        }
        found
    }

    /// The entry with the greatest key between `start` and `end`, if the
    /// leaf holds one.
    pub fn last_in(&self, start: &Bound<Vec<u8>>, end: &Bound<Vec<u8>>) -> (r: Option<
        (Vec<u8>, Vec<u8>),
    >)
        requires
            self@.wf(),
        ensures
            (match r {
                Some(kv) => {
                    &&& in_bounds(bound_view(*start), bound_view(*end), kv.0@)
                    &&& self@.get(kv.0@) == Some(kv.1@)
                    &&& forall|q: Seq<u8>|
                        in_bounds(bound_view(*start), bound_view(*end), q) && lex_lt(kv.0@, q)
                            ==> (#[trigger] self@.get(q)).is_none()
                },
                None => forall|q: Seq<u8>|
                    in_bounds(bound_view(*start), bound_view(*end), q) ==> (#[trigger] self@.get(
                        q,
                    )).is_none(),
            }),
    {
        let ghost all = self@.entries;
        let i = self.end_index(end);
        if i == 0 {
            proof {
                assert forall|q: Seq<u8>|
                    in_bounds(bound_view(*start), bound_view(*end), q) implies (
                #[trigger] self@.get(q)).is_none() by {
                    crate::entries::lemma_has_key_iff(all, q);
                    if self@.get(q).is_some() {
                        let j = choose|j: int| 0 <= j < all.len() && (#[trigger] all[j]).0 == q;
                        assert(!below_end(bound_view(*end), all[j].0));
                    }
                }
            }
            return None;
        }
        let found = match stack_get_index(&self.data, i - 1) {
            Some(kv) => {
                if is_above_start(start, kv.0.as_slice()) {
                    Some(kv)
                } else {
                    None
                }
            },
            None => None,
        };
        proof {
            let last = all[i - 1].0;
            assert forall|q: Seq<u8>|
                in_bounds(bound_view(*start), bound_view(*end), q) && (#[trigger] self@.get(
                    q,
                )).is_some() implies lex_le(q, last) && above_start(bound_view(*start), last) by {
                crate::entries::lemma_has_key_iff(all, q);
                let j = choose|j: int| 0 <= j < all.len() && (#[trigger] all[j]).0 == q;
                assert(below_end(bound_view(*end), all[j].0));
                if j < i - 1 {
                    assert(lex_lt(all[j].0, all[i - 1].0));
                    if !above_start(bound_view(*start), last) {
                        crate::range::lemma_start_separates(bound_view(*start), q, last);
                        lemma_lex_trichotomy(q, last);
                    }
                }
            }
            if found.is_some() {
                crate::entries::lemma_lookup_at(all, i - 1);
                assert forall|q: Seq<u8>|
                    in_bounds(bound_view(*start), bound_view(*end), q) && lex_lt(
                        last,
                        q,
                    ) implies (#[trigger] self@.get(q)).is_none() by {
                    lemma_lex_trichotomy(q, last);
                }
            }
        }
        found
    }

    /// The entries whose keys lie between `start` and `end`, in key order.
    pub fn entries_in(&self, start: &Bound<Vec<u8>>, end: &Bound<Vec<u8>>) -> (r: Vec<
        (Vec<u8>, Vec<u8>),
    >)
        requires
            self@.wf(),
        ensures
            sorted(pairs_view(r@)),
            forall|i: int|
                0 <= i < r.len() ==> in_bounds(
                    bound_view(*start),
                    bound_view(*end),
                    (#[trigger] r[i]).0@,
                ) && self@.get(r[i].0@) == Some(r[i].1@),
            forall|q: Seq<u8>|
                in_bounds(bound_view(*start), bound_view(*end), q) && (#[trigger] self@.get(
                    q,
                )).is_some() ==> exists|i: int| 0 <= i < r.len() && (#[trigger] r[i]).0@ == q,
    {
        let n = stack_len(&self.data);
        let ghost all = self@.entries;
        let ghost mut picks: Seq<int> = Seq::empty();
        let mut out: Vec<(Vec<u8>, Vec<u8>)> = Vec::new();
        let mut j: usize = 0;
        while j < n
            invariant
                0 <= j <= n,
                n == all.len(),
                all == stack_entries(self.data),
                out@.len() == picks.len(),
                forall|i: int| 0 <= i < picks.len() ==> 0 <= #[trigger] picks[i] < j,
                forall|a: int, b: int| 0 <= a < b < picks.len() ==> picks[a] < picks[b],
                forall|i: int|
                    0 <= i < picks.len() ==> (#[trigger] out@[i]).0@ == all[picks[i]].0 && out@[i].1@
                        == all[picks[i]].1,
                forall|i: int|
                    0 <= i < picks.len() ==> in_bounds(
                        bound_view(*start),
                        bound_view(*end),
                        all[#[trigger] picks[i]].0,
                    ),
                forall|m: int|
                    0 <= m < j && in_bounds(
                        bound_view(*start),
                        bound_view(*end),
                        (#[trigger] all[m]).0,
                    ) ==> exists|i: int| 0 <= i < picks.len() && picks[i] == m,
            decreases n - j,
        {
            let ghost old_picks = picks;
            match stack_get_index(&self.data, j) {
                Some(kv) => {
                    if is_above_start(start, kv.0.as_slice()) && is_below_end(end, kv.0.as_slice()) {
                        out.push(kv);
                        proof {
                            picks = picks.push(j as int);
                        }
                    }
                },
                None => {},
            }
            proof {
                assert forall|m: int|
                    0 <= m < j + 1 && in_bounds(
                        bound_view(*start),
                        bound_view(*end),
                        (#[trigger] all[m]).0,
                    ) implies exists|i: int| 0 <= i < picks.len() && picks[i] == m by {
                    if m < j {
                        let i = choose|i: int| 0 <= i < old_picks.len() && old_picks[i] == m;
                        assert(picks[i] == m);
                    } else {
                        assert(picks[picks.len() - 1] == m);
                    }
                }
            }
            j += 1;
        }
        proof {
            let pv = pairs_view(out@);
            assert forall|a: int, b: int| 0 <= a < b < pv.len() implies lex_lt(
                #[trigger] pv[a].0,
                #[trigger] pv[b].0,
            ) by {
                assert(pv[a].0 == all[picks[a]].0 && pv[b].0 == all[picks[b]].0);
            }
            assert forall|i: int| 0 <= i < out.len() implies in_bounds(
                bound_view(*start),
                bound_view(*end),
                (#[trigger] out[i]).0@,
            ) && self@.get(out[i].0@) == Some(out[i].1@) by {
                crate::entries::lemma_lookup_at(all, picks[i]);
            }
            assert forall|q: Seq<u8>|
                in_bounds(bound_view(*start), bound_view(*end), q) && (#[trigger] self@.get(
                    q,
                )).is_some() implies exists|i: int| 0 <= i < out.len() && (#[trigger] out[i]).0@
                == q by {
                let m = crate::entries::lower_bound(all, q);
                assert(all[m].0 == q);
                let i = choose|i: int| 0 <= i < picks.len() && picks[i] == m;
                assert(out[i].0@ == q);
            }
        }
        out
    }

    /// The bytes that stand for the leaf in the store: the record of its
    /// bounds, prefix length, entries and size, compressed at `level`.
    /// Nothing is returned where the encoder or the compressor fails. What is
    /// returned reads back as this leaf, clean, with the record's length as
    /// its size.
    pub fn serialize(&self, level: i32) -> (r: Option<Vec<u8>>)
        requires
            self@.wf(),
        ensures
            opt_view(r) == self@.serialized(level),
            opt_view(r) == self@.written(level),
            r matches Some(b) ==> self@.record().is_some() && deserialized(b@) == Some(
                self@.reloaded(self@.record().unwrap().len() as usize),
            ),
    {
        let entries = self.entries();
        let record = encode_record(
            &self.lo,
            &self.hi,
            self.prefix_length as u64,
            &entries,
            self.in_memory_size as u64,
        );
        match record {
            Some(raw) => {
                let r = compress(raw.as_slice(), level);
                proof {
                    if r is Some {
                        let f = (
                            self@.lo,
                            self@.hi,
                            self@.prefix_length as u64,
                            self@.entries,
                            self@.in_memory_size as u64,
                        );
                        assert(record_fields(raw@) == Some(f));
                        assert(f.2 as usize == self@.prefix_length);
                        assert(leaf_of_fields(f, raw@.len() as usize) == Some(
                            self@.reloaded(raw@.len() as usize),
                        ));
                    }
                }
                r
            },
            None => None,
        }
    }

    /// The leaf that `bytes` stand for: decompressed, decoded, and checked
    /// to be a leaf. Its size is the length of the decompressed record, and
    /// it is clean. Bytes that do not stand for a leaf are rejected as
    /// corrupt.
    pub fn deserialize(bytes: &[u8]) -> (r: Result<Leaf, Error>)
        ensures
            (match r {
                Ok(leaf) => deserialized(bytes@) == Some(leaf@) && leaf@.wf(),
                Err(e) => deserialized(bytes@).is_none() && e.kind == ErrorKind::Corruption,
            }),
    {
        let raw = match decompress(bytes) {
            Some(raw) => raw,
            None => {
                return Err(Error::new(ErrorKind::Corruption, "leaf bytes are not a zstd frame"));
            },
        };
        let fields = match decode_record(raw.as_slice()) {
            Some(f) => f,
            None => {
                return Err(Error::new(ErrorKind::Corruption, "leaf record cannot be decoded"));
            },
        };
        let (lo, hi, prefix_length, entries, _size) = fields;
        let ghost f = record_fields(raw@).unwrap();
        proof {
            assert(f.0 == lo@ && f.1 == opt_view(hi) && f.2 == prefix_length && f.3 == pairs_view(
                entries@,
            ));
        }
        if prefix_length > usize::MAX as u64 {
            return Err(Error::new(ErrorKind::Corruption, "leaf prefix length is out of range"));
        }
        let range_ok = match &hi {
            Some(h) => key_lt(lo.as_slice(), h.as_slice()),
            None => true,
        };
        if !range_ok || entries.len() > LEAF_FANOUT {
            return Err(Error::new(ErrorKind::Corruption, "leaf bounds or size are invalid"));
        }
        let mut leaf = Leaf {
            lo,
            hi,
            prefix_length: prefix_length as usize,
            data: stack_new(),
            dirty_flush_epoch: None,
            in_memory_size: raw.len(),
        };
        proof {
            assert(stack_entries(leaf.data) =~= f.3.take(0));
        }
        let n = entries.len();
        let mut i: usize = 0;
        while i < n
            invariant
                0 <= i <= n,
                n == entries@.len(),
                n <= LEAF_FANOUT,
                f.3 == pairs_view(entries@),
                zstd_content(bytes@) == Some(raw@),
                record_fields(raw@) == Some(f),
                stack_entries(leaf.data) == f.3.take(i as int),
                sorted(f.3.take(i as int)),
                within(f.3.take(i as int), leaf.lo@, opt_view(leaf.hi)),
                leaf.lo@ == f.0,
                opt_view(leaf.hi) == f.1,
                leaf.prefix_length == f.2,
                leaf.dirty_flush_epoch.is_none(),
                leaf.in_memory_size == raw@.len(),
                f.2 <= usize::MAX,
                f.1 matches Some(h) ==> lex_lt(f.0, h),
            decreases n - i,
        {
            let key = key_copy(entries[i].0.as_slice());
            let value = key_copy(entries[i].1.as_slice());
            let ghost done = f.3.take(i as int);
            let ascending = if i == 0 {
                true
            } else {
                key_lt(entries[i - 1].0.as_slice(), key.as_slice())
            };
            if !ascending || !leaf.owns(key.as_slice()) {
                proof {
                    // the fields fail to be a leaf at position i
                    let l = leaf_view_of(f, raw@.len() as usize);
                    assert(l.entries[i as int] == (entries@[i as int].0@, entries@[i as int].1@));
                    assert(zstd_content(bytes@) == Some(raw@));
                    if !ascending {
                        assert(l.entries[i - 1] == (entries@[i - 1].0@, entries@[i - 1].1@));
                        assert(!lex_lt(l.entries[i - 1].0, l.entries[i as int].0));
                    } else {
                        assert(!in_range(l.entries[i as int].0, l.lo, l.hi));
                    }
                    assert(!l.wf());
                }
                return Err(Error::new(ErrorKind::Corruption, "leaf entries are out of order"));
            }
            proof {
                if i > 0 {
                    assert(done.last() == f.3[i - 1]);
                }
                lemma_put_last(done, key@, value@);
                assert(done.push((key@, value@)) =~= f.3.take(i as int + 1));
                lemma_put_sorted(done, key@, value@);
                lemma_put_within(done, key@, value@, leaf.lo@, opt_view(leaf.hi));
            }
            stack_insert(&mut leaf.data, key, value);
            i += 1;
        }
        proof {
            assert(f.3.take(n as int) =~= f.3);
            assert(leaf@ == leaf_view_of(f, raw@.len() as usize));
        }
        Ok(leaf)
    }

    /// Splits the leaf if it is full. The entries from the split offset on
    /// move to a new leaf, dirty in `new_epoch`, whose range starts at the
    /// split key; this leaf's range now ends there. Both sizes are counted
    /// afresh.
    pub fn split_if_full(&mut self, new_epoch: u64) -> (r: Option<(Vec<u8>, Leaf)>)
        requires
            old(self)@.wf(),
            new_epoch >= 1,
        ensures
            (match r {
                Some((key, rhs)) => {
                    &&& old(self)@.is_full()
                    &&& key@ == old(self)@.split_key()
                    &&& final(self)@ == old(self)@.split_left()
                    &&& rhs@ == old(self)@.split_right(new_epoch)
                },
                None => !old(self)@.is_full() && final(self)@ == old(self)@,
            }),
            final(self)@.wf(),
            !final(self)@.is_full(),
    {
        let n = stack_len(&self.data);
        if n != LEAF_FANOUT {
            return None;
        }
        proof {
            lemma_split_wf(self@, new_epoch);
        }
        let split_offset: usize = if self.lo.len() == 0 {
            1
        } else if self.hi.is_none() {
            n - 2
        } else {
            n / 2
        };
        let ghost pre = self@;
        let data = stack_split_off(&mut self.data, split_offset);
        let left_max = match stack_get_index(&self.data, split_offset - 1) {
            Some(kv) => kv.0,
            None => Vec::new(),
        };
        let right_min = match stack_get_index(&data, 0) {
            Some(kv) => kv.0,
            None => Vec::new(),
        };
        proof {
            assert(left_max@ == pre.entries[split_offset - 1].0);
            assert(right_min@ == pre.entries[split_offset as int].0);
            assert(lex_lt(pre.entries[split_offset - 1].0, pre.entries[split_offset as int].0));
        }
        let key = split_key(left_max.as_slice(), right_min.as_slice());
        let mut rhs = Leaf {
            lo: key_copy(key.as_slice()),
            hi: opt_copy(&self.hi),
            prefix_length: 0,
            data,
            dirty_flush_epoch: Some(new_epoch),
            in_memory_size: 0,
        };
        rhs.set_in_memory_size();
        self.hi = Some(key_copy(key.as_slice()));
        self.set_in_memory_size();
        Some((key, rhs))
    }
}

} // verus!
