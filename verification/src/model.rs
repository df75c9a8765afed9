//! The store as a mathematical value: what it holds, what has to hold of it
//! at every step, and what each operation makes of it.

use crate::bytes::{lex_le, lex_lt};
use crate::epoch::FlushEpochView;
use crate::error::{ErrorKind, ErrorView};
use crate::leaf::LeafView;
use crate::maps::{dirty_key, dirty_key_lt};
use vstd::prelude::*;

verus! {

/// `lo` is the low key that `key` is routed to: the greatest one at or below
/// it.
pub open spec fn routes(index: Map<Seq<u8>, u64>, key: Seq<u8>, lo: Seq<u8>) -> bool {
    &&& index.contains_key(lo)
    &&& lex_le(lo, key)
    &&& forall|k: Seq<u8>| #[trigger] index.contains_key(k) && lex_le(k, key) ==> lex_le(k, lo)
}

/// `hi` is the low key that follows `lo` in the index, if any does.
pub open spec fn is_successor(index: Map<Seq<u8>, u64>, lo: Seq<u8>, hi: Option<Seq<u8>>) -> bool {
    match hi {
        Some(h) => {
            &&& index.contains_key(h)
            &&& lex_lt(lo, h)
            &&& forall|k: Seq<u8>| #[trigger] index.contains_key(k) && lex_lt(lo, k) ==> lex_le(h, k)
        },
        None => forall|k: Seq<u8>| #[trigger] index.contains_key(k) ==> !lex_lt(lo, k),
    }
}

/// The error that stands for a leaf that could not be serialized.
pub open spec fn serialize_failure() -> ErrorView {
    ErrorView { kind: ErrorKind::Other, reason: "leaf could not be serialized"@ }
}

/// `bytes` read back as `leaf`, clean and with the length of its record as
/// its size.
pub open spec fn reads_back(bytes: Seq<u8>, leaf: LeafView) -> bool {
    &&& leaf.record() matches Some(record)
    &&& crate::leaf::deserialized(bytes) == Some(leaf.reloaded(record.len() as usize))
}

/// `bytes` stand for a leaf with the low key `lo`, clean and well formed.
pub open spec fn holds_leaf(bytes: Seq<u8>, lo: Seq<u8>) -> bool {
    crate::leaf::deserialized(bytes) matches Some(leaf) && leaf.wf() && leaf.lo == lo
        && leaf.dirty_flush_epoch.is_none()
}

/// The store as a mathematical value.
pub struct DbView {
    /// Low key to node id, one entry for each node.
    pub index: Map<Seq<u8>, u64>,
    /// Node id to low key.
    pub low_keys: Map<u64, Seq<u8>>,
    /// The leaves that are in memory, by node id.
    pub leaves: Map<u64, LeafView>,
    /// Epoch and low key of each leaf that owes a write, with the bytes
    /// serialized ahead of the flush where there are any.
    pub dirty: Map<(u64, Seq<u8>), Option<Seq<u8>>>,
    pub epoch: FlushEpochView,
    /// The first fatal error.
    pub error: Option<ErrorView>,
    /// Node ids at hand for the next splits; the last one goes first.
    pub spare_ids: Seq<u64>,
    /// The compression level.
    pub level: i32,
    pub was_recovered: bool,
}

impl DbView {
    /// The low key that `key` is routed to.
    pub open spec fn owner_key(self, key: Seq<u8>) -> Seq<u8> {
        choose|lo: Seq<u8>| routes(self.index, key, lo)
    }

    /// The node that `key` belongs to.
    pub open spec fn owner(self, key: Seq<u8>) -> u64 {
        self.index[self.owner_key(key)]
    }

    /// Whether the leaf that `key` belongs to is in memory.
    pub open spec fn resident(self, key: Seq<u8>) -> bool {
        self.leaves.contains_key(self.owner(key))
    }

    /// What the leaf that `key` belongs to holds for it.
    pub open spec fn lookup(self, key: Seq<u8>) -> Option<Seq<u8>> {
        self.leaves[self.owner(key)].get(key)
    }

    /// An epoch that a leaf may be dirty in: the current one, or the one
    /// before while that one is being flushed.
    pub open spec fn live_epoch(self, e: u64) -> bool {
        e == self.epoch.current || (self.epoch.flushing && e + 1 == self.epoch.current)
    }

    /// The index and the map from node ids mirror each other.
    pub open spec fn maps_agree(self) -> bool {
        &&& forall|id: u64| #[trigger]
            self.low_keys.contains_key(id) ==> self.index.contains_key(self.low_keys[id])
                && self.index[self.low_keys[id]] == id
        &&& forall|k: Seq<u8>| #[trigger]
            self.index.contains_key(k) ==> self.low_keys.contains_key(self.index[k])
                && self.low_keys[self.index[k]] == k
    }

    /// Each leaf in memory is well formed and not full, stands under its low
    /// key, and ends where the next node begins. The leaf of node `exempt`
    /// may be full: it is about to split.
    pub open spec fn leaves_fit_but(self, exempt: Option<u64>) -> bool {
        forall|id: u64| #[trigger]
            self.leaves.contains_key(id) ==> {
                &&& self.low_keys.contains_key(id)
                &&& self.leaves[id].wf()
                &&& (exempt != Some(id) ==> !self.leaves[id].is_full())
                &&& self.leaves[id].lo == self.low_keys[id]
                &&& is_successor(self.index, self.leaves[id].lo, self.leaves[id].hi)
            }
    }

    /// Each leaf in memory is well formed and not full, stands under its low
    /// key, and ends where the next node begins.
    pub open spec fn leaves_fit(self) -> bool {
        self.leaves_fit_but(None)
    }

    /// A leaf is dirty in an epoch exactly when the dirty set holds that
    /// epoch and the leaf's low key with no bytes; and no leaf or entry is
    /// dirty in an epoch older than the one being flushed.
    pub open spec fn dirty_agrees(self) -> bool {
        &&& forall|id: u64| #[trigger]
            self.leaves.contains_key(id) ==> (self.leaves[id].dirty_flush_epoch matches Some(e)
                ==> {
                &&& self.live_epoch(e)
                &&& self.dirty.contains_key((e, self.leaves[id].lo))
                &&& self.dirty[(e, self.leaves[id].lo)].is_none()
            })
        &&& forall|k: (u64, Seq<u8>)| #[trigger]
            self.dirty.contains_key(k) ==> {
                &&& self.live_epoch(k.0)
                &&& self.index.contains_key(k.1)
                &&& (self.dirty[k].is_none() ==> self.leaves.contains_key(self.index[k.1])
                    && self.leaves[self.index[k.1]].dirty_flush_epoch == Some(k.0))
            }
    }

    /// The bytes that the dirty set holds stand for a leaf, clean and well
    /// formed, with the low key that they are stored under.
    pub open spec fn bytes_readable(self) -> bool {
        forall|k: (u64, Seq<u8>)| #[trigger]
            self.dirty.contains_key(k) ==> (self.dirty[k] matches Some(b) ==> holds_leaf(b, k.1))
    }

    /// The spare node ids are new to the store and differ from each other.
    pub open spec fn spares_fresh(self) -> bool {
        &&& forall|i: int|
            0 <= i < self.spare_ids.len() ==> !self.low_keys.contains_key(
                #[trigger] self.spare_ids[i],
            )
        &&& forall|i: int, j: int|
            0 <= i < j < self.spare_ids.len() ==> self.spare_ids[i] != self.spare_ids[j]
    }

    /// What holds of the store at every step, but that the leaf of node
    /// `exempt` may be full.
    pub open spec fn inv_but(self, exempt: Option<u64>) -> bool {
        &&& self.index.dom().finite()
        &&& self.index.contains_key(Seq::<u8>::empty())
        &&& self.maps_agree()
        &&& self.leaves_fit_but(exempt)
        &&& self.dirty_agrees()
        &&& self.bytes_readable()
        &&& self.spares_fresh()
        &&& self.epoch.wf()
    }

    /// What holds of the store at every step.
    pub open spec fn inv(self) -> bool {
        self.inv_but(None)
    }

    /// The store after a writer of the current epoch came upon node `id`.
    /// Where the leaf is dirty in the epoch before, the writer serializes it
    /// for the flush of that epoch: the bytes go to the dirty set and the
    /// leaf is clean again.
    pub open spec fn cooperate(self, id: u64) -> DbView {
        let leaf = self.leaves[id];
        match leaf.dirty_flush_epoch {
            Some(e) => if e != self.epoch.current {
                DbView {
                    leaves: self.leaves.insert(id, leaf.with_dirty(None)),
                    dirty: self.dirty.insert((e, leaf.lo), leaf.written(self.level)),
                    ..self
                }
            } else {
                self
            },
            None => self,
        }
    }

    /// Whether the cooperative flush of node `id` can be done: there is
    /// nothing to serialize, or the bytes can be made, and the leaf comes
    /// back from them as it is.
    pub open spec fn can_cooperate(self, id: u64) -> bool {
        let leaf = self.leaves[id];
        match leaf.dirty_flush_epoch {
            Some(e) => e == self.epoch.current || leaf.written(self.level).is_some(),
            None => true,
        }
    }

    /// What has to hold before an edited leaf is settled: the invariant but
    /// for that leaf's fullness, a leaf that is clean or dirty in the current
    /// epoch, and a node id at hand if it has to split.
    pub open spec fn settle_ready(self, id: u64) -> bool {
        &&& self.inv_but(Some(id))
        &&& self.leaves.contains_key(id)
        &&& (self.leaves[id].dirty_flush_epoch matches Some(e) ==> e == self.epoch.current)
        &&& (self.leaves[id].is_full() ==> self.spare_ids.len() > 0)
    }

    /// The store after the edited leaf of node `id` was settled. A full leaf
    /// splits: the right half becomes the leaf of a new node, under the last
    /// spare id and the split key, and both halves are dirty in the current
    /// epoch. A leaf that is not full becomes dirty in the current epoch if
    /// it `changed`.
    pub open spec fn settle(self, id: u64, changed: bool) -> DbView {
        let leaf = self.leaves[id];
        let e = self.epoch.current;
        if leaf.is_full() {
            let rid = self.spare_ids.last();
            let sk = leaf.split_key();
            DbView {
                leaves: self.leaves.insert(id, leaf.split_left().with_dirty(Some(e))).insert(
                    rid,
                    leaf.split_right(e),
                ),
                index: self.index.insert(sk, rid),
                low_keys: self.low_keys.insert(rid, sk),
                dirty: self.dirty.insert((e, leaf.lo), None).insert((e, sk), None),
                spare_ids: self.spare_ids.drop_last(),
                ..self
            }
        } else if changed {
            DbView {
                leaves: self.leaves.insert(id, leaf.with_dirty(Some(e))),
                dirty: self.dirty.insert((e, leaf.lo), None),
                ..self
            }
        } else {
            self
        }
    }

    /// The store after `key` was set to `value`.
    pub open spec fn inserted(self, key: Seq<u8>, value: Seq<u8>) -> DbView {
        let id = self.owner(key);
        let s = self.cooperate(id);
        let leaf = s.leaves[id];
        s.with_leaf(id, leaf.insert(key, value)).settle(id, leaf.get(key) != Some(value))
    }

    /// The store after `key` was removed.
    pub open spec fn removed(self, key: Seq<u8>) -> DbView {
        let id = self.owner(key);
        let s = self.cooperate(id);
        let leaf = s.leaves[id];
        s.with_leaf(id, leaf.remove(key)).settle(id, leaf.get(key).is_some())
    }

    /// The store after a compare-and-swap on `key` that expected `expected`
    /// and proposed `proposed`. Where the expectation was met the key is set
    /// or removed and the leaf is dirty; where it was not, nothing is
    /// written.
    pub open spec fn swapped(
        self,
        key: Seq<u8>,
        expected: Option<Seq<u8>>,
        proposed: Option<Seq<u8>>,
    ) -> DbView {
        let id = self.owner(key);
        let s = self.cooperate(id);
        let leaf = s.leaves[id];
        if leaf.get(key) == expected {
            match proposed {
                Some(v) => s.with_leaf(id, leaf.insert(key, v)).settle(id, true),
                None => s.with_leaf(id, leaf.remove(key)).settle(id, true),
            }
        } else {
            s
        }
    }

    /// What holds of the store between two calls: the invariant, with no
    /// writer checked into an epoch.
    pub open spec fn wf(self) -> bool {
        self.inv() && self.epoch.idle()
    }


    /// Whether a leaf can stand for node `id`: it begins at the node's low
    /// key, ends where the next node begins, and is not full.
    pub open spec fn fits(self, id: u64, leaf: LeafView) -> bool {
        &&& leaf.wf()
        &&& !leaf.is_full()
        &&& leaf.lo == self.low_keys[id]
        &&& is_successor(self.index, leaf.lo, leaf.hi)
    }

    /// The bytes that were serialized ahead of a flush for the leaf with the
    /// low key `lo`, if the dirty set holds any: those of the current epoch,
    /// or else those of the epoch before.
    pub open spec fn bytes_ahead(self, lo: Seq<u8>) -> Option<Seq<u8>> {
        let now = (self.epoch.current, lo);
        let before = ((self.epoch.current - 1) as u64, lo);
        if self.dirty.contains_key(now) && self.dirty[now].is_some() {
            self.dirty[now]
        } else if self.epoch.current > 1 && self.dirty.contains_key(before)
            && self.dirty[before].is_some() {
            self.dirty[before]
        } else {
            None
        }
    }

    /// The bytes that the leaf of node `id` is brought into memory from:
    /// those serialized ahead of a flush, which are newer than what the
    /// object store holds, or else `stored`, what the object store holds.
    pub open spec fn page_source(self, id: u64, stored: Option<Seq<u8>>) -> Option<Seq<u8>> {
        match self.bytes_ahead(self.low_keys[id]) {
            Some(b) => Some(b),
            None => stored,
        }
    }

    /// The dirty set holds, under the epoch `e`, bytes from which `leaf`
    /// comes back as it is, clean: bringing it into memory again loses
    /// nothing.
    pub open spec fn keeps(self, e: u64, leaf: LeafView) -> bool {
        &&& self.dirty.contains_key((e, leaf.lo))
        &&& self.dirty[(e, leaf.lo)] matches Some(b)
        &&& reads_back(b, leaf)
    }

    /// Whether the bytes that the flush hands out can be read back: those
    /// that it serializes itself as the leaf in memory, and those that were
    /// serialized ahead as a leaf with the low key they go with.
    pub open spec fn batch_reads_back(self, batch: Seq<(u64, Vec<u8>, Vec<u8>)>) -> bool {
        forall|i: int|
            0 <= i < batch.len() ==> {
                let k = ((self.epoch.current - 1) as u64, (#[trigger] batch[i]).1@);
                match self.dirty[k] {
                    None => reads_back(batch[i].2@, self.leaves[batch[i].0]),
                    Some(_) => holds_leaf(batch[i].2@, batch[i].1@),
                }
            }
    }

    /// The store with `leaf` in memory for node `id`.
    pub open spec fn with_leaf(self, id: u64, leaf: LeafView) -> DbView {
        DbView { leaves: self.leaves.insert(id, leaf), ..self }
    }

    /// What a store is when it has just been opened.
    pub open spec fn fresh(self) -> bool {
        &&& self.dirty == Map::<(u64, Seq<u8>), Option<Seq<u8>>>::empty()
        &&& self.epoch == (FlushEpochView { current: 1, active: 0, draining: 0, flushing: false })
        &&& self.error.is_none()
        &&& self.spare_ids.len() == 0
    }

    /// The store with its first fatal error set, unless one is set already.
    pub open spec fn with_error(self, e: ErrorView) -> DbView {
        if self.error.is_some() {
            self
        } else {
            DbView { error: Some(e), ..self }
        }
    }

    /// The store after node `id` was asked to leave memory. A leaf that is
    /// dirty leaves its bytes in the dirty set, from which it comes back as it
    /// is; where they cannot be made, the leaf stays and the failure becomes
    /// the store's error.
    pub open spec fn evict_one(self, id: u64) -> DbView {
        if !self.leaves.contains_key(id) {
            self
        } else {
            let leaf = self.leaves[id];
            match leaf.dirty_flush_epoch {
                None => DbView { leaves: self.leaves.remove(id), ..self },
                Some(e) => match leaf.written(self.level) {
                    Some(b) => DbView {
                        leaves: self.leaves.remove(id),
                        dirty: self.dirty.insert((e, leaf.lo), Some(b)),
                        ..self
                    },
                    None => self.with_error(serialize_failure()),
                },
            }
        }
    }

    /// The store after the first `n` of `ids` were asked to leave memory, in
    /// turn.
    pub open spec fn evict_seq(self, ids: Seq<u64>, n: int) -> DbView
        decreases n,
    {
        if n <= 0 {
            self
        } else {
            self.evict_seq(ids, n - 1).evict_one(ids[n - 1])
        }
    }

    /// The store with one more writer checked into the current epoch.
    pub open spec fn checked_in(self) -> DbView {
        DbView { epoch: FlushEpochView { active: self.epoch.active + 1, ..self.epoch }, ..self }
    }

    /// The store with one writer less in the current epoch.
    pub open spec fn checked_out(self) -> DbView {
        DbView {
            epoch: FlushEpochView { active: (self.epoch.active - 1) as nat, ..self.epoch },
            ..self
        }
    }

    /// The store after one write of a batch: `key` is set to `value`, or
    /// removed where there is none, and its leaf is dirty in the current
    /// epoch.
    pub open spec fn write_one(self, key: Seq<u8>, value: Option<Seq<u8>>) -> DbView {
        let id = self.owner(key);
        let leaf = self.leaves[id];
        match value {
            Some(v) => self.with_leaf(id, leaf.insert(key, v)).settle(id, true),
            None => self.with_leaf(id, leaf.remove(key)).settle(id, true),
        }
    }

    /// The store after the first `n` writes of a batch, in turn.
    pub open spec fn write_all(self, writes: Seq<(Seq<u8>, Option<Seq<u8>>)>, n: int) -> DbView
        decreases n,
    {
        if n <= 0 {
            self
        } else {
            self.write_all(writes, n - 1).write_one(writes[n - 1].0, writes[n - 1].1)
        }
    }

    /// The store after the cooperative flush of the leaves that the first
    /// `n` keys of a batch belong to.
    pub open spec fn cooperate_all(self, writes: Seq<(Seq<u8>, Option<Seq<u8>>)>, n: int) -> DbView
        decreases n,
    {
        if n <= 0 {
            self
        } else {
            let s = self.cooperate_all(writes, n - 1);
            s.cooperate(s.owner(writes[n - 1].0))
        }
    }

    /// The store after a batch was applied: a writer checks into the
    /// current epoch, serializes every leaf of the batch that is dirty in the
    /// epoch before, applies the writes in order, and checks out.
    pub open spec fn batch_applied(self, writes: Seq<(Seq<u8>, Option<Seq<u8>>)>) -> DbView {
        let n = writes.len() as int;
        self.checked_in().cooperate_all(writes, n).write_all(writes, n).checked_out()
    }

    /// Whether a flush can begin or go on: one is under way, or the epoch
    /// counter has not reached its end.
    pub open spec fn can_flush(self) -> bool {
        self.epoch.flushing || self.epoch.current < u64::MAX
    }

    /// The store after a flush has begun: unless one is under way, the next
    /// epoch is open to writers and the epoch that was current is being
    /// flushed.
    pub open spec fn flush_started(self) -> DbView {
        if self.epoch.flushing {
            self
        } else {
            DbView {
                epoch: FlushEpochView {
                    current: (self.epoch.current + 1) as u64,
                    active: 0,
                    draining: self.epoch.active,
                    flushing: true,
                },
                ..self
            }
        }
    }

    /// Whether the dirty entry `k` belongs to an epoch before the current
    /// one, so that the flush has to write it.
    pub open spec fn flush_due(self, k: (u64, Seq<u8>)) -> bool {
        self.dirty.contains_key(k) && k.0 < self.epoch.current
    }

    /// The bytes that the flush writes for the dirty entry `k`: those that
    /// were serialized ahead, or else those of the leaf as it is now, from
    /// which it comes back as it is.
    pub open spec fn flush_bytes(self, k: (u64, Seq<u8>)) -> Option<Seq<u8>> {
        match self.dirty[k] {
            Some(b) => Some(b),
            None => self.leaves[self.index[k.1]].written(self.level),
        }
    }

    /// The store after the flush has taken what it has to write: no entry of
    /// an earlier epoch is left in the dirty set, and no leaf is dirty in
    /// one.
    pub open spec fn flushed(self) -> DbView {
        DbView {
            dirty: Map::new(
                |k: (u64, Seq<u8>)| self.dirty.contains_key(k) && k.0 >= self.epoch.current,
                |k: (u64, Seq<u8>)| self.dirty[k],
            ),
            leaves: Map::new(
                |id: u64| self.leaves.contains_key(id),
                |id: u64|
                    match self.leaves[id].dirty_flush_epoch {
                        Some(e) => if e < self.epoch.current {
                            self.leaves[id].with_dirty(None)
                        } else {
                            self.leaves[id]
                        },
                        None => self.leaves[id],
                    },
            ),
            ..self
        }
    }

    /// Whether `batch` is what the flush has to write: for each dirty entry
    /// of the epoch being flushed, in ascending order of low keys, the node,
    /// its low key and its bytes.
    pub open spec fn is_flush_batch(self, batch: Seq<(u64, Vec<u8>, Vec<u8>)>) -> bool {
        &&& forall|i: int|
            0 <= i < batch.len() ==> {
                let k = ((self.epoch.current - 1) as u64, (#[trigger] batch[i]).1@);
                &&& self.flush_due(k)
                &&& batch[i].0 == self.index[k.1]
                &&& self.flush_bytes(k) == Some(batch[i].2@)
            }
        &&& forall|k: (u64, Seq<u8>)| #[trigger]
            self.flush_due(k) ==> exists|i: int|
                0 <= i < batch.len() && (#[trigger] batch[i]).1@ == k.1
        &&& forall|i: int, j: int|
            0 <= i < j < batch.len() ==> lex_lt((#[trigger] batch[i]).1@, (#[trigger] batch[j]).1@)
    }

    /// `post` is this store after some nodes were asked to leave memory.
    pub open spec fn evicts_to(self, post: DbView) -> bool {
        exists|ids: Seq<u64>| post == self.evict_seq(ids, ids.len() as int)
    }
}

/// No two of the recovered nodes share an id or a low key.
pub open spec fn distinct_nodes(data: Seq<(u64, Vec<u8>)>) -> bool {
    forall|i: int, j: int|
        0 <= i < j < data.len() ==> (#[trigger] data[i]).0 != (#[trigger] data[j]).0 && data[i].1@
            != data[j].1@
}

/// Some recovered node has the empty low key.
pub open spec fn has_root(data: Seq<(u64, Vec<u8>)>) -> bool {
    exists|i: int| 0 <= i < data.len() && (#[trigger] data[i]).1@.len() == 0
}

/// What a store can be opened over: nothing, with an id for its first node;
/// or nodes that differ in id and low key, one of them with the empty low
/// key.
pub open spec fn valid_index_data(data: Seq<(u64, Vec<u8>)>, first_id: Option<u64>) -> bool {
    if data.len() == 0 {
        first_id.is_some()
    } else {
        distinct_nodes(data) && has_root(data)
    }
}

/// `index` and `low_keys` hold the first `n` recovered nodes and nothing
/// else.
pub open spec fn holds_nodes(
    index: Map<Seq<u8>, u64>,
    low_keys: Map<u64, Seq<u8>>,
    data: Seq<(u64, Vec<u8>)>,
    n: int,
) -> bool {
    &&& forall|i: int|
        0 <= i < n ==> index.contains_key((#[trigger] data[i]).1@) && index[data[i].1@]
            == data[i].0 && low_keys.contains_key(data[i].0) && low_keys[data[i].0] == data[i].1@
    &&& forall|k: Seq<u8>| #[trigger]
        index.contains_key(k) ==> exists|i: int| 0 <= i < n && (#[trigger] data[i]).1@ == k
    &&& forall|id: u64| #[trigger]
        low_keys.contains_key(id) ==> exists|i: int| 0 <= i < n && (#[trigger] data[i]).0 == id
}

/// The leaf that a new store starts with: empty, clean, over all keys.
pub open spec fn first_leaf() -> LeafView {
    LeafView {
        lo: Seq::empty(),
        hi: None,
        prefix_length: 0,
        entries: Seq::empty(),
        dirty_flush_epoch: None,
        in_memory_size: crate::leaf::LEAF_BASE_SIZE,
    }
}

/// The leaf of the node that `key` belongs to is clean or dirty in the
/// current epoch: a writer of that epoch may edit it.
pub open spec fn writable(s: DbView, key: Seq<u8>) -> bool {
    &&& s.resident(key)
    &&& (s.leaves[s.owner(key)].dirty_flush_epoch matches Some(e) ==> e == s.epoch.current)
}

/// The leaf of the node that `key` belongs to is dirty in the current epoch.
pub open spec fn marked(s: DbView, key: Seq<u8>) -> bool {
    s.resident(key) && s.leaves[s.owner(key)].dirty_flush_epoch == Some(s.epoch.current)
}

/// How many of the first `n` writes set a value.
pub open spec fn inserts(writes: Seq<(Seq<u8>, Option<Seq<u8>>)>, n: int) -> int
    decreases n,
{
    if n <= 0 {
        0
    } else {
        inserts(writes, n - 1) + (if writes[n - 1].1.is_some() {
            1int
        } else {
            0int
        })
    }
}

/// Whether the cooperative flush can be done for the leaves of the first `n`
/// keys of a batch, in turn.
pub open spec fn can_cooperate_all(s: DbView, w: Seq<(Seq<u8>, Option<Seq<u8>>)>, n: int) -> bool {
    forall|m: int|
        0 <= m < n ==> (#[trigger] s.cooperate_all(w, m)).can_cooperate(
            s.cooperate_all(w, m).owner(w[m].0),
        )
}

/// Whether `k` is among the first `n` of `keys`.
pub open spec fn in_prefix(keys: Seq<(u64, Vec<u8>)>, n: int, k: (u64, Seq<u8>)) -> bool {
    exists|j: int| 0 <= j < n && dirty_key(#[trigger] keys[j]) == k
}

/// The store in the middle of a flush, when the first `n` of `keys` have
/// been taken out of the dirty set.
pub open spec fn flushed_up_to(s: DbView, keys: Seq<(u64, Vec<u8>)>, n: int) -> DbView {
    DbView {
        dirty: Map::new(
            |k: (u64, Seq<u8>)| s.dirty.contains_key(k) && !in_prefix(keys, n, k),
            |k: (u64, Seq<u8>)| s.dirty[k],
        ),
        leaves: Map::new(
            |id: u64| s.leaves.contains_key(id),
            |id: u64|
                match s.leaves[id].dirty_flush_epoch {
                    Some(e) => if in_prefix(keys, n, (e, s.leaves[id].lo)) {
                        s.leaves[id].with_dirty(None)
                    } else {
                        s.leaves[id]
                    },
                    None => s.leaves[id],
                },
        ),
        ..s
    }
}

/// `keys` are the dirty entries that the flush has to write, each once.
pub open spec fn flush_keys(s: DbView, keys: Seq<(u64, Vec<u8>)>) -> bool {
    &&& forall|i: int| 0 <= i < keys.len() ==> s.flush_due(dirty_key(#[trigger] keys[i]))
    &&& forall|k: (u64, Seq<u8>)| #[trigger]
        s.flush_due(k) ==> in_prefix(keys, keys.len() as int, k)
    &&& forall|i: int, j: int|
        0 <= i < j < keys.len() ==> dirty_key_lt(
            dirty_key(#[trigger] keys[i]),
            dirty_key(#[trigger] keys[j]),
        )
}

} // verus!
