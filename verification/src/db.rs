//! The store: an index from low keys to nodes, the leaves that are in
//! memory, the dirty set, and the flush epoch. Every operation is a step from
//! one state of the store to the next; what it cannot do itself (read a
//! leaf's bytes from the object store, mint a node id, write a batch) it
//! asks of its caller.

use crate::advisor::{advisor_accessed, advisor_new, MAX_CACHE_CAPACITY, MIN_CACHE_CAPACITY};
use crate::batch::Batch;
use crate::bytes::{key_copy, lemma_empty_is_least, lemma_lex_trichotomy, lex_le, lex_lt, opt_view};
use crate::epoch::{FlushEpoch, FlushEpochView};
use crate::error::{opt_error_view, Config, Error, ErrorKind};
use crate::invariants::{
    lemma_cooperate_inv, lemma_cooperate_kept, lemma_cooperate_writable, lemma_edit_ready,
    lemma_evict_one_inv, lemma_evict_seq_inv, lemma_evicted_kept, lemma_evicts_to_chain,
    lemma_evicts_to_self, lemma_flush_started_inv, lemma_flush_step, lemma_flushed_all,
    lemma_flushed_inv, lemma_inserts_bounds, lemma_owner, lemma_settle_inv, lemma_write_one,
};
use crate::leaf::{Leaf, LeafView};
use crate::maps::{
    dirty_get, dirty_insert, dirty_key, dirty_key_lt, dirty_keys_before, dirty_map, dirty_new,
    dirty_remove, index_get, index_get_lt, index_get_lte, index_insert, index_last, index_map,
    index_new, low_key_map, low_keys_get, low_keys_insert, low_keys_new, DirtySet, LowKeyIndex,
    NodeLowKeys,
};
use crate::model::{
    can_cooperate_all, distinct_nodes, first_leaf, flush_keys, flushed_up_to, holds_leaf,
    holds_nodes, in_prefix, inserts, is_successor, reads_back, routes, serialize_failure,
    valid_index_data, writable, DbView,
};
use std::collections::HashMap;
use vstd::prelude::*;

verus! {

broadcast use vstd::std_specs::hash::group_hash_axioms;

/// How a call ended: with its result, or with something for the caller to do
/// before calling again.
pub enum Step<T> {
    /// The call is done.
    Done(T),
    /// The leaf of this node is not in memory: read its bytes from the
    /// object store, hand them to `page_in`, and call again.
    PageIn(u64),
    /// A split may need this many more node ids than are at hand: mint them,
    /// hand each to `supply_object_id`, and call again.
    AllocateObjectIds(usize),
}

/// The index, the map from node ids and the leaves in memory that a store
/// starts with. Over nothing it has one node, `first_id_opt`, with an empty
/// leaf over all keys in memory. Over recovered nodes it has those nodes and
/// no leaf in memory.
pub fn initialize(index_data: &Vec<(u64, Vec<u8>)>, first_id_opt: Option<u64>) -> (r: Result<
    (LowKeyIndex, NodeLowKeys, HashMap<u64, Leaf>),
    Error,
>)
    ensures
        (match r {
            Ok(t) => {
                &&& valid_index_data(index_data@, first_id_opt)
                &&& index_map(t.0).dom().finite()
                &&& index_map(t.0).contains_key(Seq::<u8>::empty())
                &&& (if index_data@.len() == 0 {
                    &&& index_map(t.0) == Map::<Seq<u8>, u64>::empty().insert(
                        Seq::empty(),
                        first_id_opt.unwrap(),
                    )
                    &&& low_key_map(t.1) == Map::<u64, Seq<u8>>::empty().insert(
                        first_id_opt.unwrap(),
                        Seq::empty(),
                    )
                    &&& t.2@.dom() == Set::<u64>::empty().insert(first_id_opt.unwrap())
                    &&& t.2@[first_id_opt.unwrap()]@ == first_leaf()
                } else {
                    &&& holds_nodes(
                        index_map(t.0),
                        low_key_map(t.1),
                        index_data@,
                        index_data@.len() as int,
                    )
                    &&& t.2@.dom() == Set::<u64>::empty()
                })
            },
            Err(e) => !valid_index_data(index_data@, first_id_opt) && e.kind == (if index_data@.len()
                == 0 {
                ErrorKind::InvalidInput
            } else {
                ErrorKind::Corruption
            }),
        }),
{
    let mut index = index_new();
    let mut low_keys = low_keys_new();
    let mut leaves: HashMap<u64, Leaf> = HashMap::new();
    proof {
        assert(index_map(index) =~= Map::empty());
        assert(low_key_map(low_keys) =~= Map::empty());
    }
    if index_data.len() == 0 {
        let first_id = match first_id_opt {
            Some(id) => id,
            None => {
                return Err(Error::new(ErrorKind::InvalidInput, "a new store needs a node id"));
            },
        };
        let first = Leaf::new(Vec::new(), None);
        index_insert(&mut index, Vec::new(), first_id);
        low_keys_insert(&mut low_keys, first_id, Vec::new());
        leaves.insert(first_id, first);
        proof {
            assert(leaves@.dom() =~= Set::<u64>::empty().insert(first_id));
        }
        return Ok((index, low_keys, leaves));
    }
    let mut seen_root = false;
    let mut i: usize = 0;
    while i < index_data.len()
        invariant
            0 <= i <= index_data@.len(),
            index_data@.len() > 0,
            index_map(index).dom().finite(),
            holds_nodes(index_map(index), low_key_map(low_keys), index_data@, i as int),
            forall|a: int, b: int|
                0 <= a < b < i ==> (#[trigger] index_data@[a]).0 != (#[trigger] index_data@[b]).0
                    && index_data@[a].1@ != index_data@[b].1@,
            seen_root <==> exists|j: int|
                0 <= j < i && (#[trigger] index_data@[j]).1@.len() == 0,
            leaves@.dom() == Set::<u64>::empty(),
        decreases index_data@.len() - i,
    {
        let id = index_data[i].0;
        let low_key = key_copy(index_data[i].1.as_slice());
        let ghost old_index = index_map(index);
        let ghost old_low_keys = low_key_map(low_keys);
        if index_get(&index, low_key.as_slice()).is_some() || low_keys_get(&low_keys, id).is_some() {
            proof {
                if old_index.contains_key(low_key@) {
                    let j = choose|j: int| 0 <= j < i && (#[trigger] index_data@[j]).1@ == low_key@;
                    assert(index_data@[j].1@ == index_data@[i as int].1@);
                } else {
                    let j = choose|j: int| 0 <= j < i && (#[trigger] index_data@[j]).0 == id;
                    assert(index_data@[j].0 == index_data@[i as int].0);
                }
                assert(!distinct_nodes(index_data@));
            }
            return Err(Error::new(ErrorKind::Corruption, "two nodes share an id or a low key"));
        }
        if low_key.len() == 0 {
            seen_root = true;
        }
        let second = key_copy(low_key.as_slice());
        index_insert(&mut index, low_key, id);
        low_keys_insert(&mut low_keys, id, second);
        proof {
            let data = index_data@;
            let n = i as int + 1;
            assert forall|a: int, b: int| 0 <= a < b < n implies (#[trigger] data[a]).0 != (
            #[trigger] data[b]).0 && data[a].1@ != data[b].1@ by {
                if b == i {
                    assert(old_index.contains_key(data[a].1@));
                    assert(old_low_keys.contains_key(data[a].0));
                }
            }
            assert forall|k: Seq<u8>| #[trigger] index_map(index).contains_key(k) implies exists|
                j: int,
            | 0 <= j < n && (#[trigger] data[j]).1@ == k by {
                if k == data[i as int].1@ {
                } else {
                    assert(old_index.contains_key(k));
                    let j = choose|j: int| 0 <= j < i && (#[trigger] data[j]).1@ == k;
                    assert(0 <= j < n && data[j].1@ == k);
                }
            }
            assert forall|d: u64| #[trigger] low_key_map(low_keys).contains_key(d) implies exists|
                j: int,
            | 0 <= j < n && (#[trigger] data[j]).0 == d by {
                if d == data[i as int].0 {
                } else {
                    assert(old_low_keys.contains_key(d));
                    let j = choose|j: int| 0 <= j < i && (#[trigger] data[j]).0 == d;
                    assert(0 <= j < n && data[j].0 == d);
                }
            }
            assert forall|j: int| 0 <= j < n implies index_map(index).contains_key(
                (#[trigger] data[j]).1@,
            ) && index_map(index)[data[j].1@] == data[j].0 && low_key_map(low_keys).contains_key(
                data[j].0,
            ) && low_key_map(low_keys)[data[j].0] == data[j].1@ by {
                if j < i {
                    assert(old_index.contains_key(data[j].1@));
                }
            }
        }
        i += 1;
    }
    if !seen_root {
        return Err(Error::new(ErrorKind::Corruption, "no node has the empty low key"));
    }
    proof {
        let j = choose|j: int| 0 <= j < i && (#[trigger] index_data@[j]).1@.len() == 0;
        assert(index_data@[j].1@ =~= Seq::<u8>::empty());
        assert(index_map(index).contains_key(index_data@[j].1@));
    }
    Ok((index, low_keys, leaves))
}

/// The dirty entries of the epochs before `epoch`, each once, in ascending
/// order: by epoch, then by low key.
fn dirty_keys_below(dirty: &DirtySet, epoch: u64) -> (r: Vec<(u64, Vec<u8>)>)
    requires
        epoch >= 1,
    ensures
        forall|i: int|
            0 <= i < r.len() ==> (#[trigger] r[i]).0 < epoch && dirty_map(*dirty).contains_key(
                dirty_key(r[i]),
            ),
        forall|k: (u64, Seq<u8>)| #[trigger]
            dirty_map(*dirty).contains_key(k) && k.0 < epoch ==> exists|i: int|
                0 <= i < r.len() && dirty_key(#[trigger] r[i]) == k,
        forall|i: int, j: int|
            0 <= i < j < r.len() ==> dirty_key_lt(
                dirty_key(#[trigger] r[i]),
                dirty_key(#[trigger] r[j]),
            ),
{
    let least: Vec<u8> = Vec::new();
    let r = dirty_keys_before(dirty, epoch, least);
    proof {
        assert forall|i: int| 0 <= i < r.len() implies (#[trigger] r[i]).0 < epoch by {
            lemma_empty_is_least(r[i].1@);
            assert(dirty_key_lt(dirty_key(r[i]), (epoch, least@)));
            assert(least@ =~= Seq::<u8>::empty());
        }
        assert forall|k: (u64, Seq<u8>)| #[trigger]
            dirty_map(*dirty).contains_key(k) && k.0 < epoch implies exists|i: int|
            0 <= i < r.len() && dirty_key(#[trigger] r[i]) == k by {
            assert(dirty_key_lt(k, (epoch, least@)));
        }
    }
    r
}

/// What the object store holds for a node, as a plain value.
pub open spec fn stored_view(stored: Option<&[u8]>) -> Option<Seq<u8>> {
    match stored {
        Some(bytes) => Some(bytes@),
        None => None,
    }
}

/// The store.
pub struct Db {
    config: Config,
    index: LowKeyIndex,
    node_id_to_low_key_index: NodeLowKeys,
    leaves: HashMap<u64, Leaf>,
    cache_advisor: cache_advisor::CacheAdvisor,
    flush_epoch: FlushEpoch,
    dirty: DirtySet,
    global_error: Option<Error>,
    spare_ids: Vec<u64>,
    was_recovered: bool,
}

impl View for Db {
    type V = DbView;

    closed spec fn view(&self) -> DbView {
        DbView {
            index: index_map(self.index),
            low_keys: low_key_map(self.node_id_to_low_key_index),
            leaves: Map::new(
                |id: u64| self.leaves@.contains_key(id),
                |id: u64| self.leaves@[id]@,
            ),
            dirty: dirty_map(self.dirty),
            epoch: self.flush_epoch@,
            error: opt_error_view(self.global_error),
            spare_ids: self.spare_ids@,
            level: self.config.zstd_compression_level,
            was_recovered: self.was_recovered,
        }
    }
}

impl Db {
    /// The first fatal error, if one was set: every operation begins with
    /// this check.
    pub fn check_error(&self) -> (r: Result<(), Error>)
        ensures
            (match r {
                Ok(_) => self@.error.is_none(),
                Err(e) => self@.error == Some(e@),
            }),
    {
        match &self.global_error {
            None => Ok(()),
            Some(e) => Err(e.duplicate()),
        }
    }

    /// Sets the store's fatal error. The first one stays; later ones are
    /// dropped.
    pub fn set_error(&mut self, error: Error)
        ensures
            final(self)@ == old(self)@.with_error(error@),
    {
        if self.global_error.is_none() {
            self.global_error = Some(error);
        }
    }

    /// Whether the store was opened over nodes that an earlier run left.
    pub fn was_recovered(&self) -> (r: bool)
        ensures
            r == self@.was_recovered,
    {
        self.was_recovered
    }


    /// Opens a store over what the object store recovered: each node's id
    /// and low key. Where nothing was recovered the store starts with one
    /// node, `first_id_opt`, whose leaf is empty and in memory.
    pub fn open_with_config(
        config: &Config,
        index_data: &Vec<(u64, Vec<u8>)>,
        first_id_opt: Option<u64>,
    ) -> (r: Result<Db, Error>)
        ensures
            (match r {
                Ok(db) => {
                    &&& MIN_CACHE_CAPACITY <= config.cache_capacity_bytes <= MAX_CACHE_CAPACITY
                    &&& config.entry_cache_percent <= 100
                    &&& valid_index_data(index_data@, first_id_opt)
                    &&& db@.wf()
                    &&& db@.fresh()
                    &&& db@.level == config.zstd_compression_level
                    &&& db@.was_recovered == (index_data@.len() > 0)
                    &&& (if index_data@.len() == 0 {
                        &&& db@.index == Map::<Seq<u8>, u64>::empty().insert(
                            Seq::empty(),
                            first_id_opt.unwrap(),
                        )
                        &&& db@.leaves == Map::<u64, LeafView>::empty().insert(
                            first_id_opt.unwrap(),
                            first_leaf(),
                        )
                    } else {
                        &&& holds_nodes(
                            db@.index,
                            db@.low_keys,
                            index_data@,
                            index_data@.len() as int,
                        )
                        &&& db@.leaves == Map::<u64, LeafView>::empty()
                    })
                },
                Err(e) => if config.cache_capacity_bytes < MIN_CACHE_CAPACITY
                    || config.cache_capacity_bytes > MAX_CACHE_CAPACITY
                    || config.entry_cache_percent > 100 {
                    e.kind == ErrorKind::InvalidInput
                } else {
                    !valid_index_data(index_data@, first_id_opt)
                },
            }),
    {
        if config.cache_capacity_bytes < MIN_CACHE_CAPACITY || config.cache_capacity_bytes
            > MAX_CACHE_CAPACITY || config.entry_cache_percent > 100 {
            return Err(Error::new(ErrorKind::InvalidInput, "cache settings are out of range"));
        }
        let (index, low_keys, leaves) = match initialize(index_data, first_id_opt) {
            Ok(t) => t,
            Err(e) => {
                return Err(e);
            },
        };
        let dirty = dirty_new();
        proof {
            assert(dirty_map(dirty) =~= Map::empty());
        }
        let db = Db {
            config: config.duplicate(),
            index,
            node_id_to_low_key_index: low_keys,
            leaves,
            cache_advisor: advisor_new(config.cache_capacity_bytes, config.entry_cache_percent),
            flush_epoch: FlushEpoch::new(),
            dirty,
            global_error: None,
            spare_ids: Vec::new(),
            was_recovered: index_data.len() > 0,
        };
        proof {
            let s = db@;
            if index_data@.len() == 0 {
                assert(s.leaves =~= Map::<u64, LeafView>::empty().insert(
                    first_id_opt.unwrap(),
                    first_leaf(),
                ));
                assert(first_leaf().wf());
                assert forall|k: Seq<u8>| #[trigger] s.index.contains_key(k) implies !lex_lt(
                    Seq::<u8>::empty(),
                    k,
                ) by {
                    lemma_lex_trichotomy(Seq::<u8>::empty(), k);
                }
            } else {
                assert(s.leaves =~= Map::<u64, LeafView>::empty());
                assert forall|k: Seq<u8>| #[trigger] s.index.contains_key(k) implies
                    s.low_keys.contains_key(s.index[k]) && s.low_keys[s.index[k]] == k by {
                    let i = choose|i: int|
                        0 <= i < index_data@.len() && (#[trigger] index_data@[i]).1@ == k;
                    assert(s.index[index_data@[i].1@] == index_data@[i].0);
                }
                assert forall|id: u64| #[trigger] s.low_keys.contains_key(id) implies
                    s.index.contains_key(s.low_keys[id]) && s.index[s.low_keys[id]] == id by {
                    let i = choose|i: int|
                        0 <= i < index_data@.len() && (#[trigger] index_data@[i]).0 == id;
                    assert(s.low_keys[index_data@[i].0] == index_data@[i].1@);
                }
            }
        }
        Ok(db)
    }

    /// Takes a node id that the object store minted, for a later split. An
    /// id that the store knows already is refused.
    pub fn supply_object_id(&mut self, id: u64) -> (r: bool)
        requires
            old(self)@.wf(),
        ensures
            final(self)@.wf(),
            r == (!old(self)@.low_keys.contains_key(id) && !old(self)@.spare_ids.contains(id)),
            final(self)@ == (if r {
                DbView { spare_ids: old(self)@.spare_ids.push(id), ..old(self)@ }
            } else {
                old(self)@
            }),
    {
        if low_keys_get(&self.node_id_to_low_key_index, id).is_some() {
            return false;
        }
        let mut i: usize = 0;
        while i < self.spare_ids.len()
            invariant
                0 <= i <= self.spare_ids@.len(),
                self@ == old(self)@,
                self@.wf(),
                !self@.low_keys.contains_key(id),
                forall|j: int| 0 <= j < i ==> self.spare_ids@[j] != id,
            decreases self.spare_ids@.len() - i,
        {
            if self.spare_ids[i] == id {
                return false;
            }
            i += 1;
        }
        self.spare_ids.push(id);
        true
    }

    /// How many node ids are at hand for splits.
    pub fn spare_object_ids(&self) -> (n: usize)
        ensures
            n == self@.spare_ids.len(),
    {
        self.spare_ids.len()
    }

    /// The leaf of node `id`, if it is in memory.
    pub fn leaf(&self, id: u64) -> (r: Option<&Leaf>)
        ensures
            (match r {
                Some(leaf) => self@.leaves.contains_key(id) && self@.leaves[id] == leaf@,
                None => !self@.leaves.contains_key(id),
            }),
    {
        self.leaves.get(&id)
    }

    /// The epoch that writers check into.
    pub fn current_epoch(&self) -> (e: u64)
        ensures
            e == self@.epoch.current,
    {
        self.flush_epoch.current_epoch()
    }

    /// Whether the leaf with low key `low_key` owes a write in `epoch`, and
    /// if so, whether its bytes were serialized ahead of the flush.
    pub fn owes_write(&self, epoch: u64, low_key: &[u8]) -> (r: Option<bool>)
        ensures
            (match r {
                Some(ahead) => self@.dirty.contains_key((epoch, low_key@)) && ahead == self@.dirty[(
                    epoch,
                    low_key@,
                )].is_some(),
                None => !self@.dirty.contains_key((epoch, low_key@)),
            }),
    {
        match dirty_get(&self.dirty, epoch, key_copy(low_key)) {
            Some(slot) => Some(slot.is_some()),
            None => None,
        }
    }

    /// Whether the leaf of node `id` is in memory.
    pub fn is_resident(&self, id: u64) -> (r: bool)
        ensures
            r == self@.leaves.contains_key(id),
    {
        self.leaves.contains_key(&id)
    }

    /// Brings the leaf of node `node_id` into memory. Its bytes are those
    /// that were serialized ahead of a flush, where the dirty set holds them:
    /// they are newer than what the object store holds. Otherwise they are
    /// `stored`, what the object store holds for the node, and it is an
    /// error if it holds nothing. The leaf has to begin at the node's low key
    /// and end where the next node begins; bytes that do not hold such a leaf
    /// are corrupt. Either failure is fatal. A leaf that is in memory already
    /// stays as it is.
    pub fn page_in(&mut self, node_id: u64, stored: Option<&[u8]>) -> (r: Result<(), Error>)
        requires
            old(self)@.wf(),
        ensures
            final(self)@.wf(),
            (match r {
                Ok(_) => {
                    &&& old(self)@.error.is_none()
                    &&& old(self)@.low_keys.contains_key(node_id)
                    &&& (if old(self)@.leaves.contains_key(node_id) {
                        final(self)@ == old(self)@
                    } else {
                        &&& old(self)@.page_source(node_id, stored_view(stored)) matches Some(bytes)
                        &&& crate::leaf::deserialized(bytes) matches Some(leaf)
                        &&& old(self)@.fits(node_id, leaf)
                        &&& final(self)@ == old(self)@.with_leaf(node_id, leaf)
                    })
                },
                Err(e) => if old(self)@.error.is_some() {
                    old(self)@.error == Some(e@) && final(self)@ == old(self)@
                } else if !old(self)@.low_keys.contains_key(node_id) {
                    e.kind == ErrorKind::InvalidInput && final(self)@ == old(self)@
                } else {
                    &&& !old(self)@.leaves.contains_key(node_id)
                    &&& final(self)@ == old(self)@.with_error(e@)
                    &&& (match old(self)@.page_source(node_id, stored_view(stored)) {
                        Some(bytes) => e.kind == ErrorKind::Corruption
                            && (match crate::leaf::deserialized(bytes) {
                            Some(leaf) => !old(self)@.fits(node_id, leaf),
                            None => true,
                        }),
                        None => e.kind == ErrorKind::Io,
                    })
                },
            }),
    {
        match self.check_error() {
            Err(e) => {
                return Err(e);
            },
            Ok(_) => {},
        }
        let low_key = match low_keys_get(&self.node_id_to_low_key_index, node_id) {
            Some(k) => k,
            None => {
                return Err(Error::new(ErrorKind::InvalidInput, "no node has this id"));
            },
        };
        if self.leaves.contains_key(&node_id) {
            return Ok(());
        }
        let current = self.flush_epoch.current_epoch();
        let ahead = match dirty_get(&self.dirty, current, key_copy(low_key.as_slice())) {
            Some(Some(b)) => Some(b),
            _ => {
                if current > 1 {
                    match dirty_get(&self.dirty, current - 1, key_copy(low_key.as_slice())) {
                        Some(Some(b)) => Some(b),
                        _ => None,
                    }
                } else {
                    None
                }
            },
        };
        proof {
            assert(opt_view(ahead) == self@.bytes_ahead(low_key@));
        }
        let decoded = match (&ahead, stored) {
            (Some(b), _) => Leaf::deserialize(b.as_slice()),
            (None, Some(bytes)) => Leaf::deserialize(bytes),
            (None, None) => {
                let e = Error::new(ErrorKind::Io, "the object store holds nothing for this node");
                self.set_error(e.duplicate());
                return Err(e);
            },
        };
        let leaf = match decoded {
            Ok(leaf) => leaf,
            Err(e) => {
                self.set_error(e.duplicate());
                return Err(e);
            },
        };
        proof {
            assert(self@.index.contains_key(low_key@));
        }
        let ends_at_next = match leaf.hi() {
            Some(h) => {
                let before = index_get_lt(&self.index, h.as_slice());
                let known = index_get(&self.index, h.as_slice()).is_some();
                match before {
                    Some(kv) => {
                        let same = crate::bytes::key_eq(kv.0.as_slice(), low_key.as_slice());
                        proof {
                            lemma_lex_trichotomy(low_key@, kv.0@);
                            if known && same {
                                assert forall|k: Seq<u8>| #[trigger]
                                    self@.index.contains_key(k) && lex_lt(low_key@, k) implies lex_le(
                                    h@,
                                    k,
                                ) by {
                                    lemma_lex_trichotomy(k, h@);
                                    lemma_lex_trichotomy(low_key@, k);
                                }
                            }
                            if is_successor(self@.index, low_key@, Some(h@)) {
                                lemma_lex_trichotomy(h@, kv.0@);
                            }
                        }
                        known && same
                    },
                    None => false,
                }
            },
            None => {
                match index_last(&self.index) {
                    Some(kv) => {
                        proof {
                            lemma_lex_trichotomy(low_key@, kv.0@);
                            if kv.0@ == low_key@ {
                                assert forall|k: Seq<u8>| #[trigger]
                                    self@.index.contains_key(k) implies !lex_lt(low_key@, k) by {
                                    lemma_lex_trichotomy(low_key@, k);
                                }
                            }
                        }
                        crate::bytes::key_eq(kv.0.as_slice(), low_key.as_slice())
                    },
                    None => false,
                }
            },
        };
        proof {
            assert(ends_at_next == is_successor(self@.index, low_key@, leaf@.hi));
        }
        if !crate::bytes::key_eq(leaf.lo().as_slice(), low_key.as_slice()) || leaf.is_full()
            || !ends_at_next {
            let e = Error::new(ErrorKind::Corruption, "leaf does not fit its node");
            self.set_error(e.duplicate());
            return Err(e);
        }
        let ghost before = self@;
        let ghost lv = leaf@;
        self.leaves.insert(node_id, leaf);
        proof {
            assert(self@.leaves =~= before.leaves.insert(node_id, lv));
            assert(self@ == before.with_leaf(node_id, lv));
            let t = self@;
            assert forall|k: (u64, Seq<u8>)| #[trigger] t.dirty.contains_key(k) implies {
                &&& t.live_epoch(k.0)
                &&& t.index.contains_key(k.1)
                &&& (t.dirty[k].is_none() ==> t.leaves.contains_key(t.index[k.1])
                    && t.leaves[t.index[k.1]].dirty_flush_epoch == Some(k.0))
            } by {
                assert(before.dirty.contains_key(k));
            }
        }
        Ok(())
    }

    /// The low key and the node that `key` is routed to.
    pub fn route(&self, key: &[u8]) -> (r: (Vec<u8>, u64))
        requires
            self@.inv(),
        ensures
            routes(self@.index, key@, r.0@),
            r.0@ == self@.owner_key(key@),
            r.1 == self@.owner(key@),
            self@.low_keys.contains_key(r.1),
            self@.low_keys[r.1] == r.0@,
            self@.leaves.contains_key(r.1) ==> self@.leaves[r.1].owns(key@) && self@.leaves[r.1].lo
                == r.0@,
    {
        match index_get_lte(&self.index, key) {
            Some(kv) => {
                proof {
                    lemma_owner(self@, None, key@, kv.0@);
                }
                kv
            },
            None => {
                proof {
                    lemma_empty_is_least(key@);
                    assert(self@.index.contains_key(Seq::<u8>::empty()));
                    assert(false);
                }
                (Vec::new(), 0)
            },
        }
    }

    /// The low key and the node of the last range: the one without an end.
    pub fn last_node(&self) -> (r: (Vec<u8>, u64))
        requires
            self@.inv(),
        ensures
            self@.index.contains_key(r.0@),
            self@.index[r.0@] == r.1,
            forall|k: Seq<u8>| #[trigger] self@.index.contains_key(k) ==> lex_le(k, r.0@),
            self@.low_keys.contains_key(r.1),
            self@.leaves.contains_key(r.1) ==> self@.leaves[r.1].lo == r.0@
                && self@.leaves[r.1].hi.is_none(),
    {
        match index_last(&self.index) {
            Some(kv) => {
                proof {
                    let s = self@;
                    assert(s.low_keys[s.index[kv.0@]] == kv.0@);
                    if s.leaves.contains_key(kv.1) {
                        match s.leaves[kv.1].hi {
                            Some(h) => {
                                assert(s.index.contains_key(h));
                                lemma_lex_trichotomy(h, kv.0@);
                            },
                            None => {},
                        }
                    }
                }
                kv
            },
            None => {
                proof {
                    assert(self@.index.contains_key(Seq::<u8>::empty()));
                }
                (Vec::new(), 0)
            },
        }
    }

    /// The low key and the node of the range that ends where the range of
    /// `key` begins, if `key` does not lie in the first range; more
    /// generally, the greatest low key below `key` and its node.
    pub fn node_before(&self, key: &[u8]) -> (r: Option<(Vec<u8>, u64)>)
        requires
            self@.inv(),
        ensures
            (match r {
                Some(kv) => {
                    &&& self@.index.contains_key(kv.0@)
                    &&& self@.index[kv.0@] == kv.1
                    &&& lex_lt(kv.0@, key@)
                    &&& forall|k: Seq<u8>| #[trigger]
                        self@.index.contains_key(k) && lex_lt(k, key@) ==> lex_le(k, kv.0@)
                    &&& self@.low_keys.contains_key(kv.1)
                    &&& (self@.leaves.contains_key(kv.1) ==> self@.leaves[kv.1].lo == kv.0@)
                    &&& (self@.leaves.contains_key(kv.1) && self@.index.contains_key(key@)
                        ==> self@.leaves[kv.1].hi == Some(key@))
                },
                None => forall|k: Seq<u8>| #[trigger]
                    self@.index.contains_key(k) ==> !lex_lt(k, key@),
            }),
    {
        match index_get_lt(&self.index, key) {
            Some(kv) => {
                proof {
                    let s = self@;
                    assert(s.low_keys[s.index[kv.0@]] == kv.0@);
                    if s.leaves.contains_key(kv.1) && s.index.contains_key(key@) {
                        match s.leaves[kv.1].hi {
                            Some(h) => {
                                assert(s.index.contains_key(h));
                                lemma_lex_trichotomy(h, key@);
                                lemma_lex_trichotomy(h, kv.0@);
                            },
                            None => {},
                        }
                    }
                }
                Some(kv)
            },
            None => None,
        }
    }

    /// Drops the leaves named in `victims` from memory, in turn. A dirty
    /// leaf is serialized first, and its bytes go to the dirty set under the
    /// epoch it is dirty in: from them it comes back as it was.
    pub fn evict(&mut self, victims: &Vec<(u64, usize)>)
        requires
            old(self)@.inv(),
        ensures
            final(self)@ == old(self)@.evict_seq(
                Seq::new(victims@.len(), |i: int| victims@[i].0),
                victims@.len() as int,
            ),
            final(self)@.inv(),
            forall|id: u64| #[trigger]
                old(self)@.leaves.contains_key(id) && !final(self)@.leaves.contains_key(id) ==> (
                old(self)@.leaves[id].dirty_flush_epoch matches Some(e) ==> final(self)@.keeps(
                    e,
                    old(self)@.leaves[id],
                )),
    {
        let ghost ids = Seq::new(victims@.len(), |i: int| victims@[i].0);
        let ghost start = self@;
        let mut i: usize = 0;
        while i < victims.len()
            invariant
                0 <= i <= victims@.len(),
                ids == Seq::new(victims@.len(), |i: int| victims@[i].0),
                start.inv(),
                self@ == start.evict_seq(ids, i as int),
                self@.inv(),
                forall|id: u64| #[trigger]
                    start.leaves.contains_key(id) && !self@.leaves.contains_key(id) ==> (
                    start.leaves[id].dirty_flush_epoch matches Some(e) ==> self@.keeps(
                        e,
                        start.leaves[id],
                    )),
            decreases victims@.len() - i,
        {
            let id = victims[i].0;
            let ghost before = self@;
            proof {
                lemma_evict_one_inv(before, id);
                crate::invariants::lemma_evict_seq_keeps(start, ids, i as int);
            }
            match self.leaves.remove(&id) {
                None => {
                    proof {
                        assert(self@.leaves =~= before.leaves);
                    }
                },
                Some(leaf) => {
                    proof {
                        assert(before.leaves.contains_key(id));
                        assert(before.leaves[id] == leaf@);
                    }
                    match leaf.dirty_flush_epoch() {
                        None => {
                            proof {
                                assert(self@.leaves =~= before.leaves.remove(id));
                            }
                        },
                        Some(e) => {
                            match leaf.serialize(self.config.zstd_compression_level) {
                                Some(bytes) => {
                                    dirty_insert(
                                        &mut self.dirty,
                                        e,
                                        key_copy(leaf.lo().as_slice()),
                                        Some(bytes),
                                    );
                                    proof {
                                        assert(self@.leaves =~= before.leaves.remove(id));
                                    }
                                },
                                None => {
                                    self.leaves.insert(id, leaf);
                                    proof {
                                        assert(self@.leaves =~= before.leaves);
                                    }
                                    self.set_error(
                                        Error::new(
                                            ErrorKind::Other,
                                            "leaf could not be serialized",
                                        ),
                                    );
                                },
                            }
                        },
                    }
                },
            }
            proof {
                assert(self@ == before.evict_one(id));
                let now = self@;
                assert forall|gone: u64| #[trigger]
                    start.leaves.contains_key(gone) && !now.leaves.contains_key(gone) implies (
                start.leaves[gone].dirty_flush_epoch matches Some(e) ==> now.keeps(
                    e,
                    start.leaves[gone],
                )) by {
                    if gone != id && before.leaves.contains_key(id) {
                        // another node's bytes lie under another low key
                        assert(start.low_keys.contains_key(gone));
                        assert(start.low_keys.contains_key(id));
                        assert(start.index[start.low_keys[gone]] == gone);
                        assert(start.index[start.low_keys[id]] == id);
                    }
                }
            }
            i += 1;
        }
    }

    /// Tells the cache advisor that node `node_id`, of `size` bytes, was
    /// used, and drops from memory the leaves that the advisor names. A
    /// dirty leaf that is dropped leaves bytes in the dirty set from which it
    /// comes back as it was.
    pub fn mark_access_and_evict(&mut self, node_id: u64, size: usize)
        requires
            old(self)@.inv(),
        ensures
            old(self)@.evicts_to(final(self)@),
            final(self)@.inv(),
            final(self)@.epoch == old(self)@.epoch,
            forall|id: u64| #[trigger]
                old(self)@.leaves.contains_key(id) && !final(self)@.leaves.contains_key(id) ==> (
                old(self)@.leaves[id].dirty_flush_epoch matches Some(e) ==> final(self)@.keeps(
                    e,
                    old(self)@.leaves[id],
                )),
    {
        let size = if size > MAX_CACHE_CAPACITY {
            MAX_CACHE_CAPACITY
        } else {
            size
        };
        let victims = advisor_accessed(&mut self.cache_advisor, node_id, size);
        let ghost ids = Seq::new(victims@.len(), |i: int| victims@[i].0);
        self.evict(&victims);
        proof {
            lemma_evict_seq_inv(old(self)@, ids, ids.len() as int);
        }
    }

    /// Tells the cache advisor of each of the nodes in `visited`, with the
    /// size of its leaf, that it was used, in their order, and drops from
    /// memory the leaves that the advisor names. A dirty leaf that is
    /// dropped leaves bytes in the dirty set from which it comes back as it
    /// was.
    pub fn mark_accesses(&mut self, visited: &Vec<(u64, usize)>)
        requires
            old(self)@.inv(),
        ensures
            old(self)@.evicts_to(final(self)@),
            final(self)@.inv(),
            final(self)@.epoch == old(self)@.epoch,
            forall|id: u64| #[trigger]
                old(self)@.leaves.contains_key(id) && !final(self)@.leaves.contains_key(id) ==> (
                old(self)@.leaves[id].dirty_flush_epoch matches Some(e) ==> final(self)@.keeps(
                    e,
                    old(self)@.leaves[id],
                )),
    {
        proof {
            lemma_evicts_to_self(self@);
        }
        let mut i: usize = 0;
        while i < visited.len()
            invariant
                0 <= i <= visited.len(),
                self@.inv(),
                old(self)@.evicts_to(self@),
                self@.epoch == old(self)@.epoch,
            decreases visited.len() - i,
        {
            let ghost before = self@;
            self.mark_access_and_evict(visited[i].0, visited[i].1);
            proof {
                lemma_evicts_to_chain(old(self)@, before, self@);
            }
            i += 1;
        }
        proof {
            assert forall|id: u64| #[trigger]
                old(self)@.leaves.contains_key(id) && !self@.leaves.contains_key(
                    id,
                ) implies (old(self)@.leaves[id].dirty_flush_epoch matches Some(e) ==> self@.keeps(
                e,
                old(self)@.leaves[id],
            )) by {
                lemma_evicted_kept(old(self)@, self@, id);
            }
        }
    }

    /// The leaf that `key` belongs to, for reading; or the node whose leaf
    /// has to be brought into memory first.
    pub fn leaf_for_key(&self, key: &[u8]) -> (r: Step<(u64, &Leaf)>)
        requires
            self@.inv(),
        ensures
            (match r {
                Step::Done(found) => {
                    &&& found.0 == self@.owner(key@)
                    &&& self@.leaves.contains_key(found.0)
                    &&& self@.leaves[found.0] == found.1@
                    &&& found.1@.owns(key@)
                },
                Step::PageIn(id) => {
                    &&& id == self@.owner(key@)
                    &&& !self@.resident(key@)
                    &&& self@.low_keys.contains_key(id)
                },
                Step::AllocateObjectIds(_) => false,
            }),
    {
        let (_low_key, id) = self.route(key);
        match self.leaves.get(&id) {
            None => Step::PageIn(id),
            Some(leaf) => {
                proof {
                    assert(self@.leaves[id] == leaf@);
                }
                Step::Done((id, leaf))
            },
        }
    }

    /// The leaf that `key` belongs to, for writing: the writer is checked
    /// into the current epoch, and a leaf that is dirty in the epoch before
    /// is serialized for the flush of that epoch first. The node is returned
    /// with the proof of the check-in, which the writer hands back when it is
    /// done.
    fn leaf_for_key_mut(&mut self, key: &[u8]) -> (r: Result<
        Step<(u64, crate::epoch::FlushEpochGuard)>,
        Error,
    >)
        requires
            old(self)@.wf(),
        ensures
            (match r {
                Ok(Step::Done(found)) => {
                    &&& old(self)@.resident(key@)
                    &&& found.0 == old(self)@.owner(key@)
                    &&& old(self)@.can_cooperate(found.0)
                    &&& found.1.epoch() == old(self)@.epoch.current
                    &&& final(self)@ == old(self)@.checked_in().cooperate(found.0)
                    &&& final(self)@.inv()
                    &&& final(self)@.epoch == old(self)@.checked_in().epoch
                },
                Ok(Step::PageIn(id)) => {
                    &&& !old(self)@.resident(key@)
                    &&& id == old(self)@.owner(key@)
                    &&& final(self)@ == old(self)@
                },
                Ok(Step::AllocateObjectIds(_)) => false,
                Err(e) => {
                    &&& old(self)@.resident(key@)
                    &&& !old(self)@.can_cooperate(old(self)@.owner(key@))
                    &&& e@ == serialize_failure()
                    &&& final(self)@ == old(self)@
                },
            }),
    {
        let (_low_key, id) = self.route(key);
        if !self.leaves.contains_key(&id) {
            return Ok(Step::PageIn(id));
        }
        let ghost s0 = self@;
        let guard = self.flush_epoch.check_in();
        proof {
            assert(self@ == s0.checked_in());
            assert(self@.inv());
        }
        match self.cooperate(id) {
            Err(e) => {
                self.flush_epoch.check_out(guard);
                proof {
                    assert(self@ == s0);
                }
                Err(e)
            },
            Ok(_) => {
                proof {
                    lemma_cooperate_inv(s0.checked_in(), id);
                }
                Ok(Step::Done((id, guard)))
            },
        }
    }

    /// The value stored under `key`.
    pub fn get(&mut self, key: &[u8]) -> (r: Result<Step<Option<Vec<u8>>>, Error>)
        requires
            old(self)@.wf(),
        ensures
            final(self)@.wf(),
            (match r {
                Err(e) => old(self)@.error == Some(e@) && final(self)@ == old(self)@,
                Ok(Step::PageIn(id)) => {
                    &&& old(self)@.error.is_none()
                    &&& !old(self)@.resident(key@)
                    &&& id == old(self)@.owner(key@)
                    &&& final(self)@ == old(self)@
                },
                Ok(Step::Done(v)) => {
                    &&& old(self)@.error.is_none()
                    &&& old(self)@.resident(key@)
                    &&& opt_view(v) == old(self)@.lookup(key@)
                    &&& old(self)@.evicts_to(final(self)@)
                },
                Ok(Step::AllocateObjectIds(_)) => false,
            }),
    {
        match self.check_error() {
            Err(e) => {
                return Err(e);
            },
            Ok(_) => {},
        }
        let (id, value, size) = match self.leaf_for_key(key) {
            Step::Done((id, leaf)) => (id, leaf.get(key), leaf.in_memory_size()),
            Step::PageIn(id) => {
                return Ok(Step::PageIn(id));
            },
            Step::AllocateObjectIds(n) => {
                return Ok(Step::AllocateObjectIds(n));
            },
        };
        self.mark_access_and_evict(id, size);
        Ok(Step::Done(value))
    }
}

/// What a compare-and-swap reports when the value it found was not the one
/// expected.
#[derive(Debug, Clone, PartialEq, Eq)]
pub struct CompareAndSwapError {
    /// The value that was found.
    pub current: Option<Vec<u8>>,
    /// The value that was proposed and not written.
    pub proposed: Option<Vec<u8>>,
}

/// What a compare-and-swap reports when it wrote.
#[derive(Debug, Clone, PartialEq, Eq)]
pub struct CompareAndSwapSuccess {
    /// The value that was written, or nothing where the key was removed.
    pub new_value: Option<Vec<u8>>,
    /// The value that was there before.
    pub previous_value: Option<Vec<u8>>,
}

/// Whether an optional value is the expected one.
pub fn same_value(expected: &Option<Vec<u8>>, current: &Option<Vec<u8>>) -> (r: bool)
    ensures
        r == (opt_view(*expected) == opt_view(*current)),
{
    match (expected, current) {
        (None, None) => true,
        (Some(a), Some(b)) => crate::bytes::key_eq(a.as_slice(), b.as_slice()),
        _ => false,
    }
}

impl Db {
    /// The cooperative flush: a writer that comes upon a leaf that is dirty
    /// in the epoch before the current one serializes it for the flush of
    /// that epoch, puts the bytes into the dirty set, and leaves the leaf
    /// clean: from the bytes it comes back as it was. Where the bytes
    /// cannot be made nothing changes.
    fn cooperate(&mut self, id: u64) -> (r: Result<(), Error>)
        requires
            old(self)@.inv(),
            old(self)@.leaves.contains_key(id),
        ensures
            (match r {
                Ok(_) => {
                    &&& old(self)@.can_cooperate(id)
                    &&& final(self)@ == old(self)@.cooperate(id)
                    &&& (old(self)@.leaves[id].dirty_flush_epoch matches Some(e) ==> e == old(
                        self,
                    )@.epoch.current || final(self)@.keeps(e, old(self)@.leaves[id]))
                },
                Err(e) => !old(self)@.can_cooperate(id) && final(self)@ == old(self)@ && e@
                    == serialize_failure(),
            }),
            final(self)@.inv(),
    {
        proof {
            if old(self)@.can_cooperate(id) {
                lemma_cooperate_kept(old(self)@, id);
            }
        }
        let current = self.flush_epoch.current_epoch();
        let ghost before = self@;
        let (stale, bytes, low_key) = match self.leaves.get(&id) {
            Some(leaf) => {
                proof {
                    assert(before.leaves[id] == leaf@);
                }
                match leaf.dirty_flush_epoch() {
                    Some(e) => {
                        if e != current {
                            (
                                Some(e),
                                leaf.serialize(self.config.zstd_compression_level),
                                key_copy(leaf.lo().as_slice()),
                            )
                        } else {
                            (None, None, Vec::new())
                        }
                    },
                    None => (None, None, Vec::new()),
                }
            },
            None => (None, None, Vec::new()),
        };
        match stale {
            None => Ok(()),
            Some(e) => {
                match bytes {
                    None => Err(Error::new(ErrorKind::Other, "leaf could not be serialized")),
                    Some(b) => {
                        proof {
                            lemma_cooperate_inv(before, id);
                        }
                        match self.leaves.remove(&id) {
                            Some(mut leaf) => {
                                leaf.set_dirty_flush_epoch(None);
                                self.leaves.insert(id, leaf);
                            },
                            None => {},
                        }
                        dirty_insert(&mut self.dirty, e, low_key, Some(b));
                        proof {
                            assert(self@.leaves =~= before.cooperate(id).leaves);
                            assert(self@ == before.cooperate(id));
                        }
                        Ok(())
                    },
                }
            },
        }
    }

    /// Settles the edited leaf of node `id`: splits it if it is full, marks
    /// what has changed as dirty in the current epoch, and makes the new
    /// node known to the index.
    fn settle(&mut self, id: u64, changed: bool)
        requires
            old(self)@.settle_ready(id),
        ensures
            final(self)@ == old(self)@.settle(id, changed),
            final(self)@.inv(),
    {
        let epoch = self.flush_epoch.current_epoch();
        let ghost before = self@;
        proof {
            lemma_settle_inv(before, id, changed);
        }
        match self.leaves.remove(&id) {
            None => {},
            Some(mut leaf) => {
                proof {
                    assert(before.leaves[id] == leaf@);
                }
                let split = leaf.split_if_full(epoch);
                if split.is_some() || changed {
                    leaf.set_dirty_flush_epoch(Some(epoch));
                    dirty_insert(&mut self.dirty, epoch, key_copy(leaf.lo().as_slice()), None);
                }
                match split {
                    Some((split_key, rhs)) => {
                        match self.spare_ids.pop() {
                            Some(rhs_id) => {
                                dirty_insert(
                                    &mut self.dirty,
                                    epoch,
                                    key_copy(split_key.as_slice()),
                                    None,
                                );
                                low_keys_insert(
                                    &mut self.node_id_to_low_key_index,
                                    rhs_id,
                                    key_copy(split_key.as_slice()),
                                );
                                index_insert(&mut self.index, split_key, rhs_id);
                                self.leaves.insert(rhs_id, rhs);
                                proof {
                                    assert(rhs_id != id);
                                }
                            },
                            None => {},
                        }
                    },
                    None => {},
                }
                self.leaves.insert(id, leaf);
                proof {
                    assert(self@.spare_ids =~= before.settle(id, changed).spare_ids);
                    assert(self@.leaves =~= before.settle(id, changed).leaves);
                    assert(self@.dirty =~= before.settle(id, changed).dirty);
                    assert(self@ == before.settle(id, changed));
                }
            },
        }
    }

    /// Sets `key` to `value` and returns the value it had. The leaf becomes
    /// dirty in the current epoch if the value changed, and splits if it
    /// became full.
    pub fn insert(&mut self, key: &[u8], value: Vec<u8>) -> (r: Result<Step<Option<Vec<u8>>>, Error>)
        requires
            old(self)@.wf(),
        ensures
            final(self)@.wf(),
            (match r {
                Err(e) => if old(self)@.error.is_some() {
                    old(self)@.error == Some(e@) && final(self)@ == old(self)@
                } else {
                    &&& old(self)@.resident(key@)
                    &&& !old(self)@.can_cooperate(old(self)@.owner(key@))
                    &&& e@ == serialize_failure()
                    &&& final(self)@ == old(self)@
                },
                Ok(Step::PageIn(id)) => {
                    &&& old(self)@.error.is_none()
                    &&& !old(self)@.resident(key@)
                    &&& id == old(self)@.owner(key@)
                    &&& final(self)@ == old(self)@
                },
                Ok(Step::AllocateObjectIds(n)) => {
                    &&& old(self)@.error.is_none()
                    &&& old(self)@.resident(key@)
                    &&& n == 1
                    &&& old(self)@.spare_ids.len() == 0
                    &&& old(self)@.leaves[old(self)@.owner(key@)].entries.len() + 1
                        >= crate::stack::LEAF_FANOUT
                    &&& final(self)@ == old(self)@
                },
                Ok(Step::Done(previous)) => {
                    &&& old(self)@.error.is_none()
                    &&& old(self)@.resident(key@)
                    &&& old(self)@.can_cooperate(old(self)@.owner(key@))
                    &&& (old(self)@.spare_ids.len() > 0
                        || old(self)@.leaves[old(self)@.owner(key@)].entries.len() + 1
                        < crate::stack::LEAF_FANOUT)
                    &&& opt_view(previous) == old(self)@.lookup(key@)
                    &&& old(self)@.inserted(key@, value@).evicts_to(final(self)@)
                },
            }),
    {
        match self.check_error() {
            Err(e) => {
                return Err(e);
            },
            Ok(_) => {},
        }
        let len = match self.leaf_for_key(key) {
            Step::Done((_id, leaf)) => leaf.len(),
            Step::PageIn(id) => {
                return Ok(Step::PageIn(id));
            },
            Step::AllocateObjectIds(n) => {
                return Ok(Step::AllocateObjectIds(1));
            },
        };
        if len + 1 >= crate::stack::LEAF_FANOUT && self.spare_ids.len() == 0 {
            return Ok(Step::AllocateObjectIds(1));
        }
        let ghost s0 = self@;
        let ghost s1 = s0.checked_in();
        let (id, guard) = match self.leaf_for_key_mut(key) {
            Err(e) => {
                return Err(e);
            },
            Ok(Step::PageIn(id)) => {
                return Ok(Step::PageIn(id));
            },
            Ok(Step::AllocateObjectIds(n)) => {
                return Ok(Step::AllocateObjectIds(1));
            },
            Ok(Step::Done(found)) => found,
        };
        let ghost s2 = self@;
        proof {
            assert(s1.inv());
            lemma_cooperate_inv(s1, id);
        }
        let copy = key_copy(value.as_slice());
        let (previous, size) = match self.leaves.remove(&id) {
            None => (None, 0),
            Some(mut leaf) => {
                proof {
                    assert(s2.leaves[id] == leaf@);
                    assert(s0.leaves[id].entries.len() == len);
                    assert(leaf@.entries == s0.leaves[id].entries);
                    crate::leaf::lemma_insert_wf(leaf@, key@, value@);
                }
                let previous = leaf.insert(key, value);
                let size = leaf.in_memory_size();
                proof {
                    assert(s2.spare_ids == s0.spare_ids);
                    lemma_edit_ready(s2, id, leaf@);
                }
                self.leaves.insert(id, leaf);
                (previous, size)
            },
        };
        let changed = !same_value(&previous, &Some(copy));
        proof {
            let edited = s2.leaves[id].insert(key@, value@);
            assert(self@.leaves =~= s2.with_leaf(id, edited).leaves);
            assert(self@ == s2.with_leaf(id, edited));
        }
        self.settle(id, changed);
        let ghost s4 = self@;
        self.flush_epoch.check_out(guard);
        proof {
            assert(self@ == (DbView { epoch: s0.epoch, ..s4 }));
            assert(s0.cooperate(id) == (DbView { epoch: s0.epoch, ..s2 }));
            assert(self@ == s0.inserted(key@, value@));
        }
        self.mark_access_and_evict(id, size);
        Ok(Step::Done(previous))
    }

    /// Removes `key` and returns the value it had. The leaf becomes dirty in
    /// the current epoch if the key was there.
    pub fn remove(&mut self, key: &[u8]) -> (r: Result<Step<Option<Vec<u8>>>, Error>)
        requires
            old(self)@.wf(),
        ensures
            final(self)@.wf(),
            (match r {
                Err(e) => if old(self)@.error.is_some() {
                    old(self)@.error == Some(e@) && final(self)@ == old(self)@
                } else {
                    &&& old(self)@.resident(key@)
                    &&& !old(self)@.can_cooperate(old(self)@.owner(key@))
                    &&& e@ == serialize_failure()
                    &&& final(self)@ == old(self)@
                },
                Ok(Step::PageIn(id)) => {
                    &&& old(self)@.error.is_none()
                    &&& !old(self)@.resident(key@)
                    &&& id == old(self)@.owner(key@)
                    &&& final(self)@ == old(self)@
                },
                Ok(Step::AllocateObjectIds(_)) => false,
                Ok(Step::Done(previous)) => {
                    &&& old(self)@.error.is_none()
                    &&& old(self)@.resident(key@)
                    &&& old(self)@.can_cooperate(old(self)@.owner(key@))
                    &&& opt_view(previous) == old(self)@.lookup(key@)
                    &&& old(self)@.removed(key@).evicts_to(final(self)@)
                },
            }),
    {
        match self.remove_in_place(key) {
            Err(e) => Err(e),
            Ok(Step::PageIn(id)) => Ok(Step::PageIn(id)),
            Ok(Step::AllocateObjectIds(n)) => Ok(Step::AllocateObjectIds(n)),
            Ok(Step::Done(taken)) => {
                self.mark_access_and_evict(taken.1, taken.2);
                Ok(Step::Done(taken.0))
            },
        }
    }

    /// Removes `key` as `remove` does and drops no leaf from memory. Beside
    /// the value that the key had, the node that held it and the size of its
    /// leaf are returned, for the cache to be told.
    pub fn remove_in_place(&mut self, key: &[u8]) -> (r: Result<
        Step<(Option<Vec<u8>>, u64, usize)>,
        Error,
    >)
        requires
            old(self)@.wf(),
        ensures
            final(self)@.wf(),
            (match r {
                Err(e) => if old(self)@.error.is_some() {
                    old(self)@.error == Some(e@) && final(self)@ == old(self)@
                } else {
                    &&& old(self)@.resident(key@)
                    &&& !old(self)@.can_cooperate(old(self)@.owner(key@))
                    &&& e@ == serialize_failure()
                    &&& final(self)@ == old(self)@
                },
                Ok(Step::PageIn(id)) => {
                    &&& old(self)@.error.is_none()
                    &&& !old(self)@.resident(key@)
                    &&& id == old(self)@.owner(key@)
                    &&& final(self)@ == old(self)@
                },
                Ok(Step::AllocateObjectIds(_)) => false,
                Ok(Step::Done(taken)) => {
                    &&& old(self)@.error.is_none()
                    &&& old(self)@.resident(key@)
                    &&& old(self)@.can_cooperate(old(self)@.owner(key@))
                    &&& opt_view(taken.0) == old(self)@.lookup(key@)
                    &&& taken.1 == old(self)@.owner(key@)
                    &&& final(self)@ == old(self)@.removed(key@)
                },
            }),
    {
        match self.check_error() {
            Err(e) => {
                return Err(e);
            },
            Ok(_) => {},
        }
        let ghost s0 = self@;
        let ghost s1 = s0.checked_in();
        let (id, guard) = match self.leaf_for_key_mut(key) {
            Err(e) => {
                return Err(e);
            },
            Ok(Step::PageIn(id)) => {
                return Ok(Step::PageIn(id));
            },
            Ok(Step::AllocateObjectIds(n)) => {
                return Ok(Step::AllocateObjectIds(1));
            },
            Ok(Step::Done(found)) => found,
        };
        let ghost s2 = self@;
        proof {
            assert(s1.inv());
            lemma_cooperate_inv(s1, id);
        }
        let (previous, size) = match self.leaves.remove(&id) {
            None => (None, 0),
            Some(mut leaf) => {
                proof {
                    assert(s2.leaves[id] == leaf@);
                    crate::leaf::lemma_remove_wf(leaf@, key@);
                }
                let previous = leaf.remove(key);
                let size = leaf.in_memory_size();
                proof {
                    lemma_edit_ready(s2, id, leaf@);
                }
                self.leaves.insert(id, leaf);
                (previous, size)
            },
        };
        let changed = previous.is_some();
        proof {
            let edited = s2.leaves[id].remove(key@);
            assert(self@.leaves =~= s2.with_leaf(id, edited).leaves);
            assert(self@ == s2.with_leaf(id, edited));
        }
        self.settle(id, changed);
        let ghost s4 = self@;
        self.flush_epoch.check_out(guard);
        proof {
            assert(self@ == (DbView { epoch: s0.epoch, ..s4 }));
            assert(s0.cooperate(id) == (DbView { epoch: s0.epoch, ..s2 }));
            assert(self@ == s0.removed(key@));
        }
        Ok(Step::Done((previous, id, size)))
    }

    /// Sets `key` to `proposed`, or removes it where nothing is proposed, if
    /// the value found under `key` is `expected`; nothing that is expected
    /// means that the key must be absent. What was found is returned either
    /// way, and nothing is written when it was not what was expected.
    pub fn compare_and_swap(
        &mut self,
        key: &[u8],
        expected: Option<Vec<u8>>,
        proposed: Option<Vec<u8>>,
    ) -> (r: Result<Step<Result<CompareAndSwapSuccess, CompareAndSwapError>>, Error>)
        requires
            old(self)@.wf(),
        ensures
            final(self)@.wf(),
            (match r {
                Err(e) => if old(self)@.error.is_some() {
                    old(self)@.error == Some(e@) && final(self)@ == old(self)@
                } else {
                    &&& old(self)@.resident(key@)
                    &&& !old(self)@.can_cooperate(old(self)@.owner(key@))
                    &&& e@ == serialize_failure()
                    &&& final(self)@ == old(self)@
                },
                Ok(Step::PageIn(id)) => {
                    &&& old(self)@.error.is_none()
                    &&& !old(self)@.resident(key@)
                    &&& id == old(self)@.owner(key@)
                    &&& final(self)@ == old(self)@
                },
                Ok(Step::AllocateObjectIds(n)) => {
                    &&& old(self)@.error.is_none()
                    &&& old(self)@.resident(key@)
                    &&& n == 1
                    &&& proposed.is_some()
                    &&& old(self)@.spare_ids.len() == 0
                    &&& old(self)@.leaves[old(self)@.owner(key@)].entries.len() + 1
                        >= crate::stack::LEAF_FANOUT
                    &&& final(self)@ == old(self)@
                },
                Ok(Step::Done(outcome)) => {
                    &&& old(self)@.error.is_none()
                    &&& old(self)@.resident(key@)
                    &&& old(self)@.can_cooperate(old(self)@.owner(key@))
                    &&& (proposed.is_none() || old(self)@.spare_ids.len() > 0
                        || old(self)@.leaves[old(self)@.owner(key@)].entries.len() + 1
                        < crate::stack::LEAF_FANOUT)
                    &&& old(self)@.swapped(key@, opt_view(expected), opt_view(proposed)).evicts_to(
                        final(self)@,
                    )
                    &&& (match outcome {
                        Ok(done) => {
                            &&& old(self)@.lookup(key@) == opt_view(expected)
                            &&& opt_view(done.new_value) == opt_view(proposed)
                            &&& opt_view(done.previous_value) == old(self)@.lookup(key@)
                        },
                        Err(miss) => {
                            &&& old(self)@.lookup(key@) != opt_view(expected)
                            &&& opt_view(miss.current) == old(self)@.lookup(key@)
                            &&& opt_view(miss.proposed) == opt_view(proposed)
                        },
                    })
                },
            }),
    {
        match self.check_error() {
            Err(e) => {
                return Err(e);
            },
            Ok(_) => {},
        }
        let len = match self.leaf_for_key(key) {
            Step::Done((_id, leaf)) => leaf.len(),
            Step::PageIn(id) => {
                return Ok(Step::PageIn(id));
            },
            Step::AllocateObjectIds(n) => {
                return Ok(Step::AllocateObjectIds(1));
            },
        };
        if proposed.is_some() && len + 1 >= crate::stack::LEAF_FANOUT && self.spare_ids.len()
            == 0 {
            return Ok(Step::AllocateObjectIds(1));
        }
        let ghost s0 = self@;
        let ghost s1 = s0.checked_in();
        let (id, guard) = match self.leaf_for_key_mut(key) {
            Err(e) => {
                return Err(e);
            },
            Ok(Step::PageIn(id)) => {
                return Ok(Step::PageIn(id));
            },
            Ok(Step::AllocateObjectIds(n)) => {
                return Ok(Step::AllocateObjectIds(1));
            },
            Ok(Step::Done(found)) => found,
        };
        let ghost s2 = self@;
        proof {
            assert(s1.inv());
            lemma_cooperate_inv(s1, id);
        }
        let (current, matches, size) = match self.leaves.remove(&id) {
            None => (None, false, 0),
            Some(mut leaf) => {
                proof {
                    assert(s2.leaves[id] == leaf@);
                    assert(s0.leaves[id].entries.len() == len);
                    assert(leaf@.entries == s0.leaves[id].entries);
                }
                let current = leaf.get(key);
                let matches = same_value(&expected, &current);
                if matches {
                    match &proposed {
                        Some(v) => {
                            proof {
                                crate::leaf::lemma_insert_wf(leaf@, key@, v@);
                            }
                            leaf.insert(key, key_copy(v.as_slice()));
                        },
                        None => {
                            proof {
                                crate::leaf::lemma_remove_wf(leaf@, key@);
                            }
                            leaf.remove(key);
                        },
                    }
                }
                let size = leaf.in_memory_size();
                proof {
                    assert(s2.spare_ids == s0.spare_ids);
                    lemma_edit_ready(s2, id, leaf@);
                }
                self.leaves.insert(id, leaf);
                (current, matches, size)
            },
        };
        proof {
            let before = s2.leaves[id];
            let edited = if matches {
                match opt_view(proposed) {
                    Some(v) => before.insert(key@, v),
                    None => before.remove(key@),
                }
            } else {
                before
            };
            assert(self@.leaves =~= s2.with_leaf(id, edited).leaves);
            assert(self@ == s2.with_leaf(id, edited));
            if !matches {
                assert(self@.leaves =~= s2.leaves);
                assert(self@ == s2);
            }
        }
        if matches {
            self.settle(id, true);
        }
        let ghost s4 = self@;
        self.flush_epoch.check_out(guard);
        proof {
            assert(self@ == (DbView { epoch: s0.epoch, ..s4 }));
            assert(s0.cooperate(id) == (DbView { epoch: s0.epoch, ..s2 }));
            assert(self@ == s0.swapped(key@, opt_view(expected), opt_view(proposed)));
        }
        self.mark_access_and_evict(id, size);
        if matches {
            Ok(
                Step::Done(
                    Ok(CompareAndSwapSuccess { new_value: proposed, previous_value: current }),
                ),
            )
        } else {
            Ok(Step::Done(Err(CompareAndSwapError { current, proposed })))
        }
    }

    /// Opens the next epoch to writers and begins the flush of the epoch
    /// that was current, which is returned. Nothing happens while an earlier
    /// flush is under way or when the epoch counter is at its end.
    pub fn roll_epoch_forward(&mut self) -> (r: Option<u64>)
        requires
            old(self)@.wf(),
        ensures
            final(self)@.wf(),
            (match r {
                Some(e) => {
                    &&& !old(self)@.epoch.flushing
                    &&& old(self)@.epoch.current < u64::MAX
                    &&& e == old(self)@.epoch.current
                    &&& final(self)@ == old(self)@.flush_started()
                },
                None => (old(self)@.epoch.flushing || old(self)@.epoch.current == u64::MAX)
                    && final(self)@ == old(self)@,
            }),
    {
        proof {
            if old(self)@.can_flush() {
                lemma_flush_started_inv(old(self)@);
            }
        }
        self.flush_epoch.roll_epoch_forward()
    }

    /// Takes out of the store what a flush has to write to the object
    /// store: for each leaf that is dirty in the epoch being flushed, its
    /// node, its low key and its bytes, in ascending order of low keys. A
    /// flush begins here unless one is under way. Afterwards no leaf is dirty
    /// in that epoch. Where a leaf cannot be serialized nothing is taken, and
    /// where the store has a fatal error nothing is done.
    /// The caller writes the batch and then calls `flush_complete`.
    pub fn flush(&mut self) -> (r: Result<Vec<(u64, Vec<u8>, Vec<u8>)>, Error>)
        requires
            old(self)@.wf(),
        ensures
            final(self)@.wf(),
            (match r {
                Ok(batch) => {
                    &&& old(self)@.error.is_none()
                    &&& old(self)@.can_flush()
                    &&& old(self)@.flush_started().is_flush_batch(batch@)
                    &&& old(self)@.flush_started().batch_reads_back(batch@)
                    &&& final(self)@ == old(self)@.flush_started().flushed()
                },
                Err(e) => if old(self)@.error.is_some() {
                    old(self)@.error == Some(e@) && final(self)@ == old(self)@
                } else if !old(self)@.can_flush() {
                    final(self)@ == old(self)@ && e.kind == ErrorKind::Other
                } else {
                    &&& final(self)@ == old(self)@.flush_started()
                    &&& e@ == serialize_failure()
                    &&& exists|k: (u64, Seq<u8>)| #[trigger]
                        final(self)@.flush_due(k) && final(self)@.flush_bytes(k).is_none()
                },
            }),
    {
        match self.check_error() {
            Err(e) => {
                return Err(e);
            },
            Ok(_) => {},
        }
        if !self.flush_epoch.is_flushing() {
            if self.flush_epoch.roll_epoch_forward().is_none() {
                return Err(Error::new(ErrorKind::Other, "the flush epoch cannot advance"));
            }
        }
        let ghost start = self@;
        proof {
            lemma_flush_started_inv(old(self)@);
            assert(start == old(self)@.flush_started());
        }
        let current = self.flush_epoch.current_epoch();
        let keys = dirty_keys_below(&self.dirty, current);
        proof {
            assert(flush_keys(start, keys@)) by {
                assert forall|k: (u64, Seq<u8>)| #[trigger] start.flush_due(k) implies in_prefix(
                    keys@,
                    keys@.len() as int,
                    k,
                ) by {
                    assert(start.dirty.contains_key(k) && k.0 < current);
                }
            }
        }
        let mut batch: Vec<(u64, Vec<u8>, Vec<u8>)> = Vec::new();
        let mut i: usize = 0;
        while i < keys.len()
            invariant
                0 <= i <= keys@.len(),
                self@ == start,
                start == old(self)@.flush_started(),
                old(self)@.error.is_none(),
                old(self)@.can_flush(),
                start.inv(),
                start.epoch.idle(),
                start.epoch.flushing,
                start.epoch.current == current,
                flush_keys(start, keys@),
                batch@.len() == i,
                forall|j: int|
                    0 <= j < i ==> {
                        &&& (#[trigger] batch@[j]).1@ == keys@[j].1@
                        &&& batch@[j].0 == start.index[keys@[j].1@]
                        &&& start.flush_bytes(dirty_key(keys@[j])) == Some(batch@[j].2@)
                        &&& (start.dirty[dirty_key(keys@[j])].is_none() ==> reads_back(
                            batch@[j].2@,
                            start.leaves[batch@[j].0],
                        ))
                    },
            decreases keys@.len() - i,
        {
            let epoch = keys[i].0;
            let ghost k = dirty_key(keys@[i as int]);
            proof {
                assert(start.flush_due(k));
                assert(start.dirty.contains_key(k));
                assert(start.index.contains_key(k.1));
            }
            let id = match index_get(&self.index, keys[i].1.as_slice()) {
                Some(id) => id,
                None => 0,
            };
            let slot = dirty_get(&self.dirty, epoch, key_copy(keys[i].1.as_slice()));
            let bytes = match slot {
                Some(Some(b)) => Some(b),
                _ => match self.leaves.get(&id) {
                    Some(leaf) => {
                        proof {
                            assert(start.leaves.contains_key(id));
                            assert(start.leaves[id] == leaf@);
                        }
                        leaf.serialize(self.config.zstd_compression_level)
                    },
                    None => None,
                },
            };
            match bytes {
                Some(b) => {
                    batch.push((id, key_copy(keys[i].1.as_slice()), b));
                },
                None => {
                    proof {
                        assert(start.flush_due(k) && start.flush_bytes(k).is_none());
                    }
                    return Err(Error::new(ErrorKind::Other, "leaf could not be serialized"));
                },
            }
            i += 1;
        }
        proof {
            assert(start.is_flush_batch(batch@)) by {
                assert forall|j: int| 0 <= j < batch@.len() implies {
                    let k = ((start.epoch.current - 1) as u64, (#[trigger] batch@[j]).1@);
                    &&& start.flush_due(k)
                    &&& batch@[j].0 == start.index[k.1]
                    &&& start.flush_bytes(k) == Some(batch@[j].2@)
                } by {
                    let k = dirty_key(keys@[j]);
                    assert(start.flush_due(k));
                    assert(start.live_epoch(k.0));
                }
                assert forall|k: (u64, Seq<u8>)| #[trigger] start.flush_due(k) implies exists|
                    j: int,
                | 0 <= j < batch@.len() && (#[trigger] batch@[j]).1@ == k.1 by {
                    assert(in_prefix(keys@, keys@.len() as int, k));
                    let j = choose|j: int|
                        0 <= j < keys@.len() && dirty_key(#[trigger] keys@[j]) == k;
                    assert(batch@[j].1@ == k.1);
                }
                assert forall|a: int, b: int| 0 <= a < b < batch@.len() implies lex_lt(
                    (#[trigger] batch@[a]).1@,
                    (#[trigger] batch@[b]).1@,
                ) by {
                    let ka = dirty_key(keys@[a]);
                    let kb = dirty_key(keys@[b]);
                    assert(dirty_key_lt(ka, kb));
                    assert(start.flush_due(ka) && start.flush_due(kb));
                    assert(start.live_epoch(ka.0) && start.live_epoch(kb.0));
                }
            }
            assert(start.batch_reads_back(batch@)) by {
                assert forall|j: int| 0 <= j < batch@.len() implies {
                    let k = ((start.epoch.current - 1) as u64, (#[trigger] batch@[j]).1@);
                    match start.dirty[k] {
                        None => reads_back(batch@[j].2@, start.leaves[batch@[j].0]),
                        Some(_) => holds_leaf(batch@[j].2@, batch@[j].1@),
                    }
                } by {
                    let k = dirty_key(keys@[j]);
                    assert(start.flush_due(k));
                    assert(start.live_epoch(k.0));
                }
            }
            assert(self@.dirty =~= flushed_up_to(start, keys@, 0).dirty);
            assert(self@.leaves =~= flushed_up_to(start, keys@, 0).leaves);
        }
        let mut i: usize = 0;
        while i < keys.len()
            invariant
                0 <= i <= keys@.len(),
                self@ == flushed_up_to(start, keys@, i as int),
                start.inv(),
                flush_keys(start, keys@),
                batch@.len() == keys@.len(),
                forall|j: int|
                    0 <= j < keys@.len() ==> (#[trigger] batch@[j]).0 == start.index[keys@[j].1@],
            decreases keys@.len() - i,
        {
            let ghost before = self@;
            proof {
                lemma_flush_step(start, keys@, i as int);
            }
            let id = batch[i].0;
            let slot = dirty_remove(&mut self.dirty, keys[i].0, key_copy(keys[i].1.as_slice()));
            match slot {
                Some(None) => {
                    match self.leaves.remove(&id) {
                        Some(mut leaf) => {
                            leaf.set_dirty_flush_epoch(None);
                            self.leaves.insert(id, leaf);
                        },
                        None => {},
                    }
                    proof {
                        assert(self@.leaves =~= flushed_up_to(start, keys@, i + 1).leaves);
                    }
                },
                _ => {
                    proof {
                        assert(self@.leaves =~= flushed_up_to(start, keys@, i + 1).leaves);
                    }
                },
            }
            i += 1;
        }
        proof {
            lemma_flushed_all(start, keys@);
            lemma_flushed_inv(start);
        }
        Ok(batch)
    }

    /// Ends the flush that is under way, once the batch that `flush` handed
    /// out has been written. Nothing happens, and `false` is returned, where
    /// no flush is under way or where the flush has not yet taken all that
    /// it has to write.
    pub fn flush_complete(&mut self) -> (r: bool)
        requires
            old(self)@.wf(),
        ensures
            final(self)@.wf(),
            r == (old(self)@.epoch.flushing && forall|k: (u64, Seq<u8>)|
                !old(self)@.flush_due(k)),
            final(self)@ == (if r {
                DbView {
                    epoch: FlushEpochView { flushing: false, ..old(self)@.epoch },
                    ..old(self)@
                }
            } else {
                old(self)@
            }),
    {
        if !self.flush_epoch.is_vacant() {
            return false;
        }
        let current = self.flush_epoch.current_epoch();
        let keys = dirty_keys_below(&self.dirty, current);
        if keys.len() > 0 {
            proof {
                assert(old(self)@.flush_due(dirty_key(keys@[0])));
            }
            return false;
        }
        let ghost s = self@;
        proof {
            assert forall|k: (u64, Seq<u8>)| !s.flush_due(k) by {
                if s.flush_due(k) {
                    assert(s.dirty.contains_key(k) && k.0 < current);
                }
            }
        }
        self.flush_epoch.mark_complete();
        proof {
            let t = self@;
            assert forall|j: u64| #[trigger] t.leaves.contains_key(j) implies (
            t.leaves[j].dirty_flush_epoch matches Some(e2) ==> {
                &&& t.live_epoch(e2)
                &&& t.dirty.contains_key((e2, t.leaves[j].lo))
                &&& t.dirty[(e2, t.leaves[j].lo)].is_none()
            }) by {
                assert(s.leaves.contains_key(j));
                match s.leaves[j].dirty_flush_epoch {
                    Some(e2) => {
                        assert(!s.flush_due((e2, s.leaves[j].lo)));
                    },
                    None => {},
                }
            }
            assert forall|k: (u64, Seq<u8>)| #[trigger] t.dirty.contains_key(k) implies {
                &&& t.live_epoch(k.0)
                &&& t.index.contains_key(k.1)
                &&& (t.dirty[k].is_none() ==> t.leaves.contains_key(t.index[k.1])
                    && t.leaves[t.index[k.1]].dirty_flush_epoch == Some(k.0))
            } by {
                assert(s.dirty.contains_key(k));
                assert(!s.flush_due(k));
            }
            assert forall|j: u64| #[trigger] t.leaves.contains_key(j) implies {
                &&& t.low_keys.contains_key(j)
                &&& t.leaves[j].wf()
                &&& !t.leaves[j].is_full()
                &&& t.leaves[j].lo == t.low_keys[j]
                &&& is_successor(t.index, t.leaves[j].lo, t.leaves[j].hi)
            } by {
                assert(s.leaves.contains_key(j));
            }
        }
        true
    }

    /// One write of a batch: sets `key` to `value`, or removes it where
    /// there is none, and settles the leaf as changed.
    fn write(&mut self, key: &[u8], value: Option<Vec<u8>>)
        requires
            old(self)@.inv(),
            writable(old(self)@, key@),
            value.is_some() ==> old(self)@.spare_ids.len() > 0,
        ensures
            final(self)@ == old(self)@.write_one(key@, opt_view(value)),
            final(self)@.inv(),
    {
        let ghost s = self@;
        let (_low_key, id) = self.route(key);
        proof {
            lemma_write_one(s, key@, opt_view(value), key@);
        }
        match self.leaves.remove(&id) {
            None => {},
            Some(mut leaf) => {
                proof {
                    assert(s.leaves[id] == leaf@);
                }
                match value {
                    Some(v) => {
                        proof {
                            crate::leaf::lemma_insert_wf(leaf@, key@, v@);
                        }
                        leaf.insert(key, v);
                    },
                    None => {
                        proof {
                            crate::leaf::lemma_remove_wf(leaf@, key@);
                        }
                        leaf.remove(key);
                    },
                }
                proof {
                    lemma_edit_ready(s, id, leaf@);
                }
                self.leaves.insert(id, leaf);
            },
        }
        proof {
            let edited = match opt_view(value) {
                Some(v) => s.leaves[id].insert(key@, v),
                None => s.leaves[id].remove(key@),
            };
            assert(self@.leaves =~= s.with_leaf(id, edited).leaves);
            assert(self@ == s.with_leaf(id, edited));
        }
        self.settle(id, true);
    }

    /// Applies the writes of `batch` in one step. Every leaf that the batch
    /// writes to has to be in memory, and a spare node id has to be at hand
    /// for each value that it sets; where that is not so, nothing is written
    /// and the caller is told what to do. Every leaf that the batch changes
    /// is dirty in the same epoch afterwards.
    pub fn apply_batch(&mut self, batch: &Batch) -> (r: Result<Step<()>, Error>)
        requires
            old(self)@.wf(),
            batch.wf(),
        ensures
            final(self)@.wf(),
            (match r {
                Err(e) => if old(self)@.error.is_some() {
                    old(self)@.error == Some(e@) && final(self)@ == old(self)@
                } else {
                    &&& e@ == serialize_failure()
                    &&& forall|i: int|
                        0 <= i < batch@.len() ==> old(self)@.resident(#[trigger] batch@[i].0)
                    &&& old(self)@.spare_ids.len() >= inserts(batch@, batch@.len() as int)
                    &&& exists|n: int|
                        0 <= n < batch@.len() && final(self)@ == old(self)@.checked_in().cooperate_all(
                            batch@,
                            n,
                        ).checked_out() && !final(self)@.can_cooperate(
                            final(self)@.owner(#[trigger] batch@[n].0),
                        ) && can_cooperate_all(old(self)@.checked_in(), batch@, n)
                },
                Ok(Step::PageIn(id)) => {
                    &&& old(self)@.error.is_none()
                    &&& final(self)@ == old(self)@
                    &&& !old(self)@.leaves.contains_key(id)
                    &&& exists|i: int|
                        0 <= i < batch@.len() && id == old(self)@.owner(#[trigger] batch@[i].0)
                },
                Ok(Step::AllocateObjectIds(n)) => {
                    &&& old(self)@.error.is_none()
                    &&& final(self)@ == old(self)@
                    &&& forall|i: int|
                        0 <= i < batch@.len() ==> old(self)@.resident(#[trigger] batch@[i].0)
                    &&& n > 0
                    &&& n == inserts(batch@, batch@.len() as int) - old(self)@.spare_ids.len()
                },
                Ok(Step::Done(_)) => {
                    &&& old(self)@.error.is_none()
                    &&& forall|i: int|
                        0 <= i < batch@.len() ==> old(self)@.resident(#[trigger] batch@[i].0)
                    &&& old(self)@.spare_ids.len() >= inserts(batch@, batch@.len() as int)
                    &&& can_cooperate_all(old(self)@.checked_in(), batch@, batch@.len() as int)
                    &&& final(self)@ == old(self)@.batch_applied(batch@)
                },
            }),
    {
        match self.check_error() {
            Err(e) => {
                return Err(e);
            },
            Ok(_) => {},
        }
        let n = batch.len();
        let ghost w = batch@;
        let ghost s0 = self@;
        let mut needed: usize = 0;
        let mut i: usize = 0;
        while i < n
            invariant
                0 <= i <= n,
                n == w.len(),
                w == batch@,
                self@ == s0,
                s0.wf(),
                s0.error.is_none(),
                needed == inserts(w, i as int),
                needed <= i,
                forall|j: int| 0 <= j < i ==> s0.resident(#[trigger] w[j].0),
            decreases n - i,
        {
            let (_low_key, id) = self.route(batch.key(i).as_slice());
            if !self.leaves.contains_key(&id) {
                return Ok(Step::PageIn(id));
            }
            if batch.value(i).is_some() {
                needed += 1;
            }
            i += 1;
        }
        if self.spare_ids.len() < needed {
            return Ok(Step::AllocateObjectIds(needed - self.spare_ids.len()));
        }
        let guard = self.flush_epoch.check_in();
        let ghost s1 = self@;
        proof {
            assert(s1 == s0.checked_in());
            assert(s1.inv());
            assert forall|j: int| 0 <= j < n implies s1.resident(#[trigger] w[j].0) by {
                assert(s0.resident(w[j].0));
            }
        }
        let mut i: usize = 0;
        while i < n
            invariant
                0 <= i <= n,
                n == w.len(),
                w == batch@,
                s0.wf(),
                s0 == old(self)@,
                s0.error.is_none(),
                s1 == s0.checked_in(),
                guard.epoch() == s1.epoch.current,
                self@ == s1.cooperate_all(w, i as int),
                can_cooperate_all(s1, w, i as int),
                forall|j: int| 0 <= j < n ==> s0.resident(#[trigger] w[j].0),
                s0.spare_ids.len() >= inserts(w, n as int),
                self@.inv(),
                self@.epoch == s1.epoch,
                self@.spare_ids == s1.spare_ids,
                forall|j: int| 0 <= j < n ==> self@.resident(#[trigger] w[j].0),
                forall|j: int| 0 <= j < i ==> writable(self@, #[trigger] w[j].0),
            decreases n - i,
        {
            let ghost before = self@;
            let (_low_key, id) = self.route(batch.key(i).as_slice());
            proof {
                assert(before.resident(w[i as int].0));
            }
            match self.cooperate(id) {
                Err(e) => {
                    self.flush_epoch.check_out(guard);
                    proof {
                        assert(self@ == before.checked_out());
                        assert(self@.owner(w[i as int].0) == id);
                        assert(!self@.can_cooperate(self@.owner(w[i as int].0)));
                        let m = i as int;
                        assert(0 <= m < batch@.len() && self@
                            == old(self)@.checked_in().cooperate_all(batch@, m).checked_out()
                            && !self@.can_cooperate(self@.owner(batch@[m].0)) && can_cooperate_all(
                            old(self)@.checked_in(),
                            batch@,
                            m,
                        ));
                    }
                    return Err(e);
                },
                Ok(_) => {},
            }
            proof {
                assert forall|j: int| 0 <= j < n implies self@.resident(#[trigger] w[j].0) by {
                    assert(before.resident(w[j].0));
                    lemma_cooperate_writable(before, id, w[j].0);
                }
                assert forall|j: int| 0 <= j < i + 1 implies writable(self@, #[trigger] w[j].0) by {
                    lemma_cooperate_writable(before, id, w[j].0);
                    if j < i {
                        assert(writable(before, w[j].0));
                    }
                }
                lemma_cooperate_writable(before, id, w[i as int].0);
                assert(before.can_cooperate(before.owner(w[i as int].0)));
            }
            i += 1;
        }
        let ghost c = self@;
        proof {
            lemma_inserts_bounds(w, 0, n as int);
        }
        let mut i: usize = 0;
        while i < n
            invariant
                0 <= i <= n,
                n == w.len(),
                w == batch@,
                guard.epoch() == s1.epoch.current,
                s1.epoch.active == 1,
                s1.epoch.draining == 0,
                self@ == c.write_all(w, i as int),
                can_cooperate_all(s1, w, n as int),
                self@.inv(),
                self@.epoch == s1.epoch,
                self@.spare_ids.len() + inserts(w, i as int) >= inserts(w, n as int),
                forall|j: int| 0 <= j < n ==> writable(self@, #[trigger] w[j].0),
            decreases n - i,
        {
            let ghost before = self@;
            proof {
                assert(writable(before, w[i as int].0));
                lemma_inserts_bounds(w, i as int + 1, n as int);
                assert forall|j: int| 0 <= j < n implies writable(
                    before.write_one(w[i as int].0, w[i as int].1),
                    #[trigger] w[j].0,
                ) by {
                    assert(writable(before, w[j].0));
                    lemma_write_one(before, w[i as int].0, w[i as int].1, w[j].0);
                }
                lemma_write_one(before, w[i as int].0, w[i as int].1, w[i as int].0);
            }
            let value = crate::bytes::opt_copy(batch.value(i));
            self.write(batch.key(i).as_slice(), value);
            i += 1;
        }
        self.flush_epoch.check_out(guard);
        Ok(Step::Done(()))
    }

    /// Whether the store holds a value under `key`.
    pub fn contains_key(&mut self, key: &[u8]) -> (r: Result<Step<bool>, Error>)
        requires
            old(self)@.wf(),
        ensures
            final(self)@.wf(),
            (match r {
                Err(e) => old(self)@.error == Some(e@) && final(self)@ == old(self)@,
                Ok(Step::PageIn(id)) => {
                    &&& old(self)@.error.is_none()
                    &&& !old(self)@.resident(key@)
                    &&& id == old(self)@.owner(key@)
                    &&& final(self)@ == old(self)@
                },
                Ok(Step::Done(found)) => {
                    &&& old(self)@.error.is_none()
                    &&& old(self)@.resident(key@)
                    &&& found == old(self)@.lookup(key@).is_some()
                    &&& old(self)@.evicts_to(final(self)@)
                },
                Ok(Step::AllocateObjectIds(_)) => false,
            }),
    {
        match self.get(key) {
            Err(e) => Err(e),
            Ok(Step::Done(v)) => Ok(Step::Done(v.is_some())),
            Ok(Step::PageIn(id)) => Ok(Step::PageIn(id)),
            Ok(Step::AllocateObjectIds(n)) => Ok(Step::AllocateObjectIds(n)),
        }
    }
}

} // verus!
