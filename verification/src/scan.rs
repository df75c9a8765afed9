//! Reading the store in key order: iterators over ranges and prefixes, the
//! first and the last entry, the entries next to a key, and taking entries
//! off either end. What each of these says of the store, it says of the
//! store as the call found it: the leaves that the call drops from memory
//! are dropped after it has read.

use crate::bytes::{is_prefix, key_copy, opt_view};
use crate::codec::pairs_view;
use crate::db::{Db, Step};
use crate::error::Error;
use crate::invariants::{lemma_removed_lookup, lemma_removed_same_nodes};
use crate::iter::{
    entry_view, gather_needs_leaf, is_content_of, is_end_of, needs_leaf, Iter, IterView,
};
use crate::model::{serialize_failure, DbView};
use crate::range::{
    in_bounds, lemma_prefix_range, map_bound, prefix_end, prefix_upper_bound, Bound,
};
use crate::stack::LEAF_FANOUT;
use vstd::prelude::*;

verus! {

/// A bound on borrowed keys as a plain value.
pub open spec fn borrowed_bound_view(b: Bound<&[u8]>) -> Bound<Seq<u8>> {
    match b {
        Bound::Included(x) => Bound::Included(x@),
        Bound::Excluded(x) => Bound::Excluded(x@),
        Bound::Unbounded => Bound::Unbounded,
    }
}

/// The keys and values of the first `n` entries, one after the other.
pub open spec fn flattened(r: Seq<(Seq<u8>, Seq<u8>)>, n: int) -> Seq<u8>
    decreases n,
{
    if n <= 0 {
        Seq::empty()
    } else {
        flattened(r, n - 1) + r[n - 1].0 + r[n - 1].1
    }
}

/// The store after the keys of the first `n` of `entries` were removed, one
/// after the other.
pub open spec fn cleared(s: DbView, entries: Seq<(Seq<u8>, Seq<u8>)>, n: int) -> DbView
    decreases n,
{
    if n <= 0 {
        s
    } else {
        cleared(s, entries, n - 1).removed(entries[n - 1].0)
    }
}

/// Each of the first `n` removals finds that the leaf of its key can be
/// serialized, where it has to be.
pub open spec fn can_clear(s: DbView, entries: Seq<(Seq<u8>, Seq<u8>)>, n: int) -> bool
    decreases n,
{
    if n <= 0 {
        true
    } else {
        let m = cleared(s, entries, n - 1);
        can_clear(s, entries, n - 1) && m.can_cooperate(m.owner(entries[n - 1].0))
    }
}

/// Removing keys one after the other from a store with every leaf in memory
/// keeps every leaf in memory, and leaves under each key what it held,
/// unless it was removed.
pub proof fn lemma_cleared(s: DbView, entries: Seq<(Seq<u8>, Seq<u8>)>, n: int, q: Seq<u8>)
    requires
        s.inv(),
        forall|k: Seq<u8>| #[trigger] s.resident(k),
        0 <= n <= entries.len(),
        can_clear(s, entries, n),
    ensures
        cleared(s, entries, n).inv(),
        cleared(s, entries, n).error == s.error,
        cleared(s, entries, n).epoch == s.epoch,
        forall|k: Seq<u8>| #[trigger] cleared(s, entries, n).resident(k),
        cleared(s, entries, n).lookup(q) == (if exists|i: int|
            0 <= i < n && (#[trigger] entries[i]).0 == q {
            None::<Seq<u8>>
        } else {
            s.lookup(q)
        }),
    decreases n,
{
    if n > 0 {
        lemma_cleared(s, entries, n - 1, q);
        let m = cleared(s, entries, n - 1);
        let key = entries[n - 1].0;
        assert(m.resident(key));
        assert(m.resident(q));
        lemma_removed_lookup(m, key, q);
        assert forall|k: Seq<u8>| #[trigger] m.removed(key).resident(k) by {
            assert(m.resident(k));
            lemma_removed_same_nodes(m, key, k);
        }
        if q == key {
            assert(entries[n - 1].0 == q);
        } else if exists|i: int| 0 <= i < n && (#[trigger] entries[i]).0 == q {
            let i = choose|i: int| 0 <= i < n && (#[trigger] entries[i]).0 == q;
            assert(0 <= i < n - 1);
        }
    }
}

/// Once all entries of a store were removed one after the other, it holds
/// nothing under any key.
pub proof fn lemma_clear_empties(s: DbView, entries: Seq<(Seq<u8>, Seq<u8>)>, q: Seq<u8>)
    requires
        s.inv(),
        is_content_of(s, Bound::Unbounded, Bound::Unbounded, entries),
        can_clear(s, entries, entries.len() as int),
    ensures
        cleared(s, entries, entries.len() as int).resident(q),
        cleared(s, entries, entries.len() as int).lookup(q).is_none(),
{
    assert forall|k: Seq<u8>| #[trigger] s.resident(k) by {
        assert(in_bounds(Bound::Unbounded, Bound::Unbounded, k));
    }
    lemma_cleared(s, entries, entries.len() as int, q);
    assert(in_bounds(Bound::Unbounded, Bound::Unbounded, q));
    if s.lookup(q).is_some() {
        let i = choose|i: int| 0 <= i < entries.len() && (#[trigger] entries[i]).0 == q;
        assert(entries[i].0 == q);
    }
}

impl Iter {
    /// All entries of the range that the iterator has yet to hand out, in
    /// ascending order of keys. The iterator stays as it is.
    pub fn collect(&self, db: &mut Db) -> (r: Result<Step<Vec<(Vec<u8>, Vec<u8>)>>, Error>)
        requires
            old(db)@.wf(),
        ensures
            final(db)@.wf(),
            (match r {
                Err(e) => old(db)@.error == Some(e@) && final(db)@ == old(db)@,
                Ok(Step::PageIn(id)) => {
                    &&& old(db)@.error.is_none()
                    &&& gather_needs_leaf(old(db)@, self@.start, self@.end, id)
                    &&& final(db)@ == old(db)@
                },
                Ok(Step::AllocateObjectIds(_)) => false,
                Ok(Step::Done(entries)) => {
                    &&& old(db)@.error.is_none()
                    &&& is_content_of(old(db)@, self@.start, self@.end, pairs_view(entries@))
                    &&& old(db)@.evicts_to(final(db)@)
                },
            }),
    {
        match db.check_error() {
            Err(e) => {
                return Err(e);
            },
            Ok(_) => {},
        }
        match self.gather(db) {
            Step::PageIn(id) => Ok(Step::PageIn(id)),
            Step::AllocateObjectIds(n) => Ok(Step::AllocateObjectIds(n)),
            Step::Done(walk) => {
                db.mark_accesses(&walk.visited);
                Ok(Step::Done(walk.found))
            },
        }
    }

    /// The keys of the range that the iterator has yet to hand out, in
    /// ascending order.
    pub fn keys(&self, db: &mut Db) -> (r: Result<Step<Vec<Vec<u8>>>, Error>)
        requires
            old(db)@.wf(),
        ensures
            final(db)@.wf(),
            (match r {
                Err(e) => old(db)@.error == Some(e@) && final(db)@ == old(db)@,
                Ok(Step::PageIn(id)) => {
                    &&& old(db)@.error.is_none()
                    &&& gather_needs_leaf(old(db)@, self@.start, self@.end, id)
                    &&& final(db)@ == old(db)@
                },
                Ok(Step::AllocateObjectIds(_)) => false,
                Ok(Step::Done(keys)) => {
                    &&& old(db)@.error.is_none()
                    &&& old(db)@.evicts_to(final(db)@)
                    &&& exists|entries: Seq<(Seq<u8>, Seq<u8>)>|
                        {
                            &&& #[trigger] is_content_of(
                                old(db)@,
                                self@.start,
                                self@.end,
                                entries,
                            )
                            &&& keys@.len() == entries.len()
                            &&& forall|i: int|
                                0 <= i < keys@.len() ==> (#[trigger] keys@[i])@ == entries[i].0
                        }
                },
            }),
    {
        match self.collect(db) {
            Err(e) => Err(e),
            Ok(Step::PageIn(id)) => Ok(Step::PageIn(id)),
            Ok(Step::AllocateObjectIds(n)) => Ok(Step::AllocateObjectIds(n)),
            Ok(Step::Done(entries)) => {
                let ghost all = pairs_view(entries@);
                let mut keys: Vec<Vec<u8>> = Vec::new();
                let mut j: usize = 0;
                while j < entries.len()
                    invariant
                        0 <= j <= entries@.len(),
                        keys@.len() == j,
                        forall|i: int| 0 <= i < j ==> (#[trigger] keys@[i])@ == entries@[i].0@,
                    decreases entries@.len() - j,
                {
                    keys.push(key_copy(entries[j].0.as_slice()));
                    j += 1;
                }
                proof {
                    assert forall|i: int| 0 <= i < keys@.len() implies (#[trigger] keys@[i])@
                        == all[i].0 by {
                        assert(all[i].0 == entries@[i].0@);
                    }
                }
                Ok(Step::Done(keys))
            },
        }
    }

    /// The values of the range that the iterator has yet to hand out, in
    /// ascending order of their keys.
    pub fn values(&self, db: &mut Db) -> (r: Result<Step<Vec<Vec<u8>>>, Error>)
        requires
            old(db)@.wf(),
        ensures
            final(db)@.wf(),
            (match r {
                Err(e) => old(db)@.error == Some(e@) && final(db)@ == old(db)@,
                Ok(Step::PageIn(id)) => {
                    &&& old(db)@.error.is_none()
                    &&& gather_needs_leaf(old(db)@, self@.start, self@.end, id)
                    &&& final(db)@ == old(db)@
                },
                Ok(Step::AllocateObjectIds(_)) => false,
                Ok(Step::Done(values)) => {
                    &&& old(db)@.error.is_none()
                    &&& old(db)@.evicts_to(final(db)@)
                    &&& exists|entries: Seq<(Seq<u8>, Seq<u8>)>|
                        {
                            &&& #[trigger] is_content_of(
                                old(db)@,
                                self@.start,
                                self@.end,
                                entries,
                            )
                            &&& values@.len() == entries.len()
                            &&& forall|i: int|
                                0 <= i < values@.len() ==> (#[trigger] values@[i])@
                                    == entries[i].1
                        }
                },
            }),
    {
        match self.collect(db) {
            Err(e) => Err(e),
            Ok(Step::PageIn(id)) => Ok(Step::PageIn(id)),
            Ok(Step::AllocateObjectIds(n)) => Ok(Step::AllocateObjectIds(n)),
            Ok(Step::Done(entries)) => {
                let ghost all = pairs_view(entries@);
                let mut values: Vec<Vec<u8>> = Vec::new();
                let mut j: usize = 0;
                while j < entries.len()
                    invariant
                        0 <= j <= entries@.len(),
                        values@.len() == j,
                        forall|i: int| 0 <= i < j ==> (#[trigger] values@[i])@ == entries@[i].1@,
                    decreases entries@.len() - j,
                {
                    values.push(key_copy(entries[j].1.as_slice()));
                    j += 1;
                }
                proof {
                    assert forall|i: int| 0 <= i < values@.len() implies (#[trigger] values@[i])@
                        == all[i].1 by {
                        assert(all[i].1 == entries@[i].1@);
                    }
                }
                Ok(Step::Done(values))
            },
        }
    }
}

/// Opens a store with the settings that are the default, over what the
/// object store under `path` recovered.
pub fn open_default(path: &str, index_data: &Vec<(u64, Vec<u8>)>, first_id_opt: Option<u64>) -> (r:
    Result<Db, Error>)
    ensures
        (match r {
            Ok(db) => {
                &&& crate::model::valid_index_data(index_data@, first_id_opt)
                &&& db@.wf()
                &&& db@.fresh()
                &&& db@.level == 3
                &&& db@.was_recovered == (index_data@.len() > 0)
            },
            Err(e) => !crate::model::valid_index_data(index_data@, first_id_opt),
        }),
{
    let defaults = crate::error::Config::default();
    let config = crate::error::Config {
        path: path.to_owned(),
        cache_capacity_bytes: defaults.cache_capacity_bytes,
        entry_cache_percent: defaults.entry_cache_percent,
        zstd_compression_level: defaults.zstd_compression_level,
        flush_every_ms: defaults.flush_every_ms,
    };
    Db::open_with_config(&config, index_data, first_id_opt)
}


impl Db {
    /// An iterator over all entries.
    pub fn iter(&self) -> (it: Iter)
        ensures
            it@ == (IterView { start: Bound::Unbounded, end: Bound::Unbounded }),
    {
        Iter::new(Bound::Unbounded, Bound::Unbounded)
    }

    /// An iterator over the entries whose keys lie between `start` and
    /// `end`.
    pub fn range(&self, start: Bound<&[u8]>, end: Bound<&[u8]>) -> (it: Iter)
        ensures
            it@ == (IterView { start: borrowed_bound_view(start), end: borrowed_bound_view(end) }),
    {
        let copy_start = |b: &[u8]| -> (r: Vec<u8>)
            ensures
                r@ == b@,
            { key_copy(b) };
        let copy_end = |b: &[u8]| -> (r: Vec<u8>)
            ensures
                r@ == b@,
            { key_copy(b) };
        let from = map_bound(start, copy_start);
        let to = map_bound(end, copy_end);
        Iter::new(from, to)
    }

    /// An iterator over the entries whose keys begin with `prefix`: the
    /// keys from `prefix` up to, and without, the least key that is above all
    /// of them.
    pub fn scan_prefix(&self, prefix: &[u8]) -> (it: Iter)
        ensures
            it@ == (IterView {
                start: Bound::Included(prefix@),
                end: match prefix_end(prefix@) {
                    Some(u) => Bound::Excluded(u),
                    None => Bound::Unbounded,
                },
            }),
            forall|k: Seq<u8>| in_bounds(it@.start, it@.end, k) <==> is_prefix(prefix@, k),
    {
        proof {
            assert forall|k: Seq<u8>|
                in_bounds(
                    Bound::Included(prefix@),
                    match prefix_end(prefix@) {
                        Some(u) => Bound::Excluded(u),
                        None => Bound::Unbounded,
                    },
                    k,
                ) <==> is_prefix(prefix@, k) by {
                lemma_prefix_range(prefix@, k);
            }
        }
        match prefix_upper_bound(prefix) {
            Some(upper) => self.range(Bound::Included(prefix), Bound::Excluded(upper.as_slice())),
            None => self.range(Bound::Included(prefix), Bound::Unbounded),
        }
    }

    /// The entry with the least key between `start` and `end`, or with the
    /// greatest where `front` is not set.
    pub fn end_of_range(&mut self, start: Bound<&[u8]>, end: Bound<&[u8]>, front: bool) -> (r:
        Result<Step<Option<(Vec<u8>, Vec<u8>)>>, Error>)
        requires
            old(self)@.wf(),
        ensures
            final(self)@.wf(),
            (match r {
                Err(e) => old(self)@.error == Some(e@) && final(self)@ == old(self)@,
                Ok(Step::PageIn(id)) => {
                    &&& old(self)@.error.is_none()
                    &&& needs_leaf(
                        old(self)@,
                        borrowed_bound_view(start),
                        borrowed_bound_view(end),
                        front,
                        id,
                    )
                    &&& final(self)@ == old(self)@
                },
                Ok(Step::AllocateObjectIds(_)) => false,
                Ok(Step::Done(found)) => {
                    &&& old(self)@.error.is_none()
                    &&& is_end_of(
                        old(self)@,
                        borrowed_bound_view(start),
                        borrowed_bound_view(end),
                        front,
                        entry_view(found),
                    )
                    &&& old(self)@.evicts_to(final(self)@)
                },
            }),
    {
        let mut it = self.range(start, end);
        if front {
            it.next(self)
        } else {
            it.next_back(self)
        }
    }

    /// The entry with the least key.
    pub fn first(&mut self) -> (r: Result<Step<Option<(Vec<u8>, Vec<u8>)>>, Error>)
        requires
            old(self)@.wf(),
        ensures
            final(self)@.wf(),
            (match r {
                Err(e) => old(self)@.error == Some(e@) && final(self)@ == old(self)@,
                Ok(Step::PageIn(id)) => {
                    &&& old(self)@.error.is_none()
                    &&& needs_leaf(old(self)@, Bound::Unbounded, Bound::Unbounded, true, id)
                    &&& final(self)@ == old(self)@
                },
                Ok(Step::AllocateObjectIds(_)) => false,
                Ok(Step::Done(found)) => {
                    &&& old(self)@.error.is_none()
                    &&& is_end_of(
                        old(self)@,
                        Bound::Unbounded,
                        Bound::Unbounded,
                        true,
                        entry_view(found),
                    )
                    &&& old(self)@.evicts_to(final(self)@)
                },
            }),
    {
        self.end_of_range(Bound::Unbounded, Bound::Unbounded, true)
    }

    /// The entry with the greatest key.
    pub fn last(&mut self) -> (r: Result<Step<Option<(Vec<u8>, Vec<u8>)>>, Error>)
        requires
            old(self)@.wf(),
        ensures
            final(self)@.wf(),
            (match r {
                Err(e) => old(self)@.error == Some(e@) && final(self)@ == old(self)@,
                Ok(Step::PageIn(id)) => {
                    &&& old(self)@.error.is_none()
                    &&& needs_leaf(old(self)@, Bound::Unbounded, Bound::Unbounded, false, id)
                    &&& final(self)@ == old(self)@
                },
                Ok(Step::AllocateObjectIds(_)) => false,
                Ok(Step::Done(found)) => {
                    &&& old(self)@.error.is_none()
                    &&& is_end_of(
                        old(self)@,
                        Bound::Unbounded,
                        Bound::Unbounded,
                        false,
                        entry_view(found),
                    )
                    &&& old(self)@.evicts_to(final(self)@)
                },
            }),
    {
        self.end_of_range(Bound::Unbounded, Bound::Unbounded, false)
    }

    /// The entry with the greatest key below `key`.
    pub fn get_lt(&mut self, key: &[u8]) -> (r: Result<Step<Option<(Vec<u8>, Vec<u8>)>>, Error>)
        requires
            old(self)@.wf(),
        ensures
            final(self)@.wf(),
            (match r {
                Err(e) => old(self)@.error == Some(e@) && final(self)@ == old(self)@,
                Ok(Step::PageIn(id)) => {
                    &&& old(self)@.error.is_none()
                    &&& needs_leaf(
                        old(self)@,
                        Bound::Unbounded,
                        Bound::Excluded(key@),
                        false,
                        id,
                    )
                    &&& final(self)@ == old(self)@
                },
                Ok(Step::AllocateObjectIds(_)) => false,
                Ok(Step::Done(found)) => {
                    &&& old(self)@.error.is_none()
                    &&& is_end_of(
                        old(self)@,
                        Bound::Unbounded,
                        Bound::Excluded(key@),
                        false,
                        entry_view(found),
                    )
                    &&& old(self)@.evicts_to(final(self)@)
                },
            }),
    {
        self.end_of_range(Bound::Unbounded, Bound::Excluded(key), false)
    }

    /// The entry with the least key above `key`.
    pub fn get_gt(&mut self, key: &[u8]) -> (r: Result<Step<Option<(Vec<u8>, Vec<u8>)>>, Error>)
        requires
            old(self)@.wf(),
        ensures
            final(self)@.wf(),
            (match r {
                Err(e) => old(self)@.error == Some(e@) && final(self)@ == old(self)@,
                Ok(Step::PageIn(id)) => {
                    &&& old(self)@.error.is_none()
                    &&& needs_leaf(
                        old(self)@,
                        Bound::Excluded(key@),
                        Bound::Unbounded,
                        true,
                        id,
                    )
                    &&& final(self)@ == old(self)@
                },
                Ok(Step::AllocateObjectIds(_)) => false,
                Ok(Step::Done(found)) => {
                    &&& old(self)@.error.is_none()
                    &&& is_end_of(
                        old(self)@,
                        Bound::Excluded(key@),
                        Bound::Unbounded,
                        true,
                        entry_view(found),
                    )
                    &&& old(self)@.evicts_to(final(self)@)
                },
            }),
    {
        self.end_of_range(Bound::Excluded(key), Bound::Unbounded, true)
    }

    /// Whether the store holds no entry: the answer is given once the leaf
    /// of every key up to the first entry is in memory, and of every key
    /// where there is no entry.
    pub fn is_empty(&mut self) -> (r: Result<Step<bool>, Error>)
        requires
            old(self)@.wf(),
        ensures
            final(self)@.wf(),
            (match r {
                Err(e) => old(self)@.error == Some(e@) && final(self)@ == old(self)@,
                Ok(Step::PageIn(id)) => {
                    &&& old(self)@.error.is_none()
                    &&& needs_leaf(old(self)@, Bound::Unbounded, Bound::Unbounded, true, id)
                    &&& final(self)@ == old(self)@
                },
                Ok(Step::AllocateObjectIds(_)) => false,
                Ok(Step::Done(empty)) => {
                    &&& old(self)@.error.is_none()
                    &&& old(self)@.evicts_to(final(self)@)
                    &&& (if empty {
                        forall|q: Seq<u8>|
                            old(self)@.resident(q) && (#[trigger] old(self)@.lookup(q)).is_none()
                    } else {
                        exists|q: Seq<u8>|
                            old(self)@.resident(q) && (#[trigger] old(self)@.lookup(q)).is_some()
                    })
                },
            }),
    {
        match self.first() {
            Err(e) => Err(e),
            Ok(Step::PageIn(id)) => Ok(Step::PageIn(id)),
            Ok(Step::AllocateObjectIds(n)) => Ok(Step::AllocateObjectIds(n)),
            Ok(Step::Done(found)) => {
                proof {
                    let s = old(self)@;
                    match entry_view(found) {
                        Some(kv) => {
                            assert(s.resident(kv.0) && s.lookup(kv.0).is_some());
                        },
                        None => {
                            assert forall|q: Seq<u8>|
                                s.resident(q) && (#[trigger] s.lookup(q)).is_none() by {
                                assert(in_bounds(Bound::Unbounded, Bound::Unbounded, q));
                            }
                        },
                    }
                }
                Ok(Step::Done(found.is_none()))
            },
        }
    }

    /// All entries between `start` and `end`, in ascending order of keys.
    pub fn collect_range(&mut self, start: Bound<&[u8]>, end: Bound<&[u8]>) -> (r: Result<
        Step<Vec<(Vec<u8>, Vec<u8>)>>,
        Error,
    >)
        requires
            old(self)@.wf(),
        ensures
            final(self)@.wf(),
            (match r {
                Err(e) => old(self)@.error == Some(e@) && final(self)@ == old(self)@,
                Ok(Step::PageIn(id)) => {
                    &&& old(self)@.error.is_none()
                    &&& gather_needs_leaf(
                        old(self)@,
                        borrowed_bound_view(start),
                        borrowed_bound_view(end),
                        id,
                    )
                    &&& final(self)@ == old(self)@
                },
                Ok(Step::AllocateObjectIds(_)) => false,
                Ok(Step::Done(entries)) => {
                    &&& old(self)@.error.is_none()
                    &&& is_content_of(
                        old(self)@,
                        borrowed_bound_view(start),
                        borrowed_bound_view(end),
                        pairs_view(entries@),
                    )
                    &&& old(self)@.evicts_to(final(self)@)
                },
            }),
    {
        let it = self.range(start, end);
        it.collect(self)
    }

    /// The number of entries.
    pub fn len(&mut self) -> (r: Result<Step<usize>, Error>)
        requires
            old(self)@.wf(),
        ensures
            final(self)@.wf(),
            (match r {
                Err(e) => old(self)@.error == Some(e@) && final(self)@ == old(self)@,
                Ok(Step::PageIn(id)) => {
                    &&& old(self)@.error.is_none()
                    &&& gather_needs_leaf(old(self)@, Bound::Unbounded, Bound::Unbounded, id)
                    &&& final(self)@ == old(self)@
                },
                Ok(Step::AllocateObjectIds(_)) => false,
                Ok(Step::Done(n)) => {
                    &&& old(self)@.error.is_none()
                    &&& old(self)@.evicts_to(final(self)@)
                    &&& exists|entries: Seq<(Seq<u8>, Seq<u8>)>|
                        entries.len() == n && #[trigger] is_content_of(
                            old(self)@,
                            Bound::Unbounded,
                            Bound::Unbounded,
                            entries,
                        )
                },
            }),
    {
        match self.collect_range(Bound::Unbounded, Bound::Unbounded) {
            Err(e) => Err(e),
            Ok(Step::PageIn(id)) => Ok(Step::PageIn(id)),
            Ok(Step::AllocateObjectIds(n)) => Ok(Step::AllocateObjectIds(n)),
            Ok(Step::Done(entries)) => {
                proof {
                    assert(pairs_view(entries@).len() == entries@.len());
                }
                Ok(Step::Done(entries.len()))
            },
        }
    }

    /// The CRC32 of all keys and values, in ascending order of keys, each
    /// key followed by its value.
    pub fn checksum(&mut self) -> (r: Result<Step<u32>, Error>)
        requires
            old(self)@.wf(),
        ensures
            final(self)@.wf(),
            (match r {
                Err(e) => old(self)@.error == Some(e@) && final(self)@ == old(self)@,
                Ok(Step::PageIn(id)) => {
                    &&& old(self)@.error.is_none()
                    &&& gather_needs_leaf(old(self)@, Bound::Unbounded, Bound::Unbounded, id)
                    &&& final(self)@ == old(self)@
                },
                Ok(Step::AllocateObjectIds(_)) => false,
                Ok(Step::Done(sum)) => {
                    &&& old(self)@.error.is_none()
                    &&& old(self)@.evicts_to(final(self)@)
                    &&& exists|entries: Seq<(Seq<u8>, Seq<u8>)>|
                        sum == crate::codec::crc32_of(flattened(entries, entries.len() as int))
                            && #[trigger] is_content_of(
                            old(self)@,
                            Bound::Unbounded,
                            Bound::Unbounded,
                            entries,
                        )
                },
            }),
    {
        match self.collect_range(Bound::Unbounded, Bound::Unbounded) {
            Err(e) => Err(e),
            Ok(Step::PageIn(id)) => Ok(Step::PageIn(id)),
            Ok(Step::AllocateObjectIds(n)) => Ok(Step::AllocateObjectIds(n)),
            Ok(Step::Done(entries)) => {
                let ghost all = pairs_view(entries@);
                let mut bytes: Vec<u8> = Vec::new();
                let mut i: usize = 0;
                while i < entries.len()
                    invariant
                        0 <= i <= entries@.len(),
                        all == pairs_view(entries@),
                        bytes@ == flattened(all, i as int),
                    decreases entries@.len() - i,
                {
                    let ghost before = bytes@;
                    let mut j: usize = 0;
                    while j < entries[i].0.len()
                        invariant
                            0 <= i < entries@.len(),
                            0 <= j <= entries@[i as int].0@.len(),
                            bytes@ == before + entries@[i as int].0@.take(j as int),
                        decreases entries@[i as int].0@.len() - j,
                    {
                        bytes.push(entries[i].0[j]);
                        proof {
                            let key = entries@[i as int].0@;
                            assert(key.take(j as int).push(key[j as int]) =~= key.take(j + 1));
                            assert(bytes@ =~= before + key.take(j + 1));
                        }
                        j += 1;
                    }
                    let ghost middle = bytes@;
                    let mut j: usize = 0;
                    while j < entries[i].1.len()
                        invariant
                            0 <= i < entries@.len(),
                            0 <= j <= entries@[i as int].1@.len(),
                            bytes@ == middle + entries@[i as int].1@.take(j as int),
                        decreases entries@[i as int].1@.len() - j,
                    {
                        bytes.push(entries[i].1[j]);
                        proof {
                            let value = entries@[i as int].1@;
                            assert(value.take(j as int).push(value[j as int]) =~= value.take(
                                j + 1,
                            ));
                            assert(bytes@ =~= middle + value.take(j + 1));
                        }
                        j += 1;
                    }
                    proof {
                        let key = entries@[i as int].0@;
                        let value = entries@[i as int].1@;
                        assert(key.take(key.len() as int) =~= key);
                        assert(value.take(value.len() as int) =~= value);
                        assert(all[i as int] == (key, value));
                    }
                    i += 1;
                }
                Ok(Step::Done(crate::codec::crc32(bytes.as_slice())))
            },
        }
    }


    /// Removes all entries, one after the other in ascending order of keys,
    /// once the leaf of every key is in memory. Where a leaf cannot be
    /// serialized when it has to be, the entries before it are gone and the
    /// others are left.
    pub fn clear(&mut self) -> (r: Result<Step<()>, Error>)
        requires
            old(self)@.wf(),
        ensures
            final(self)@.wf(),
            (match r {
                Err(e) => if old(self)@.error.is_some() {
                    old(self)@.error == Some(e@) && final(self)@ == old(self)@
                } else {
                    exists|entries: Seq<(Seq<u8>, Seq<u8>)>, n: int|
                        {
                            &&& #[trigger] is_content_of(
                                old(self)@,
                                Bound::Unbounded,
                                Bound::Unbounded,
                                entries,
                            )
                            &&& 0 <= n < entries.len()
                            &&& can_clear(old(self)@, entries, n)
                            &&& !(#[trigger] cleared(old(self)@, entries, n)).can_cooperate(
                                cleared(old(self)@, entries, n).owner(entries[n].0),
                            )
                            &&& e@ == serialize_failure()
                            &&& final(self)@ == cleared(old(self)@, entries, n)
                        }
                },
                Ok(Step::PageIn(id)) => {
                    &&& old(self)@.error.is_none()
                    &&& gather_needs_leaf(old(self)@, Bound::Unbounded, Bound::Unbounded, id)
                    &&& final(self)@ == old(self)@
                },
                Ok(Step::AllocateObjectIds(_)) => false,
                Ok(Step::Done(_)) => {
                    &&& old(self)@.error.is_none()
                    &&& exists|entries: Seq<(Seq<u8>, Seq<u8>)>|
                        {
                            &&& #[trigger] is_content_of(
                                old(self)@,
                                Bound::Unbounded,
                                Bound::Unbounded,
                                entries,
                            )
                            &&& can_clear(old(self)@, entries, entries.len() as int)
                            &&& cleared(old(self)@, entries, entries.len() as int).evicts_to(
                                final(self)@,
                            )
                        }
                },
            }),
    {
        match self.check_error() {
            Err(e) => {
                return Err(e);
            },
            Ok(_) => {},
        }
        let it = self.iter();
        let walk = match it.gather(self) {
            Step::PageIn(id) => {
                return Ok(Step::PageIn(id));
            },
            Step::AllocateObjectIds(n) => {
                return Ok(Step::AllocateObjectIds(n));
            },
            Step::Done(walk) => walk,
        };
        let entries = walk.found;
        let visited = walk.visited;
        let ghost s = old(self)@;
        let ghost all = pairs_view(entries@);
        proof {
            assert forall|k: Seq<u8>| #[trigger] s.resident(k) by {
                assert(in_bounds(Bound::Unbounded, Bound::Unbounded, k));
            }
        }
        let mut j: usize = 0;
        while j < entries.len()
            invariant
                0 <= j <= entries@.len(),
                s == old(self)@,
                s.wf(),
                s.error.is_none(),
                all == pairs_view(entries@),
                is_content_of(s, Bound::Unbounded, Bound::Unbounded, all),
                forall|k: Seq<u8>| #[trigger] s.resident(k),
                can_clear(s, all, j as int),
                self@ == cleared(s, all, j as int),
                self@.wf(),
            decreases entries@.len() - j,
        {
            proof {
                lemma_cleared(s, all, j as int, all[j as int].0);
                assert(all[j as int].0 == entries@[j as int].0@);
                assert(self@.resident(all[j as int].0));
            }
            match self.remove_in_place(entries[j].0.as_slice()) {
                Err(e) => {
                    return Err(e);
                },
                Ok(Step::PageIn(id)) => {
                    proof {
                        assert(false);
                    }
                    return Ok(Step::PageIn(id));
                },
                Ok(Step::AllocateObjectIds(n)) => {
                    return Ok(Step::AllocateObjectIds(n));
                },
                Ok(Step::Done(_)) => {},
            }
            j += 1;
        }
        proof {
            assert(all.len() == entries@.len());
        }
        self.mark_accesses(&visited);
        Ok(Step::Done(()))
    }

    /// Reads the value under `key`, applies `f` to it, and writes what `f`
    /// returns: a value to set, or nothing to remove the key. What was
    /// written is returned.
    pub fn update_and_fetch<F: Fn(&Option<Vec<u8>>) -> Option<Vec<u8>>>(
        &mut self,
        key: &[u8],
        f: F,
    ) -> (r: Result<Step<Option<Vec<u8>>>, Error>)
        requires
            old(self)@.wf(),
            forall|current: Option<Vec<u8>>| f.requires((&current,)),
        ensures
            final(self)@.wf(),
            (match r {
                Err(e) => if old(self)@.error.is_some() {
                    old(self)@.error == Some(e@) && final(self)@ == old(self)@
                } else {
                    &&& old(self)@.resident(key@)
                    &&& !old(self)@.can_cooperate(old(self)@.owner(key@))
                    &&& e@ == serialize_failure()
                    &&& final(self)@ == old(self)@
                },
                Ok(Step::PageIn(id)) => {
                    &&& old(self)@.error.is_none()
                    &&& !old(self)@.resident(key@)
                    &&& id == old(self)@.owner(key@)
                    &&& final(self)@ == old(self)@
                },
                Ok(Step::AllocateObjectIds(n)) => {
                    &&& old(self)@.error.is_none()
                    &&& old(self)@.resident(key@)
                    &&& n == 1
                    &&& old(self)@.spare_ids.len() == 0
                    &&& old(self)@.leaves[old(self)@.owner(key@)].entries.len() + 1 >= LEAF_FANOUT
                    &&& exists|current: Option<Vec<u8>>, next: Option<Vec<u8>>|
                        {
                            &&& opt_view(current) == old(self)@.lookup(key@)
                            &&& #[trigger] f.ensures((&current,), next)
                            &&& next.is_some()
                        }
                    &&& final(self)@ == old(self)@
                },
                Ok(Step::Done(written)) => {
                    &&& old(self)@.error.is_none()
                    &&& old(self)@.resident(key@)
                    &&& exists|current: Option<Vec<u8>>, next: Option<Vec<u8>>|
                        {
                            &&& opt_view(current) == old(self)@.lookup(key@)
                            &&& #[trigger] f.ensures((&current,), next)
                            &&& opt_view(next) == opt_view(written)
                        }
                    &&& old(self)@.swapped(
                        key@,
                        old(self)@.lookup(key@),
                        opt_view(written),
                    ).evicts_to(final(self)@)
                },
            }),
    {
        match self.check_error() {
            Err(e) => {
                return Err(e);
            },
            Ok(_) => {},
        }
        let (_low_key, id) = self.route(key);
        let current = match self.leaf(id) {
            None => {
                return Ok(Step::PageIn(id));
            },
            Some(leaf) => leaf.get(key),
        };
        let next = f(&current);
        let written = crate::bytes::opt_copy(&next);
        let expected = crate::bytes::opt_copy(&current);
        match self.compare_and_swap(key, expected, written) {
            Err(e) => Err(e),
            Ok(Step::PageIn(id)) => Ok(Step::PageIn(id)),
            Ok(Step::AllocateObjectIds(n)) => {
                proof {
                    assert(f.ensures((&current,), next) && next.is_some());
                }
                Ok(Step::AllocateObjectIds(n))
            },
            Ok(Step::Done(Ok(_))) => Ok(Step::Done(next)),
            Ok(Step::Done(Err(_))) => {
                proof {
                    assert(false);
                }
                Ok(Step::Done(next))
            },
        }
    }

    /// Reads the value under `key`, applies `f` to it, and writes what `f`
    /// returns: a value to set, or nothing to remove the key. What was read
    /// is returned.
    pub fn fetch_and_update<F: Fn(&Option<Vec<u8>>) -> Option<Vec<u8>>>(
        &mut self,
        key: &[u8],
        f: F,
    ) -> (r: Result<Step<Option<Vec<u8>>>, Error>)
        requires
            old(self)@.wf(),
            forall|current: Option<Vec<u8>>| f.requires((&current,)),
        ensures
            final(self)@.wf(),
            (match r {
                Err(e) => if old(self)@.error.is_some() {
                    old(self)@.error == Some(e@) && final(self)@ == old(self)@
                } else {
                    &&& old(self)@.resident(key@)
                    &&& !old(self)@.can_cooperate(old(self)@.owner(key@))
                    &&& e@ == serialize_failure()
                    &&& final(self)@ == old(self)@
                },
                Ok(Step::PageIn(id)) => {
                    &&& old(self)@.error.is_none()
                    &&& !old(self)@.resident(key@)
                    &&& id == old(self)@.owner(key@)
                    &&& final(self)@ == old(self)@
                },
                Ok(Step::AllocateObjectIds(n)) => {
                    &&& old(self)@.error.is_none()
                    &&& old(self)@.resident(key@)
                    &&& n == 1
                    &&& old(self)@.spare_ids.len() == 0
                    &&& old(self)@.leaves[old(self)@.owner(key@)].entries.len() + 1 >= LEAF_FANOUT
                    &&& exists|current: Option<Vec<u8>>, next: Option<Vec<u8>>|
                        {
                            &&& opt_view(current) == old(self)@.lookup(key@)
                            &&& #[trigger] f.ensures((&current,), next)
                            &&& next.is_some()
                        }
                    &&& final(self)@ == old(self)@
                },
                Ok(Step::Done(read)) => {
                    &&& old(self)@.error.is_none()
                    &&& old(self)@.resident(key@)
                    &&& opt_view(read) == old(self)@.lookup(key@)
                    &&& exists|current: Option<Vec<u8>>, next: Option<Vec<u8>>|
                        {
                            &&& opt_view(current) == old(self)@.lookup(key@)
                            &&& #[trigger] f.ensures((&current,), next)
                            &&& old(self)@.swapped(
                                key@,
                                old(self)@.lookup(key@),
                                opt_view(next),
                            ).evicts_to(final(self)@)
                        }
                },
            }),
    {
        match self.check_error() {
            Err(e) => {
                return Err(e);
            },
            Ok(_) => {},
        }
        let (_low_key, id) = self.route(key);
        let current = match self.leaf(id) {
            None => {
                return Ok(Step::PageIn(id));
            },
            Some(leaf) => leaf.get(key),
        };
        let next = f(&current);
        let expected = crate::bytes::opt_copy(&current);
        let ghost proposed = next;
        match self.compare_and_swap(key, expected, next) {
            Err(e) => Err(e),
            Ok(Step::PageIn(id)) => Ok(Step::PageIn(id)),
            Ok(Step::AllocateObjectIds(n)) => {
                proof {
                    assert(f.ensures((&current,), proposed) && proposed.is_some());
                }
                Ok(Step::AllocateObjectIds(n))
            },
            Ok(Step::Done(Ok(_))) => Ok(Step::Done(current)),
            Ok(Step::Done(Err(_))) => {
                proof {
                    assert(false);
                }
                Ok(Step::Done(current))
            },
        }
    }

    /// Takes the entry with the least key between `start` and `end` out of
    /// the store, or the one with the greatest key where `front` is not set,
    /// and returns it. It fails where the leaf of that entry has to be
    /// serialized first and cannot be; the store is then as it was.
    pub fn pop_end_of_range(&mut self, start: Bound<&[u8]>, end: Bound<&[u8]>, front: bool) -> (r:
        Result<Step<Option<(Vec<u8>, Vec<u8>)>>, Error>)
        requires
            old(self)@.wf(),
        ensures
            final(self)@.wf(),
            (match r {
                Err(e) => if old(self)@.error.is_some() {
                    old(self)@.error == Some(e@) && final(self)@ == old(self)@
                } else {
                    &&& exists|kv: (Seq<u8>, Seq<u8>)|
                        {
                            &&& #[trigger] is_end_of(
                                old(self)@,
                                borrowed_bound_view(start),
                                borrowed_bound_view(end),
                                front,
                                Some(kv),
                            )
                            &&& !old(self)@.can_cooperate(old(self)@.owner(kv.0))
                        }
                    &&& e@ == serialize_failure()
                    &&& final(self)@ == old(self)@
                },
                Ok(Step::PageIn(id)) => {
                    &&& old(self)@.error.is_none()
                    &&& needs_leaf(
                        old(self)@,
                        borrowed_bound_view(start),
                        borrowed_bound_view(end),
                        front,
                        id,
                    )
                    &&& final(self)@ == old(self)@
                },
                Ok(Step::AllocateObjectIds(_)) => false,
                Ok(Step::Done(found)) => {
                    &&& old(self)@.error.is_none()
                    &&& is_end_of(
                        old(self)@,
                        borrowed_bound_view(start),
                        borrowed_bound_view(end),
                        front,
                        entry_view(found),
                    )
                    &&& (match found {
                        Some(kv) => old(self)@.can_cooperate(old(self)@.owner(kv.0@))
                            && old(self)@.removed(kv.0@).evicts_to(final(self)@),
                        None => old(self)@.evicts_to(final(self)@),
                    })
                },
            }),
    {
        match self.check_error() {
            Err(e) => {
                return Err(e);
            },
            Ok(_) => {},
        }
        let it = self.range(start, end);
        let sought = if front {
            it.seek_front(self)
        } else {
            it.seek_back(self)
        };
        let walk = match sought {
            Step::PageIn(id) => {
                return Ok(Step::PageIn(id));
            },
            Step::AllocateObjectIds(n) => {
                return Ok(Step::AllocateObjectIds(n));
            },
            Step::Done(walk) => walk,
        };
        let visited = walk.visited;
        match walk.found {
            None => {
                self.mark_accesses(&visited);
                Ok(Step::Done(None))
            },
            Some(kv) => {
                proof {
                    assert(is_end_of(
                        old(self)@,
                        borrowed_bound_view(start),
                        borrowed_bound_view(end),
                        front,
                        Some((kv.0@, kv.1@)),
                    ));
                }
                match self.remove_in_place(kv.0.as_slice()) {
                    Err(e) => Err(e),
                    Ok(Step::PageIn(id)) => Ok(Step::PageIn(id)),
                    Ok(Step::AllocateObjectIds(n)) => Ok(Step::AllocateObjectIds(n)),
                    Ok(Step::Done(_)) => {
                        self.mark_accesses(&visited);
                        Ok(Step::Done(Some(kv)))
                    },
                }
            },
        }
    }

    /// Takes the entry with the least key out of the store and returns it.
    pub fn pop_first(&mut self) -> (r: Result<
        Step<Option<(Vec<u8>, Vec<u8>)>>,
        Error,
    >)
        requires
            old(self)@.wf(),
        ensures
            final(self)@.wf(),
            (match r {
                Err(e) => if old(self)@.error.is_some() {
                    old(self)@.error == Some(e@) && final(self)@ == old(self)@
                } else {
                    &&& exists|kv: (Seq<u8>, Seq<u8>)|
                        {
                            &&& #[trigger] is_end_of(old(self)@, Bound::Unbounded, Bound::Unbounded, true, Some(kv))
                            &&& !old(self)@.can_cooperate(old(self)@.owner(kv.0))
                        }
                    &&& e@ == serialize_failure()
                    &&& final(self)@ == old(self)@
                },
                Ok(Step::PageIn(id)) => {
                    &&& old(self)@.error.is_none()
                    &&& needs_leaf(old(self)@, Bound::Unbounded, Bound::Unbounded, true, id)
                    &&& final(self)@ == old(self)@
                },
                Ok(Step::AllocateObjectIds(_)) => false,
                Ok(Step::Done(found)) => {
                    &&& old(self)@.error.is_none()
                    &&& is_end_of(old(self)@, Bound::Unbounded, Bound::Unbounded, true, entry_view(found))
                    &&& (match found {
                        Some(kv) => old(self)@.can_cooperate(old(self)@.owner(kv.0@))
                            && old(self)@.removed(kv.0@).evicts_to(final(self)@),
                        None => old(self)@.evicts_to(final(self)@),
                    })
                },
            }),
    {
        self.pop_end_of_range(Bound::Unbounded, Bound::Unbounded, true)
    }

    /// Takes the entry with the greatest key out of the store and returns it.
    pub fn pop_last(&mut self) -> (r: Result<
        Step<Option<(Vec<u8>, Vec<u8>)>>,
        Error,
    >)
        requires
            old(self)@.wf(),
        ensures
            final(self)@.wf(),
            (match r {
                Err(e) => if old(self)@.error.is_some() {
                    old(self)@.error == Some(e@) && final(self)@ == old(self)@
                } else {
                    &&& exists|kv: (Seq<u8>, Seq<u8>)|
                        {
                            &&& #[trigger] is_end_of(old(self)@, Bound::Unbounded, Bound::Unbounded, false, Some(kv))
                            &&& !old(self)@.can_cooperate(old(self)@.owner(kv.0))
                        }
                    &&& e@ == serialize_failure()
                    &&& final(self)@ == old(self)@
                },
                Ok(Step::PageIn(id)) => {
                    &&& old(self)@.error.is_none()
                    &&& needs_leaf(old(self)@, Bound::Unbounded, Bound::Unbounded, false, id)
                    &&& final(self)@ == old(self)@
                },
                Ok(Step::AllocateObjectIds(_)) => false,
                Ok(Step::Done(found)) => {
                    &&& old(self)@.error.is_none()
                    &&& is_end_of(old(self)@, Bound::Unbounded, Bound::Unbounded, false, entry_view(found))
                    &&& (match found {
                        Some(kv) => old(self)@.can_cooperate(old(self)@.owner(kv.0@))
                            && old(self)@.removed(kv.0@).evicts_to(final(self)@),
                        None => old(self)@.evicts_to(final(self)@),
                    })
                },
            }),
    {
        self.pop_end_of_range(Bound::Unbounded, Bound::Unbounded, false)
    }

    /// Takes the entry with the least key between `start` and `end` out of the
    /// store and returns it.
    pub fn pop_first_in_range(&mut self, start: Bound<&[u8]>, end: Bound<&[u8]>) -> (r: Result<
        Step<Option<(Vec<u8>, Vec<u8>)>>,
        Error,
    >)
        requires
            old(self)@.wf(),
        ensures
            final(self)@.wf(),
            (match r {
                Err(e) => if old(self)@.error.is_some() {
                    old(self)@.error == Some(e@) && final(self)@ == old(self)@
                } else {
                    &&& exists|kv: (Seq<u8>, Seq<u8>)|
                        {
                            &&& #[trigger] is_end_of(old(self)@, borrowed_bound_view(start), borrowed_bound_view(end), true, Some(kv))
                            &&& !old(self)@.can_cooperate(old(self)@.owner(kv.0))
                        }
                    &&& e@ == serialize_failure()
                    &&& final(self)@ == old(self)@
                },
                Ok(Step::PageIn(id)) => {
                    &&& old(self)@.error.is_none()
                    &&& needs_leaf(old(self)@, borrowed_bound_view(start), borrowed_bound_view(end), true, id)
                    &&& final(self)@ == old(self)@
                },
                Ok(Step::AllocateObjectIds(_)) => false,
                Ok(Step::Done(found)) => {
                    &&& old(self)@.error.is_none()
                    &&& is_end_of(old(self)@, borrowed_bound_view(start), borrowed_bound_view(end), true, entry_view(found))
                    &&& (match found {
                        Some(kv) => old(self)@.can_cooperate(old(self)@.owner(kv.0@))
                            && old(self)@.removed(kv.0@).evicts_to(final(self)@),
                        None => old(self)@.evicts_to(final(self)@),
                    })
                },
            }),
    {
        self.pop_end_of_range(start, end, true)
    }

    /// Takes the entry with the greatest key between `start` and `end` out of
    /// the store and returns it.
    pub fn pop_last_in_range(&mut self, start: Bound<&[u8]>, end: Bound<&[u8]>) -> (r: Result<
        Step<Option<(Vec<u8>, Vec<u8>)>>,
        Error,
    >)
        requires
            old(self)@.wf(),
        ensures
            final(self)@.wf(),
            (match r {
                Err(e) => if old(self)@.error.is_some() {
                    old(self)@.error == Some(e@) && final(self)@ == old(self)@
                } else {
                    &&& exists|kv: (Seq<u8>, Seq<u8>)|
                        {
                            &&& #[trigger] is_end_of(old(self)@, borrowed_bound_view(start), borrowed_bound_view(end), false, Some(kv))
                            &&& !old(self)@.can_cooperate(old(self)@.owner(kv.0))
                        }
                    &&& e@ == serialize_failure()
                    &&& final(self)@ == old(self)@
                },
                Ok(Step::PageIn(id)) => {
                    &&& old(self)@.error.is_none()
                    &&& needs_leaf(old(self)@, borrowed_bound_view(start), borrowed_bound_view(end), false, id)
                    &&& final(self)@ == old(self)@
                },
                Ok(Step::AllocateObjectIds(_)) => false,
                Ok(Step::Done(found)) => {
                    &&& old(self)@.error.is_none()
                    &&& is_end_of(old(self)@, borrowed_bound_view(start), borrowed_bound_view(end), false, entry_view(found))
                    &&& (match found {
                        Some(kv) => old(self)@.can_cooperate(old(self)@.owner(kv.0@))
                            && old(self)@.removed(kv.0@).evicts_to(final(self)@),
                        None => old(self)@.evicts_to(final(self)@),
                    })
                },
            }),
    {
        self.pop_end_of_range(start, end, false)
    }
}

} // verus!
