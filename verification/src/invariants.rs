//! What is proved of the store as a mathematical value: that every
//! operation keeps the invariant, that the nodes' ranges cover the keys
//! without overlap, that a write changes what is found under its key and
//! under no other, and that a flush takes what it has to.

use crate::bytes::{
    lemma_empty_is_least, lemma_lex_le_lt_transitive, lemma_lex_le_transitive,
    lemma_lex_lt_le_transitive, lemma_lex_lt_transitive, lemma_lex_trichotomy, lex_le, lex_lt,
};
use crate::leaf::LeafView;
use crate::maps::{dirty_key, dirty_key_lt};
use crate::model::{
    can_cooperate_all, flush_keys, flushed_up_to, in_prefix, inserts, is_successor, marked, routes,
    writable, DbView,
};
use vstd::prelude::*;

verus! {

/// A key is routed to one low key only.
pub proof fn lemma_routes_unique(index: Map<Seq<u8>, u64>, key: Seq<u8>, a: Seq<u8>, b: Seq<u8>)
    requires
        routes(index, key, a),
        routes(index, key, b),
    ensures
        a == b,
{
    lemma_lex_trichotomy(a, b);
}

/// The low key that a key is routed to is its owner's; and where the owner's
/// leaf is in memory, the key lies in that leaf's range.
pub proof fn lemma_owner(s: DbView, exempt: Option<u64>, key: Seq<u8>, lo: Seq<u8>)
    requires
        s.inv_but(exempt),
        routes(s.index, key, lo),
    ensures
        s.owner_key(key) == lo,
        s.owner(key) == s.index[lo],
        s.low_keys.contains_key(s.index[lo]),
        s.low_keys[s.index[lo]] == lo,
        s.leaves.contains_key(s.index[lo]) ==> s.leaves[s.index[lo]].owns(key)
            && s.leaves[s.index[lo]].lo == lo,
{
    lemma_routes_unique(s.index, key, s.owner_key(key), lo);
    let id = s.index[lo];
    assert(s.index.contains_key(lo));
    if s.leaves.contains_key(id) {
        let leaf = s.leaves[id];
        if leaf.hi is Some {
            let h = leaf.hi.unwrap();
            lemma_lex_trichotomy(key, h);
            if !lex_lt(key, h) {
                assert(s.index.contains_key(h) && lex_le(h, key));
                lemma_lex_trichotomy(lo, h);
            }
        }
    }
}

/// Asking a node to leave memory keeps the invariant.
pub proof fn lemma_evict_one_inv(s: DbView, id: u64)
    requires
        s.inv(),
    ensures
        s.evict_one(id).inv(),
        s.evict_one(id).epoch == s.epoch,
{
    let t = s.evict_one(id);
    if s.leaves.contains_key(id) {
        let leaf = s.leaves[id];
        assert(s.low_keys.contains_key(id));
        match leaf.dirty_flush_epoch {
            None => {
                assert forall|k: (u64, Seq<u8>)| #[trigger] t.dirty.contains_key(k) implies {
                    &&& t.live_epoch(k.0)
                    &&& t.index.contains_key(k.1)
                    &&& (t.dirty[k].is_none() ==> t.leaves.contains_key(t.index[k.1])
                        && t.leaves[t.index[k.1]].dirty_flush_epoch == Some(k.0))
                } by {
                    assert(s.dirty.contains_key(k));
                }
            },
            Some(e) => {
                if leaf.written(s.level) is Some {
                    assert(s.dirty.contains_key((e, leaf.lo)));
                    assert forall|k: (u64, Seq<u8>)| #[trigger] t.dirty.contains_key(k) implies {
                        &&& t.live_epoch(k.0)
                        &&& t.index.contains_key(k.1)
                        &&& (t.dirty[k].is_none() ==> t.leaves.contains_key(t.index[k.1])
                            && t.leaves[t.index[k.1]].dirty_flush_epoch == Some(k.0))
                    } by {
                        assert(s.dirty.contains_key(k));
                        if k != (e, leaf.lo) && t.dirty[k].is_none() {
                            let other = s.index[k.1];
                            assert(s.leaves.contains_key(other));
                            if other == id {
                                assert(s.leaves[other].dirty_flush_epoch == Some(k.0));
                                assert(s.low_keys[s.index[k.1]] == k.1);
                            }
                        }
                    }
                    assert forall|j: u64| #[trigger] t.leaves.contains_key(j) implies (
                    t.leaves[j].dirty_flush_epoch matches Some(e2) ==> {
                        &&& t.live_epoch(e2)
                        &&& t.dirty.contains_key((e2, t.leaves[j].lo))
                        &&& t.dirty[(e2, t.leaves[j].lo)].is_none()
                    }) by {
                        assert(s.leaves.contains_key(j));
                        if t.leaves[j].lo == leaf.lo {
                            assert(s.low_keys[j] == s.low_keys[id]);
                            assert(s.index[s.low_keys[j]] == j);
                        }
                    }
                }
            },
        }
    }
}

/// Asking nodes to leave memory keeps the invariant.
pub proof fn lemma_evict_seq_inv(s: DbView, ids: Seq<u64>, n: int)
    requires
        s.inv(),
        0 <= n <= ids.len(),
    ensures
        s.evict_seq(ids, n).inv(),
        s.evict_seq(ids, n).epoch == s.epoch,
    decreases n,
{
    if n > 0 {
        lemma_evict_seq_inv(s, ids, n - 1);
        lemma_evict_one_inv(s.evict_seq(ids, n - 1), ids[n - 1]);
    }
}

/// The cooperative flush keeps the invariant, leaves the leaf clean or dirty
/// in the current epoch, and changes nothing else of it.
pub proof fn lemma_cooperate_inv(s: DbView, id: u64)
    requires
        s.inv(),
        s.leaves.contains_key(id),
        s.can_cooperate(id),
    ensures
        s.cooperate(id).inv(),
        s.cooperate(id).leaves.contains_key(id),
        s.cooperate(id).leaves.dom() == s.leaves.dom(),
        s.cooperate(id).leaves[id].dirty_flush_epoch matches Some(e) ==> e == s.epoch.current,
        s.cooperate(id).leaves[id] == s.leaves[id].with_dirty(
            s.cooperate(id).leaves[id].dirty_flush_epoch,
        ),
        s.cooperate(id).index == s.index,
        s.cooperate(id).epoch == s.epoch,
        s.cooperate(id).spare_ids == s.spare_ids,
{
    let t = s.cooperate(id);
    let leaf = s.leaves[id];
    assert(s.low_keys.contains_key(id));
    match leaf.dirty_flush_epoch {
        Some(e) => {
            if e != s.epoch.current {
                assert(t.leaves.dom() =~= s.leaves.dom());
                assert(s.dirty.contains_key((e, leaf.lo)));
                assert forall|j: u64| #[trigger] t.leaves.contains_key(j) implies {
                    &&& t.low_keys.contains_key(j)
                    &&& t.leaves[j].wf()
                    &&& !t.leaves[j].is_full()
                    &&& t.leaves[j].lo == t.low_keys[j]
                    &&& is_successor(t.index, t.leaves[j].lo, t.leaves[j].hi)
                } by {
                    assert(s.leaves.contains_key(j));
                }
                assert forall|j: u64| #[trigger] t.leaves.contains_key(j) implies (
                t.leaves[j].dirty_flush_epoch matches Some(e2) ==> {
                    &&& t.live_epoch(e2)
                    &&& t.dirty.contains_key((e2, t.leaves[j].lo))
                    &&& t.dirty[(e2, t.leaves[j].lo)].is_none()
                }) by {
                    assert(s.leaves.contains_key(j));
                    if j != id && t.leaves[j].lo == leaf.lo {
                        assert(s.low_keys[j] == s.low_keys[id]);
                        assert(s.index[s.low_keys[j]] == j);
                    }
                }
                assert forall|k: (u64, Seq<u8>)| #[trigger] t.dirty.contains_key(k) implies {
                    &&& t.live_epoch(k.0)
                    &&& t.index.contains_key(k.1)
                    &&& (t.dirty[k].is_none() ==> t.leaves.contains_key(t.index[k.1])
                        && t.leaves[t.index[k.1]].dirty_flush_epoch == Some(k.0))
                } by {
                    assert(s.dirty.contains_key(k));
                    if k != (e, leaf.lo) && t.dirty[k].is_none() {
                        let other = s.index[k.1];
                        assert(s.leaves.contains_key(other));
                        if other == id {
                            assert(s.low_keys[s.index[k.1]] == k.1);
                        }
                    }
                }
            }
        },
        None => {},
    }
}

/// Putting an edited leaf in the place of the leaf it was made of leaves the
/// store ready to settle it.
pub proof fn lemma_edit_ready(s: DbView, id: u64, edited: LeafView)
    requires
        s.inv(),
        s.leaves.contains_key(id),
        s.leaves[id].dirty_flush_epoch matches Some(e) ==> e == s.epoch.current,
        edited.wf(),
        edited.lo == s.leaves[id].lo,
        edited.hi == s.leaves[id].hi,
        edited.dirty_flush_epoch == s.leaves[id].dirty_flush_epoch,
        edited.is_full() ==> s.spare_ids.len() > 0,
    ensures
        s.with_leaf(id, edited).settle_ready(id),
{
    let t = s.with_leaf(id, edited);
    assert forall|j: u64| #[trigger] t.leaves.contains_key(j) implies {
        &&& t.low_keys.contains_key(j)
        &&& t.leaves[j].wf()
        &&& (Some(id) != Some(j) ==> !t.leaves[j].is_full())
        &&& t.leaves[j].lo == t.low_keys[j]
        &&& is_successor(t.index, t.leaves[j].lo, t.leaves[j].hi)
    } by {
        assert(s.leaves.contains_key(j));
    }
    assert forall|j: u64| #[trigger] t.leaves.contains_key(j) implies (
    t.leaves[j].dirty_flush_epoch matches Some(e2) ==> {
        &&& t.live_epoch(e2)
        &&& t.dirty.contains_key((e2, t.leaves[j].lo))
        &&& t.dirty[(e2, t.leaves[j].lo)].is_none()
    }) by {
        assert(s.leaves.contains_key(j));
    }
    assert forall|k: (u64, Seq<u8>)| #[trigger] t.dirty.contains_key(k) implies {
        &&& t.live_epoch(k.0)
        &&& t.index.contains_key(k.1)
        &&& (t.dirty[k].is_none() ==> t.leaves.contains_key(t.index[k.1])
            && t.leaves[t.index[k.1]].dirty_flush_epoch == Some(k.0))
    } by {
        assert(s.dirty.contains_key(k));
    }
}

/// Where a full leaf splits, the split key is new to the index.
pub proof fn lemma_split_key_is_new(s: DbView, id: u64)
    requires
        s.settle_ready(id),
        s.leaves[id].is_full(),
    ensures
        !s.index.contains_key(s.leaves[id].split_key()),
        lex_lt(s.leaves[id].lo, s.leaves[id].split_key()),
        s.leaves[id].hi matches Some(h) ==> lex_lt(s.leaves[id].split_key(), h),
{
    let leaf = s.leaves[id];
    let sk = leaf.split_key();
    crate::leaf::lemma_split_wf(leaf, s.epoch.current);
    if s.index.contains_key(sk) {
        match leaf.hi {
            Some(h) => {
                lemma_lex_trichotomy(sk, h);
            },
            None => {},
        }
    }
}

/// Settling an edited leaf restores the invariant.
#[verifier::rlimit(60)]
pub proof fn lemma_settle_inv(s: DbView, id: u64, changed: bool)
    requires
        s.settle_ready(id),
    ensures
        s.settle(id, changed).inv(),
        s.settle(id, changed).epoch == s.epoch,
        s.settle(id, changed).error == s.error,
{
    let t = s.settle(id, changed);
    let leaf = s.leaves[id];
    let e = s.epoch.current;
    assert(s.low_keys.contains_key(id));
    if leaf.is_full() {
        let rid = s.spare_ids.last();
        let sk = leaf.split_key();
        let left = leaf.split_left().with_dirty(Some(e));
        let right = leaf.split_right(e);
        crate::leaf::lemma_split_wf(leaf, e);
        lemma_split_key_is_new(s, id);
        assert(!s.low_keys.contains_key(rid));
        assert(rid != id);
        assert(t.index.dom() =~= s.index.dom().insert(sk));
        assert(t.maps_agree()) by {
            assert forall|j: u64| #[trigger] t.low_keys.contains_key(j) implies
                t.index.contains_key(t.low_keys[j]) && t.index[t.low_keys[j]] == j by {
                if j != rid {
                    assert(s.low_keys.contains_key(j));
                }
            }
            assert forall|k: Seq<u8>| #[trigger] t.index.contains_key(k) implies
                t.low_keys.contains_key(t.index[k]) && t.low_keys[t.index[k]] == k by {
                if k != sk {
                    assert(s.index.contains_key(k));
                }
            }
        }
        assert(t.leaves_fit()) by {
            assert forall|j: u64| #[trigger] t.leaves.contains_key(j) implies {
                &&& t.low_keys.contains_key(j)
                &&& t.leaves[j].wf()
                &&& !t.leaves[j].is_full()
                &&& t.leaves[j].lo == t.low_keys[j]
                &&& is_successor(t.index, t.leaves[j].lo, t.leaves[j].hi)
            } by {
                if j == rid {
                    match leaf.hi {
                        Some(h) => {
                            assert forall|k: Seq<u8>| #[trigger]
                                t.index.contains_key(k) && lex_lt(sk, k) implies lex_le(h, k) by {
                                lemma_lex_trichotomy(sk, k);
                                lemma_lex_lt_transitive(leaf.lo, sk, k);
                                assert(s.index.contains_key(k));
                            }
                        },
                        None => {
                            assert forall|k: Seq<u8>| #[trigger]
                                t.index.contains_key(k) implies !lex_lt(sk, k) by {
                                lemma_lex_trichotomy(sk, k);
                                if lex_lt(sk, k) {
                                    lemma_lex_lt_transitive(leaf.lo, sk, k);
                                    assert(s.index.contains_key(k));
                                }
                            }
                        },
                    }
                } else if j == id {
                    assert forall|k: Seq<u8>| #[trigger]
                        t.index.contains_key(k) && lex_lt(leaf.lo, k) implies lex_le(sk, k) by {
                        if k != sk {
                            assert(s.index.contains_key(k));
                            match leaf.hi {
                                Some(h) => {
                                    lemma_lex_lt_le_transitive(sk, h, k);
                                },
                                None => {},
                            }
                        }
                    }
                } else {
                    assert(s.leaves.contains_key(j));
                    let other = s.leaves[j];
                    assert(other.lo != leaf.lo) by {
                        if other.lo == leaf.lo {
                            assert(s.index[s.low_keys[j]] == j);
                            assert(s.index[s.low_keys[id]] == id);
                        }
                    }
                    assert(s.index.contains_key(leaf.lo));
                    assert(s.index.contains_key(other.lo));
                    lemma_lex_trichotomy(other.lo, leaf.lo);
                    lemma_lex_trichotomy(other.lo, sk);
                    match other.hi {
                        Some(oh) => {
                            assert forall|k: Seq<u8>| #[trigger]
                                t.index.contains_key(k) && lex_lt(other.lo, k) implies lex_le(
                                oh,
                                k,
                            ) by {
                                if k == sk {
                                    if lex_lt(other.lo, leaf.lo) {
                                        // the other leaf ends at or before this one begins
                                        assert(lex_le(oh, leaf.lo));
                                        lemma_lex_le_lt_transitive(oh, leaf.lo, sk);
                                    } else {
                                        // the other leaf begins at or after this one ends
                                        assert(lex_lt(leaf.lo, other.lo));
                                        match leaf.hi {
                                            Some(h) => {
                                                assert(lex_le(h, other.lo));
                                                lemma_lex_lt_le_transitive(sk, h, other.lo);
                                                lemma_lex_trichotomy(sk, other.lo);
                                            },
                                            None => {},
                                        }
                                    }
                                } else {
                                    assert(s.index.contains_key(k));
                                }
                            }
                        },
                        None => {
                            assert forall|k: Seq<u8>| #[trigger]
                                t.index.contains_key(k) implies !lex_lt(other.lo, k) by {
                                if k == sk {
                                    if lex_lt(other.lo, sk) {
                                        if lex_lt(other.lo, leaf.lo) {
                                            assert(false);
                                        } else {
                                            assert(lex_lt(leaf.lo, other.lo));
                                            match leaf.hi {
                                                Some(h) => {
                                                    assert(lex_le(h, other.lo));
                                                    lemma_lex_lt_le_transitive(sk, h, other.lo);
                                                    lemma_lex_trichotomy(sk, other.lo);
                                                },
                                                None => {},
                                            }
                                        }
                                    }
                                } else {
                                    assert(s.index.contains_key(k));
                                }
                            }
                        },
                    }
                }
            }
        }
        assert(t.dirty_agrees()) by {
            assert forall|j: u64| #[trigger] t.leaves.contains_key(j) implies (
            t.leaves[j].dirty_flush_epoch matches Some(e2) ==> {
                &&& t.live_epoch(e2)
                &&& t.dirty.contains_key((e2, t.leaves[j].lo))
                &&& t.dirty[(e2, t.leaves[j].lo)].is_none()
            }) by {
                if j != rid && j != id {
                    assert(s.leaves.contains_key(j));
                    let other = s.leaves[j];
                    assert(s.index.contains_key(other.lo));
                    if other.lo == leaf.lo {
                        assert(s.index[s.low_keys[j]] == j);
                        assert(s.index[s.low_keys[id]] == id);
                    }
                }
            }
            assert forall|k: (u64, Seq<u8>)| #[trigger] t.dirty.contains_key(k) implies {
                &&& t.live_epoch(k.0)
                &&& t.index.contains_key(k.1)
                &&& (t.dirty[k].is_none() ==> t.leaves.contains_key(t.index[k.1])
                    && t.leaves[t.index[k.1]].dirty_flush_epoch == Some(k.0))
            } by {
                if k != (e, sk) && k != (e, leaf.lo) {
                    assert(s.dirty.contains_key(k));
                    if t.dirty[k].is_none() {
                        let j = s.index[k.1];
                        assert(s.leaves.contains_key(j));
                        assert(s.low_keys.contains_key(j));
                        if j == id {
                            assert(s.low_keys[s.index[k.1]] == k.1);
                        }
                    }
                } else {
                    assert(s.index.contains_key(leaf.lo));
                    assert(s.index[s.low_keys[id]] == id);
                }
            }
        }
        assert(t.spares_fresh()) by {
            assert forall|i: int| 0 <= i < t.spare_ids.len() implies !t.low_keys.contains_key(
                #[trigger] t.spare_ids[i],
            ) by {
                assert(t.spare_ids[i] == s.spare_ids[i]);
                assert(s.spare_ids[i] != s.spare_ids[s.spare_ids.len() - 1]);
            }
            assert forall|i: int, j: int| 0 <= i < j < t.spare_ids.len() implies t.spare_ids[i]
                != t.spare_ids[j] by {
                assert(t.spare_ids[i] == s.spare_ids[i] && t.spare_ids[j] == s.spare_ids[j]);
            }
        }
    } else if changed {
        assert(t.leaves_fit()) by {
            assert forall|j: u64| #[trigger] t.leaves.contains_key(j) implies {
                &&& t.low_keys.contains_key(j)
                &&& t.leaves[j].wf()
                &&& !t.leaves[j].is_full()
                &&& t.leaves[j].lo == t.low_keys[j]
                &&& is_successor(t.index, t.leaves[j].lo, t.leaves[j].hi)
            } by {
                assert(s.leaves.contains_key(j));
            }
        }
        assert(t.dirty_agrees()) by {
            assert forall|j: u64| #[trigger] t.leaves.contains_key(j) implies (
            t.leaves[j].dirty_flush_epoch matches Some(e2) ==> {
                &&& t.live_epoch(e2)
                &&& t.dirty.contains_key((e2, t.leaves[j].lo))
                &&& t.dirty[(e2, t.leaves[j].lo)].is_none()
            }) by {
                assert(s.leaves.contains_key(j));
                if j != id && s.leaves[j].lo == leaf.lo {
                    assert(s.index[s.low_keys[j]] == j);
                    assert(s.index[s.low_keys[id]] == id);
                }
            }
            assert forall|k: (u64, Seq<u8>)| #[trigger] t.dirty.contains_key(k) implies {
                &&& t.live_epoch(k.0)
                &&& t.index.contains_key(k.1)
                &&& (t.dirty[k].is_none() ==> t.leaves.contains_key(t.index[k.1])
                    && t.leaves[t.index[k.1]].dirty_flush_epoch == Some(k.0))
            } by {
                assert(s.index.contains_key(leaf.lo));
                assert(s.index[s.low_keys[id]] == id);
                if k != (e, leaf.lo) {
                    assert(s.dirty.contains_key(k));
                    if t.dirty[k].is_none() {
                        let j = s.index[k.1];
                        assert(s.leaves.contains_key(j));
                        if j == id {
                            assert(s.low_keys[s.index[k.1]] == k.1);
                        }
                    }
                }
            }
        }
    } else {
        assert(t.leaves_fit()) by {
            assert forall|j: u64| #[trigger] t.leaves.contains_key(j) implies {
                &&& t.low_keys.contains_key(j)
                &&& t.leaves[j].wf()
                &&& !t.leaves[j].is_full()
                &&& t.leaves[j].lo == t.low_keys[j]
                &&& is_successor(t.index, t.leaves[j].lo, t.leaves[j].hi)
            } by {
                assert(s.leaves.contains_key(j));
            }
        }
    }
}

/// A finite set of keys that is not empty has a greatest key.
pub proof fn lemma_greatest_key(keys: Set<Seq<u8>>)
    requires
        keys.finite(),
        keys.len() > 0,
    ensures
        exists|m: Seq<u8>| keys.contains(m) && forall|k: Seq<u8>| keys.contains(k) ==> lex_le(k, m),
    decreases keys.len(),
{
    let x = keys.choose();
    let rest = keys.remove(x);
    if rest.len() == 0 {
        assert forall|k: Seq<u8>| keys.contains(k) implies lex_le(k, x) by {
            if k != x {
                assert(rest.contains(k));
            }
        }
    } else {
        lemma_greatest_key(rest);
        let m0 = choose|m: Seq<u8>|
            rest.contains(m) && forall|k: Seq<u8>| rest.contains(k) ==> lex_le(k, m);
        lemma_lex_trichotomy(m0, x);
        let m = if lex_le(m0, x) {
            x
        } else {
            m0
        };
        assert forall|k: Seq<u8>| keys.contains(k) implies lex_le(k, m) by {
            if k != x {
                assert(rest.contains(k));
                if lex_le(m0, x) {
                    lemma_lex_le_transitive(k, m0, x);
                }
            }
        }
    }
}

/// Every key is routed to some low key.
pub proof fn lemma_route_exists(index: Map<Seq<u8>, u64>, key: Seq<u8>)
    requires
        index.dom().finite(),
        index.contains_key(Seq::<u8>::empty()),
    ensures
        exists|lo: Seq<u8>| routes(index, key, lo),
{
    let below = index.dom().filter(|k: Seq<u8>| lex_le(k, key));
    lemma_empty_is_least(key);
    assert(below.contains(Seq::<u8>::empty()));
    index.dom().lemma_len_filter(|k: Seq<u8>| lex_le(k, key));
    assert(below.len() > 0) by {
        if below.len() == 0 {
            assert(below =~= Set::empty());
        }
    }
    lemma_greatest_key(below);
    let m = choose|m: Seq<u8>|
        below.contains(m) && forall|k: Seq<u8>| below.contains(k) ==> lex_le(k, m);
    assert(routes(index, key, m)) by {
        assert forall|k: Seq<u8>| #[trigger] index.contains_key(k) && lex_le(k, key) implies lex_le(
            k,
            m,
        ) by {
            assert(below.contains(k));
        }
    }
}

/// The nodes' ranges cover every key and do not overlap: each key is routed
/// to exactly one low key, and a leaf in memory holds a key in its range
/// exactly when the key is routed to it.
pub proof fn lemma_ranges_partition(s: DbView, key: Seq<u8>)
    requires
        s.inv(),
    ensures
        routes(s.index, key, s.owner_key(key)),
        forall|lo: Seq<u8>| routes(s.index, key, lo) ==> lo == s.owner_key(key),
        forall|id: u64| #[trigger]
            s.leaves.contains_key(id) ==> (s.leaves[id].owns(key) <==> s.owner(key) == id),
{
    lemma_route_exists(s.index, key);
    let lo = s.owner_key(key);
    assert forall|other: Seq<u8>| routes(s.index, key, other) implies other == lo by {
        lemma_routes_unique(s.index, key, other, lo);
    }
    lemma_owner(s, None, key, lo);
    assert forall|id: u64| #[trigger] s.leaves.contains_key(id) implies (s.leaves[id].owns(key)
        <==> s.owner(key) == id) by {
        let leaf = s.leaves[id];
        if leaf.owns(key) {
            // the leaf's low key is at or below the key, and the next low key is above it
            assert(s.index.contains_key(leaf.lo));
            assert(s.index[s.low_keys[id]] == id);
            assert(routes(s.index, key, leaf.lo)) by {
                assert forall|k: Seq<u8>| #[trigger]
                    s.index.contains_key(k) && lex_le(k, key) implies lex_le(k, leaf.lo) by {
                    lemma_lex_trichotomy(k, leaf.lo);
                    if lex_lt(leaf.lo, k) {
                        match leaf.hi {
                            Some(h) => {
                                lemma_lex_le_transitive(h, k, key);
                                lemma_lex_trichotomy(h, key);
                            },
                            None => {},
                        }
                    }
                }
            }
            lemma_routes_unique(s.index, key, leaf.lo, lo);
        }
        if s.owner(key) == id {
            assert(s.index.contains_key(lo));
        }
    }
}

/// No leaf is dirty in an epoch older than the one before the current
/// epoch, nor in one that is yet to come.
pub proof fn lemma_no_dirty_lag(s: DbView, id: u64)
    requires
        s.inv(),
        s.leaves.contains_key(id),
    ensures
        s.leaves[id].dirty_flush_epoch matches Some(e) ==> s.epoch.current - 1 <= e
            <= s.epoch.current,
{
}

/// A leaf in memory is dirty in an epoch exactly when the dirty set holds
/// that epoch and the leaf's low key with no bytes. Where the dirty set
/// holds bytes for them instead, the leaf is not marked in that epoch: its
/// content of that epoch is in those bytes.
pub proof fn lemma_dirty_iff_in_set(s: DbView, id: u64, e: u64)
    requires
        s.inv(),
        s.leaves.contains_key(id),
    ensures
        s.leaves[id].dirty_flush_epoch == Some(e) <==> (s.dirty.contains_key((e, s.leaves[id].lo))
            && s.dirty[(e, s.leaves[id].lo)].is_none()),
{
    let lo = s.leaves[id].lo;
    if s.dirty.contains_key((e, lo)) && s.dirty[(e, lo)].is_none() {
        assert(s.index[s.low_keys[id]] == id);
    }
}

/// Where a key is routed after an edited leaf was settled: to the new node
/// if the leaf split and the key lies at or above the split key, and where
/// it was routed before otherwise.
pub proof fn lemma_settle_routes(s: DbView, id: u64, changed: bool, k: Seq<u8>)
    requires
        s.settle_ready(id),
    ensures
        ({
            let t = s.settle(id, changed);
            let leaf = s.leaves[id];
            let moved = leaf.is_full() && s.owner(k) == id && lex_le(leaf.split_key(), k);
            &&& routes(s.index, k, s.owner_key(k))
            &&& t.inv()
            &&& t.owner_key(k) == (if moved {
                leaf.split_key()
            } else {
                s.owner_key(k)
            })
            &&& t.owner(k) == (if moved {
                s.spare_ids.last()
            } else {
                s.owner(k)
            })
        }),
{
    lemma_route_exists(s.index, k);
    let lo = s.owner_key(k);
    lemma_owner(s, Some(id), k, lo);
    lemma_settle_inv(s, id, changed);
    let t = s.settle(id, changed);
    let leaf = s.leaves[id];
    assert(s.low_keys.contains_key(id));
    assert(s.index[s.low_keys[id]] == id);
    if leaf.is_full() {
        let sk = leaf.split_key();
        lemma_split_key_is_new(s, id);
        if s.owner(k) == id && lex_le(sk, k) {
            assert(lo == leaf.lo);
            assert(routes(t.index, k, sk)) by {
                assert forall|x: Seq<u8>| #[trigger]
                    t.index.contains_key(x) && lex_le(x, k) implies lex_le(x, sk) by {
                    if x != sk {
                        assert(s.index.contains_key(x));
                        lemma_lex_le_lt_transitive(x, lo, sk);
                    }
                }
            }
            lemma_owner(t, None, k, sk);
        } else {
            assert(routes(t.index, k, lo)) by {
                assert forall|x: Seq<u8>| #[trigger]
                    t.index.contains_key(x) && lex_le(x, k) implies lex_le(x, lo) by {
                    if x == sk {
                        assert(s.owner(k) != id);
                        assert(lo != leaf.lo);
                        assert(s.index.contains_key(leaf.lo));
                        lemma_lex_trichotomy(lo, leaf.lo);
                        if lex_lt(lo, leaf.lo) {
                            lemma_lex_trichotomy(leaf.lo, k);
                            lemma_lex_lt_le_transitive(leaf.lo, sk, k);
                        } else {
                            match leaf.hi {
                                Some(h) => {
                                    lemma_lex_lt_le_transitive(sk, h, lo);
                                },
                                None => {},
                            }
                        }
                    } else {
                        assert(s.index.contains_key(x));
                    }
                }
            }
            lemma_owner(t, None, k, lo);
        }
    } else {
        assert(routes(t.index, k, lo));
        lemma_owner(t, None, k, lo);
    }
}

/// Settling an edited leaf changes no value: whatever was found under a key
/// before is found under it afterwards, also where the leaf split.
pub proof fn lemma_settle_lookup(s: DbView, id: u64, changed: bool, k: Seq<u8>)
    requires
        s.settle_ready(id),
        s.resident(k),
    ensures
        s.settle(id, changed).inv(),
        s.settle(id, changed).resident(k),
        s.settle(id, changed).lookup(k) == s.lookup(k),
        writable(s, k) ==> writable(s.settle(id, changed), k),
        marked(s, k) ==> marked(s.settle(id, changed), k),
        changed && s.owner(k) == id ==> marked(s.settle(id, changed), k),
{
    lemma_settle_routes(s, id, changed, k);
    let t = s.settle(id, changed);
    let leaf = s.leaves[id];
    let e = s.epoch.current;
    let lo = s.owner_key(k);
    lemma_owner(s, Some(id), k, lo);
    assert(s.low_keys.contains_key(id));
    if leaf.is_full() {
        let rid = s.spare_ids.last();
        assert(!s.low_keys.contains_key(rid));
        if s.owner(k) == id {
            crate::leaf::lemma_split_wf(leaf, e);
            crate::leaf::lemma_split_lookup(leaf, e, k);
            lemma_lex_trichotomy(leaf.split_key(), k);
        } else {
            assert(s.low_keys.contains_key(s.owner(k)));
        }
    }
}

/// The cooperative flush changes no value and routes no key elsewhere.
pub proof fn lemma_cooperate_lookup(s: DbView, id: u64, k: Seq<u8>)
    requires
        s.inv(),
        s.leaves.contains_key(id),
    ensures
        s.cooperate(id).owner(k) == s.owner(k),
        s.cooperate(id).resident(k) == s.resident(k),
        s.cooperate(id).lookup(k) == s.lookup(k),
{
}

/// After `key` was set to `value`, `value` is found under `key`, and under
/// every other key whose leaf is in memory what was found there before.
pub proof fn lemma_inserted_lookup(s: DbView, key: Seq<u8>, value: Seq<u8>, q: Seq<u8>)
    requires
        s.inv(),
        s.resident(key),
        s.can_cooperate(s.owner(key)),
        s.leaves[s.owner(key)].entries.len() + 1 >= crate::stack::LEAF_FANOUT
            ==> s.spare_ids.len() > 0,
        s.resident(q),
    ensures
        s.inserted(key, value).inv(),
        s.inserted(key, value).resident(q),
        s.inserted(key, value).lookup(q) == (if q == key {
            Some(value)
        } else {
            s.lookup(q)
        }),
{
    let id = s.owner(key);
    lemma_route_exists(s.index, key);
    lemma_owner(s, None, key, s.owner_key(key));
    lemma_cooperate_inv(s, id);
    lemma_cooperate_lookup(s, id, q);
    let c = s.cooperate(id);
    let leaf = c.leaves[id];
    let edited = leaf.insert(key, value);
    crate::leaf::lemma_insert_wf(leaf, key, value);
    lemma_edit_ready(c, id, edited);
    let u = c.with_leaf(id, edited);
    crate::entries::lemma_put_lookup(leaf.entries, key, value, q);
    assert(u.resident(q));
    lemma_settle_lookup(u, id, leaf.get(key) != Some(value), q);
}

/// After `key` was removed, nothing is found under `key`, and under every
/// other key whose leaf is in memory what was found there before.
pub proof fn lemma_removed_lookup(s: DbView, key: Seq<u8>, q: Seq<u8>)
    requires
        s.inv(),
        s.resident(key),
        s.can_cooperate(s.owner(key)),
        s.resident(q),
    ensures
        s.removed(key).inv(),
        s.removed(key).resident(q),
        s.removed(key).lookup(q) == (if q == key {
            None::<Seq<u8>>
        } else {
            s.lookup(q)
        }),
{
    let id = s.owner(key);
    lemma_route_exists(s.index, key);
    lemma_owner(s, None, key, s.owner_key(key));
    lemma_cooperate_inv(s, id);
    lemma_cooperate_lookup(s, id, q);
    let c = s.cooperate(id);
    let leaf = c.leaves[id];
    let edited = leaf.remove(key);
    crate::leaf::lemma_remove_wf(leaf, key);
    lemma_edit_ready(c, id, edited);
    let u = c.with_leaf(id, edited);
    crate::entries::lemma_delete_lookup(leaf.entries, key, q);
    assert(u.resident(q));
    lemma_settle_lookup(u, id, leaf.get(key).is_some(), q);
}

/// Removing a key brings no leaf into memory and routes no key elsewhere.
pub proof fn lemma_removed_same_nodes(s: DbView, key: Seq<u8>, q: Seq<u8>)
    requires
        s.inv(),
        s.resident(key),
        s.can_cooperate(s.owner(key)),
    ensures
        s.removed(key).index == s.index,
        s.removed(key).resident(q) == s.resident(q),
{
    let id = s.owner(key);
    lemma_route_exists(s.index, key);
    lemma_owner(s, None, key, s.owner_key(key));
    lemma_cooperate_inv(s, id);
    let c = s.cooperate(id);
    let leaf = c.leaves[id];
    crate::leaf::lemma_remove_wf(leaf, key);
    let u = c.with_leaf(id, leaf.remove(key));
    assert(!leaf.remove(key).is_full());
    assert(s.removed(key).index == s.index);
    assert(s.removed(key).leaves.dom() =~= s.leaves.dom());
}

/// A compare-and-swap writes exactly when it finds what it expects: then
/// the proposed value, or nothing where none was proposed, is found under
/// `key` afterwards; otherwise what was found before is found again. Under
/// every other key whose leaf is in memory what was found there before is
/// found afterwards.
pub proof fn lemma_swapped_lookup(
    s: DbView,
    key: Seq<u8>,
    expected: Option<Seq<u8>>,
    proposed: Option<Seq<u8>>,
    q: Seq<u8>,
)
    requires
        s.inv(),
        s.resident(key),
        s.can_cooperate(s.owner(key)),
        proposed.is_some() && s.leaves[s.owner(key)].entries.len() + 1
            >= crate::stack::LEAF_FANOUT ==> s.spare_ids.len() > 0,
        s.resident(q),
    ensures
        s.swapped(key, expected, proposed).inv(),
        s.swapped(key, expected, proposed).resident(q),
        s.swapped(key, expected, proposed).lookup(q) == (if q == key && s.lookup(key)
            == expected {
            proposed
        } else {
            s.lookup(q)
        }),
{
    let id = s.owner(key);
    lemma_route_exists(s.index, key);
    lemma_owner(s, None, key, s.owner_key(key));
    lemma_cooperate_inv(s, id);
    lemma_cooperate_lookup(s, id, q);
    lemma_cooperate_lookup(s, id, key);
    let c = s.cooperate(id);
    let leaf = c.leaves[id];
    if leaf.get(key) == expected {
        match proposed {
            Some(v) => {
                let edited = leaf.insert(key, v);
                crate::leaf::lemma_insert_wf(leaf, key, v);
                lemma_edit_ready(c, id, edited);
                let u = c.with_leaf(id, edited);
                crate::entries::lemma_put_lookup(leaf.entries, key, v, q);
                assert(u.resident(q));
                lemma_settle_lookup(u, id, true, q);
            },
            None => {
                let edited = leaf.remove(key);
                crate::leaf::lemma_remove_wf(leaf, key);
                lemma_edit_ready(c, id, edited);
                let u = c.with_leaf(id, edited);
                crate::entries::lemma_delete_lookup(leaf.entries, key, q);
                assert(u.resident(q));
                lemma_settle_lookup(u, id, true, q);
            },
        }
    }
}

/// Each write sets at most one value: the count of values set grows with
/// the number of writes, by no more than one for each.
pub proof fn lemma_inserts_bounds(writes: Seq<(Seq<u8>, Option<Seq<u8>>)>, n: int, m: int)
    requires
        0 <= n <= m,
    ensures
        0 <= inserts(writes, n) <= inserts(writes, m),
        inserts(writes, m) - inserts(writes, n) <= m - n,
    decreases m,
{
    if n == m {
        if n > 0 {
            lemma_inserts_bounds(writes, n - 1, n - 1);
        }
    } else {
        lemma_inserts_bounds(writes, n, m - 1);
    }
}

/// The cooperative flush of one leaf leaves every leaf that a writer may
/// edit as it is in that respect, and makes the leaf itself one.
pub proof fn lemma_cooperate_writable(s: DbView, id: u64, k: Seq<u8>)
    requires
        s.inv(),
        s.leaves.contains_key(id),
        s.can_cooperate(id),
    ensures
        s.cooperate(id).inv(),
        s.cooperate(id).epoch == s.epoch,
        s.cooperate(id).spare_ids == s.spare_ids,
        s.cooperate(id).resident(k) == s.resident(k),
        writable(s, k) ==> writable(s.cooperate(id), k),
        s.resident(k) && s.owner(k) == id ==> writable(s.cooperate(id), k),
{
    lemma_cooperate_inv(s, id);
}

/// One write of a batch keeps the invariant, uses at most one spare node
/// id, and leaves every leaf that a writer may edit one that it may edit.
pub proof fn lemma_write_one(s: DbView, key: Seq<u8>, value: Option<Seq<u8>>, k: Seq<u8>)
    requires
        s.inv(),
        writable(s, key),
        value.is_some() ==> s.spare_ids.len() > 0,
    ensures
        s.write_one(key, value).inv(),
        s.write_one(key, value).epoch == s.epoch,
        s.write_one(key, value).error == s.error,
        s.write_one(key, value).spare_ids.len() >= s.spare_ids.len() - (if value.is_some() {
            1int
        } else {
            0int
        }),
        writable(s, k) ==> writable(s.write_one(key, value), k),
        marked(s, k) ==> marked(s.write_one(key, value), k),
        s.owner(k) == s.owner(key) ==> marked(s.write_one(key, value), k),
        s.resident(k) ==> s.write_one(key, value).resident(k) && s.write_one(key, value).lookup(k)
            == (if k == key {
            value
        } else {
            s.lookup(k)
        }),
{
    let id = s.owner(key);
    lemma_route_exists(s.index, key);
    lemma_owner(s, None, key, s.owner_key(key));
    let leaf = s.leaves[id];
    match value {
        Some(v) => {
            let edited = leaf.insert(key, v);
            crate::leaf::lemma_insert_wf(leaf, key, v);
            lemma_edit_ready(s, id, edited);
            let u = s.with_leaf(id, edited);
            lemma_settle_inv(u, id, true);
            crate::entries::lemma_put_lookup(leaf.entries, key, v, k);
            if s.resident(k) {
                assert(u.resident(k));
                lemma_settle_lookup(u, id, true, k);
            }
        },
        None => {
            let edited = leaf.remove(key);
            crate::leaf::lemma_remove_wf(leaf, key);
            lemma_edit_ready(s, id, edited);
            let u = s.with_leaf(id, edited);
            lemma_settle_inv(u, id, true);
            crate::entries::lemma_delete_lookup(leaf.entries, key, k);
            if s.resident(k) {
                assert(u.resident(k));
                lemma_settle_lookup(u, id, true, k);
            }
        },
    }
}

/// The cooperative flushes of a batch keep the invariant, change no value,
/// keep every leaf of the batch in memory, and leave the leaves of the keys
/// they were done for ready to be written.
pub proof fn lemma_cooperate_all(
    s: DbView,
    w: Seq<(Seq<u8>, Option<Seq<u8>>)>,
    n: int,
    q: Seq<u8>,
)
    requires
        s.inv(),
        0 <= n <= w.len(),
        forall|j: int| 0 <= j < w.len() ==> s.resident(#[trigger] w[j].0),
        can_cooperate_all(s, w, n),
    ensures
        s.cooperate_all(w, n).inv(),
        s.cooperate_all(w, n).epoch == s.epoch,
        s.cooperate_all(w, n).spare_ids == s.spare_ids,
        s.cooperate_all(w, n).error == s.error,
        forall|j: int| 0 <= j < w.len() ==> s.cooperate_all(w, n).resident(#[trigger] w[j].0),
        forall|j: int| 0 <= j < n ==> writable(s.cooperate_all(w, n), #[trigger] w[j].0),
        s.cooperate_all(w, n).resident(q) == s.resident(q),
        s.cooperate_all(w, n).lookup(q) == s.lookup(q),
    decreases n,
{
    if n > 0 {
        lemma_cooperate_all(s, w, n - 1, q);
        let c = s.cooperate_all(w, n - 1);
        let id = c.owner(w[n - 1].0);
        assert(c.resident(w[n - 1].0));
        assert(c.can_cooperate(id));
        lemma_cooperate_inv(c, id);
        lemma_cooperate_lookup(c, id, q);
        let t = s.cooperate_all(w, n);
        assert forall|j: int| 0 <= j < w.len() implies t.resident(#[trigger] w[j].0) by {
            assert(c.resident(w[j].0));
            lemma_cooperate_writable(c, id, w[j].0);
        }
        assert forall|j: int| 0 <= j < n implies writable(t, #[trigger] w[j].0) by {
            lemma_cooperate_writable(c, id, w[j].0);
            if j < n - 1 {
                assert(writable(c, w[j].0));
            }
        }
    }
}

/// The writes of a batch, done in turn on leaves that are ready for them,
/// keep the invariant and leave the leaf of each key written dirty in the
/// current epoch. Under a key of the batch the value of its write is found
/// afterwards, or nothing where it was a removal; under every other key
/// whose leaf is in memory what was found there before.
pub proof fn lemma_write_all(c: DbView, w: Seq<(Seq<u8>, Option<Seq<u8>>)>, n: int, q: Seq<u8>)
    requires
        c.inv(),
        0 <= n <= w.len(),
        crate::entries::sorted(w),
        forall|j: int| 0 <= j < w.len() ==> writable(c, #[trigger] w[j].0),
        c.spare_ids.len() >= inserts(w, n),
        c.resident(q),
    ensures
        c.write_all(w, n).inv(),
        c.write_all(w, n).epoch == c.epoch,
        c.write_all(w, n).error == c.error,
        forall|j: int| 0 <= j < w.len() ==> writable(c.write_all(w, n), #[trigger] w[j].0),
        forall|j: int| 0 <= j < n ==> marked(c.write_all(w, n), #[trigger] w[j].0),
        c.write_all(w, n).spare_ids.len() + inserts(w, n) >= c.spare_ids.len(),
        c.write_all(w, n).resident(q),
        c.write_all(w, n).lookup(q) == (match crate::entries::lookup(w.take(n), q) {
            Some(v) => v,
            None => c.lookup(q),
        }),
    decreases n,
{
    if n == 0 {
        assert(w.take(0) =~= Seq::empty());
        crate::entries::lemma_lower_bound(w.take(0), q);
    } else {
        lemma_write_all(c, w, n - 1, q);
        let u = c.write_all(w, n - 1);
        let key = w[n - 1].0;
        let value = w[n - 1].1;
        assert(writable(u, key));
        lemma_write_one(u, key, value, q);
        let t = u.write_one(key, value);
        assert forall|j: int| 0 <= j < w.len() implies writable(t, #[trigger] w[j].0) by {
            assert(writable(u, w[j].0));
            lemma_write_one(u, key, value, w[j].0);
        }
        assert forall|j: int| 0 <= j < n implies marked(t, #[trigger] w[j].0) by {
            lemma_write_one(u, key, value, w[j].0);
            if j < n - 1 {
                assert(marked(u, w[j].0));
            }
        }
        let done = w.take(n - 1);
        assert(crate::entries::sorted(done)) by {
            assert forall|a: int, b: int| 0 <= a < b < done.len() implies lex_lt(
                #[trigger] done[a].0,
                #[trigger] done[b].0,
            ) by {
                assert(done[a] == w[a] && done[b] == w[b]);
            }
        }
        if done.len() > 0 {
            assert(done.last() == w[n - 2]);
        }
        crate::entries::lemma_put_last(done, key, value);
        assert(done.push((key, value)) =~= w.take(n));
        crate::entries::lemma_put_lookup(done, key, value, q);
    }
}

/// A batch that is applied writes all its writes at once: afterwards, under
/// each key of the batch the value of its write is found, or nothing where
/// it was a removal; under every other key whose leaf is in memory what was
/// found there before; and the leaves of all keys of the batch are dirty in
/// the same epoch, the current one.
pub proof fn lemma_batch_applied(s: DbView, w: Seq<(Seq<u8>, Option<Seq<u8>>)>, q: Seq<u8>)
    requires
        s.wf(),
        crate::entries::sorted(w),
        forall|j: int| 0 <= j < w.len() ==> s.resident(#[trigger] w[j].0),
        can_cooperate_all(s.checked_in(), w, w.len() as int),
        s.spare_ids.len() >= inserts(w, w.len() as int),
        s.resident(q),
    ensures
        s.batch_applied(w).wf(),
        s.batch_applied(w).epoch == s.epoch,
        forall|j: int| 0 <= j < w.len() ==> marked(s.batch_applied(w), #[trigger] w[j].0),
        s.batch_applied(w).resident(q),
        s.batch_applied(w).lookup(q) == (match crate::entries::lookup(w, q) {
            Some(v) => v,
            None => s.lookup(q),
        }),
{
    let n = w.len() as int;
    let s1 = s.checked_in();
    assert(s1.inv());
    assert forall|j: int| 0 <= j < w.len() implies s1.resident(#[trigger] w[j].0) by {
        assert(s.resident(w[j].0));
    }
    lemma_cooperate_all(s1, w, n, q);
    let c = s1.cooperate_all(w, n);
    lemma_write_all(c, w, n, q);
    let u = c.write_all(w, n);
    assert(w.take(n) =~= w);
    let t = s.batch_applied(w);
    assert(t == u.checked_out());
    assert forall|j: int| 0 <= j < w.len() implies marked(t, #[trigger] w[j].0) by {
        assert(marked(u, w[j].0));
    }
}

/// What leaves memory takes nothing else with it: the index, the epoch and
/// the spare ids stay, and a leaf that is in memory afterwards was there
/// before, with the same content.
pub proof fn lemma_evict_seq_keeps(s: DbView, ids: Seq<u64>, n: int)
    requires
        0 <= n <= ids.len(),
    ensures
        s.evict_seq(ids, n).index == s.index,
        s.evict_seq(ids, n).low_keys == s.low_keys,
        s.evict_seq(ids, n).epoch == s.epoch,
        s.evict_seq(ids, n).spare_ids == s.spare_ids,
        s.evict_seq(ids, n).level == s.level,
        s.error.is_some() ==> s.evict_seq(ids, n).error == s.error,
        forall|id: u64| #[trigger]
            s.evict_seq(ids, n).leaves.contains_key(id) ==> s.leaves.contains_key(id)
                && s.evict_seq(ids, n).leaves[id] == s.leaves[id],
    decreases n,
{
    if n > 0 {
        lemma_evict_seq_keeps(s, ids, n - 1);
    }
}

/// A dirty leaf that left memory left its bytes in the dirty set, under the
/// epoch it was dirty in, and from them it comes back as it was.
pub proof fn lemma_evicted_kept(s: DbView, t: DbView, id: u64)
    requires
        s.inv(),
        s.evicts_to(t),
        s.leaves.contains_key(id),
        !t.leaves.contains_key(id),
    ensures
        s.leaves[id].dirty_flush_epoch matches Some(e) ==> t.keeps(e, s.leaves[id]),
{
    let ids = choose|ids: Seq<u64>| t == s.evict_seq(ids, ids.len() as int);
    lemma_evict_seq_kept(s, ids, ids.len() as int, id);
}

/// As `lemma_evicted_kept`, for the first `n` of the nodes asked to leave.
pub proof fn lemma_evict_seq_kept(s: DbView, ids: Seq<u64>, n: int, id: u64)
    requires
        s.inv(),
        0 <= n <= ids.len(),
        s.leaves.contains_key(id),
        !s.evict_seq(ids, n).leaves.contains_key(id),
    ensures
        s.leaves[id].dirty_flush_epoch matches Some(e) ==> s.evict_seq(ids, n).keeps(
            e,
            s.leaves[id],
        ),
    decreases n,
{
    if n > 0 {
        let m = s.evict_seq(ids, n - 1);
        lemma_evict_seq_keeps(s, ids, n - 1);
        lemma_evict_seq_inv(s, ids, n - 1);
        if m.leaves.contains_key(id) {
            assert(m.leaves[id] == s.leaves[id]);
            assert(ids[n - 1] == id);
        } else {
            lemma_evict_seq_kept(s, ids, n - 1, id);
            if s.leaves[id].dirty_flush_epoch matches Some(e) {
                let other = ids[n - 1];
                if m.leaves.contains_key(other) && m.leaves[other].lo == s.leaves[id].lo {
                    // two nodes do not share a low key
                    assert(s.low_keys[other] == s.low_keys[id]);
                    assert(s.index[s.low_keys[other]] == other);
                    assert(s.index[s.low_keys[id]] == id);
                }
            }
        }
    }
}

/// A leaf that is dirty in the current epoch and is dropped from memory
/// comes back with its writes: what it is then read from are the bytes that
/// it left in the dirty set, whatever the object store holds, and they stand
/// for the same leaf, which fits its node and holds under every key what it
/// held.
pub proof fn lemma_evicted_comes_back(s: DbView, id: u64, stored: Option<Seq<u8>>, key: Seq<u8>)
    requires
        s.inv(),
        s.leaves.contains_key(id),
        s.leaves[id].dirty_flush_epoch == Some(s.epoch.current),
        !s.evict_one(id).leaves.contains_key(id),
    ensures
        s.evict_one(id).page_source(id, stored) matches Some(bytes) && crate::leaf::deserialized(
            bytes,
        ) matches Some(leaf) && s.evict_one(id).fits(id, leaf) && leaf.get(key) == s.leaves[id].get(
            key,
        ) && leaf.entries == s.leaves[id].entries,
{
    lemma_evict_one_inv(s, id);
}

/// The bytes that the dirty set holds stand for a leaf, clean and well
/// formed, with the low key that they are stored under.
pub proof fn lemma_dirty_bytes_readable(s: DbView, k: (u64, Seq<u8>))
    requires
        s.inv(),
        s.dirty.contains_key(k),
    ensures
        s.dirty[k] matches Some(bytes) ==> crate::model::holds_leaf(bytes, k.1),
{
}

/// A leaf that a writer serialized for the flush of the epoch before left
/// its bytes in the dirty set, and from them it comes back as it was.
pub proof fn lemma_cooperate_kept(s: DbView, id: u64)
    requires
        s.inv(),
        s.leaves.contains_key(id),
        s.can_cooperate(id),
    ensures
        s.leaves[id].dirty_flush_epoch matches Some(e) ==> e == s.epoch.current || s.cooperate(
            id,
        ).keeps(e, s.leaves[id]),
{
}

/// A key whose leaf is in memory after an eviction had it in memory before,
/// and the same value is found under it.
pub proof fn lemma_evicted_lookup(s: DbView, t: DbView, q: Seq<u8>)
    requires
        s.evicts_to(t),
    ensures
        t.index == s.index,
        t.epoch == s.epoch,
        t.owner(q) == s.owner(q),
        t.resident(q) ==> s.resident(q) && t.lookup(q) == s.lookup(q),
        forall|id: u64| #[trigger]
            t.leaves.contains_key(id) ==> s.leaves.contains_key(id) && t.leaves[id]
                == s.leaves[id],
{
    let ids = choose|ids: Seq<u64>| t == s.evict_seq(ids, ids.len() as int);
    lemma_evict_seq_keeps(s, ids, ids.len() as int);
}

/// Evicting the first `n` of a list of nodes does not depend on the nodes
/// after them.
pub proof fn lemma_evict_seq_prefix(s: DbView, a: Seq<u64>, b: Seq<u64>, n: int)
    requires
        0 <= n <= a.len(),
        n <= b.len(),
        forall|i: int| 0 <= i < n ==> a[i] == b[i],
    ensures
        s.evict_seq(a, n) == s.evict_seq(b, n),
    decreases n,
{
    if n > 0 {
        lemma_evict_seq_prefix(s, a, b, n - 1);
    }
}

/// Evicting one list of nodes and then the first `m` of another is
/// evicting the first list followed by those `m`.
pub proof fn lemma_evict_seq_concat(s: DbView, a: Seq<u64>, b: Seq<u64>, m: int)
    requires
        0 <= m <= b.len(),
    ensures
        s.evict_seq(a + b, a.len() + m) == s.evict_seq(a, a.len() as int).evict_seq(b, m),
    decreases m,
{
    if m == 0 {
        lemma_evict_seq_prefix(s, a + b, a, a.len() as int);
    } else {
        lemma_evict_seq_concat(s, a, b, m - 1);
        assert((a + b)[a.len() + m - 1] == b[m - 1]);
    }
}

/// One eviction after another is an eviction; and nothing evicted is one
/// too.
pub proof fn lemma_evicts_to_chain(s: DbView, t: DbView, u: DbView)
    requires
        s.evicts_to(t),
        t.evicts_to(u),
    ensures
        s.evicts_to(u),
        s.evicts_to(s),
{
    let a = choose|ids: Seq<u64>| t == s.evict_seq(ids, ids.len() as int);
    let b = choose|ids: Seq<u64>| u == t.evict_seq(ids, ids.len() as int);
    lemma_evict_seq_concat(s, a, b, b.len() as int);
    assert(u == s.evict_seq(a + b, (a + b).len() as int));
    lemma_evicts_to_self(s);
}

/// Evicting nothing is an eviction.
pub proof fn lemma_evicts_to_self(s: DbView)
    ensures
        s.evicts_to(s),
{
    let none = Seq::<u64>::empty();
    assert(s == s.evict_seq(none, none.len() as int));
}

/// After the flush has taken everything it has to write, the invariant
/// holds and nothing is left for it.
pub proof fn lemma_flushed_inv(s: DbView)
    requires
        s.inv(),
    ensures
        s.flushed().inv(),
        forall|k: (u64, Seq<u8>)| !s.flushed().flush_due(k),
        s.flushed().epoch == s.epoch,
{
    let t = s.flushed();
    assert forall|j: u64| #[trigger] t.leaves.contains_key(j) implies {
        &&& t.low_keys.contains_key(j)
        &&& t.leaves[j].wf()
        &&& !t.leaves[j].is_full()
        &&& t.leaves[j].lo == t.low_keys[j]
        &&& is_successor(t.index, t.leaves[j].lo, t.leaves[j].hi)
    } by {
        assert(s.leaves.contains_key(j));
    }
    assert forall|j: u64| #[trigger] t.leaves.contains_key(j) implies (
    t.leaves[j].dirty_flush_epoch matches Some(e2) ==> {
        &&& t.live_epoch(e2)
        &&& t.dirty.contains_key((e2, t.leaves[j].lo))
        &&& t.dirty[(e2, t.leaves[j].lo)].is_none()
    }) by {
        assert(s.leaves.contains_key(j));
    }
    assert forall|k: (u64, Seq<u8>)| #[trigger] t.dirty.contains_key(k) implies {
        &&& t.live_epoch(k.0)
        &&& t.index.contains_key(k.1)
        &&& (t.dirty[k].is_none() ==> t.leaves.contains_key(t.index[k.1])
            && t.leaves[t.index[k.1]].dirty_flush_epoch == Some(k.0))
    } by {
        assert(s.dirty.contains_key(k));
        if t.dirty[k].is_none() {
            assert(s.leaves.contains_key(s.index[k.1]));
        }
    }
}

/// When the flush has gone through all its keys, the store is flushed.
pub proof fn lemma_flushed_all(s: DbView, keys: Seq<(u64, Vec<u8>)>)
    requires
        s.inv(),
        flush_keys(s, keys),
    ensures
        flushed_up_to(s, keys, keys.len() as int) == s.flushed(),
{
    let a = flushed_up_to(s, keys, keys.len() as int);
    let b = s.flushed();
    let n = keys.len() as int;
    assert forall|k: (u64, Seq<u8>)| s.dirty.contains_key(k) implies (in_prefix(keys, n, k) <==> k.0
        < s.epoch.current) by {
        if in_prefix(keys, n, k) {
            let j = choose|j: int| 0 <= j < n && dirty_key(#[trigger] keys[j]) == k;
            assert(s.flush_due(dirty_key(keys[j])));
        }
        if k.0 < s.epoch.current {
            assert(s.flush_due(k));
        }
    }
    assert(a.dirty =~= b.dirty);
    assert forall|id: u64| a.leaves.contains_key(id) implies a.leaves[id] == b.leaves[id] by {
        assert(s.leaves.contains_key(id));
        match s.leaves[id].dirty_flush_epoch {
            Some(e) => {
                let k = (e, s.leaves[id].lo);
                assert(s.dirty.contains_key(k));
            },
            None => {},
        }
    }
    assert(a.leaves =~= b.leaves);
}

/// Beginning a flush keeps the invariant.
pub proof fn lemma_flush_started_inv(s: DbView)
    requires
        s.inv(),
        s.can_flush(),
    ensures
        s.flush_started().inv(),
        s.flush_started().epoch.flushing,
        s.epoch.idle() ==> s.flush_started().epoch.idle(),
{
    let t = s.flush_started();
    if !s.epoch.flushing {
        assert forall|j: u64| #[trigger] t.leaves.contains_key(j) implies (
        t.leaves[j].dirty_flush_epoch matches Some(e2) ==> {
            &&& t.live_epoch(e2)
            &&& t.dirty.contains_key((e2, t.leaves[j].lo))
            &&& t.dirty[(e2, t.leaves[j].lo)].is_none()
        }) by {
            assert(s.leaves.contains_key(j));
        }
        assert forall|k: (u64, Seq<u8>)| #[trigger] t.dirty.contains_key(k) implies {
            &&& t.live_epoch(k.0)
            &&& t.index.contains_key(k.1)
            &&& (t.dirty[k].is_none() ==> t.leaves.contains_key(t.index[k.1])
                && t.leaves[t.index[k.1]].dirty_flush_epoch == Some(k.0))
        } by {
            assert(s.dirty.contains_key(k));
        }
        assert forall|j: u64| #[trigger] t.leaves.contains_key(j) implies {
            &&& t.low_keys.contains_key(j)
            &&& t.leaves[j].wf()
            &&& !t.leaves[j].is_full()
            &&& t.leaves[j].lo == t.low_keys[j]
            &&& is_successor(t.index, t.leaves[j].lo, t.leaves[j].hi)
        } by {
            assert(s.leaves.contains_key(j));
        }
    }
}

/// One step of the flush: taking the next key out of the dirty set, and
/// marking its leaf clean where no bytes were serialized ahead.
pub proof fn lemma_flush_step(s: DbView, keys: Seq<(u64, Vec<u8>)>, i: int)
    requires
        s.inv(),
        flush_keys(s, keys),
        0 <= i < keys.len(),
    ensures
        ({
            let a = flushed_up_to(s, keys, i);
            let b = flushed_up_to(s, keys, i + 1);
            let k = dirty_key(keys[i]);
            let id = s.index[k.1];
            &&& a.dirty.contains_key(k)
            &&& a.dirty[k] == s.dirty[k]
            &&& b.dirty == a.dirty.remove(k)
            &&& (if s.dirty[k].is_none() {
                &&& a.leaves.contains_key(id)
                &&& a.leaves[id] == s.leaves[id]
                &&& b.leaves == a.leaves.insert(id, s.leaves[id].with_dirty(None))
            } else {
                b.leaves == a.leaves
            })
        }),
{
    let a = flushed_up_to(s, keys, i);
    let b = flushed_up_to(s, keys, i + 1);
    let k = dirty_key(keys[i]);
    let id = s.index[k.1];
    assert(s.flush_due(k));
    assert(s.dirty.contains_key(k));
    assert forall|x: (u64, Seq<u8>)| in_prefix(keys, i + 1, x) <==> (in_prefix(keys, i, x) || x
        == k) by {
        if in_prefix(keys, i + 1, x) {
            let j = choose|j: int| 0 <= j < i + 1 && dirty_key(#[trigger] keys[j]) == x;
            if j < i {
                assert(in_prefix(keys, i, x));
            }
        }
        if in_prefix(keys, i, x) {
            let j = choose|j: int| 0 <= j < i && dirty_key(#[trigger] keys[j]) == x;
            assert(0 <= j < i + 1 && dirty_key(keys[j]) == x);
        }
        if x == k {
            assert(0 <= i < i + 1 && dirty_key(keys[i]) == x);
        }
    }
    assert(!in_prefix(keys, i, k)) by {
        if in_prefix(keys, i, k) {
            let j = choose|j: int| 0 <= j < i && dirty_key(#[trigger] keys[j]) == k;
            assert(dirty_key_lt(dirty_key(keys[j]), dirty_key(keys[i])));
            lemma_lex_trichotomy(k.1, k.1);
        }
    }
    assert(b.dirty =~= a.dirty.remove(k));
    assert(s.index.contains_key(k.1));
    assert(s.low_keys[s.index[k.1]] == k.1);
    if s.dirty[k].is_none() {
        assert(s.leaves.contains_key(id));
        assert(s.leaves[id].lo == k.1);
        assert forall|j: u64| b.leaves.contains_key(j) implies b.leaves[j] == a.leaves.insert(
            id,
            s.leaves[id].with_dirty(None),
        )[j] by {
            assert(s.leaves.contains_key(j));
            if j != id {
                if s.leaves[j].lo == k.1 {
                    assert(s.index[s.low_keys[j]] == j);
                }
            }
        }
        assert(b.leaves =~= a.leaves.insert(id, s.leaves[id].with_dirty(None)));
    } else {
        assert forall|j: u64| b.leaves.contains_key(j) implies b.leaves[j] == a.leaves[j] by {
            assert(s.leaves.contains_key(j));
            match s.leaves[j].dirty_flush_epoch {
                Some(e) => {
                    assert(s.dirty[(e, s.leaves[j].lo)].is_none());
                },
                None => {},
            }
        }
        assert(b.leaves =~= a.leaves);
    }
}

} // verus!
