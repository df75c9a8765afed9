//! Iteration over a range of keys, from either end. An iterator is a range
//! that narrows: each entry handed out at the front moves the start of the
//! range to just after its key, each entry handed out at the back moves the
//! end to just before it, so that the two ends never pass each other and no
//! key comes twice. Every step reads the store as it is: it walks the leaves
//! of the range from the end in question until it finds an entry, and asks
//! for a leaf that is not in memory before it says anything of that leaf.

use crate::bytes::{
    key_copy, key_le, lemma_empty_is_least, lemma_lex_le_lt_transitive, lemma_lex_le_transitive,
    lemma_lex_lt_le_transitive, lemma_lex_lt_transitive, lemma_lex_trichotomy, lex_le, lex_lt,
};
use crate::codec::pairs_view;
use crate::db::{Db, Step};
use crate::entries::{lemma_has_key_iff, sorted};
use crate::error::Error;
use crate::invariants::lemma_ranges_partition;
use crate::model::{routes, DbView};
use crate::range::{
    above_start, below_end, bound_view, in_bounds, is_below_end, least_from, least_key_from,
    lemma_bounds_monotone, lemma_end_separates, lemma_least_from, Bound,
};
use vstd::prelude::*;

verus! {

/// An iterator over the entries of a store whose keys lie in a range.
pub struct Iter {
    start: Bound<Vec<u8>>,
    end: Bound<Vec<u8>>,
}

/// An iterator as a plain value: the range that it has yet to hand out.
pub struct IterView {
    pub start: Bound<Seq<u8>>,
    pub end: Bound<Seq<u8>>,
}

/// `found` is what the store `s` holds at one end of the range: with
/// `front`, the entry with the least key of the range, else the one with the
/// greatest, or nothing where the range holds no entry. The leaf of every
/// key that this speaks of is in memory: that of the entry found, and those
/// of all keys of the range before it, which hold nothing; where nothing is
/// found, those of all keys of the range.
pub open spec fn is_end_of(
    s: DbView,
    start: Bound<Seq<u8>>,
    end: Bound<Seq<u8>>,
    front: bool,
    found: Option<(Seq<u8>, Seq<u8>)>,
) -> bool {
    match found {
        Some(kv) => {
            &&& in_bounds(start, end, kv.0)
            &&& s.resident(kv.0)
            &&& s.lookup(kv.0) == Some(kv.1)
            &&& forall|q: Seq<u8>|
                in_bounds(start, end, q) && (if front {
                    lex_lt(q, kv.0)
                } else {
                    lex_lt(kv.0, q)
                }) ==> s.resident(q) && (#[trigger] s.lookup(q)).is_none()
        },
        None => forall|q: Seq<u8>|
            in_bounds(start, end, q) ==> s.resident(q) && (#[trigger] s.lookup(q)).is_none(),
    }
}

/// `r` holds the entries of the store `s` between `start` and `end`: in
/// ascending order of keys, each once, and no others; and the leaf of every
/// key of the range is in memory.
pub open spec fn is_content_of(
    s: DbView,
    start: Bound<Seq<u8>>,
    end: Bound<Seq<u8>>,
    r: Seq<(Seq<u8>, Seq<u8>)>,
) -> bool {
    &&& sorted(r)
    &&& forall|i: int|
        0 <= i < r.len() ==> in_bounds(start, end, (#[trigger] r[i]).0) && s.lookup(r[i].0)
            == Some(r[i].1)
    &&& forall|q: Seq<u8>| in_bounds(start, end, q) ==> #[trigger] s.resident(q)
    &&& forall|q: Seq<u8>|
        in_bounds(start, end, q) && (#[trigger] s.lookup(q)).is_some() ==> exists|i: int|
            0 <= i < r.len() && (#[trigger] r[i]).0 == q
}

/// The walk over the range came upon node `id`, whose leaf is not in memory,
/// and has to read it before it can go on: the node holds keys of the range.
/// With `front`, the walk came from the start of the range: every key of
/// the range below the node's low key has its leaf in memory and holds
/// nothing. Else it came from the end: the same holds of every key of the
/// range that belongs to a later node.
pub open spec fn needs_leaf(
    s: DbView,
    start: Bound<Seq<u8>>,
    end: Bound<Seq<u8>>,
    front: bool,
    id: u64,
) -> bool {
    &&& !s.leaves.contains_key(id)
    &&& s.low_keys.contains_key(id)
    &&& exists|p: Seq<u8>| in_bounds(start, end, p) && #[trigger] s.owner(p) == id
    &&& forall|q: Seq<u8>|
        in_bounds(start, end, q) && (if front {
            lex_lt(q, s.low_keys[id])
        } else {
            lex_lt(s.low_keys[id], s.owner_key(q))
        }) ==> s.resident(q) && (#[trigger] s.lookup(q)).is_none()
}

/// As `needs_leaf` for a walk that gathers entries: the node holds keys of
/// the range, and the keys of the range below the node's low key have their
/// leaves in memory.
pub open spec fn gather_needs_leaf(
    s: DbView,
    start: Bound<Seq<u8>>,
    end: Bound<Seq<u8>>,
    id: u64,
) -> bool {
    &&& !s.leaves.contains_key(id)
    &&& s.low_keys.contains_key(id)
    &&& exists|p: Seq<u8>| in_bounds(start, end, p) && #[trigger] s.owner(p) == id
    &&& forall|q: Seq<u8>|
        in_bounds(start, end, q) && lex_lt(q, s.low_keys[id]) ==> #[trigger] s.resident(q)
}

/// An entry as a plain value.
pub open spec fn entry_view(e: Option<(Vec<u8>, Vec<u8>)>) -> Option<(Seq<u8>, Seq<u8>)> {
    match e {
        Some(kv) => Some((kv.0@, kv.1@)),
        None => None,
    }
}

/// What a walk over the leaves of a range ends with: what it found, and the
/// nodes it read, in the order of the walk, each with the size of its leaf.
pub(crate) struct Walk<T> {
    pub(crate) found: T,
    pub(crate) visited: Vec<(u64, usize)>,
}

/// Forward iteration over a store that stays as it is hands out the entries
/// of the range in ascending order, each once: the first entry, followed by
/// what the range after its key holds, is what the range holds.
pub proof fn lemma_first_then_rest(
    s: DbView,
    start: Bound<Seq<u8>>,
    end: Bound<Seq<u8>>,
    first: (Seq<u8>, Seq<u8>),
    rest: Seq<(Seq<u8>, Seq<u8>)>,
)
    requires
        is_end_of(s, start, end, true, Some(first)),
        is_content_of(s, Bound::Excluded(first.0), end, rest),
    ensures
        is_content_of(s, start, end, seq![first] + rest),
{
    let all = seq![first] + rest;
    let after = Bound::Excluded(first.0);
    assert forall|a: int, b: int| 0 <= a < b < all.len() implies lex_lt(
        #[trigger] all[a].0,
        #[trigger] all[b].0,
    ) by {
        assert(in_bounds(after, end, rest[b - 1].0));
        if a > 0 {
            assert(lex_lt(rest[a - 1].0, rest[b - 1].0));
        }
    }
    assert forall|i: int| 0 <= i < all.len() implies in_bounds(start, end, (#[trigger] all[i]).0)
        && s.lookup(all[i].0) == Some(all[i].1) by {
        if i > 0 {
            assert(in_bounds(after, end, rest[i - 1].0));
            lemma_bounds_monotone(start, first.0, rest[i - 1].0);
        }
    }
    assert forall|q: Seq<u8>| in_bounds(start, end, q) implies #[trigger] s.resident(q) by {
        lemma_lex_trichotomy(q, first.0);
        if lex_lt(q, first.0) {
            assert(s.lookup(q).is_none());
        }
    }
    assert forall|q: Seq<u8>|
        in_bounds(start, end, q) && (#[trigger] s.lookup(q)).is_some() implies exists|i: int|
        0 <= i < all.len() && (#[trigger] all[i]).0 == q by {
        lemma_lex_trichotomy(q, first.0);
        if q == first.0 {
            assert(all[0].0 == q);
        } else {
            assert(in_bounds(after, end, q));
            let i = choose|i: int| 0 <= i < rest.len() && (#[trigger] rest[i]).0 == q;
            assert(all[i + 1].0 == q);
        }
    }
}

/// Backward iteration over a store that stays as it is hands out the
/// entries of the range in descending order, each once: what the range
/// before the last entry's key holds, followed by that entry, is what the
/// range holds.
pub proof fn lemma_rest_then_last(
    s: DbView,
    start: Bound<Seq<u8>>,
    end: Bound<Seq<u8>>,
    last: (Seq<u8>, Seq<u8>),
    rest: Seq<(Seq<u8>, Seq<u8>)>,
)
    requires
        is_end_of(s, start, end, false, Some(last)),
        is_content_of(s, start, Bound::Excluded(last.0), rest),
    ensures
        is_content_of(s, start, end, rest.push(last)),
{
    let all = rest.push(last);
    let before = Bound::Excluded(last.0);
    assert forall|a: int, b: int| 0 <= a < b < all.len() implies lex_lt(
        #[trigger] all[a].0,
        #[trigger] all[b].0,
    ) by {
        assert(in_bounds(start, before, rest[a].0));
        if b < rest.len() {
            assert(lex_lt(rest[a].0, rest[b].0));
        }
    }
    assert forall|i: int| 0 <= i < all.len() implies in_bounds(start, end, (#[trigger] all[i]).0)
        && s.lookup(all[i].0) == Some(all[i].1) by {
        if i < rest.len() {
            assert(in_bounds(start, before, rest[i].0));
            lemma_bounds_monotone(end, rest[i].0, last.0);
        }
    }
    assert forall|q: Seq<u8>| in_bounds(start, end, q) implies #[trigger] s.resident(q) by {
        lemma_lex_trichotomy(q, last.0);
        if lex_lt(last.0, q) {
            assert(s.lookup(q).is_none());
        }
    }
    assert forall|q: Seq<u8>|
        in_bounds(start, end, q) && (#[trigger] s.lookup(q)).is_some() implies exists|i: int|
        0 <= i < all.len() && (#[trigger] all[i]).0 == q by {
        lemma_lex_trichotomy(q, last.0);
        if q == last.0 {
            assert(all[rest.len() as int].0 == q);
        } else {
            assert(in_bounds(start, before, q));
            let i = choose|i: int| 0 <= i < rest.len() && (#[trigger] rest[i]).0 == q;
            assert(all[i].0 == q);
        }
    }
}

/// Iteration ends, at either end, exactly where the range holds nothing.
pub proof fn lemma_end_of_empty_range(
    s: DbView,
    start: Bound<Seq<u8>>,
    end: Bound<Seq<u8>>,
    front: bool,
)
    ensures
        is_end_of(s, start, end, front, None) <==> is_content_of(
            s,
            start,
            end,
            Seq::<(Seq<u8>, Seq<u8>)>::empty(),
        ),
{
    let none = Seq::<(Seq<u8>, Seq<u8>)>::empty();
    if is_end_of(s, start, end, front, None) {
        assert forall|q: Seq<u8>| in_bounds(start, end, q) implies #[trigger] s.resident(q) by {
            assert(s.lookup(q).is_none());
        }
        assert(is_content_of(s, start, end, none));
    }
    if is_content_of(s, start, end, none) {
        assert forall|q: Seq<u8>| in_bounds(start, end, q) implies s.resident(q) && (
        #[trigger] s.lookup(q)).is_none() by {
            assert(s.resident(q));
            if s.lookup(q).is_some() {
                let i = choose|i: int| 0 <= i < none.len() && (#[trigger] none[i]).0 == q;
            }
        }
    }
}

/// Fewer low keys lie above a greater key.
pub proof fn lemma_fewer_above(index: Map<Seq<u8>, u64>, a: Seq<u8>, b: Seq<u8>)
    requires
        index.dom().finite(),
        index.contains_key(b),
        lex_lt(a, b),
    ensures
        index.dom().filter(|k: Seq<u8>| lex_lt(b, k)).len() < index.dom().filter(
            |k: Seq<u8>| lex_lt(a, k),
        ).len(),
{
    let above_b = index.dom().filter(|k: Seq<u8>| lex_lt(b, k));
    let above_a = index.dom().filter(|k: Seq<u8>| lex_lt(a, k));
    index.dom().lemma_len_filter(|k: Seq<u8>| lex_lt(a, k));
    index.dom().lemma_len_filter(|k: Seq<u8>| lex_lt(b, k));
    assert(above_a.contains(b));
    lemma_lex_trichotomy(b, b);
    assert forall|k: Seq<u8>| above_b.contains(k) implies above_a.remove(b).contains(k) by {
        lemma_lex_lt_transitive(a, b, k);
        lemma_lex_trichotomy(b, k);
    }
    vstd::set_lib::lemma_len_subset(above_b, above_a.remove(b));
}

/// Fewer low keys lie below a smaller key.
pub proof fn lemma_fewer_below(index: Map<Seq<u8>, u64>, a: Seq<u8>, b: Seq<u8>)
    requires
        index.dom().finite(),
        index.contains_key(a),
        lex_lt(a, b),
    ensures
        index.dom().filter(|k: Seq<u8>| lex_lt(k, a)).len() < index.dom().filter(
            |k: Seq<u8>| lex_lt(k, b),
        ).len(),
{
    let below_a = index.dom().filter(|k: Seq<u8>| lex_lt(k, a));
    let below_b = index.dom().filter(|k: Seq<u8>| lex_lt(k, b));
    index.dom().lemma_len_filter(|k: Seq<u8>| lex_lt(k, a));
    index.dom().lemma_len_filter(|k: Seq<u8>| lex_lt(k, b));
    assert(below_b.contains(a));
    lemma_lex_trichotomy(a, a);
    assert forall|k: Seq<u8>| below_a.contains(k) implies below_b.remove(a).contains(k) by {
        lemma_lex_lt_transitive(k, a, b);
        lemma_lex_trichotomy(k, a);
    }
    vstd::set_lib::lemma_len_subset(below_a, below_b.remove(a));
}

impl View for Iter {
    type V = IterView;

    closed spec fn view(&self) -> IterView {
        IterView { start: bound_view(self.start), end: bound_view(self.end) }
    }
}

impl Iter {
    /// An iterator over the keys between `start` and `end`.
    pub fn new(start: Bound<Vec<u8>>, end: Bound<Vec<u8>>) -> (it: Iter)
        ensures
            it@ == (IterView { start: bound_view(start), end: bound_view(end) }),
    {
        Iter { start, end }
    }

    /// Walks the leaves of the range from its start until one holds an entry
    /// of the range, and returns that entry: the one with the least key.
    /// Only leaves that hold keys of the range are read. The store is left
    /// as it is; its error is for the caller to look at.
    pub(crate) fn seek_front(&self, db: &Db) -> (r: Step<Walk<Option<(Vec<u8>, Vec<u8>)>>>)
        requires
            db@.inv(),
        ensures
            (match r {
                Step::Done(walk) => is_end_of(
                    db@,
                    self@.start,
                    self@.end,
                    true,
                    entry_view(walk.found),
                ),
                Step::PageIn(id) => needs_leaf(db@, self@.start, self@.end, true, id),
                Step::AllocateObjectIds(_) => false,
            }),
    {
        let ghost s = db@;
        let ghost start = self@.start;
        let ghost end = self@.end;
        let mut cursor = least_key_from(&self.start);
        let mut visited: Vec<(u64, usize)> = Vec::new();
        proof {
            lemma_least_from(start, cursor@);
            assert forall|q: Seq<u8>| in_bounds(start, end, q) && lex_lt(q, cursor@) implies s.resident(
                q,
            ) && (#[trigger] s.lookup(q)).is_none() by {
                lemma_least_from(start, q);
                lemma_lex_trichotomy(q, cursor@);
            }
        }
        loop
            invariant
                s == db@,
                s.inv(),
                start == self@.start,
                end == self@.end,
                above_start(start, cursor@),
                forall|q: Seq<u8>|
                    in_bounds(start, end, q) && lex_lt(q, cursor@) ==> s.resident(q) && (
                    #[trigger] s.lookup(q)).is_none(),
            decreases s.index.dom().filter(|k: Seq<u8>| lex_lt(cursor@, k)).len(),
        {
            if !is_below_end(&self.end, cursor.as_slice()) {
                proof {
                    assert forall|q: Seq<u8>| in_bounds(start, end, q) implies s.resident(q) && (
                    #[trigger] s.lookup(q)).is_none() by {
                        lemma_end_separates(end, q, cursor@);
                    }
                }
                return Step::Done(Walk { found: None, visited });
            }
            let (low_key, id) = db.route(cursor.as_slice());
            let leaf = match db.leaf(id) {
                Some(leaf) => leaf,
                None => {
                    proof {
                        assert(in_bounds(start, end, cursor@) && s.owner(cursor@) == id);
                        assert forall|q: Seq<u8>|
                            in_bounds(start, end, q) && lex_lt(q, s.low_keys[id]) implies s.resident(
                            q,
                        ) && (#[trigger] s.lookup(q)).is_none() by {
                            lemma_lex_lt_le_transitive(q, low_key@, cursor@);
                        }
                    }
                    return Step::PageIn(id);
                },
            };
            let ghost view = leaf@;
            let found = leaf.first_in(&self.start, &self.end);
            visited.push((id, leaf.in_memory_size()));
            proof {
                // what lies in the range, at or after the cursor and before the
                // leaf's end, lies in this leaf
                assert forall|q: Seq<u8>|
                    in_bounds(start, end, q) && !lex_lt(q, cursor@) && (view.hi matches Some(h)
                        ==> lex_lt(q, h)) implies s.owner(q) == id && #[trigger] s.lookup(q)
                    == view.get(q) by {
                    lemma_lex_trichotomy(q, cursor@);
                    lemma_lex_le_transitive(low_key@, cursor@, q);
                    lemma_ranges_partition(s, q);
                }
            }
            match found {
                Some(kv) => {
                    proof {
                        let k = kv.0@;
                        lemma_has_key_iff(view.entries, k);
                        let j = choose|j: int|
                            0 <= j < view.entries.len() && (#[trigger] view.entries[j]).0 == k;
                        assert(crate::entries::in_range(view.entries[j].0, view.lo, view.hi));
                        lemma_ranges_partition(s, k);
                        assert forall|q: Seq<u8>|
                            in_bounds(start, end, q) && lex_lt(q, k) implies s.resident(q) && (
                        #[trigger] s.lookup(q)).is_none() by {
                            if !lex_lt(q, cursor@) {
                                if view.hi is Some {
                                    lemma_lex_lt_transitive(q, k, view.hi.unwrap());
                                }
                            }
                        }
                    }
                    return Step::Done(Walk { found: Some(kv), visited });
                },
                None => {},
            }
            match leaf.hi() {
                None => {
                    return Step::Done(Walk { found: None, visited });
                },
                Some(h) => {
                    proof {
                        lemma_fewer_above(s.index, cursor@, h@);
                        lemma_bounds_monotone(start, cursor@, h@);
                    }
                    cursor = key_copy(h.as_slice());
                },
            }
        }
    }

    /// Walks the leaves of the range from its end until one holds an entry
    /// of the range, and returns that entry: the one with the greatest key.
    /// Only leaves that hold keys of the range are read. The store is left
    /// as it is; its error is for the caller to look at.
    pub(crate) fn seek_back(&self, db: &Db) -> (r: Step<Walk<Option<(Vec<u8>, Vec<u8>)>>>)
        requires
            db@.inv(),
        ensures
            (match r {
                Step::Done(walk) => is_end_of(
                    db@,
                    self@.start,
                    self@.end,
                    false,
                    entry_view(walk.found),
                ),
                Step::PageIn(id) => needs_leaf(db@, self@.start, self@.end, false, id),
                Step::AllocateObjectIds(_) => false,
            }),
    {
        let ghost s = db@;
        let ghost start = self@.start;
        let ghost end = self@.end;
        let least = least_key_from(&self.start);
        let mut visited: Vec<(u64, usize)> = Vec::new();
        proof {
            lemma_least_from(start, least@);
        }
        if !is_below_end(&self.end, least.as_slice()) {
            proof {
                assert forall|q: Seq<u8>| in_bounds(start, end, q) implies s.resident(q) && (
                #[trigger] s.lookup(q)).is_none() by {
                    lemma_least_from(start, q);
                    lemma_bounds_monotone(end, least@, q);
                }
            }
            return Step::Done(Walk { found: None, visited });
        }
        let last = match &self.end {
            Bound::Included(e) => Some(db.route(e.as_slice())),
            Bound::Excluded(e) => db.node_before(e.as_slice()),
            Bound::Unbounded => Some(db.last_node()),
        };
        let (first_key, first_id) = match last {
            Some(node) => node,
            None => {
                proof {
                    // the empty low key is below the end, which a key is below
                    lemma_empty_is_least(least@);
                    assert(s.index.contains_key(Seq::<u8>::empty()));
                    lemma_bounds_monotone(end, Seq::<u8>::empty(), least@);
                    assert(false);
                }
                return Step::Done(Walk { found: None, visited });
            },
        };
        let mut low_key = first_key;
        let mut id = first_id;
        proof {
            assert(s.low_keys[s.index[low_key@]] == low_key@);
            assert forall|k: Seq<u8>| #[trigger]
                s.index.contains_key(k) && lex_le(k, least@) implies lex_le(k, low_key@) by {
                match end {
                    Bound::Included(e) => {
                        lemma_lex_le_transitive(k, least@, e);
                    },
                    Bound::Excluded(e) => {
                        lemma_lex_le_lt_transitive(k, least@, e);
                    },
                    Bound::Unbounded => {},
                }
            }
            assert forall|q: Seq<u8>|
                in_bounds(start, end, q) && lex_lt(low_key@, s.owner_key(q)) implies s.resident(q)
                && (#[trigger] s.lookup(q)).is_none() by {
                lemma_ranges_partition(s, q);
                let o = s.owner_key(q);
                lemma_lex_trichotomy(o, low_key@);
                match end {
                    Bound::Included(e) => {
                        lemma_lex_le_transitive(o, q, e);
                    },
                    Bound::Excluded(e) => {
                        lemma_lex_le_lt_transitive(o, q, e);
                    },
                    Bound::Unbounded => {},
                }
            }
        }
        loop
            invariant
                s == db@,
                s.inv(),
                start == self@.start,
                end == self@.end,
                least@ == least_from(start),
                in_bounds(start, end, least@),
                s.index.contains_key(low_key@),
                s.index[low_key@] == id,
                s.low_keys.contains_key(id),
                s.low_keys[id] == low_key@,
                below_end(end, low_key@),
                forall|k: Seq<u8>| #[trigger]
                    s.index.contains_key(k) && lex_le(k, least@) ==> lex_le(k, low_key@),
                forall|q: Seq<u8>|
                    in_bounds(start, end, q) && lex_lt(low_key@, s.owner_key(q)) ==> s.resident(q)
                        && (#[trigger] s.lookup(q)).is_none(),
            decreases s.index.dom().filter(|k: Seq<u8>| lex_lt(k, low_key@)).len(),
        {
            let leaf = match db.leaf(id) {
                Some(leaf) => leaf,
                None => {
                    proof {
                        // the greater of the leaf's low key and the least key
                        // of the range is a key of the range in this leaf
                        let p = if lex_le(low_key@, least@) {
                            least@
                        } else {
                            low_key@
                        };
                        lemma_lex_trichotomy(low_key@, least@);
                        lemma_least_from(start, low_key@);
                        lemma_ranges_partition(s, p);
                        assert(routes(s.index, p, low_key@)) by {
                            assert forall|k: Seq<u8>| #[trigger]
                                s.index.contains_key(k) && lex_le(k, p) implies lex_le(
                                k,
                                low_key@,
                            ) by {}
                        }
                        assert(in_bounds(start, end, p) && s.owner(p) == id);
                    }
                    return Step::PageIn(id);
                },
            };
            let ghost view = leaf@;
            let found = leaf.last_in(&self.start, &self.end);
            visited.push((id, leaf.in_memory_size()));
            proof {
                // a key that is routed to no later node and lies at or after this
                // leaf's low key is routed to this leaf
                assert forall|q: Seq<u8>|
                    !lex_lt(low_key@, s.owner_key(q)) && lex_le(low_key@, q) implies s.owner(q)
                    == id && #[trigger] s.lookup(q) == view.get(q) by {
                    lemma_ranges_partition(s, q);
                    lemma_lex_trichotomy(low_key@, s.owner_key(q));
                }
            }
            match found {
                Some(kv) => {
                    proof {
                        let k = kv.0@;
                        lemma_has_key_iff(view.entries, k);
                        let j = choose|j: int|
                            0 <= j < view.entries.len() && (#[trigger] view.entries[j]).0 == k;
                        assert(crate::entries::in_range(view.entries[j].0, view.lo, view.hi));
                        lemma_ranges_partition(s, k);
                        assert forall|q: Seq<u8>|
                            in_bounds(start, end, q) && lex_lt(k, q) implies s.resident(q) && (
                        #[trigger] s.lookup(q)).is_none() by {
                            lemma_lex_le_lt_transitive(low_key@, k, q);
                        }
                    }
                    return Step::Done(Walk { found: Some(kv), visited });
                },
                None => {},
            }
            let before = if key_le(low_key.as_slice(), least.as_slice()) {
                None
            } else {
                db.node_before(low_key.as_slice())
            };
            match before {
                None => {
                    proof {
                        if !lex_le(low_key@, least@) {
                            // some low key lies below one that is not the least key
                            lemma_empty_is_least(low_key@);
                            lemma_empty_is_least(least@);
                            assert(s.index.contains_key(Seq::<u8>::empty()));
                            assert(low_key@ !== Seq::<u8>::empty());
                            assert(false);
                        }
                        assert forall|q: Seq<u8>| in_bounds(start, end, q) implies s.resident(q) && (
                        #[trigger] s.lookup(q)).is_none() by {
                            lemma_least_from(start, q);
                            lemma_lex_le_transitive(low_key@, least@, q);
                        }
                    }
                    return Step::Done(Walk { found: None, visited });
                },
                Some(prev) => {
                    proof {
                        lemma_fewer_below(s.index, prev.0@, low_key@);
                        lemma_lex_trichotomy(low_key@, least@);
                        lemma_bounds_monotone(end, prev.0@, low_key@);
                        assert(s.low_keys[s.index[prev.0@]] == prev.0@);
                        assert forall|k: Seq<u8>| #[trigger]
                            s.index.contains_key(k) && lex_le(k, least@) implies lex_le(
                            k,
                            prev.0@,
                        ) by {
                            lemma_lex_le_lt_transitive(k, least@, low_key@);
                        }
                        assert forall|q: Seq<u8>|
                            in_bounds(start, end, q) && lex_lt(prev.0@, s.owner_key(q)) implies s.resident(
                            q,
                        ) && (#[trigger] s.lookup(q)).is_none() by {
                            lemma_ranges_partition(s, q);
                            let o = s.owner_key(q);
                            lemma_lex_trichotomy(o, low_key@);
                            lemma_lex_trichotomy(prev.0@, o);
                            if !lex_lt(low_key@, o) {
                                // the key is routed to the leaf that was read
                                assert(s.index.contains_key(o));
                                assert(o == low_key@);
                            }
                        }
                    }
                    low_key = prev.0;
                    id = prev.1;
                },
            }
        }
    }

    /// Walks the leaves of the range from its start to its end and returns
    /// all entries of the range, in ascending order of keys. The store is
    /// left as it is; its error is for the caller to look at.
    pub(crate) fn gather(&self, db: &Db) -> (r: Step<Walk<Vec<(Vec<u8>, Vec<u8>)>>>)
        requires
            db@.inv(),
        ensures
            (match r {
                Step::Done(walk) => is_content_of(
                    db@,
                    self@.start,
                    self@.end,
                    pairs_view(walk.found@),
                ),
                Step::PageIn(id) => gather_needs_leaf(db@, self@.start, self@.end, id),
                Step::AllocateObjectIds(_) => false,
            }),
    {
        let ghost s = db@;
        let ghost start = self@.start;
        let ghost end = self@.end;
        let mut cursor = least_key_from(&self.start);
        let mut out: Vec<(Vec<u8>, Vec<u8>)> = Vec::new();
        let mut visited: Vec<(u64, usize)> = Vec::new();
        proof {
            lemma_least_from(start, cursor@);
            assert forall|q: Seq<u8>| #[trigger] in_bounds(start, end, q) implies lex_le(
                cursor@,
                q,
            ) by {
                lemma_least_from(start, q);
            }
            assert forall|q: Seq<u8>| in_bounds(start, end, q) && lex_lt(q, cursor@) implies false by {
                lemma_lex_trichotomy(q, cursor@);
            }
        }
        if !is_below_end(&self.end, cursor.as_slice()) {
            proof {
                assert forall|q: Seq<u8>| in_bounds(start, end, q) implies false by {
                    lemma_bounds_monotone(end, cursor@, q);
                }
            }
            return Step::Done(Walk { found: out, visited });
        }
        loop
            invariant
                s == db@,
                s.inv(),
                start == self@.start,
                end == self@.end,
                sorted(pairs_view(out@)),
                forall|i: int|
                    0 <= i < out@.len() ==> in_bounds(start, end, (#[trigger] out@[i]).0@)
                        && s.lookup(out@[i].0@) == Some(out@[i].1@) && lex_lt(out@[i].0@, cursor@),
                forall|q: Seq<u8>|
                    in_bounds(start, end, q) && lex_lt(q, cursor@) ==> #[trigger] s.resident(q),
                forall|q: Seq<u8>|
                    in_bounds(start, end, q) && lex_lt(q, cursor@) && (#[trigger] s.lookup(
                        q,
                    )).is_some() ==> exists|i: int|
                        0 <= i < out@.len() && (#[trigger] out@[i]).0@ == q,
                s.index.contains_key(cursor@) || forall|q: Seq<u8>| #[trigger]
                    in_bounds(start, end, q) ==> lex_le(cursor@, q),
                in_bounds(start, end, cursor@),
            decreases s.index.dom().filter(|k: Seq<u8>| lex_lt(cursor@, k)).len(),
        {
            let (low_key, id) = db.route(cursor.as_slice());
            let leaf = match db.leaf(id) {
                Some(leaf) => leaf,
                None => {
                    proof {
                        assert(in_bounds(start, end, cursor@) && s.owner(cursor@) == id);
                        assert forall|q: Seq<u8>|
                            in_bounds(start, end, q) && lex_lt(
                                q,
                                s.low_keys[id],
                            ) implies #[trigger] s.resident(q) by {
                            lemma_lex_lt_le_transitive(q, low_key@, cursor@);
                        }
                    }
                    return Step::PageIn(id);
                },
            };
            let ghost view = leaf@;
            let ghost before = out@;
            let mut found = leaf.entries_in(&self.start, &self.end);
            let ghost added = found@;
            visited.push((id, leaf.in_memory_size()));
            let onward = match leaf.hi() {
                Some(h) => {
                    if is_below_end(&self.end, h.as_slice()) {
                        Some(key_copy(h.as_slice()))
                    } else {
                        None
                    }
                },
                None => None,
            };
            out.append(&mut found);
            proof {
                assert(out@ =~= before + added);
                assert forall|q: Seq<u8>|
                    #![trigger s.lookup(q)]
                    #![trigger s.resident(q)]
                    in_bounds(start, end, q) && !lex_lt(q, cursor@) && (view.hi matches Some(h)
                        ==> lex_lt(q, h)) implies s.resident(q) && s.lookup(q) == view.get(q) by {
                    lemma_lex_trichotomy(q, cursor@);
                    lemma_lex_le_transitive(low_key@, cursor@, q);
                    lemma_ranges_partition(s, q);
                }
                // each entry added lies in this leaf, at or after the cursor
                assert forall|i: int| 0 <= i < added.len() implies view.owns(
                    (#[trigger] added[i]).0@,
                ) && s.lookup(added[i].0@) == Some(added[i].1@) by {
                    let k = added[i].0@;
                    lemma_has_key_iff(view.entries, k);
                    let j = choose|j: int|
                        0 <= j < view.entries.len() && (#[trigger] view.entries[j]).0 == k;
                    assert(crate::entries::in_range(view.entries[j].0, view.lo, view.hi));
                    lemma_ranges_partition(s, k);
                }
                let now = pairs_view(out@);
                assert forall|a: int, b: int| 0 <= a < b < now.len() implies lex_lt(
                    #[trigger] now[a].0,
                    #[trigger] now[b].0,
                ) by {
                    let was = pairs_view(before);
                    let new = pairs_view(added);
                    if b < before.len() {
                        assert(lex_lt(was[a].0, was[b].0));
                    } else if a >= before.len() {
                        assert(lex_lt(new[a - before.len()].0, new[b - before.len()].0));
                    } else {
                        let k = added[b - before.len()].0@;
                        assert(view.owns(k));
                        assert(lex_lt(before[a].0@, cursor@));
                        // the cursor is at or before every key of the range in this leaf
                        assert(in_bounds(start, end, k));
                        if s.index.contains_key(cursor@) {
                            lemma_lex_trichotomy(cursor@, low_key@);
                            assert(lex_le(view.lo, k));
                        }
                        lemma_lex_lt_le_transitive(before[a].0@, cursor@, k);
                    }
                }
            }
            match onward {
                None => {
                    proof {
                        assert forall|q: Seq<u8>|
                            in_bounds(start, end, q) implies #[trigger] s.resident(q) by {
                            if !lex_lt(q, cursor@) && view.hi is Some {
                                lemma_end_separates(end, q, view.hi.unwrap());
                            }
                        }
                        assert forall|q: Seq<u8>|
                            in_bounds(start, end, q) && (#[trigger] s.lookup(
                                q,
                            )).is_some() implies exists|i: int|
                            0 <= i < out@.len() && (#[trigger] out@[i]).0@ == q by {
                            if lex_lt(q, cursor@) {
                                let i = choose|i: int|
                                    0 <= i < before.len() && (#[trigger] before[i]).0@ == q;
                                assert(out@[i].0@ == q);
                            } else {
                                if view.hi is Some {
                                    lemma_end_separates(end, q, view.hi.unwrap());
                                }
                                let i = choose|i: int|
                                    0 <= i < added.len() && (#[trigger] added[i]).0@ == q;
                                assert(out@[before.len() + i].0@ == q);
                            }
                        }
                        let r = pairs_view(out@);
                        assert forall|i: int| 0 <= i < r.len() implies in_bounds(
                            start,
                            end,
                            (#[trigger] r[i]).0,
                        ) && s.lookup(r[i].0) == Some(r[i].1) by {
                            assert(r[i] == (out@[i].0@, out@[i].1@));
                            if i >= before.len() {
                                assert(out@[i] == added[i - before.len()]);
                            } else {
                                assert(out@[i] == before[i]);
                            }
                        }
                        assert forall|q: Seq<u8>|
                            in_bounds(start, end, q) && (#[trigger] s.lookup(
                                q,
                            )).is_some() implies exists|i: int|
                            0 <= i < r.len() && (#[trigger] r[i]).0 == q by {
                            let i = choose|i: int|
                                0 <= i < out@.len() && (#[trigger] out@[i]).0@ == q;
                            assert(r[i].0 == q);
                        }
                    }
                    return Step::Done(Walk { found: out, visited });
                },
                Some(h) => {
                    proof {
                        lemma_fewer_above(s.index, cursor@, h@);
                        lemma_bounds_monotone(start, cursor@, h@);
                        assert forall|i: int| 0 <= i < out@.len() implies in_bounds(
                            start,
                            end,
                            (#[trigger] out@[i]).0@,
                        ) && s.lookup(out@[i].0@) == Some(out@[i].1@) && lex_lt(out@[i].0@, h@) by {
                            if i >= before.len() {
                                assert(out@[i] == added[i - before.len()]);
                            } else {
                                assert(out@[i] == before[i]);
                                lemma_lex_lt_transitive(before[i].0@, cursor@, h@);
                            }
                        }
                        assert forall|q: Seq<u8>|
                            in_bounds(start, end, q) && lex_lt(q, h@) && (#[trigger] s.lookup(
                                q,
                            )).is_some() implies exists|i: int|
                            0 <= i < out@.len() && (#[trigger] out@[i]).0@ == q by {
                            if lex_lt(q, cursor@) {
                                let i = choose|i: int|
                                    0 <= i < before.len() && (#[trigger] before[i]).0@ == q;
                                assert(out@[i].0@ == q);
                            } else {
                                let i = choose|i: int|
                                    0 <= i < added.len() && (#[trigger] added[i]).0@ == q;
                                assert(out@[before.len() + i].0@ == q);
                            }
                        }
                    }
                    cursor = h;
                },
            }
        }
    }

    /// The next entry from the front: the entry of the store with the least
    /// key in the range. The range then begins after that key. Nothing is
    /// returned where the range holds no entry.
    pub fn next(&mut self, db: &mut Db) -> (r: Result<Step<Option<(Vec<u8>, Vec<u8>)>>, Error>)
        requires
            old(db)@.wf(),
        ensures
            final(db)@.wf(),
            final(self)@.end == old(self)@.end,
            forall|q: Seq<u8>| #[trigger]
                in_bounds(final(self)@.start, final(self)@.end, q) ==> in_bounds(
                    old(self)@.start,
                    old(self)@.end,
                    q,
                ),
            (match r {
                Err(e) => {
                    &&& old(db)@.error == Some(e@)
                    &&& final(db)@ == old(db)@
                    &&& final(self)@ == old(self)@
                },
                Ok(Step::PageIn(id)) => {
                    &&& old(db)@.error.is_none()
                    &&& needs_leaf(old(db)@, old(self)@.start, old(self)@.end, true, id)
                    &&& final(db)@ == old(db)@
                    &&& final(self)@ == old(self)@
                },
                Ok(Step::AllocateObjectIds(_)) => false,
                Ok(Step::Done(found)) => {
                    &&& old(db)@.error.is_none()
                    &&& is_end_of(
                        old(db)@,
                        old(self)@.start,
                        old(self)@.end,
                        true,
                        entry_view(found),
                    )
                    &&& old(db)@.evicts_to(final(db)@)
                    &&& final(self)@.start == (match found {
                        Some(kv) => Bound::Excluded(kv.0@),
                        None => old(self)@.start,
                    })
                },
            }),
    {
        match db.check_error() {
            Err(e) => {
                return Err(e);
            },
            Ok(_) => {},
        }
        match self.seek_front(db) {
            Step::PageIn(id) => Ok(Step::PageIn(id)),
            Step::AllocateObjectIds(n) => Ok(Step::AllocateObjectIds(n)),
            Step::Done(walk) => {
                match &walk.found {
                    Some(kv) => {
                        self.start = Bound::Excluded(key_copy(kv.0.as_slice()));
                        proof {
                            assert forall|q: Seq<u8>| #[trigger]
                                in_bounds(self@.start, self@.end, q) implies in_bounds(
                                old(self)@.start,
                                old(self)@.end,
                                q,
                            ) by {
                                lemma_bounds_monotone(old(self)@.start, kv.0@, q);
                            }
                        }
                    },
                    None => {},
                }
                db.mark_accesses(&walk.visited);
                Ok(Step::Done(walk.found))
            },
        }
    }

    /// The next entry from the back: the entry of the store with the
    /// greatest key in the range. The range then ends before that key.
    /// Nothing is returned where the range holds no entry.
    pub fn next_back(&mut self, db: &mut Db) -> (r: Result<
        Step<Option<(Vec<u8>, Vec<u8>)>>,
        Error,
    >)
        requires
            old(db)@.wf(),
        ensures
            final(db)@.wf(),
            final(self)@.start == old(self)@.start,
            forall|q: Seq<u8>| #[trigger]
                in_bounds(final(self)@.start, final(self)@.end, q) ==> in_bounds(
                    old(self)@.start,
                    old(self)@.end,
                    q,
                ),
            (match r {
                Err(e) => {
                    &&& old(db)@.error == Some(e@)
                    &&& final(db)@ == old(db)@
                    &&& final(self)@ == old(self)@
                },
                Ok(Step::PageIn(id)) => {
                    &&& old(db)@.error.is_none()
                    &&& needs_leaf(old(db)@, old(self)@.start, old(self)@.end, false, id)
                    &&& final(db)@ == old(db)@
                    &&& final(self)@ == old(self)@
                },
                Ok(Step::AllocateObjectIds(_)) => false,
                Ok(Step::Done(found)) => {
                    &&& old(db)@.error.is_none()
                    &&& is_end_of(
                        old(db)@,
                        old(self)@.start,
                        old(self)@.end,
                        false,
                        entry_view(found),
                    )
                    &&& old(db)@.evicts_to(final(db)@)
                    &&& final(self)@.end == (match found {
                        Some(kv) => Bound::Excluded(kv.0@),
                        None => old(self)@.end,
                    })
                },
            }),
    {
        match db.check_error() {
            Err(e) => {
                return Err(e);
            },
            Ok(_) => {},
        }
        match self.seek_back(db) {
            Step::PageIn(id) => Ok(Step::PageIn(id)),
            Step::AllocateObjectIds(n) => Ok(Step::AllocateObjectIds(n)),
            Step::Done(walk) => {
                match &walk.found {
                    Some(kv) => {
                        self.end = Bound::Excluded(key_copy(kv.0.as_slice()));
                        proof {
                            assert forall|q: Seq<u8>| #[trigger]
                                in_bounds(self@.start, self@.end, q) implies in_bounds(
                                old(self)@.start,
                                old(self)@.end,
                                q,
                            ) by {
                                lemma_bounds_monotone(old(self)@.end, q, kv.0@);
                            }
                        }
                    },
                    None => {},
                }
                db.mark_accesses(&walk.visited);
                Ok(Step::Done(walk.found))
            },
        }
    }
}

} // verus!
