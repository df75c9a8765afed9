//! The contents of a leaf as a mathematical object: a sequence of key-value
//! pairs in strictly ascending key order, with lookup, insertion and removal
//! defined by the position a key takes in that order.

use crate::bytes::{
    lemma_lex_le_lt_transitive, lemma_lex_lt_transitive, lemma_lex_trichotomy, lex_le, lex_lt,
};
use vstd::prelude::*;

verus! {

/// Keys ascend strictly from one entry to the next.
pub open spec fn sorted<V>(s: Seq<(Seq<u8>, V)>) -> bool {
    forall|i: int, j: int| 0 <= i < j < s.len() ==> lex_lt(#[trigger] s[i].0, #[trigger] s[j].0)
}

/// The first position at or after `i` whose key is not below `k`.
pub open spec fn lower_bound_from<V>(s: Seq<(Seq<u8>, V)>, k: Seq<u8>, i: int) -> int
    decreases s.len() - i,
{
    if i < 0 || i >= s.len() || !lex_lt(s[i].0, k) {
        i
    } else {
        lower_bound_from(s, k, i + 1)
    }
}

/// The number of entries whose key is below `k`: where `k` stands, or would
/// stand, in the order.
pub open spec fn lower_bound<V>(s: Seq<(Seq<u8>, V)>, k: Seq<u8>) -> int {
    lower_bound_from(s, k, 0)
}

/// Whether some entry has the key `k`.
pub open spec fn has_key<V>(s: Seq<(Seq<u8>, V)>, k: Seq<u8>) -> bool {
    let i = lower_bound(s, k);
    0 <= i < s.len() && s[i].0 == k
}

/// The value stored under `k`, if any.
pub open spec fn lookup<V>(s: Seq<(Seq<u8>, V)>, k: Seq<u8>) -> Option<V> {
    if has_key(s, k) {
        Some(s[lower_bound(s, k)].1)
    } else {
        None
    }
}

/// The entries after `k` is set to `v`.
pub open spec fn put<V>(s: Seq<(Seq<u8>, V)>, k: Seq<u8>, v: V) -> Seq<(Seq<u8>, V)> {
    let i = lower_bound(s, k);
    if has_key(s, k) {
        s.update(i, (k, v))
    } else {
        s.insert(i, (k, v))
    }
}

/// The entries after `k` is removed.
pub open spec fn delete<V>(s: Seq<(Seq<u8>, V)>, k: Seq<u8>) -> Seq<(Seq<u8>, V)> {
    if has_key(s, k) {
        s.remove(lower_bound(s, k))
    } else {
        s
    }
}

/// Every key lies in `[lo, hi)`, where no `hi` means no upper bound.
pub open spec fn within<V>(s: Seq<(Seq<u8>, V)>, lo: Seq<u8>, hi: Option<Seq<u8>>) -> bool {
    forall|i: int| 0 <= i < s.len() ==> in_range(#[trigger] s[i].0, lo, hi)
}

/// `k` lies in `[lo, hi)`, where no `hi` means no upper bound.
pub open spec fn in_range(k: Seq<u8>, lo: Seq<u8>, hi: Option<Seq<u8>>) -> bool {
    lex_le(lo, k) && (hi matches Some(h) ==> lex_lt(k, h))
}

/// The sum of the key and value lengths of the first `n` entries.
pub open spec fn payload(s: Seq<(Seq<u8>, Seq<u8>)>, n: int) -> int
    decreases n,
{
    if n <= 0 {
        0
    } else {
        payload(s, n - 1) + s[n - 1].0.len() + s[n - 1].1.len()
    }
}

/// From a position before which every key is below `k`,
/// `lower_bound_from` finds the first position whose key is not.
pub proof fn lemma_lower_bound_from<V>(s: Seq<(Seq<u8>, V)>, k: Seq<u8>, i: int)
    requires
        0 <= i <= s.len(),
        forall|j: int| 0 <= j < i ==> lex_lt(#[trigger] s[j].0, k),
    ensures
        i <= lower_bound_from(s, k, i) <= s.len(),
        forall|j: int| 0 <= j < lower_bound_from(s, k, i) ==> lex_lt(#[trigger] s[j].0, k),
        lower_bound_from(s, k, i) < s.len() ==> !lex_lt(s[lower_bound_from(s, k, i)].0, k),
    decreases s.len() - i,
{
    if i >= s.len() || !lex_lt(s[i].0, k) {
    } else {
        lemma_lower_bound_from(s, k, i + 1);
    }
}

/// What the lower bound is: everything before it is below `k`, and in a
/// sorted sequence everything from it on is at or above `k`.
pub proof fn lemma_lower_bound<V>(s: Seq<(Seq<u8>, V)>, k: Seq<u8>)
    ensures
        0 <= lower_bound(s, k) <= s.len(),
        forall|j: int| 0 <= j < lower_bound(s, k) ==> lex_lt(#[trigger] s[j].0, k),
        lower_bound(s, k) < s.len() ==> lex_le(k, s[lower_bound(s, k)].0),
        sorted(s) ==> forall|j: int|
            lower_bound(s, k) <= j < s.len() ==> lex_le(k, #[trigger] s[j].0),
        sorted(s) && !has_key(s, k) ==> forall|j: int|
            lower_bound(s, k) <= j < s.len() ==> lex_lt(k, #[trigger] s[j].0),
{
    lemma_lower_bound_from(s, k, 0);
    let i = lower_bound(s, k);
    if i < s.len() {
        lemma_lex_trichotomy(k, s[i].0);
    }
    if sorted(s) {
        assert forall|j: int| i <= j < s.len() implies lex_le(k, #[trigger] s[j].0) by {
            if i < j {
                lemma_lex_le_lt_transitive(k, s[i].0, s[j].0);
            }
        }
    }
}

/// A position that separates the keys below `k` from those not below it is
/// the lower bound.
pub proof fn lemma_lower_bound_is<V>(s: Seq<(Seq<u8>, V)>, k: Seq<u8>, i: int)
    requires
        0 <= i <= s.len(),
        forall|j: int| 0 <= j < i ==> lex_lt(#[trigger] s[j].0, k),
        i < s.len() ==> !lex_lt(s[i].0, k),
    ensures
        lower_bound(s, k) == i,
{
    lemma_lower_bound_from(s, k, 0);
    let b = lower_bound(s, k);
    if b < i {
        assert(lex_lt(s[b].0, k));
    } else if i < b {
        assert(lex_lt(s[i].0, k));
    }
}

/// In a sorted sequence the entry at position `i` is found under its key.
pub proof fn lemma_lookup_at<V>(s: Seq<(Seq<u8>, V)>, i: int)
    requires
        sorted(s),
        0 <= i < s.len(),
    ensures
        lower_bound(s, s[i].0) == i,
        has_key(s, s[i].0),
        lookup(s, s[i].0) == Some(s[i].1),
{
    lemma_lex_trichotomy(s[i].0, s[i].0);
    lemma_lower_bound_is(s, s[i].0, i);
}

/// A key that is found stands at some position; one that is not found stands
/// at none.
pub proof fn lemma_has_key_iff<V>(s: Seq<(Seq<u8>, V)>, k: Seq<u8>)
    requires
        sorted(s),
    ensures
        has_key(s, k) <==> exists|i: int| 0 <= i < s.len() && #[trigger] s[i].0 == k,
{
    lemma_lower_bound(s, k);
    if exists|i: int| 0 <= i < s.len() && #[trigger] s[i].0 == k {
        let i = choose|i: int| 0 <= i < s.len() && #[trigger] s[i].0 == k;
        lemma_lookup_at(s, i);
    }
}

/// Setting a key keeps the order, adds an entry only for a new key, and
/// puts the pair where the key belongs.
pub proof fn lemma_put_sorted<V>(s: Seq<(Seq<u8>, V)>, k: Seq<u8>, v: V)
    requires
        sorted(s),
    ensures
        sorted(put(s, k, v)),
        put(s, k, v).len() == s.len() + (if has_key(s, k) { 0int } else { 1int }),
        lower_bound(put(s, k, v), k) == lower_bound(s, k),
        put(s, k, v)[lower_bound(s, k)] == (k, v),
{
    lemma_lower_bound(s, k);
    let i = lower_bound(s, k);
    let t = put(s, k, v);
    if has_key(s, k) {
        assert forall|a: int, b: int| 0 <= a < b < t.len() implies lex_lt(
            #[trigger] t[a].0,
            #[trigger] t[b].0,
        ) by {
            assert(t[a].0 == s[a].0);
            assert(t[b].0 == s[b].0);
        }
    } else {
        assert forall|a: int, b: int| 0 <= a < b < t.len() implies lex_lt(
            #[trigger] t[a].0,
            #[trigger] t[b].0,
        ) by {
            if b < i {
                assert(t[a] == s[a] && t[b] == s[b]);
            } else if b == i {
                assert(t[a] == s[a]);
            } else if a < i {
                assert(t[a] == s[a] && t[b] == s[b - 1]);
            } else if a == i {
                assert(t[b] == s[b - 1]);
            } else {
                assert(t[a] == s[a - 1] && t[b] == s[b - 1]);
            }
        }
    }
    lemma_lex_trichotomy(k, k);
    assert forall|j: int| 0 <= j < i implies lex_lt(#[trigger] t[j].0, k) by {
        assert(t[j] == s[j]);
    }
    lemma_lower_bound_is(t, k, i);
}

/// Removing a key keeps the order and takes out one entry if the key was
/// there.
pub proof fn lemma_delete_sorted<V>(s: Seq<(Seq<u8>, V)>, k: Seq<u8>)
    requires
        sorted(s),
    ensures
        sorted(delete(s, k)),
        delete(s, k).len() == s.len() - (if has_key(s, k) { 1int } else { 0int }),
        !has_key(delete(s, k), k),
{
    lemma_lower_bound(s, k);
    let i = lower_bound(s, k);
    let t = delete(s, k);
    if has_key(s, k) {
        assert forall|a: int, b: int| 0 <= a < b < t.len() implies lex_lt(
            #[trigger] t[a].0,
            #[trigger] t[b].0,
        ) by {
            if b < i {
                assert(t[a] == s[a] && t[b] == s[b]);
            } else if a < i {
                assert(t[a] == s[a] && t[b] == s[b + 1]);
            } else {
                assert(t[a] == s[a + 1] && t[b] == s[b + 1]);
            }
        }
        assert forall|j: int| 0 <= j < i implies lex_lt(#[trigger] t[j].0, k) by {
            assert(t[j] == s[j]);
        }
        if i < t.len() {
            assert(t[i] == s[i + 1]);
            assert(lex_lt(s[i].0, s[i + 1].0));
            lemma_lex_trichotomy(k, t[i].0);
        }
        lemma_lower_bound_is(t, k, i);
    }
}

/// Setting `k` changes what is found under `k` and under no other key.
pub proof fn lemma_put_lookup<V>(s: Seq<(Seq<u8>, V)>, k: Seq<u8>, v: V, q: Seq<u8>)
    requires
        sorted(s),
    ensures
        lookup(put(s, k, v), q) == (if q == k {
            Some(v)
        } else {
            lookup(s, q)
        }),
{
    lemma_put_sorted(s, k, v);
    lemma_lower_bound(s, k);
    let i = lower_bound(s, k);
    let t = put(s, k, v);
    if q != k {
        lemma_has_key_iff(s, q);
        lemma_has_key_iff(t, q);
        if has_key(s, q) {
            let j = choose|j: int| 0 <= j < s.len() && #[trigger] s[j].0 == q;
            lemma_lookup_at(s, j);
            let j2 = if has_key(s, k) || j < i {
                j
            } else {
                j + 1
            };
            assert(t[j2] == s[j]);
            lemma_lookup_at(t, j2);
        } else if has_key(t, q) {
            let j = choose|j: int| 0 <= j < t.len() && #[trigger] t[j].0 == q;
            let j0 = if has_key(s, k) || j < i {
                j
            } else {
                j - 1
            };
            assert(t[j] == s[j0]);
            assert(s[j0].0 == q);
        }
    }
}

/// Removing `k` changes what is found under `k` and under no other key.
pub proof fn lemma_delete_lookup<V>(s: Seq<(Seq<u8>, V)>, k: Seq<u8>, q: Seq<u8>)
    requires
        sorted(s),
    ensures
        lookup(delete(s, k), q) == (if q == k {
            None::<V>
        } else {
            lookup(s, q)
        }),
{
    lemma_delete_sorted(s, k);
    lemma_lower_bound(s, k);
    let i = lower_bound(s, k);
    let t = delete(s, k);
    if q != k && has_key(s, k) {
        lemma_has_key_iff(s, q);
        lemma_has_key_iff(t, q);
        if has_key(s, q) {
            let j = choose|j: int| 0 <= j < s.len() && #[trigger] s[j].0 == q;
            lemma_lookup_at(s, j);
            let j2 = if j < i {
                j
            } else {
                j - 1
            };
            assert(t[j2] == s[j]);
            lemma_lookup_at(t, j2);
        } else if has_key(t, q) {
            let j = choose|j: int| 0 <= j < t.len() && #[trigger] t[j].0 == q;
            let j0 = if j < i {
                j
            } else {
                j + 1
            };
            assert(t[j] == s[j0]);
            assert(s[j0].0 == q);
        }
    }
}

/// Setting a key of the range keeps every key in the range.
pub proof fn lemma_put_within<V>(
    s: Seq<(Seq<u8>, V)>,
    k: Seq<u8>,
    v: V,
    lo: Seq<u8>,
    hi: Option<Seq<u8>>,
)
    requires
        within(s, lo, hi),
        in_range(k, lo, hi),
    ensures
        within(put(s, k, v), lo, hi),
{
    lemma_lower_bound(s, k);
    let i = lower_bound(s, k);
    let t = put(s, k, v);
    assert forall|j: int| 0 <= j < t.len() implies in_range(#[trigger] t[j].0, lo, hi) by {
        if j == i {
        } else if has_key(s, k) || j < i {
            assert(t[j] == s[j]);
        } else {
            assert(t[j] == s[j - 1]);
        }
    }
}

/// Removing a key keeps every key in the range.
pub proof fn lemma_delete_within<V>(
    s: Seq<(Seq<u8>, V)>,
    k: Seq<u8>,
    lo: Seq<u8>,
    hi: Option<Seq<u8>>,
)
    requires
        within(s, lo, hi),
    ensures
        within(delete(s, k), lo, hi),
{
    lemma_lower_bound(s, k);
    let i = lower_bound(s, k);
    let t = delete(s, k);
    if has_key(s, k) {
        assert forall|j: int| 0 <= j < t.len() implies in_range(#[trigger] t[j].0, lo, hi) by {
            if j < i {
                assert(t[j] == s[j]);
            } else {
                assert(t[j] == s[j + 1]);
            }
        }
    }
}
/// Setting a key above all keys of a sorted sequence appends it.
pub proof fn lemma_put_last<V>(s: Seq<(Seq<u8>, V)>, k: Seq<u8>, v: V)
    requires
        sorted(s),
        s.len() > 0 ==> lex_lt(s.last().0, k),
    ensures
        put(s, k, v) == s.push((k, v)),
        lookup(s, k).is_none(),
{
    assert forall|j: int| 0 <= j < s.len() implies lex_lt(#[trigger] s[j].0, k) by {
        if j < s.len() - 1 {
            lemma_lex_lt_transitive(s[j].0, s.last().0, k);
        }
    }
    lemma_lower_bound_is(s, k, s.len() as int);
    assert(s.insert(s.len() as int, (k, v)) =~= s.push((k, v)));
}

} // verus!
