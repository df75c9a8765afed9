//! Key ranges: the two ends of a scan, and the range that holds exactly the
//! keys with a given prefix.

use crate::bytes::{
    agrees_up_to, common_prefix, is_prefix, key_copy, key_le, key_lt, lemma_common_prefix,
    lemma_common_prefix_unique, lemma_empty_is_least, lemma_lex_le_lt_transitive,
    lemma_lex_le_transitive, lemma_lex_lt_le_transitive, lemma_lex_trichotomy, lemma_next_key, lex_le, lex_lt, next_key,
};
use vstd::prelude::*;

verus! {

/// One end of a range.
pub enum Bound<T> {
    Included(T),
    Excluded(T),
    Unbounded,
}

/// Applies `f` to what a bound holds and keeps its kind.
pub fn map_bound<T, U, F: FnOnce(T) -> U>(bound: Bound<T>, f: F) -> (r: Bound<U>)
    requires
        (match bound {
            Bound::Included(x) => f.requires((x,)),
            Bound::Excluded(x) => f.requires((x,)),
            Bound::Unbounded => true,
        }),
    ensures
        (match bound {
            Bound::Included(x) => r matches Bound::Included(y) && f.ensures((x,), y),
            Bound::Excluded(x) => r matches Bound::Excluded(y) && f.ensures((x,), y),
            Bound::Unbounded => r is Unbounded,
        }),
{
    match bound {
        Bound::Unbounded => Bound::Unbounded,
        Bound::Included(x) => Bound::Included(f(x)),
        Bound::Excluded(x) => Bound::Excluded(f(x)),
    }
}

/// A bound on keys as a plain value.
pub open spec fn bound_view(b: Bound<Vec<u8>>) -> Bound<Seq<u8>> {
    match b {
        Bound::Included(x) => Bound::Included(x@),
        Bound::Excluded(x) => Bound::Excluded(x@),
        Bound::Unbounded => Bound::Unbounded,
    }
}

/// `k` is at or after the start `b`.
pub open spec fn above_start(b: Bound<Seq<u8>>, k: Seq<u8>) -> bool {
    match b {
        Bound::Included(x) => lex_le(x, k),
        Bound::Excluded(x) => lex_lt(x, k),
        Bound::Unbounded => true,
    }
}

/// `k` is at or before the end `b`.
pub open spec fn below_end(b: Bound<Seq<u8>>, k: Seq<u8>) -> bool {
    match b {
        Bound::Included(x) => lex_le(k, x),
        Bound::Excluded(x) => lex_lt(k, x),
        Bound::Unbounded => true,
    }
}

/// `k` lies between `start` and `end`.
pub open spec fn in_bounds(start: Bound<Seq<u8>>, end: Bound<Seq<u8>>, k: Seq<u8>) -> bool {
    above_start(start, k) && below_end(end, k)
}

/// Whether `key` is at or after the start `b`.
pub fn is_above_start(b: &Bound<Vec<u8>>, key: &[u8]) -> (r: bool)
    ensures
        r == above_start(bound_view(*b), key@),
{
    match b {
        Bound::Included(x) => key_le(x.as_slice(), key),
        Bound::Excluded(x) => key_lt(x.as_slice(), key),
        Bound::Unbounded => true,
    }
}

/// Whether `key` is at or before the end `b`.
pub fn is_below_end(b: &Bound<Vec<u8>>, key: &[u8]) -> (r: bool)
    ensures
        r == below_end(bound_view(*b), key@),
{
    match b {
        Bound::Included(x) => key_le(key, x.as_slice()),
        Bound::Excluded(x) => key_lt(key, x.as_slice()),
        Bound::Unbounded => true,
    }
}

/// The least key at or after the start `b`.
pub open spec fn least_from(b: Bound<Seq<u8>>) -> Seq<u8> {
    match b {
        Bound::Included(x) => x,
        Bound::Excluded(x) => x.push(0u8),
        Bound::Unbounded => Seq::empty(),
    }
}

/// `least_from` is at or after the start, and at or below every key that
/// is.
pub proof fn lemma_least_from(b: Bound<Seq<u8>>, k: Seq<u8>)
    ensures
        above_start(b, least_from(b)),
        above_start(b, k) <==> lex_le(least_from(b), k),
{
    match b {
        Bound::Included(x) => {},
        Bound::Excluded(x) => {
            lemma_next_key(x, k);
            if lex_le(x.push(0u8), k) {
                lemma_lex_lt_le_transitive(x, x.push(0u8), k);
            }
        },
        Bound::Unbounded => {
            lemma_empty_is_least(k);
        },
    }
}

/// The least key at or after the start `b`.
pub fn least_key_from(b: &Bound<Vec<u8>>) -> (r: Vec<u8>)
    ensures
        r@ == least_from(bound_view(*b)),
{
    match b {
        Bound::Included(x) => key_copy(x.as_slice()),
        Bound::Excluded(x) => next_key(x.as_slice()),
        Bound::Unbounded => Vec::new(),
    }
}

/// What lies at or above a key of the range's start side is on that side
/// too, and what lies at or below a key of its end side likewise.
pub proof fn lemma_bounds_monotone(b: Bound<Seq<u8>>, lower: Seq<u8>, upper: Seq<u8>)
    requires
        lex_le(lower, upper),
    ensures
        above_start(b, lower) ==> above_start(b, upper),
        below_end(b, upper) ==> below_end(b, lower),
{
    match b {
        Bound::Included(x) => {
            if lex_le(x, lower) {
                lemma_lex_le_transitive(x, lower, upper);
            }
            if lex_le(upper, x) {
                lemma_lex_le_transitive(lower, upper, x);
            }
        },
        Bound::Excluded(x) => {
            if lex_lt(x, lower) {
                lemma_lex_lt_le_transitive(x, lower, upper);
            }
            if lex_lt(upper, x) {
                lemma_lex_le_lt_transitive(lower, upper, x);
            }
        },
        Bound::Unbounded => {},
    }
}

/// A key at or before the end is below every key that is not.
pub proof fn lemma_end_separates(end: Bound<Seq<u8>>, q: Seq<u8>, k: Seq<u8>)
    requires
        below_end(end, q),
        !below_end(end, k),
    ensures
        lex_lt(q, k),
{
    match end {
        Bound::Included(e) => {
            lemma_lex_trichotomy(k, e);
            lemma_lex_le_lt_transitive(q, e, k);
        },
        Bound::Excluded(e) => {
            lemma_lex_trichotomy(k, e);
            lemma_lex_lt_le_transitive(q, e, k);
        },
        Bound::Unbounded => {},
    }
}

/// A key at or after the start is above every key that is not.
pub proof fn lemma_start_separates(start: Bound<Seq<u8>>, q: Seq<u8>, k: Seq<u8>)
    requires
        above_start(start, q),
        !above_start(start, k),
    ensures
        lex_lt(k, q),
{
    match start {
        Bound::Included(b) => {
            lemma_lex_trichotomy(k, b);
            lemma_lex_lt_le_transitive(k, b, q);
        },
        Bound::Excluded(b) => {
            lemma_lex_trichotomy(k, b);
            lemma_lex_le_lt_transitive(k, b, q);
        },
        Bound::Unbounded => {},
    }
}

/// The number of bytes of `p` up to and with its last byte that is not
/// `0xFF`; zero where every byte is `0xFF`.
pub open spec fn trimmed_len(p: Seq<u8>) -> int
    decreases p.len(),
{
    if p.len() == 0 {
        0
    } else if p.last() != 0xFFu8 {
        p.len() as int
    } else {
        trimmed_len(p.drop_last())
    }
}

/// The least byte string above every key that starts with `p`: `p` without
/// its trailing `0xFF` bytes and with the byte before them raised by one.
/// There is none where `p` is empty or all `0xFF`.
pub open spec fn prefix_end(p: Seq<u8>) -> Option<Seq<u8>> {
    let n = trimmed_len(p);
    if n == 0 {
        None
    } else {
        Some(p.take(n - 1).push((p[n - 1] + 1) as u8))
    }
}

/// What `trimmed_len` is: it points just past the last byte that is not
/// `0xFF`, and only `0xFF` bytes follow.
pub proof fn lemma_trimmed_len(p: Seq<u8>)
    ensures
        0 <= trimmed_len(p) <= p.len(),
        trimmed_len(p) > 0 ==> p[trimmed_len(p) - 1] != 0xFFu8,
        forall|j: int| trimmed_len(p) <= j < p.len() ==> p[j] == 0xFFu8,
    decreases p.len(),
{
    if p.len() > 0 && p.last() == 0xFFu8 {
        lemma_trimmed_len(p.drop_last());
        assert forall|j: int| trimmed_len(p) <= j < p.len() implies p[j] == 0xFFu8 by {
            if j < p.len() - 1 {
                assert(p.drop_last()[j] == p[j]);
            }
        }
    }
}

/// The keys that start with `p` are the keys from `p` up to, and without,
/// `prefix_end(p)`; where there is no such end, they are all keys from `p`
/// on.
pub proof fn lemma_prefix_range(p: Seq<u8>, k: Seq<u8>)
    ensures
        is_prefix(p, k) <==> in_bounds(
            Bound::Included(p),
            match prefix_end(p) {
                Some(u) => Bound::Excluded(u),
                None => Bound::Unbounded,
            },
            k,
        ),
{
    lemma_trimmed_len(p);
    lemma_common_prefix(p, k);
    lemma_lex_trichotomy(p, k);
    let n = trimmed_len(p);
    let c = common_prefix(p, k);
    if is_prefix(p, k) {
        assert forall|j: int| 0 <= j < p.len() implies p[j] == k[j] by {
            assert(k.take(p.len() as int)[j] == k[j]);
        }
        assert(agrees_up_to(p, k, p.len() as int));
        lemma_common_prefix_unique(p, k, p.len() as int);
        if p.len() == k.len() {
            assert(p =~= k);
        }
        assert(lex_le(p, k));
        if n > 0 {
            let u = prefix_end(p).unwrap();
            assert(agrees_up_to(k, u, n - 1));
            lemma_common_prefix_unique(k, u, n - 1);
            assert(lex_lt(k, u));
        }
    } else {
        // k does not start with p: they part before p ends
        if c == p.len() {
            assert(k.take(p.len() as int) =~= p);
        }
        assert(c < p.len());
        if lex_le(p, k) {
            assert(p != k);
            assert(c < k.len() && p[c] < k[c]);
            if n > 0 {
                let u = prefix_end(p).unwrap();
                lemma_common_prefix(k, u);
                lemma_lex_trichotomy(k, u);
                assert(c < n) by {
                    if c >= n {
                        assert(p[c] == 0xFFu8);
                    }
                }
                if c < n - 1 {
                    assert(agrees_up_to(k, u, c));
                    lemma_common_prefix_unique(k, u, c);
                } else {
                    // k[c] is above p[c], so at or above the raised byte
                    if k[c] == u[c] {
                        assert(agrees_up_to(u, k, n as int));
                        lemma_common_prefix_unique(u, k, n as int);
                        assert(lex_le(u, k));
                    } else {
                        assert(agrees_up_to(k, u, c));
                        lemma_common_prefix_unique(k, u, c);
                    }
                }
                assert(!lex_lt(k, u));
            } else {
                assert(p[c] == 0xFFu8);
                assert(false);
            }
        }
    }
}

/// The end of the range of keys that start with `prefix`.
pub fn prefix_upper_bound(prefix: &[u8]) -> (r: Option<Vec<u8>>)
    ensures
        (match r {
            Some(u) => prefix_end(prefix@) == Some(u@),
            None => prefix_end(prefix@).is_none(),
        }),
{
    let mut n: usize = prefix.len();
    proof {
        assert(prefix@.take(n as int) =~= prefix@);
    }
    while n > 0 && prefix[n - 1] == 0xFF
        invariant
            0 <= n <= prefix@.len(),
            trimmed_len(prefix@) == trimmed_len(prefix@.take(n as int)),
        decreases n,
    {
        proof {
            let q = prefix@.take(n as int);
            assert(q.last() == prefix@[n - 1]);
            assert(q.drop_last() =~= prefix@.take(n - 1));
        }
        n -= 1;
    }
    proof {
        let q = prefix@.take(n as int);
        if n > 0 {
            assert(q.last() == prefix@[n - 1]);
        }
        assert(trimmed_len(q) == n);
    }
    if n == 0 {
        return None;
    }
    let mut upper: Vec<u8> = Vec::new();
    let mut i: usize = 0;
    while i < n - 1
        invariant
            0 <= i <= n - 1,
            n <= prefix@.len(),
            upper@ == prefix@.take(i as int),
        decreases n - 1 - i,
    {
        upper.push(prefix[i]);
        proof {
            assert(prefix@.take(i as int).push(prefix@[i as int]) =~= prefix@.take(i as int + 1));
        }
        i += 1;
    }
    upper.push(prefix[n - 1] + 1);
    Some(upper)
}

} // verus!
