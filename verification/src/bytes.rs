//! Byte strings as keys: the lexicographic order, common prefixes, the
//! separator chosen when a leaf splits, and the upper end of a prefix scan.

use vstd::prelude::*;

verus! {

/// The first position at or after `i` where `a` and `b` stop agreeing:
/// either one of them ends there or their bytes differ.
pub open spec fn first_diff(a: Seq<u8>, b: Seq<u8>, i: int) -> int
    decreases a.len() - i,
{
    if i < 0 || i >= a.len() || i >= b.len() || a[i] != b[i] {
        i
    } else {
        first_diff(a, b, i + 1)
    }
}

/// Length of the longest common prefix of `a` and `b`.
pub open spec fn common_prefix(a: Seq<u8>, b: Seq<u8>) -> int {
    first_diff(a, b, 0)
}

/// Strict lexicographic order on byte strings: at the first position where
/// they stop agreeing, `a` has ended and `b` has not, or `a` holds the
/// smaller byte.
pub open spec fn lex_lt(a: Seq<u8>, b: Seq<u8>) -> bool {
    let n = common_prefix(a, b);
    n < b.len() && (n == a.len() || a[n] < b[n])
}

/// Lexicographic order, equality included.
pub open spec fn lex_le(a: Seq<u8>, b: Seq<u8>) -> bool {
    a == b || lex_lt(a, b)
}

/// `p` is a prefix of `k`.
pub open spec fn is_prefix(p: Seq<u8>, k: Seq<u8>) -> bool {
    p.len() <= k.len() && k.take(p.len() as int) == p
}

/// `n` is the length of the longest common prefix of `a` and `b`.
pub open spec fn agrees_up_to(a: Seq<u8>, b: Seq<u8>, n: int) -> bool {
    &&& 0 <= n <= a.len()
    &&& n <= b.len()
    &&& forall|j: int| 0 <= j < n ==> a[j] == b[j]
    &&& (n == a.len() || n == b.len() || a[n] != b[n])
}

/// From a position up to which `a` and `b` agree, `first_diff` finds the
/// length of their longest common prefix.
pub proof fn lemma_first_diff(a: Seq<u8>, b: Seq<u8>, i: int)
    requires
        0 <= i <= a.len(),
        i <= b.len(),
        forall|j: int| 0 <= j < i ==> a[j] == b[j],
    ensures
        agrees_up_to(a, b, first_diff(a, b, i)),
        first_diff(a, b, i) >= i,
    decreases a.len() - i,
{
    if i >= a.len() || i >= b.len() || a[i] != b[i] {
    } else {
        lemma_first_diff(a, b, i + 1);
    }
}

/// The common prefix is the one position described by `agrees_up_to`.
pub proof fn lemma_common_prefix(a: Seq<u8>, b: Seq<u8>)
    ensures
        agrees_up_to(a, b, common_prefix(a, b)),
{
    lemma_first_diff(a, b, 0);
}

/// A position with the properties of `agrees_up_to` is the common prefix.
pub proof fn lemma_common_prefix_unique(a: Seq<u8>, b: Seq<u8>, n: int)
    requires
        agrees_up_to(a, b, n),
    ensures
        common_prefix(a, b) == n,
{
    lemma_common_prefix(a, b);
    let m = common_prefix(a, b);
    if m < n {
        assert(a[m] == b[m]);
    } else if n < m {
        assert(a[n] == b[n]);
    }
}

/// Two keys share the same prefix whichever is named first.
pub proof fn lemma_common_prefix_symmetric(a: Seq<u8>, b: Seq<u8>)
    ensures
        common_prefix(a, b) == common_prefix(b, a),
{
    lemma_common_prefix(a, b);
    lemma_common_prefix_unique(b, a, common_prefix(a, b));
}

/// Exactly one of `a < b`, `a == b`, `b < a` holds.
pub proof fn lemma_lex_trichotomy(a: Seq<u8>, b: Seq<u8>)
    ensures
        lex_lt(a, b) || a == b || lex_lt(b, a),
        !(lex_lt(a, b) && lex_lt(b, a)),
        !(lex_lt(a, b) && a == b),
        lex_le(a, b) <==> !lex_lt(b, a),
{
    lemma_common_prefix(a, b);
    lemma_common_prefix_symmetric(a, b);
    let n = common_prefix(a, b);
    if n == a.len() && n == b.len() {
        assert(a =~= b);
    }
}

/// The order is transitive.
pub proof fn lemma_lex_lt_transitive(a: Seq<u8>, b: Seq<u8>, c: Seq<u8>)
    requires
        lex_lt(a, b),
        lex_lt(b, c),
    ensures
        lex_lt(a, c),
{
    lemma_common_prefix(a, b);
    lemma_common_prefix(b, c);
    let n = common_prefix(a, b);
    let m = common_prefix(b, c);
    let k = if n <= m { n } else { m };
    assert forall|j: int| 0 <= j < k implies a[j] == c[j] by {
        assert(a[j] == b[j]);
        assert(b[j] == c[j]);
    }
    if n < m {
        assert(b[n] == c[n]);
    } else if m < n {
        assert(a[m] == b[m]);
    }
    assert(agrees_up_to(a, c, k));
    lemma_common_prefix_unique(a, c, k);
}

/// The order is transitive, equality included.
pub proof fn lemma_lex_le_transitive(a: Seq<u8>, b: Seq<u8>, c: Seq<u8>)
    requires
        lex_le(a, b),
        lex_le(b, c),
    ensures
        lex_le(a, c),
{
    if a != b && b != c {
        lemma_lex_lt_transitive(a, b, c);
    }
}

/// Below a key that is at or below another is below that other.
pub proof fn lemma_lex_lt_le_transitive(a: Seq<u8>, b: Seq<u8>, c: Seq<u8>)
    requires
        lex_lt(a, b),
        lex_le(b, c),
    ensures
        lex_lt(a, c),
{
    if b != c {
        lemma_lex_lt_transitive(a, b, c);
    }
}

/// At or below a key that is below another is below that other.
pub proof fn lemma_lex_le_lt_transitive(a: Seq<u8>, b: Seq<u8>, c: Seq<u8>)
    requires
        lex_le(a, b),
        lex_lt(b, c),
    ensures
        lex_lt(a, c),
{
    if a != b {
        lemma_lex_lt_transitive(a, b, c);
    }
}

/// The empty string is the least key.
pub proof fn lemma_empty_is_least(a: Seq<u8>)
    ensures
        lex_le(Seq::<u8>::empty(), a),
        !lex_lt(a, Seq::<u8>::empty()),
{
    let e = Seq::<u8>::empty();
    lemma_common_prefix(e, a);
    lemma_common_prefix(a, e);
    if a.len() == 0 {
        assert(a =~= e);
    }
}

/// Length of the longest common prefix of two keys.
pub fn common_prefix_len(a: &[u8], b: &[u8]) -> (n: usize)
    ensures
        n == common_prefix(a@, b@),
        agrees_up_to(a@, b@, n as int),
{
    let mut i: usize = 0;
    while i < a.len() && i < b.len() && a[i] == b[i]
        invariant
            0 <= i <= a@.len(),
            i <= b@.len(),
            forall|j: int| 0 <= j < i ==> a@[j] == b@[j],
        decreases a@.len() - i,
    {
        i += 1;
    }
    proof {
        assert(agrees_up_to(a@, b@, i as int));
        lemma_common_prefix_unique(a@, b@, i as int);
    }
    i
}

/// `a < b` in the lexicographic order.
pub fn key_lt(a: &[u8], b: &[u8]) -> (r: bool)
    ensures
        r == lex_lt(a@, b@),
{
    let n = common_prefix_len(a, b);
    n < b.len() && (n == a.len() || a[n] < b[n])
}

/// `a <= b` in the lexicographic order.
pub fn key_le(a: &[u8], b: &[u8]) -> (r: bool)
    ensures
        r == lex_le(a@, b@),
{
    proof {
        lemma_lex_trichotomy(a@, b@);
    }
    !key_lt(b, a)
}

/// `a == b`, byte for byte.
pub fn key_eq(a: &[u8], b: &[u8]) -> (r: bool)
    ensures
        r == (a@ == b@),
{
    let n = common_prefix_len(a, b);
    proof {
        lemma_common_prefix(a@, b@);
        if n == a@.len() && n == b@.len() {
            assert(a@ =~= b@);
        }
    }
    n == a.len() && n == b.len()
}

/// `a` with a zero byte behind it is the key that follows `a`: it is above
/// `a`, and no key lies between the two.
pub proof fn lemma_next_key(a: Seq<u8>, q: Seq<u8>)
    ensures
        lex_lt(a, a.push(0u8)),
        lex_lt(a, q) ==> lex_le(a.push(0u8), q),
{
    let s = a.push(0u8);
    assert(agrees_up_to(a, s, a.len() as int));
    lemma_common_prefix_unique(a, s, a.len() as int);
    if lex_lt(a, q) {
        lemma_common_prefix(a, q);
        let n = common_prefix(a, q);
        if n == a.len() {
            if q[n] == 0u8 {
                assert(agrees_up_to(s, q, n + 1));
                lemma_common_prefix_unique(s, q, n + 1);
                if q.len() == n + 1 {
                    assert(s =~= q);
                }
            } else {
                assert(agrees_up_to(s, q, n));
                lemma_common_prefix_unique(s, q, n);
            }
        } else {
            assert(agrees_up_to(s, q, n));
            lemma_common_prefix_unique(s, q, n);
        }
    }
}

/// The key that follows `a`: `a` with a zero byte behind it.
pub fn next_key(a: &[u8]) -> (r: Vec<u8>)
    ensures
        r@ == a@.push(0u8),
{
    let mut r = key_copy(a);
    r.push(0);
    r
}

/// An owned copy of a key.
pub fn key_copy(a: &[u8]) -> (r: Vec<u8>)
    ensures
        r@ == a@,
{
    let mut r: Vec<u8> = Vec::new();
    let mut i: usize = 0;
    while i < a.len()
        invariant
            0 <= i <= a@.len(),
            r@ == a@.take(i as int),
        decreases a@.len() - i,
    {
        r.push(a[i]);
        proof {
            assert(a@.take(i as int).push(a@[i as int]) =~= a@.take(i as int + 1));
        }
        i += 1;
    }
    proof {
        assert(a@.take(a@.len() as int) =~= a@);
    }
    r
}

/// An optional key as a plain value.
pub open spec fn opt_view(o: Option<Vec<u8>>) -> Option<Seq<u8>> {
    match o {
        Some(v) => Some(v@),
        None => None,
    }
}

/// An owned copy of an optional key.
pub fn opt_copy(o: &Option<Vec<u8>>) -> (r: Option<Vec<u8>>)
    ensures
        opt_view(r) == opt_view(*o),
{
    match o {
        Some(v) => Some(key_copy(v.as_slice())),
        None => None,
    }
}

/// The separator between a left maximum `l` and a right minimum `r`: the
/// prefix of `r` that is one byte longer than what `l` and `r` share.
pub open spec fn separator(l: Seq<u8>, r: Seq<u8>) -> Seq<u8> {
    r.take(common_prefix(l, r) + 1)
}

/// The separator lies strictly above the left maximum and at or below the
/// right minimum.
pub proof fn lemma_separator_between(l: Seq<u8>, r: Seq<u8>)
    requires
        lex_lt(l, r),
    ensures
        common_prefix(l, r) < r.len(),
        lex_lt(l, separator(l, r)),
        lex_le(separator(l, r), r),
        is_prefix(separator(l, r), r),
{
    lemma_common_prefix(l, r);
    let n = common_prefix(l, r);
    let s = separator(l, r);
    assert(s.len() == n + 1);
    assert(agrees_up_to(l, s, n));
    lemma_common_prefix_unique(l, s, n);
    if s != r {
        assert(s.len() < r.len()) by {
            if s.len() == r.len() {
                assert(s =~= r);
            }
        }
        assert(agrees_up_to(s, r, n + 1));
        lemma_common_prefix_unique(s, r, n + 1);
    }
}

/// No byte string between the left maximum (exclusive) and the right minimum
/// (inclusive) is shorter than the separator.
pub proof fn lemma_separator_shortest(l: Seq<u8>, r: Seq<u8>, t: Seq<u8>)
    requires
        lex_lt(l, r),
        lex_lt(l, t),
        lex_le(t, r),
    ensures
        separator(l, r).len() <= t.len(),
{
    lemma_common_prefix(l, r);
    lemma_common_prefix(l, t);
    lemma_separator_between(l, r);
    let n = common_prefix(l, r);
    let m = common_prefix(l, t);
    if t.len() <= n {
        // l and r agree on every position that t has
        assert(m < t.len());
        assert(m < l.len());
        assert(l[m] < t[m]);
        assert(l[m] == r[m]);
        assert(t != r);
        assert forall|j: int| 0 <= j < m implies t[j] == r[j] by {
            assert(l[j] == t[j]);
            assert(l[j] == r[j]);
        }
        assert(agrees_up_to(t, r, m));
        lemma_common_prefix_unique(t, r, m);
        assert(false);
    }
}

/// The separator between a left maximum and a right minimum.
pub fn split_key(left_max: &[u8], right_min: &[u8]) -> (s: Vec<u8>)
    requires
        lex_lt(left_max@, right_min@),
    ensures
        s@ == separator(left_max@, right_min@),
{
    let n = common_prefix_len(left_max, right_min);
    proof {
        lemma_separator_between(left_max@, right_min@);
    }
    let mut s: Vec<u8> = Vec::new();
    let mut i: usize = 0;
    while i <= n
        invariant
            0 <= i <= n + 1,
            n < right_min@.len(),
            s@ == right_min@.take(i as int),
        decreases n + 1 - i,
    {
        s.push(right_min[i]);
        proof {
            assert(right_min@.take(i as int).push(right_min@[i as int]) =~= right_min@.take(
                i as int + 1,
            ));
        }
        i += 1;
    }
    s
}

} // verus!
