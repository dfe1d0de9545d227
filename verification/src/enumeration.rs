//! Enumerating the orders of the players: starting from the ascending order
//! and taking the next arrangement again and again visits each of the `n!`
//! orders of `n` players exactly once, in lexicographic order.
//!
//! The proof ranks every order by its position in lexicographic order (the
//! rank counts, position by position, the later items that are smaller) and
//! shows that the next arrangement has the next rank.

use vstd::prelude::*;
use crate::permutation::{
    agree_below, ascending_from, descending_from, identity_order, is_arrangement_of,
    is_last_arrangement, is_next_arrangement, lex_lt, lex_lt_at, lemma_arrangement_of_identity,
    lemma_item_found_after, lemma_suffix_multiset, lemma_swap_keeps_items,
};

verus! {

broadcast use vstd::seq_lib::group_to_multiset_ensures;

// ---------------------------------------------------------------------------
// Lexicographic order: asymmetric and total.
// ---------------------------------------------------------------------------

/// The first position at or after `from` where `a` and `b` differ, given
/// that they agree below `from` and differ somewhere.
proof fn lemma_first_difference(a: Seq<u8>, b: Seq<u8>, from: int) -> (k: int)
    requires
        a.len() == b.len(),
        0 <= from <= a.len(),
        agree_below(a, b, from),
        exists|m: int| from <= m < a.len() && a[m] != b[m],
    ensures
        from <= k < a.len(),
        agree_below(a, b, k),
        a[k] != b[k],
    decreases a.len() - from,
{
    if a[from] != b[from] {
        from
    } else {
        assert(agree_below(a, b, from + 1));
        let m = choose|m: int| from <= m < a.len() && a[m] != b[m];
        assert(from + 1 <= m);
        lemma_first_difference(a, b, from + 1)
    }
}

proof fn lemma_lex_total(a: Seq<u8>, b: Seq<u8>)
    requires
        a.len() == b.len(),
        a != b,
    ensures
        lex_lt(a, b) || lex_lt(b, a),
{
    if forall|m: int| 0 <= m < a.len() ==> a[m] == b[m] {
        assert(a =~= b);
    }
    let k = lemma_first_difference(a, b, 0);
    if a[k] < b[k] {
        assert(lex_lt_at(a, b, k));
    } else {
        assert(lex_lt_at(b, a, k));
    }
}

/// There is at most one next arrangement.
pub proof fn law_next_arrangement_is_unique(s: Seq<u8>, r1: Seq<u8>, r2: Seq<u8>)
    requires
        is_next_arrangement(s, r1),
        is_next_arrangement(s, r2),
    ensures
        r1 == r2,
{
    if r1 != r2 {
        lemma_lex_total(r1, r2);
        assert(!lex_lt(r1, r2));
        assert(!lex_lt(r2, r1));
    }
}

// ---------------------------------------------------------------------------
// Counting smaller items.
// ---------------------------------------------------------------------------

/// The number of items of `q` smaller than `x`.
pub open spec fn count_less(q: Seq<u8>, x: u8) -> nat
    decreases q.len(),
{
    if q.len() == 0 {
        0
    } else {
        count_less(q.drop_last(), x) + if q.last() < x {
            1nat
        } else {
            0nat
        }
    }
}

proof fn lemma_count_less_remove(q: Seq<u8>, j: int, x: u8)
    requires
        0 <= j < q.len(),
    ensures
        count_less(q, x) == count_less(q.remove(j), x) + if q[j] < x {
            1nat
        } else {
            0nat
        },
    decreases q.len(),
{
    if j == q.len() - 1 {
        assert(q.remove(j) =~= q.drop_last());
    } else {
        assert(q.remove(j).drop_last() =~= q.drop_last().remove(j));
        assert(q.remove(j).last() == q.last());
        lemma_count_less_remove(q.drop_last(), j, x);
    }
}

proof fn lemma_count_less_first(q: Seq<u8>, x: u8)
    requires
        q.len() > 0,
    ensures
        count_less(q, x) == count_less(q.drop_first(), x) + if q[0] < x {
            1nat
        } else {
            0nat
        },
{
    lemma_count_less_remove(q, 0, x);
    assert(q.remove(0) =~= q.drop_first());
}

proof fn lemma_count_less_arrangement(u: Seq<u8>, v: Seq<u8>, x: u8)
    requires
        u.to_multiset() == v.to_multiset(),
    ensures
        count_less(u, x) == count_less(v, x),
    decreases u.len(),
{
    if u.len() == 0 {
        assert(u.to_multiset().len() == 0);
        assert(v.to_multiset().len() == v.len());
        assert(v.len() == 0);
    } else {
        let a = u.last();
        assert(u.contains(a)) by {
            assert(u[u.len() - 1] == a);
        }
        assert(u.to_multiset().count(a) > 0);
        assert(v.contains(a));
        let j = choose|j: int| 0 <= j < v.len() && v[j] == a;
        assert(u.remove(u.len() - 1) =~= u.drop_last());
        assert(u.drop_last().to_multiset() == u.to_multiset().remove(a));
        assert(v.remove(j).to_multiset() == v.to_multiset().remove(a));
        lemma_count_less_arrangement(u.drop_last(), v.remove(j), x);
        lemma_count_less_remove(v, j, x);
    }
}

proof fn lemma_count_less_bounded(q: Seq<u8>, x: u8)
    ensures
        count_less(q, x) <= q.len(),
    decreases q.len(),
{
    if q.len() > 0 {
        lemma_count_less_bounded(q.drop_last(), x);
    }
}

proof fn lemma_count_less_all(q: Seq<u8>, x: u8)
    requires
        forall|m: int| 0 <= m < q.len() ==> q[m] < x,
    ensures
        count_less(q, x) == q.len(),
    decreases q.len(),
{
    if q.len() > 0 {
        lemma_count_less_all(q.drop_last(), x);
    }
}

proof fn lemma_count_less_none(q: Seq<u8>, x: u8)
    requires
        forall|m: int| 0 <= m < q.len() ==> q[m] >= x,
    ensures
        count_less(q, x) == 0,
    decreases q.len(),
{
    if q.len() > 0 {
        lemma_count_less_none(q.drop_last(), x);
    }
}

/// With no item in `a..b`, as many items are below `a` as below `b`.
proof fn lemma_count_less_gap(q: Seq<u8>, a: u8, b: u8)
    requires
        a <= b,
        forall|m: int| 0 <= m < q.len() ==> !(a <= #[trigger] q[m] < b),
    ensures
        count_less(q, a) == count_less(q, b),
    decreases q.len(),
{
    if q.len() > 0 {
        lemma_count_less_gap(q.drop_last(), a, b);
    }
}

proof fn lemma_count_less_monotone(q: Seq<u8>, a: u8, b: u8)
    requires
        a <= b,
    ensures
        count_less(q, a) <= count_less(q, b),
    decreases q.len(),
{
    if q.len() > 0 {
        lemma_count_less_monotone(q.drop_last(), a, b);
    }
}

/// An item of `q` in `a..b` makes more items of `q` smaller than `b` than `a`.
proof fn lemma_count_less_strict(q: Seq<u8>, a: u8, b: u8, j: int)
    requires
        0 <= j < q.len(),
        a <= q[j] < b,
    ensures
        count_less(q, a) + 1 <= count_less(q, b),
{
    lemma_count_less_remove(q, j, a);
    lemma_count_less_remove(q, j, b);
    lemma_count_less_monotone(q.remove(j), a, b);
}

// ---------------------------------------------------------------------------
// Ranks.
// ---------------------------------------------------------------------------

/// `n!`
pub open spec fn factorial(n: nat) -> nat
    decreases n,
{
    if n == 0 {
        1
    } else {
        n * factorial((n - 1) as nat)
    }
}

/// How many items after position `i` of `t` are smaller than `t[i]`.
pub open spec fn smaller_after(t: Seq<u8>, i: int) -> nat {
    count_less(t.subrange(i + 1int, t.len() as int), t[i])
}

/// The part of the rank of `t` due to positions `i..t.len()`.
pub open spec fn rank_from(t: Seq<u8>, i: nat) -> nat
    decreases t.len() - i,
{
    if i >= t.len() {
        0
    } else {
        smaller_after(t, i as int) * factorial((t.len() - 1 - i) as nat) + rank_from(t, i + 1)
    }
}

/// The position of the order `t` among the orders of its items, in
/// lexicographic order, counting from 0.
pub open spec fn rank(t: Seq<u8>) -> nat {
    rank_from(t, 0)
}

proof fn lemma_factorial_positive(n: nat)
    ensures
        factorial(n) >= 1,
    decreases n,
{
    if n > 0 {
        lemma_factorial_positive((n - 1) as nat);
        assert(n * factorial((n - 1) as nat) >= 1) by (nonlinear_arith)
            requires
                n >= 1,
                factorial((n - 1) as nat) >= 1,
        ;
    }
}

proof fn lemma_rank_from_bounded(t: Seq<u8>, i: nat)
    requires
        i <= t.len(),
    ensures
        rank_from(t, i) + 1 <= factorial((t.len() - i) as nat),
    decreases t.len() - i,
{
    if i < t.len() {
        lemma_rank_from_bounded(t, i + 1);
        let m = (t.len() - 1 - i) as nat;
        let f = factorial(m);
        let c = smaller_after(t, i as int);
        lemma_count_less_bounded(t.subrange(i + 1int, t.len() as int), t[i as int]);
        assert(c <= m);
        assert(factorial(m + 1) == (m + 1) * f);
        assert((t.len() - i) as nat == m + 1);
        assert(c * f + f <= (m + 1) * f) by (nonlinear_arith)
            requires
                c <= m,
        ;
    } else {
        assert(factorial(0) == 1);
    }
}

proof fn lemma_rank_from_descending(t: Seq<u8>, i: nat)
    requires
        i <= t.len(),
        descending_from(t, i as int),
        t.no_duplicates(),
    ensures
        rank_from(t, i) + 1 == factorial((t.len() - i) as nat),
    decreases t.len() - i,
{
    if i < t.len() {
        lemma_rank_from_descending(t, i + 1);
        let m = (t.len() - 1 - i) as nat;
        let q = t.subrange(i + 1int, t.len() as int);
        assert forall|p: int| 0 <= p < q.len() implies q[p] < t[i as int] by {
            assert(q[p] == t[i + 1 + p]);
            assert(t[i as int] >= t[i + 1 + p]);
            assert(t[i as int] != t[i + 1 + p]);
        }
        lemma_count_less_all(q, t[i as int]);
        assert(factorial(m + 1) == (m + 1) * factorial(m));
        assert((t.len() - i) as nat == m + 1);
        assert(m * factorial(m) + factorial(m) == (m + 1) * factorial(m)) by (nonlinear_arith);
    } else {
        assert(factorial(0) == 1);
    }
}

proof fn lemma_rank_from_ascending(t: Seq<u8>, i: nat)
    requires
        i <= t.len(),
        ascending_from(t, i as int),
    ensures
        rank_from(t, i) == 0,
    decreases t.len() - i,
{
    if i < t.len() {
        lemma_rank_from_ascending(t, i + 1);
        let q = t.subrange(i + 1int, t.len() as int);
        assert forall|p: int| 0 <= p < q.len() implies q[p] >= t[i as int] by {
            assert(q[p] == t[i + 1 + p]);
        }
        lemma_count_less_none(q, t[i as int]);
        assert(smaller_after(t, i as int) == 0);
        assert(rank_from(t, i) == smaller_after(t, i as int) * factorial((t.len() - 1 - i) as nat)
            + rank_from(t, i + 1));
    }
}

/// Two arrangements that agree below `k` get the same share of their rank
/// from the positions below `k`.
proof fn lemma_rank_common_prefix(t: Seq<u8>, u: Seq<u8>, k: nat, i: nat)
    requires
        t.len() == u.len(),
        i <= k <= t.len(),
        is_arrangement_of(u, t),
        agree_below(t, u, k as int),
    ensures
        rank_from(t, i) - rank_from(t, k) == rank_from(u, i) - rank_from(u, k),
        rank_from(t, i) >= rank_from(t, k),
        rank_from(u, i) >= rank_from(u, k),
    decreases k - i,
{
    if i < k {
        lemma_rank_common_prefix(t, u, k, i + 1);
        assert(agree_below(t, u, i + 1int));
        lemma_suffix_multiset(t, u, i + 1int);
        lemma_count_less_arrangement(
            t.subrange(i + 1int, t.len() as int),
            u.subrange(i + 1int, u.len() as int),
            t[i as int],
        );
        assert(smaller_after(t, i as int) == smaller_after(u, i as int));
    }
}

/// The number of smaller items after position `k`, counted over the items
/// from `k` on.
proof fn lemma_smaller_after_from(t: Seq<u8>, k: int)
    requires
        0 <= k < t.len(),
    ensures
        smaller_after(t, k) == count_less(t.subrange(k, t.len() as int), t[k]),
{
    let q = t.subrange(k, t.len() as int);
    lemma_count_less_first(q, t[k]);
    assert(q.drop_first() =~= t.subrange(k + 1, t.len() as int));
}

/// Rank grows with lexicographic order.
proof fn lemma_rank_increases(t: Seq<u8>, u: Seq<u8>)
    requires
        lex_lt(t, u),
        is_arrangement_of(u, t),
    ensures
        rank(t) < rank(u),
{
    let k = choose|k: int| #[trigger] lex_lt_at(t, u, k);
    let n = t.len();
    lemma_rank_common_prefix(t, u, k as nat, 0);
    lemma_suffix_multiset(t, u, k);
    let mt = t.subrange(k, n as int);
    let mu = u.subrange(k, n as int);
    lemma_smaller_after_from(t, k);
    lemma_smaller_after_from(u, k);
    lemma_count_less_arrangement(mt, mu, u[k]);
    assert(mt[0] == t[k]);
    lemma_count_less_strict(mt, t[k], u[k], 0);
    let ct = smaller_after(t, k);
    let cu = smaller_after(u, k);
    assert(ct + 1 <= cu);
    let m = (n - 1 - k) as nat;
    let f = factorial(m);
    lemma_rank_from_bounded(t, (k + 1) as nat);
    assert((n - (k + 1)) as nat == m);
    assert(rank_from(t, k as nat) == ct * f + rank_from(t, (k + 1) as nat));
    assert(rank_from(u, k as nat) == cu * f + rank_from(u, (k + 1) as nat));
    assert(ct * f + f <= cu * f) by (nonlinear_arith)
        requires
            ct + 1 <= cu,
    ;
}


// ---------------------------------------------------------------------------
// The shape of the next arrangement.
// ---------------------------------------------------------------------------

/// Exchanging the items at `a` and `b`.
pub open spec fn swapped(s: Seq<u8>, a: int, b: int) -> Seq<u8> {
    s.update(a, s[b]).update(b, s[a])
}

/// Where `s[a] < s[b]`, some neighbours `s[p] < s[p + 1]` rise between
/// positions `a` and `b`.
proof fn lemma_ascent(s: Seq<u8>, a: int, b: int) -> (p: int)
    requires
        0 <= a <= b < s.len(),
        s[a] < s[b],
    ensures
        a <= p < b,
        s[p] < s[p + 1],
    decreases b - a,
{
    if s[a] < s[a + 1] {
        a
    } else {
        lemma_ascent(s, a + 1, b)
    }
}

/// Where `s[a] > s[b]`, some neighbours `s[p] > s[p + 1]` fall between
/// positions `a` and `b`.
proof fn lemma_descent(s: Seq<u8>, a: int, b: int) -> (p: int)
    requires
        0 <= a <= b < s.len(),
        s[a] > s[b],
    ensures
        a <= p < b,
        s[p] > s[p + 1],
    decreases b - a,
{
    if s[a] > s[a + 1] {
        a
    } else {
        lemma_descent(s, a + 1, b)
    }
}

/// The last arrangement is in non-increasing order.
proof fn lemma_last_is_descending(s: Seq<u8>)
    requires
        is_last_arrangement(s),
    ensures
        descending_from(s, 0),
{
    if !descending_from(s, 0) {
        let (a, b) = choose|a: int, b: int| 0 <= a <= b < s.len() && !(s[a] >= s[b]);
        let p = lemma_ascent(s, a, b);
        let t = swapped(s, p, p + 1);
        lemma_swap_keeps_items(s, p, p + 1);
        assert(lex_lt_at(s, t, p));
        assert(lex_lt(s, t));
    }
}

/// The next arrangement keeps the items before the first position where it
/// differs, puts there the smallest larger item that followed, and puts the
/// rest in non-decreasing order; the items that followed that position were
/// in non-increasing order. So, when no item repeats, its rank is one more.
proof fn lemma_next_rank(s: Seq<u8>, r: Seq<u8>)
    requires
        is_next_arrangement(s, r),
        s.no_duplicates(),
    ensures
        rank(r) == rank(s) + 1,
{
    let n = s.len();
    let i = choose|i: int| #[trigger] lex_lt_at(s, r, i);
    // The items of s after i are in non-increasing order.
    if !descending_from(s, i + 1) {
        let (a, b) = choose|a: int, b: int| i + 1 <= a <= b < n && !(s[a] >= s[b]);
        let p = lemma_ascent(s, a, b);
        let t = swapped(s, p, p + 1);
        lemma_swap_keeps_items(s, p, p + 1);
        assert(lex_lt_at(s, t, p));
        assert(lex_lt_at(t, r, i));
        assert(lex_lt(t, r));
    }
    // The items of r after i are in non-decreasing order.
    if !ascending_from(r, i + 1) {
        let (a, b) = choose|a: int, b: int| i + 1 <= a <= b < n && !(r[a] <= r[b]);
        let p = lemma_descent(r, a, b);
        let t = swapped(r, p, p + 1);
        lemma_swap_keeps_items(r, p, p + 1);
        assert(is_arrangement_of(t, s));
        assert(lex_lt_at(t, r, p));
        assert(lex_lt_at(s, t, i));
        assert(lex_lt(s, t));
        assert(lex_lt(t, r));
    }
    // No item of s after i lies strictly between s[i] and r[i].
    assert forall|q: int| i < q < n implies !(s[i] < #[trigger] s[q] && s[q] < r[i]) by {
        if s[i] < s[q] && s[q] < r[i] {
            let t = swapped(s, i, q);
            lemma_swap_keeps_items(s, i, q);
            assert(lex_lt_at(s, t, i));
            assert(lex_lt_at(t, r, i));
            assert(lex_lt(s, t));
            assert(lex_lt(t, r));
        }
    }
    // The share of the rank from the positions before i is the same.
    lemma_rank_common_prefix(s, r, i as nat, 0);
    // At i, one more item is smaller.
    lemma_suffix_multiset(s, r, i);
    let ms = s.subrange(i, n as int);
    let mr = r.subrange(i, n as int);
    lemma_smaller_after_from(s, i);
    lemma_smaller_after_from(r, i);
    lemma_count_less_arrangement(ms, mr, r[i]);
    let rest = ms.drop_first();
    assert forall|m: int| 0 <= m < rest.len() implies !(s[i] <= #[trigger] rest[m] < r[i]) by {
        assert(rest[m] == s[i + 1 + m]);
        assert(s[i] != s[i + 1 + m]);
    }
    lemma_count_less_gap(rest, s[i], r[i]);
    lemma_count_less_first(ms, s[i]);
    lemma_count_less_first(ms, r[i]);
    let c = smaller_after(s, i);
    assert(smaller_after(r, i) == c + 1);
    // After i, s contributes all it can and r nothing.
    lemma_rank_from_descending(s, (i + 1) as nat);
    lemma_rank_from_ascending(r, (i + 1) as nat);
    let f = factorial((n - 1 - i) as nat);
    assert((n - (i + 1)) as nat == (n - 1 - i) as nat);
    assert(rank_from(s, i as nat) == c * f + rank_from(s, (i + 1) as nat));
    assert(rank_from(r, i as nat) == (c + 1) * f + rank_from(r, (i + 1) as nat));
    assert((c + 1) * f == c * f + f) by (nonlinear_arith);
}

/// Among the arrangements after `s`, one of smallest rank.
proof fn lemma_least_rank_after(s: Seq<u8>, t0: Seq<u8>) -> (best: Seq<u8>)
    requires
        is_arrangement_of(t0, s),
        lex_lt(s, t0),
    ensures
        is_arrangement_of(best, s),
        lex_lt(s, best),
        forall|t: Seq<u8>| is_arrangement_of(t, s) && lex_lt(s, t) ==> rank(best) <= #[trigger] rank(t),
    decreases rank(t0),
{
    if exists|t: Seq<u8>| is_arrangement_of(t, s) && lex_lt(s, t) && #[trigger] rank(t) < rank(t0) {
        let t = choose|t: Seq<u8>| is_arrangement_of(t, s) && lex_lt(s, t) && #[trigger] rank(t) < rank(t0);
        lemma_least_rank_after(s, t)
    } else {
        t0
    }
}

/// An arrangement that is not the last has a next arrangement.
proof fn lemma_next_exists(s: Seq<u8>)
    requires
        !is_last_arrangement(s),
    ensures
        exists|r: Seq<u8>| is_next_arrangement(s, r),
{
    let t0 = choose|t: Seq<u8>| is_arrangement_of(t, s) && #[trigger] lex_lt(s, t);
    let best = lemma_least_rank_after(s, t0);
    assert forall|t: Seq<u8>| is_arrangement_of(t, s) && lex_lt(s, t) implies !#[trigger] lex_lt(t, best) by {
        if lex_lt(t, best) {
            lemma_rank_increases(t, best);
        }
    }
    assert(is_next_arrangement(s, best));
}

// ---------------------------------------------------------------------------
// The enumeration.
// ---------------------------------------------------------------------------

/// The next arrangement of `s` (meaningful when `s` is not the last one).
pub open spec fn next_of(s: Seq<u8>) -> Seq<u8> {
    choose|r: Seq<u8>| is_next_arrangement(s, r)
}

/// The order reached from `0, 1, .., n - 1` after taking the next
/// arrangement `k` times.
pub open spec fn order_at(n: nat, k: nat) -> Seq<u8>
    decreases k,
{
    if k == 0 {
        identity_order(n)
    } else {
        next_of(order_at(n, (k - 1) as nat))
    }
}

proof fn lemma_identity_rank(n: nat)
    requires
        n <= 256,
    ensures
        rank(identity_order(n)) == 0,
        identity_order(n).no_duplicates(),
{
    let id = identity_order(n);
    assert(ascending_from(id, 0));
    lemma_rank_from_ascending(id, 0);
}

proof fn lemma_orders_step(n: nat, k: nat)
    requires
        n <= 256,
        k < factorial(n),
    ensures
        is_arrangement_of(order_at(n, k), identity_order(n)),
        rank(order_at(n, k)) == k,
        k + 1 < factorial(n) ==> is_next_arrangement(order_at(n, k), order_at(n, k + 1)),
    decreases k,
{
    let id = identity_order(n);
    if k == 0 {
        lemma_identity_rank(n);
    } else {
        lemma_orders_step(n, (k - 1) as nat);
        let c = order_at(n, (k - 1) as nat);
        assert(order_at(n, k) == next_of(c));
        assert(is_arrangement_of(order_at(n, k), id));
        lemma_arrangement_of_identity(c, n);
        lemma_next_rank(c, order_at(n, k));
    }
    if k + 1 < factorial(n) {
        let c = order_at(n, k);
        lemma_arrangement_of_identity(c, n);
        assert(id.len() == n);
        if is_last_arrangement(c) {
            lemma_last_is_descending(c);
            lemma_rank_from_descending(c, 0);
        }
        lemma_next_exists(c);
        assert(order_at(n, k + 1) == next_of(c));
    }
}

/// Starting from the ascending order `0, 1, .., n - 1` and taking the next
/// arrangement again and again, as successive calls of `next_permutation`
/// do, goes through exactly `n!` orders: the `k`-th of them (from 0) is the
/// `k`-th order of the players in lexicographic order, each but the last is
/// followed by the next arrangement, the last is the last arrangement, and
/// every order of the players is among them.
pub proof fn law_orders_enumerated(n: nat)
    requires
        n <= 256,
    ensures
        forall|k: nat|
            k < factorial(n) ==> is_arrangement_of(#[trigger] order_at(n, k), identity_order(n))
                && rank(order_at(n, k)) == k,
        forall|k: nat|
            k + 1 < factorial(n) ==> is_next_arrangement(#[trigger] order_at(n, k), order_at(n, k + 1)),
        is_last_arrangement(order_at(n, (factorial(n) - 1) as nat)),
        forall|t: Seq<u8>|
            is_arrangement_of(t, identity_order(n)) ==> exists|k: nat|
                k < factorial(n) && #[trigger] order_at(n, k) == t,
{
    let id = identity_order(n);
    lemma_factorial_positive(n);
    assert forall|k: nat| k < factorial(n) implies is_arrangement_of(#[trigger] order_at(n, k), id)
        && rank(order_at(n, k)) == k by {
        lemma_orders_step(n, k);
    }
    assert forall|k: nat| k + 1 < factorial(n) implies is_next_arrangement(
        #[trigger] order_at(n, k),
        order_at(n, k + 1),
    ) by {
        lemma_orders_step(n, k);
    }
    let last_k = (factorial(n) - 1) as nat;
    let last = order_at(n, last_k);
    lemma_orders_step(n, last_k);
    if !is_last_arrangement(last) {
        lemma_next_exists(last);
        let r = next_of(last);
        lemma_arrangement_of_identity(last, n);
        lemma_next_rank(last, r);
        lemma_rank_from_bounded(r, 0);
        assert(r.len() == n) by {
            assert(r.to_multiset().len() == r.len());
            assert(last.to_multiset().len() == last.len());
        }
    }
    assert forall|t: Seq<u8>| is_arrangement_of(t, id) implies exists|k: nat|
        k < factorial(n) && #[trigger] order_at(n, k) == t by {
        lemma_arrangement_of_identity(t, n);
        lemma_rank_from_bounded(t, 0);
        let q = rank(t);
        lemma_orders_step(n, q);
        let c = order_at(n, q);
        lemma_arrangement_of_identity(c, n);
        if c != t {
            lemma_lex_total(c, t);
            if lex_lt(c, t) {
                lemma_rank_increases(c, t);
            } else {
                lemma_rank_increases(t, c);
            }
        }
    }
}

} // verus!
