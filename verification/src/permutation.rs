//! Permutations of player orders: the lexicographic successor of an order
//! (used to enumerate every order of the players) and a seeded random order.

use vstd::prelude::*;
use crate::enumeration::{law_next_arrangement_is_unique, next_of};

verus! {

broadcast use vstd::seq_lib::group_to_multiset_ensures;

// ---------------------------------------------------------------------------
// Lexicographic order on sequences of equal length.
// ---------------------------------------------------------------------------

/// `a` and `b` agree on every position below `k`.
pub open spec fn agree_below(a: Seq<u8>, b: Seq<u8>, k: int) -> bool {
    forall|m: int| 0 <= m < k ==> a[m] == b[m]
}

/// Position `k` is the first position where `a` and `b` differ, and there
/// `a` is smaller.
pub open spec fn lex_lt_at(a: Seq<u8>, b: Seq<u8>, k: int) -> bool {
    &&& 0 <= k < a.len()
    &&& agree_below(a, b, k)
    &&& a[k] < b[k]
}

/// `a` comes strictly before `b` in lexicographic order (equal lengths).
pub open spec fn lex_lt(a: Seq<u8>, b: Seq<u8>) -> bool {
    a.len() == b.len() && exists|k: int| #[trigger] lex_lt_at(a, b, k)
}

/// `t` is an arrangement of the items of `s`.
pub open spec fn is_arrangement_of(t: Seq<u8>, s: Seq<u8>) -> bool {
    t.to_multiset() == s.to_multiset()
}

/// `r` is the next arrangement of `s` in lexicographic order: an arrangement
/// of the same items, after `s`, with no arrangement strictly between them.
pub open spec fn is_next_arrangement(s: Seq<u8>, r: Seq<u8>) -> bool {
    &&& is_arrangement_of(r, s)
    &&& lex_lt(s, r)
    &&& forall|t: Seq<u8>| is_arrangement_of(t, s) && lex_lt(s, t) ==> !#[trigger] lex_lt(t, r)
}

/// No arrangement of the items of `s` comes after `s`.
pub open spec fn is_last_arrangement(s: Seq<u8>) -> bool {
    forall|t: Seq<u8>| is_arrangement_of(t, s) ==> !#[trigger] lex_lt(s, t)
}

/// The items of `s` at positions `lo..s.len()` are in non-increasing order.
pub open spec fn descending_from(s: Seq<u8>, lo: int) -> bool {
    forall|a: int, b: int| lo <= a <= b < s.len() ==> s[a] >= s[b]
}

/// The items of `s` at positions `lo..s.len()` are in non-decreasing order.
pub open spec fn ascending_from(s: Seq<u8>, lo: int) -> bool {
    forall|a: int, b: int| lo <= a <= b < s.len() ==> s[a] <= s[b]
}

// ---------------------------------------------------------------------------
// Lemmas on arrangements.
// ---------------------------------------------------------------------------

/// Two arrangements of the same items that agree below `k` hold the same
/// items from `k` on.
pub(crate) proof fn lemma_suffix_multiset(a: Seq<u8>, b: Seq<u8>, k: int)
    requires
        a.len() == b.len(),
        0 <= k <= a.len(),
        a.to_multiset() == b.to_multiset(),
        agree_below(a, b, k),
    ensures
        a.subrange(k, a.len() as int).to_multiset() == b.subrange(k, b.len() as int).to_multiset(),
{
    broadcast use vstd::seq_lib::lemma_multiset_commutative;
    broadcast use vstd::multiset::group_multiset_axioms;

    let pa = a.subrange(0, k);
    let pb = b.subrange(0, k);
    let sa = a.subrange(k, a.len() as int);
    let sb = b.subrange(k, b.len() as int);
    assert(pa =~= pb);
    assert(a =~= pa + sa);
    assert(b =~= pb + sb);
    assert((pa + sa).to_multiset() =~= pa.to_multiset().add(sa.to_multiset()));
    assert((pb + sb).to_multiset() =~= pb.to_multiset().add(sb.to_multiset()));
    assert forall|v: u8| sa.to_multiset().count(v) == sb.to_multiset().count(v) by {
        assert(a.to_multiset().count(v) == pa.to_multiset().count(v) + sa.to_multiset().count(v));
        assert(b.to_multiset().count(v) == pb.to_multiset().count(v) + sb.to_multiset().count(v));
    }
    assert(sa.to_multiset() =~= sb.to_multiset());
}

/// If `u` holds the item `t[k]` of an arrangement `t` that agrees with it
/// below `k`, that item occurs in `u` at some position `k` or later.
pub(crate) proof fn lemma_item_found_after(u: Seq<u8>, t: Seq<u8>, k: int) -> (m: int)
    requires
        u.len() == t.len(),
        0 <= k < u.len(),
        is_arrangement_of(t, u),
        agree_below(u, t, k),
    ensures
        k <= m < u.len(),
        u[m] == t[k],
{
    lemma_suffix_multiset(u, t, k);
    let su = u.subrange(k, u.len() as int);
    let st = t.subrange(k, t.len() as int);
    assert(st[0] == t[k]);
    assert(st.contains(t[k]));
    assert(st.to_multiset().count(t[k]) > 0);
    assert(su.to_multiset().count(t[k]) > 0);
    assert(su.contains(t[k]));
    let q = choose|q: int| 0 <= q < su.len() && su[q] == t[k];
    k + q
}

/// An arrangement that agrees with `u` below `k`, where `u` is descending
/// from some position at most `k`, holds at `k` an item no larger than `u[k]`.
proof fn lemma_descending_is_largest(u: Seq<u8>, t: Seq<u8>, lo: int, k: int)
    requires
        u.len() == t.len(),
        0 <= lo <= k < u.len(),
        descending_from(u, lo),
        is_arrangement_of(t, u),
        agree_below(u, t, k),
    ensures
        t[k] <= u[k],
{
    let m = lemma_item_found_after(u, t, k);
    assert(u[k] >= u[m]);
}

/// An arrangement that agrees with `u` below `k`, where `u` is ascending
/// from some position at most `k`, holds at `k` an item no smaller than `u[k]`.
proof fn lemma_ascending_is_smallest(u: Seq<u8>, t: Seq<u8>, lo: int, k: int)
    requires
        u.len() == t.len(),
        0 <= lo <= k < u.len(),
        ascending_from(u, lo),
        is_arrangement_of(t, u),
        agree_below(u, t, k),
    ensures
        t[k] >= u[k],
{
    let m = lemma_item_found_after(u, t, k);
    assert(u[k] <= u[m]);
}

/// A sequence in non-increasing order is the last arrangement of its items.
proof fn lemma_descending_is_last(s: Seq<u8>)
    requires
        descending_from(s, 0),
    ensures
        is_last_arrangement(s),
{
    assert forall|t: Seq<u8>| is_arrangement_of(t, s) implies !#[trigger] lex_lt(s, t) by {
        if lex_lt(s, t) {
            let k = choose|k: int| #[trigger] lex_lt_at(s, t, k);
            lemma_descending_is_largest(s, t, 0, k);
        }
    }
}

/// Exchanging two items keeps the items of a sequence.
pub(crate) proof fn lemma_swap_keeps_items(s: Seq<u8>, a: int, b: int)
    requires
        0 <= a < s.len(),
        0 <= b < s.len(),
    ensures
        s.update(a, s[b]).update(b, s[a]).to_multiset() == s.to_multiset(),
{
    broadcast use vstd::multiset::group_multiset_axioms;

    let s1 = s.update(a, s[b]);
    assert(s1.to_multiset() == s.to_multiset().insert(s[b]).remove(s[a]));
    assert(s1.update(b, s[a]).to_multiset() == s1.to_multiset().insert(s[a]).remove(s1[b]));
    if a == b {
        assert(s1 =~= s);
        assert(s1.update(b, s[a]) =~= s);
    } else {
        assert(s1[b] == s[b]);
        assert(s1.update(b, s[a]).to_multiset() =~= s.to_multiset());
    }
}

/// Exchange the items at positions `a` and `b`.
fn swap_items(v: &mut [u8], a: usize, b: usize)
    requires
        a < old(v)@.len(),
        b < old(v)@.len(),
    ensures
        final(v)@ == old(v)@.update(a as int, old(v)@[b as int]).update(b as int, old(v)@[a as int]),
        final(v)@.to_multiset() == old(v)@.to_multiset(),
{
    proof {
        lemma_swap_keeps_items(v@, a as int, b as int);
    }
    let x = v[a];
    let y = v[b];
    v[a] = y;
    v[b] = x;
}

/// Rearranges `perm` into the next arrangement of its items in lexicographic
/// order and returns `true`; returns `false`, leaving `perm` unchanged, when
/// `perm` is already the last arrangement.
pub fn next_permutation(perm: &mut [u8]) -> (advanced: bool)
    ensures
        advanced ==> is_next_arrangement(old(perm)@, final(perm)@),
        advanced ==> final(perm)@ == next_of(old(perm)@),
        !advanced ==> final(perm)@ == old(perm)@ && is_last_arrangement(old(perm)@),
{
    let ghost s = perm@;
    let n = perm.len();
    if n < 2 {
        proof {
            lemma_descending_is_last(s);
        }
        return false;
    }
    // Find the largest i such that perm[i] < perm[i + 1].
    let mut i = n - 2;
    while perm[i] >= perm[i + 1]
        invariant
            perm@ == s,
            n == s.len(),
            n >= 2,
            i < n - 1,
            descending_from(s, i + 1),
        decreases i,
    {
        if i == 0 {
            proof {
                assert(descending_from(s, 0));
                lemma_descending_is_last(s);
            }
            return false;
        }
        i -= 1;
    }
    // Find the largest j such that perm[i] < perm[j].
    let mut j = n - 1;
    while perm[i] >= perm[j]
        invariant
            perm@ == s,
            n == s.len(),
            i < n - 1,
            i < j < n,
            s[i as int] < s[i + 1],
            forall|m: int| j < m < n ==> s[m] <= s[i as int],
        decreases j,
    {
        j -= 1;
    }
    let ghost pivot = i as int;
    let ghost sj = j as int;
    swap_items(perm, i, j);
    let ghost s1 = perm@;
    proof {
        // After the exchange, the items after the pivot are still descending.
        assert(descending_from(s1, pivot + 1)) by {
            assert forall|a: int, b: int| pivot + 1 <= a <= b < n implies s1[a] >= s1[b] by {
                if a == sj {
                    assert(s1[a] == s[pivot]);
                    if b > sj {
                        assert(s1[b] == s[b]);
                    }
                } else if b == sj {
                    assert(s1[b] == s[pivot]);
                    assert(s1[a] == s[a]);
                    assert(s[a] >= s[sj]);
                } else {
                    assert(s1[a] == s[a]);
                    assert(s1[b] == s[b]);
                }
            }
        }
    }
    // Reverse the items after the pivot.
    let mut lo = i + 1;
    let mut hi = n - 1;
    while lo < hi
        invariant
            perm@.len() == n,
            n == s1.len(),
            0 <= pivot,
            pivot + 1 <= lo,
            lo <= hi + 1,
            hi < n,
            lo + hi == pivot + n,
            perm@.to_multiset() == s1.to_multiset(),
            forall|m: int| pivot + 1 <= m < lo ==> perm@[m] == s1[pivot + n - m],
            forall|m: int| hi < m < n ==> perm@[m] == s1[pivot + n - m],
            forall|m: int| lo <= m <= hi ==> perm@[m] == s1[m],
            forall|m: int| 0 <= m <= pivot ==> perm@[m] == s1[m],
        decreases n - lo,
    {
        let ghost before = perm@;
        swap_items(perm, lo, hi);
        proof {
            assert(perm@[lo as int] == s1[hi as int]);
            assert(perm@[hi as int] == s1[lo as int]);
            assert forall|m: int| pivot + 1 <= m < lo + 1 implies perm@[m] == s1[pivot + n - m] by {
                if m < lo {
                    assert(perm@[m] == before[m]);
                }
            }
            assert forall|m: int| hi - 1 < m < n implies perm@[m] == s1[pivot + n - m] by {
                if m > hi {
                    assert(perm@[m] == before[m]);
                }
            }
        }
        lo += 1;
        hi -= 1;
    }
    let ghost r = perm@;
    proof {
        assert forall|m: int| pivot < m < n implies r[m] == s1[pivot + n - m] by {
            if m < lo {
            } else if m > hi {
            } else {
                assert(pivot + n - m == m);
            }
        }
        assert(is_arrangement_of(r, s));
        assert forall|m: int| 0 <= m < pivot implies s[m] == r[m] by {
            assert(r[m] == s1[m]);
        }
        assert(r[pivot] == s1[pivot]);
        assert(agree_below(s, r, pivot));
        assert(r[pivot] == s[sj]);
        assert(ascending_from(r, pivot + 1)) by {
            assert forall|a: int, b: int| pivot + 1 <= a <= b < n implies r[a] <= r[b] by {
                assert(s1[pivot + n - b] >= s1[pivot + n - a]);
            }
        }
        assert(lex_lt_at(s, r, pivot));
        assert(lex_lt(s, r));
        assert forall|t: Seq<u8>| is_arrangement_of(t, s) && lex_lt(s, t) implies !#[trigger] lex_lt(
            t,
            r,
        ) by {
            let k = choose|k: int| #[trigger] lex_lt_at(s, t, k);
            if lex_lt(t, r) {
                let k2 = choose|k2: int| #[trigger] lex_lt_at(t, r, k2);
                if k < pivot {
                    if k2 < k {
                        assert(t[k2] == s[k2]);
                    } else if k2 == k {
                    } else {
                        assert(t[k] == r[k]);
                    }
                } else if k > pivot {
                    lemma_descending_is_largest(s, t, pivot + 1, k);
                } else {
                    // t[pivot] is an item of s after the pivot, larger than s[pivot].
                    let m = lemma_item_found_after(s, t, pivot);
                    assert(m > pivot);
                    assert(s[m] > s[pivot]);
                    assert(m <= sj);
                    assert(s[m] >= s[sj]);
                    assert(t[pivot] >= r[pivot]);
                    if k2 < pivot {
                        assert(t[k2] == s[k2]);
                    } else if k2 == pivot {
                    } else {
                        assert(agree_below(r, t, k2));
                        assert(is_arrangement_of(t, r));
                        lemma_ascending_is_smallest(r, t, pivot + 1, k2);
                    }
                }
            }
        }
        assert(is_next_arrangement(s, r));
        law_next_arrangement_is_unique(s, r, next_of(s));
    }
    true
}


// ---------------------------------------------------------------------------
// Seeded random orders.
// ---------------------------------------------------------------------------

/// Multiplier of the linear congruential generator.
pub const LCG_MULTIPLIER: u64 = 6364136223846793005u64;

/// Increment of the linear congruential generator.
pub const LCG_INCREMENT: u64 = 1442695040888963407u64;

/// One step of the generator: `state * LCG_MULTIPLIER + LCG_INCREMENT` modulo `2^64`.
pub open spec fn lcg_step(state: u64) -> u64 {
    ((state as int * LCG_MULTIPLIER as int + LCG_INCREMENT as int) % 0x1_0000_0000_0000_0000int) as u64
}

/// A linear congruential random number generator, reproducible from its seed.
#[derive(Clone)]
pub struct SimpleRng {
    state: u64,
}

impl SimpleRng {
    /// The current state of the generator.
    pub closed spec fn current(self) -> u64 {
        self.state
    }

    /// A generator seeded with `seed` (a zero seed is replaced by 1).
    pub fn new(seed: u64) -> (r: Self)
        ensures
            r.current() == if seed == 0 {
                1u64
            } else {
                seed
            },
    {
        Self { state: if seed == 0 { 1 } else { seed } }
    }

    /// Advances the generator by one step and returns the new state.
    pub fn next_u64(&mut self) -> (r: u64)
        ensures
            r == lcg_step(old(self).current()),
            final(self).current() == r,
    {
        let s = self.state;
        let p = s.wrapping_mul(LCG_MULTIPLIER);
        let r = p.wrapping_add(LCG_INCREMENT);
        proof {
            lemma_lcg_step(s, p, r);
        }
        self.state = r;
        r
    }

    /// Advances the generator by one step and returns the new state reduced
    /// modulo `bound`.
    pub fn next_usize(&mut self, bound: usize) -> (r: usize)
        requires
            bound > 0,
        ensures
            r == lcg_step(old(self).current()) % (bound as u64),
            r < bound,
            final(self).current() == lcg_step(old(self).current()),
    {
        let x = self.next_u64();
        (x % bound as u64) as usize
    }
}

proof fn lemma_lcg_step(s: u64, p: u64, r: u64)
    requires
        p == vstd::wrapping::u64_specs::wrapping_mul(s, LCG_MULTIPLIER),
        r == vstd::wrapping::u64_specs::wrapping_add(p, LCG_INCREMENT),
    ensures
        r == lcg_step(s),
{
    let m: int = 0x1_0000_0000_0000_0000int;
    let x: int = s as int * LCG_MULTIPLIER as int;
    assert(p as int == x % m);
    vstd::arithmetic::div_mod::lemma_add_mod_noop(x, LCG_INCREMENT as int, m);
    vstd::arithmetic::div_mod::lemma_mod_twice(LCG_INCREMENT as int, m);
    assert(LCG_INCREMENT as int % m == LCG_INCREMENT as int);
    if p as int + LCG_INCREMENT as int > u64::MAX {
        vstd::arithmetic::div_mod::lemma_mod_sub_multiples_vanish(p as int + LCG_INCREMENT as int, m);
        vstd::arithmetic::div_mod::lemma_small_mod((p as int + LCG_INCREMENT as int - m) as nat, m as nat);
    } else {
        vstd::arithmetic::div_mod::lemma_small_mod((p as int + LCG_INCREMENT as int) as nat, m as nat);
    }
}

/// The orders `0, 1, .., n - 1`.
pub open spec fn identity_order(n: nat) -> Seq<u8> {
    Seq::new(n, |k: int| k as u8)
}

/// The order of `n` items that the shuffle produces from `p` once positions
/// `0..i` are settled and the generator is in state `state`: for each position `i`
/// in turn, the item at `i` is exchanged with the item at
/// `i + next % (n - i)`, where `next` is the generator's next state.
pub open spec fn shuffle_from(p: Seq<u8>, i: nat, n: nat, state: u64) -> Seq<u8>
    decreases n - i,
{
    if i >= n {
        p
    } else {
        let next = lcg_step(state);
        let j = i + (next % ((n - i) as u64)) as int;
        shuffle_from(p.update(i as int, p[j]).update(j, p[i as int]), i + 1, n, next)
    }
}

/// The generator state after `k` steps from `state`.
pub open spec fn lcg_steps(state: u64, k: nat) -> u64
    decreases k,
{
    if k == 0 {
        state
    } else {
        lcg_steps(lcg_step(state), (k - 1) as nat)
    }
}

/// A random order of the players `0..n`, drawn with `rng` (a Fisher-Yates
/// shuffle).
pub fn random_permutation(n: u8, rng: &mut SimpleRng) -> (perm: Vec<u8>)
    ensures
        perm@ == shuffle_from(identity_order(n as nat), 0, n as nat, old(rng).current()),
        final(rng).current() == lcg_steps(old(rng).current(), n as nat),
        perm@.len() == n,
        is_arrangement_of(perm@, identity_order(n as nat)),
        perm@.no_duplicates(),
        forall|k: int| 0 <= k < n ==> perm@[k] < n,
        n > 0 ==> perm@[0] == (lcg_step(old(rng).current()) % (n as u64)) as u8,
{
    proof {
        if n > 0 {
            law_random_order_draws(n as nat, rng.current());
        }
    }
    let mut perm: Vec<u8> = Vec::new();
    let mut k: u8 = 0;
    while k < n
        invariant
            k <= n,
            perm@ == identity_order(k as nat),
        decreases n - k,
    {
        perm.push(k);
        proof {
            assert(perm@ =~= identity_order((k + 1) as nat));
        }
        k = k + 1;
    }
    let ghost ident = perm@;
    let ghost start = rng.current();
    let len = n as usize;
    let mut i: usize = 0;
    while i < len
        invariant
            len == n,
            i <= len,
            perm@.len() == len,
            ident == identity_order(n as nat),
            shuffle_from(perm@, i as nat, len as nat, rng.current()) == shuffle_from(ident, 0, len as nat, start),
            lcg_steps(start, i as nat) == rng.current(),
            is_arrangement_of(perm@, ident),
        decreases len - i,
    {
        let ghost st = rng.current();
        let ghost p = perm@;
        let j = i + rng.next_usize(len - i);
        swap_items(perm.as_mut_slice(), i, j);
        proof {
            lemma_lcg_steps_step(start, i as nat);
        }
        i = i + 1;
    }
    proof {
        assert(perm@ == shuffle_from(perm@, i as nat, len as nat, rng.current()));
        lemma_arrangement_of_identity(perm@, n as nat);
    }
    perm
}

proof fn lemma_lcg_steps_step(state: u64, k: nat)
    ensures
        lcg_steps(state, k + 1) == lcg_step(lcg_steps(state, k)),
    decreases k,
{
    if k > 0 {
        lemma_lcg_steps_step(lcg_step(state), (k - 1) as nat);
        assert(lcg_steps(state, k) == lcg_steps(lcg_step(state), (k - 1) as nat));
        assert(lcg_steps(state, k + 1) == lcg_steps(lcg_step(state), k));
    } else {
        assert(lcg_steps(lcg_step(state), 0) == lcg_step(state));
        assert(lcg_steps(state, 1) == lcg_steps(lcg_step(state), 0));
    }
}

/// An arrangement of `0..n` has no repeated item and only items below `n`.
pub(crate) proof fn lemma_arrangement_of_identity(p: Seq<u8>, n: nat)
    requires
        n <= 256,
        is_arrangement_of(p, identity_order(n)),
    ensures
        p.len() == n,
        p.no_duplicates(),
        forall|k: int| 0 <= k < n ==> p[k] < n,
{
    broadcast use vstd::multiset::group_multiset_axioms;

    let id = identity_order(n);
    assert(p.len() == p.to_multiset().len());
    assert(id.len() == id.to_multiset().len());
    assert(id.no_duplicates());
    id.lemma_multiset_has_no_duplicates();
    assert forall|x: u8| p.to_multiset().count(x) <= 1 by {
        assert(id.to_multiset().count(x) <= 1);
    }
    p.lemma_multiset_has_no_duplicates_conv();
    assert forall|k: int| 0 <= k < p.len() implies p[k] < n by {
        assert(p.contains(p[k]));
        assert(id.to_multiset().count(p[k]) > 0);
        assert(id.contains(p[k]));
    }
}


// ---------------------------------------------------------------------------
// What the shuffle draws.
// ---------------------------------------------------------------------------

proof fn lemma_shuffle_len(p: Seq<u8>, i: nat, n: nat, state: u64)
    requires
        p.len() == n,
        n <= 256,
    ensures
        shuffle_from(p, i, n, state).len() == n,
    decreases n - i,
{
    if i < n {
        let next = lcg_step(state);
        let j = i + (next % ((n - i) as u64)) as int;
        assert(i <= j < n);
        lemma_shuffle_len(p.update(i as int, p[j]).update(j, p[i as int]), i + 1, n, next);
    }
}

/// The shuffle only moves items among themselves: items below `bound` stay below it.
proof fn lemma_shuffle_bounded(p: Seq<u8>, i: nat, n: nat, state: u64, bound: nat)
    requires
        p.len() == n,
        n <= 256,
        forall|k: int| 0 <= k < n ==> p[k] < bound,
    ensures
        forall|k: int| 0 <= k < n ==> #[trigger] shuffle_from(p, i, n, state)[k] < bound,
    decreases n - i,
{
    if i < n {
        let next = lcg_step(state);
        let j = i + (next % ((n - i) as u64)) as int;
        assert(i <= j < n);
        let p2 = p.update(i as int, p[j]).update(j, p[i as int]);
        assert forall|k: int| 0 <= k < n implies p2[k] < bound by {
            if k != j && k != i {
                assert(p2[k] == p[k]);
            }
        }
        assert(shuffle_from(p, i, n, state) == shuffle_from(p2, i + 1, n, next));
        lemma_shuffle_bounded(p2, i + 1, n, next, bound);
    }
}

/// The shuffle moves positions, whatever the items: shuffling `p` gives,
/// at position `k`, the item of `p` at the position that shuffling
/// `0, 1, .., n - 1` gives there.
proof fn lemma_shuffle_moves_positions(p: Seq<u8>, i: nat, n: nat, state: u64, k: int)
    requires
        p.len() == n,
        n <= 256,
        0 <= k < n,
    ensures
        shuffle_from(p, i, n, state)[k] == p[shuffle_from(identity_order(n), i, n, state)[k] as int],
    decreases n - i,
{
    let id = identity_order(n);
    if i < n {
        let next = lcg_step(state);
        let j = i + (next % ((n - i) as u64)) as int;
        assert(i <= j < n);
        let p2 = p.update(i as int, p[j]).update(j, p[i as int]);
        let id2 = id.update(i as int, id[j]).update(j, id[i as int]);
        assert(shuffle_from(p, i, n, state) == shuffle_from(p2, i + 1, n, next));
        assert(shuffle_from(id, i, n, state) == shuffle_from(id2, i + 1, n, next));
        lemma_shuffle_moves_positions(p2, i + 1, n, next, k);
        lemma_shuffle_moves_positions(id2, i + 1, n, next, k);
        lemma_shuffle_bounded(id, i + 1, n, next, n);
        let y = shuffle_from(id, i + 1, n, next)[k];
        assert(y < n);
        assert(id[y as int] == y);
        assert(id2[y as int] == if y == i { j as u8 } else if y == j { i as u8 } else { y });
        assert(p2[y as int] == p[id2[y as int] as int]);
    } else {
        assert(id[k] == k);
    }
}

/// Shuffling from position `i + 1` keeps the first item and shuffles the
/// rest as a sequence of its own from position `i`.
proof fn lemma_shuffle_shift(x: Seq<u8>, i: nat, n: nat, state: u64)
    requires
        x.len() == n,
        n <= 256,
        i + 1 <= n,
    ensures
        shuffle_from(x, i + 1, n, state) == seq![x[0]] + shuffle_from(
            x.drop_first(),
            i,
            (n - 1) as nat,
            state,
        ),
    decreases n - i,
{
    if i + 1 >= n {
        assert(seq![x[0]] + x.drop_first() =~= x);
    } else {
        let next = lcg_step(state);
        let j = (i + 1) + (next % ((n - (i + 1)) as u64)) as int;
        let j2 = i + (next % (((n - 1) as nat - i) as u64)) as int;
        assert(j2 == j - 1);
        let x2 = x.update((i + 1) as int, x[j]).update(j, x[(i + 1) as int]);
        let y = x.drop_first();
        let y2 = y.update(i as int, y[j2]).update(j2, y[i as int]);
        assert(x2.drop_first() =~= y2);
        assert(x2[0] == x[0]);
        lemma_shuffle_shift(x2, i + 1, n, next);
    }
}

/// The random order draws its first item as the generator's next state
/// modulo `n` (any of the `n` players, player 0 included, can come first),
/// then orders the other `n - 1` players the same way with the generator's
/// later states: where the order of `n - 1` players drawn from the next state
/// has player `q` at position `k`, the full order has, at position `k + 1`,
/// player `q + 1`, or player 0 if `q + 1` is the one drawn first.
pub proof fn law_random_order_draws(n: nat, state: u64)
    requires
        1 <= n <= 256,
    ensures
        ({
            let p = shuffle_from(identity_order(n), 0, n, state);
            let s1 = lcg_step(state);
            let first = s1 % (n as u64);
            let q = shuffle_from(identity_order((n - 1) as nat), 0, (n - 1) as nat, s1);
            &&& p.len() == n
            &&& p[0] == first as u8
            &&& forall|k: int|
                0 <= k < n - 1 ==> #[trigger] p[k + 1] == if q[k] as int + 1 == first as int {
                    0u8
                } else {
                    (q[k] + 1) as u8
                }
        }),
{
    let id = identity_order(n);
    let s1 = lcg_step(state);
    let first = s1 % (n as u64);
    let j = first as int;
    let x = id.update(0, id[j]).update(j, id[0]);
    assert(shuffle_from(id, 0, n, state) == shuffle_from(x, 1, n, s1));
    lemma_shuffle_shift(x, 0, n, s1);
    let y = x.drop_first();
    let m = (n - 1) as nat;
    let q = shuffle_from(identity_order(m), 0, m, s1);
    lemma_shuffle_bounded(identity_order(m), 0, m, s1, m);
    lemma_shuffle_len(y, 0, m, s1);
    let p = shuffle_from(id, 0, n, state);
    assert(p[0] == x[0]);
    assert forall|k: int| 0 <= k < n - 1 implies #[trigger] p[k + 1] == if q[k] as int + 1 == first as int {
        0u8
    } else {
        (q[k] + 1) as u8
    } by {
        assert(p[k + 1] == shuffle_from(y, 0, m, s1)[k]);
        lemma_shuffle_moves_positions(y, 0, m, s1, k);
        assert(q[k] < m);
        assert(y[q[k] as int] == x[q[k] + 1]);
    }
}

} // verus!
