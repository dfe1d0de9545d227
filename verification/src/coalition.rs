//! Coalitions: subsets of the players of a fixed universe, held as bitmasks.
//!
//! Player `i` is a member when bit `i` of the mask is set. The empty coalition
//! has mask `0`; the grand coalition of `n` players has mask `2^n - 1`.

use vstd::prelude::*;
use vstd::arithmetic::power2::pow2;
use vstd::bits::{lemma_u64_pow2_no_overflow, lemma_u64_shl_is_mul};
use vstd::string::StringExecFns;

verus! {

/// Bit `i` of `mask` is set (and `i` is a bit position of a `u64`).
pub open spec fn bit(mask: u64, i: int) -> bool {
    0 <= i < 64 && (mask >> (i as u64)) & 1u64 == 1u64
}

/// The mask whose bits `0..n` are set, for `n < 64`.
pub open spec fn grand_mask(n: nat) -> u64
    recommends
        n < 64,
{
    ((1u64 << (n as u64)) - 1) as u64
}

/// Number of set bits among the positions `0..k` of `mask`.
pub open spec fn count_below(mask: u64, k: nat) -> nat
    decreases k,
{
    if k == 0 {
        0
    } else {
        count_below(mask, (k - 1) as nat) + if bit(mask, k - 1) {
            1nat
        } else {
            0nat
        }
    }
}

/// Number of set bits of `mask`.
pub open spec fn popcount(mask: u64) -> nat {
    count_below(mask, 64)
}

// ---------------------------------------------------------------------------
// Bit-level facts.
// ---------------------------------------------------------------------------

proof fn lemma_bit_or(a: u64, b: u64, i: u64)
    by (bit_vector)
    requires
        i < 64,
    ensures
        ((a | b) >> i) & 1u64 == 1u64 <==> ((a >> i) & 1u64 == 1u64 || (b >> i) & 1u64 == 1u64),
{
}

proof fn lemma_bit_and(a: u64, b: u64, i: u64)
    by (bit_vector)
    requires
        i < 64,
    ensures
        ((a & b) >> i) & 1u64 == 1u64 <==> ((a >> i) & 1u64 == 1u64 && (b >> i) & 1u64 == 1u64),
{
}

proof fn lemma_bit_and_not(a: u64, b: u64, i: u64)
    by (bit_vector)
    requires
        i < 64,
    ensures
        ((a & !b) >> i) & 1u64 == 1u64 <==> ((a >> i) & 1u64 == 1u64 && (b >> i) & 1u64 != 1u64),
{
}

proof fn lemma_bit_single(i: u64, j: u64)
    by (bit_vector)
    requires
        i < 64,
        j < 64,
    ensures
        ((1u64 << i) >> j) & 1u64 == 1u64 <==> i == j,
{
}

proof fn lemma_bit_low_mask(n: u64, j: u64)
    by (bit_vector)
    requires
        n < 64,
        j < 64,
    ensures
        ((((1u64 << n) - 1u64) as u64) >> j) & 1u64 == 1u64 <==> j < n,
{
}

proof fn lemma_bit_zero(j: u64)
    by (bit_vector)
    requires
        j < 64,
    ensures
        (0u64 >> j) & 1u64 != 1u64,
{
}

proof fn lemma_test_bit(a: u64, i: u64)
    by (bit_vector)
    requires
        i < 64,
    ensures
        (a & (1u64 << i)) != 0u64 <==> (a >> i) & 1u64 == 1u64,
        (a >> i) & 1u64 != 1u64 ==> (a >> i) & 1u64 == 0u64,
{
}

proof fn lemma_one_shl_pos(i: u64)
    by (bit_vector)
    requires
        i < 64,
    ensures
        (1u64 << i) >= 1u64,
{
}

/// Masks that agree on every one of the 64 bit positions are equal.
proof fn lemma_masks_equal(a: u64, b: u64)
    requires
        forall|i: int| 0 <= i < 64 ==> (bit(a, i) <==> bit(b, i)),
    ensures
        a == b,
{
    assert forall|i: u64| i < 64 implies (a >> i) & 1u64 == (b >> i) & 1u64 by {
        assert(bit(a, i as int) <==> bit(b, i as int));
        lemma_test_bit(a, i);
        lemma_test_bit(b, i);
    }
    lemma_masks_equal_bits(a, b);
}

proof fn lemma_shr_step(a: u64, k: u64)
    by (bit_vector)
    requires
        k < 63,
    ensures
        a >> k == ((a >> (k + 1)) << 1u64) | ((a >> k) & 1u64),
{
}

proof fn lemma_shr_top(a: u64, b: u64)
    by (bit_vector)
    requires
        (a >> 63u64) & 1u64 == (b >> 63u64) & 1u64,
    ensures
        a >> 63u64 == b >> 63u64,
{
}

/// Masks that agree on the bit positions `k..64` agree once shifted right by `k`.
proof fn lemma_masks_equal_from(a: u64, b: u64, k: u64)
    requires
        k < 64,
        forall|i: u64| k <= i < 64 ==> (a >> i) & 1u64 == (b >> i) & 1u64,
    ensures
        a >> k == b >> k,
    decreases 64 - k,
{
    if k == 63 {
        lemma_shr_top(a, b);
    } else {
        lemma_masks_equal_from(a, b, (k + 1) as u64);
        assert((a >> k) & 1u64 == (b >> k) & 1u64);
        lemma_shr_step(a, k);
        lemma_shr_step(b, k);
    }
}

proof fn lemma_masks_equal_bits(a: u64, b: u64)
    requires
        forall|i: u64| i < 64 ==> (a >> i) & 1u64 == (b >> i) & 1u64,
    ensures
        a == b,
{
    lemma_masks_equal_from(a, b, 0);
    assert(a >> 0u64 == a && b >> 0u64 == b) by (bit_vector);
}

/// Counting the set bits of a mask whose bits below `n` are exactly the set ones.
proof fn lemma_count_below_low_bits(mask: u64, n: nat, k: nat)
    requires
        k <= 64,
        forall|i: int| 0 <= i < 64 ==> (bit(mask, i) <==> i < n),
    ensures
        count_below(mask, k) == if k < n {
            k
        } else {
            n
        },
    decreases k,
{
    if k > 0 {
        lemma_count_below_low_bits(mask, n, (k - 1) as nat);
        assert(bit(mask, k - 1) <==> k - 1 < n);
    }
}

/// Counting the set bits of a mask with exactly one bit set.
proof fn lemma_count_below_one_bit(mask: u64, i: nat, k: nat)
    requires
        k <= 64,
        forall|j: int| 0 <= j < 64 ==> (bit(mask, j) <==> j == i),
    ensures
        count_below(mask, k) == if i < k {
            1nat
        } else {
            0nat
        },
    decreases k,
{
    if k > 0 {
        lemma_count_below_one_bit(mask, i, (k - 1) as nat);
        assert(bit(mask, k - 1) <==> k - 1 == i);
    }
}

/// The number of coalitions of `n` players, as the enumeration computes it.
proof fn lemma_coalition_count(n: u8)
    requires
        n < 64,
    ensures
        (if n == 0 {
            1u64
        } else {
            1u64 << n
        }) == pow2(n as nat),
        pow2(n as nat) <= u64::MAX,
{
    lemma_u64_pow2_no_overflow(n as nat);
    assert(1 * pow2(n as nat) == pow2(n as nat));
    lemma_u64_shl_is_mul(1u64, n as u64);
    assert((1u64 << 0u64) == 1u64) by (bit_vector);
}

// ---------------------------------------------------------------------------
// The coalition type.
// ---------------------------------------------------------------------------

/// A coalition of players represented as a bitmask.
///
/// Player `i` is a member when bit `i` is set. The empty set is the coalition
/// with mask `0`; the grand coalition of `n` players has mask `(1 << n) - 1`.
#[derive(Clone, Copy, PartialEq, Eq, Structural, Hash, Debug)]
pub struct Coalition {
    /// Bitmask of member players.
    mask: u64,
    /// Number of players in the universe (determines the valid bit range).
    num_players: u8,
}

impl Coalition {
    /// The bitmask of the coalition.
    pub closed spec fn bits(self) -> u64 {
        self.mask
    }

    /// The number of players in the universe.
    pub closed spec fn universe(self) -> u8 {
        self.num_players
    }

    /// The coalition of universe `n` with bitmask `mask`.
    pub closed spec fn of(n: u8, mask: u64) -> Coalition {
        Coalition { mask, num_players: n }
    }

    /// Player `i` is a member.
    pub open spec fn has(self, i: int) -> bool {
        bit(self.bits(), i)
    }

    /// The members below `k`, in increasing order.
    pub open spec fn members_below(self, k: nat) -> Seq<u8>
        decreases k,
    {
        if k == 0 {
            Seq::empty()
        } else if self.has(k - 1) {
            self.members_below((k - 1) as nat).push((k - 1) as u8)
        } else {
            self.members_below((k - 1) as nat)
        }
    }

    /// The number of members.
    pub open spec fn size(self) -> nat {
        popcount(self.bits())
    }

    /// What `of` builds.
    pub proof fn lemma_of(n: u8, mask: u64)
        ensures
            #[trigger] Coalition::of(n, mask).bits() == mask,
            Coalition::of(n, mask).universe() == n,
    {
    }

    /// The empty coalition for a universe of `n` players.
    pub fn empty(n: u8) -> (r: Self)
        ensures
            r.bits() == 0,
            r.universe() == n,
            forall|i: int| !r.has(i),
            r.size() == 0,
    {
        proof {
            assert forall|i: int| !bit(0u64, i) by {
                if 0 <= i < 64 {
                    lemma_bit_zero(i as u64);
                }
            }
            lemma_count_below_low_bits(0u64, 0, 64);
        }
        Self { mask: 0, num_players: n }
    }

    /// The grand coalition containing all `n` players.
    pub fn grand(n: u8) -> (r: Self)
        requires
            n < 64,
        ensures
            r.bits() == grand_mask(n as nat),
            r.universe() == n,
            forall|i: int| r.has(i) <==> 0 <= i < n,
            r.size() == n,
    {
        proof {
            lemma_one_shl_pos(n as u64);
            assert forall|i: int| bit(grand_mask(n as nat), i) <==> 0 <= i < n by {
                if 0 <= i < 64 {
                    lemma_bit_low_mask(n as u64, i as u64);
                }
            }
            lemma_count_below_low_bits(grand_mask(n as nat), n as nat, 64);
        }
        Self { mask: (1u64 << n) - 1, num_players: n }
    }

    /// A singleton coalition containing only player `i`.
    pub fn singleton(n: u8, i: u8) -> (r: Self)
        requires
            i < n,
            i < 64,
        ensures
            r.bits() == 1u64 << (i as u64),
            r.universe() == n,
            forall|j: int| r.has(j) <==> j == i,
            r.size() == 1,
    {
        proof {
            assert forall|j: int| #[trigger] bit(1u64 << (i as u64), j) <==> j == i by {
                if 0 <= j < 64 {
                    lemma_bit_single(i as u64, j as u64);
                }
            }
            lemma_count_below_one_bit(1u64 << (i as u64), i as nat, 64);
        }
        Self { mask: 1u64 << i, num_players: n }
    }

    /// Build from a bitmask and a player count.
    pub fn from_mask(n: u8, mask: u64) -> (r: Self)
        ensures
            r.bits() == mask,
            r.universe() == n,
    {
        Self { mask, num_players: n }
    }

    /// Build from a slice of player indices.
    pub fn from_indices(n: u8, players: &[u8]) -> (r: Self)
        requires
            forall|k: int| 0 <= k < players@.len() ==> players@[k] < n && players@[k] < 64,
        ensures
            r.universe() == n,
            forall|j: int| r.has(j) <==> exists|q: int| 0 <= q < players@.len() && players@[q] == j,
    {
        let mut mask = 0u64;
        let mut k: usize = 0;
        proof {
            assert forall|j: int| !bit(0u64, j) by {
                if 0 <= j < 64 {
                    lemma_bit_zero(j as u64);
                }
            }
        }
        while k < players.len()
            invariant
                k <= players@.len(),
                forall|q: int| 0 <= q < players@.len() ==> players@[q] < n && players@[q] < 64,
                forall|j: int|
                    bit(mask, j) <==> (exists|q: int| 0 <= q < k && players@[q] == j) && 0 <= j < 64,
            decreases players@.len() - k,
        {
            let p = players[k];
            let ghost old_mask = mask;
            mask = mask | (1u64 << p);
            proof {
                assert forall|j: int|
                    #[trigger] bit(mask, j) <==> (exists|q: int| 0 <= q < k + 1 && players@[q] == j) && 0
                        <= j < 64 by {
                    if 0 <= j < 64 {
                        lemma_bit_or(old_mask, 1u64 << (p as u64), j as u64);
                        lemma_bit_single(p as u64, j as u64);
                        assert(bit(mask, j) <==> (bit(old_mask, j) || j == p));
                        if bit(mask, j) {
                            if j == p {
                                assert(players@[k as int] == j);
                            } else {
                                let q = choose|q: int| 0 <= q < k && players@[q] == j;
                                assert(0 <= q < k + 1 && players@[q] == j);
                            }
                        }
                        if exists|q: int| 0 <= q < k + 1 && players@[q] == j {
                            let q = choose|q: int| 0 <= q < k + 1 && players@[q] == j;
                            if q < k {
                                assert(bit(old_mask, j));
                            } else {
                                assert(j == p);
                            }
                        }
                    }
                }
            }
            k += 1;
        }
        proof {
            assert forall|j: int|
                #[trigger] bit(mask, j) <==> exists|q: int| 0 <= q < players@.len() && players@[q] == j by {
                if exists|q: int| 0 <= q < players@.len() && players@[q] == j {
                    let q = choose|q: int| 0 <= q < players@.len() && players@[q] == j;
                    assert(players@[q] < 64);
                }
            }
        }
        Self { mask, num_players: n }
    }

    /// Number of players in the universe.
    pub fn num_players(&self) -> (r: u8)
        ensures
            r == self.universe(),
    {
        self.num_players
    }

    /// Raw bitmask.
    pub fn mask(&self) -> (r: u64)
        ensures
            r == self.bits(),
    {
        self.mask
    }

    /// Number of players in this coalition.
    pub fn count(&self) -> (r: u32)
        ensures
            r == self.size(),
    {
        let mut c: u32 = 0;
        let mut k: u64 = 0;
        while k < 64
            invariant
                k <= 64,
                c == count_below(self.mask, k as nat),
                c <= k,
            decreases 64 - k,
        {
            proof {
                lemma_test_bit(self.mask, k);
            }
            if (self.mask >> k) & 1 == 1 {
                c = c + 1;
            }
            k = k + 1;
        }
        c
    }

    /// Is the coalition empty?
    pub fn is_empty(&self) -> (r: bool)
        ensures
            r == (self.bits() == 0),
            r <==> forall|i: int| !self.has(i),
    {
        proof {
            if self.mask != 0 {
                if forall|i: int| !self.has(i) {
                    assert forall|i: int| 0 <= i < 64 implies (bit(self.mask, i) <==> bit(0u64, i)) by {
                        assert(!self.has(i));
                        lemma_bit_zero(i as u64);
                    }
                    lemma_masks_equal(self.mask, 0u64);
                }
            } else {
                assert forall|i: int| !self.has(i) by {
                    if 0 <= i < 64 {
                        lemma_bit_zero(i as u64);
                    }
                }
            }
        }
        self.mask == 0
    }

    /// Is this the grand coalition?
    pub fn is_grand(&self) -> (r: bool)
        requires
            self.universe() < 64,
        ensures
            r == (self.bits() == grand_mask(self.universe() as nat)),
            r <==> forall|i: int| self.has(i) <==> 0 <= i < self.universe(),
    {
        proof {
            let n = self.num_players;
            lemma_one_shl_pos(n as u64);
            assert forall|i: int| bit(grand_mask(n as nat), i) <==> 0 <= i < n by {
                if 0 <= i < 64 {
                    lemma_bit_low_mask(n as u64, i as u64);
                }
            }
            if forall|i: int| self.has(i) <==> 0 <= i < n {
                assert forall|i: int| 0 <= i < 64 implies (bit(self.mask, i) <==> bit(grand_mask(n as nat), i)) by {
                    assert(self.has(i) <==> 0 <= i < n);
                }
                lemma_masks_equal(self.mask, grand_mask(n as nat));
            }
            if self.mask == grand_mask(n as nat) {
                assert forall|i: int| self.has(i) <==> 0 <= i < n by {
                    assert(bit(grand_mask(n as nat), i) <==> 0 <= i < n);
                }
            }
        }
        self.mask == (1u64 << self.num_players) - 1
    }

    /// Does this coalition contain player `i`?
    pub fn contains(&self, i: u8) -> (r: bool)
        requires
            i < self.universe(),
            i < 64,
        ensures
            r == self.has(i as int),
    {
        proof {
            lemma_test_bit(self.mask, i as u64);
        }
        (self.mask & (1u64 << i)) != 0
    }

    /// Add a player to the coalition.
    pub fn insert(&mut self, i: u8)
        requires
            i < old(self).universe(),
            i < 64,
        ensures
            final(self).bits() == old(self).bits() | (1u64 << (i as u64)),
            final(self).universe() == old(self).universe(),
            forall|j: int| final(self).has(j) <==> (old(self).has(j) || j == i),
    {
        let ghost m = self.mask;
        self.mask = self.mask | (1u64 << i);
        proof {
            assert forall|j: int| bit(self.mask, j) <==> (bit(m, j) || j == i) by {
                if 0 <= j < 64 {
                    lemma_bit_or(m, 1u64 << (i as u64), j as u64);
                    lemma_bit_single(i as u64, j as u64);
                }
            }
        }
    }

    /// Remove a player from the coalition.
    pub fn remove(&mut self, i: u8)
        requires
            i < old(self).universe(),
            i < 64,
        ensures
            final(self).bits() == old(self).bits() & !(1u64 << (i as u64)),
            final(self).universe() == old(self).universe(),
            forall|j: int| final(self).has(j) <==> (old(self).has(j) && j != i),
    {
        let ghost m = self.mask;
        self.mask = self.mask & !(1u64 << i);
        proof {
            assert forall|j: int| bit(self.mask, j) <==> (bit(m, j) && j != i) by {
                if 0 <= j < 64 {
                    lemma_bit_and_not(m, 1u64 << (i as u64), j as u64);
                    lemma_bit_single(i as u64, j as u64);
                }
            }
        }
    }

    /// Is `self` a subset of `other`?
    pub fn is_subset_of(&self, other: &Coalition) -> (r: bool)
        requires
            self.universe() == other.universe(),
        ensures
            r == (self.bits() & other.bits() == self.bits()),
            r <==> forall|i: int| self.has(i) ==> other.has(i),
    {
        proof {
            let a = self.mask;
            let b = other.mask;
            assert forall|i: int| 0 <= i < 64 implies (bit(a & b, i) <==> (bit(a, i) && bit(b, i))) by {
                lemma_bit_and(a, b, i as u64);
            }
            if forall|i: int| self.has(i) ==> other.has(i) {
                assert forall|i: int| 0 <= i < 64 implies (bit(a & b, i) <==> bit(a, i)) by {
                    assert(self.has(i) ==> other.has(i));
                }
                lemma_masks_equal(a & b, a);
            }
        }
        (self.mask & other.mask) == self.mask
    }

    /// Is `self` a strict (proper) subset of `other`?
    pub fn is_strict_subset_of(&self, other: &Coalition) -> (r: bool)
        requires
            self.bits() != other.bits() ==> self.universe() == other.universe(),
        ensures
            r <==> self.bits() != other.bits() && (self.bits() & other.bits() == self.bits()),
            r <==> (forall|i: int| self.has(i) ==> other.has(i)) && exists|i: int|
                other.has(i) && !self.has(i),
    {
        proof {
            if forall|i: int| self.has(i) ==> other.has(i) {
                if !exists|i: int| other.has(i) && !self.has(i) {
                    assert forall|i: int| 0 <= i < 64 implies (bit(self.mask, i) <==> bit(other.mask, i)) by {
                        assert(self.has(i) ==> other.has(i));
                        assert(!(other.has(i) && !self.has(i)));
                    }
                    lemma_masks_equal(self.mask, other.mask);
                }
            }
        }
        self.mask != other.mask && self.is_subset_of(other)
    }

    /// Is `self` a superset of `other`?
    pub fn is_superset_of(&self, other: &Coalition) -> (r: bool)
        requires
            self.universe() == other.universe(),
        ensures
            r == (other.bits() & self.bits() == other.bits()),
            r <==> forall|i: int| other.has(i) ==> self.has(i),
    {
        other.is_subset_of(self)
    }

    /// The member player indices, in increasing order.
    pub fn players(&self) -> (r: Vec<u8>)
        requires
            self.universe() <= 64,
        ensures
            forall|a: int, b: int| 0 <= a < b < r@.len() ==> r@[a] < r@[b],
            forall|x: u8|
                #![trigger r@.contains(x)]
                #![trigger self.has(x as int)]
                r@.contains(x) <==> (x < self.universe() && self.has(x as int)),
            r@ == self.members_below(self.universe() as nat),
    {
        let n = self.num_players;
        let mut v: Vec<u8> = Vec::new();
        let mut i: u8 = 0;
        while i < n
            invariant
                i <= n,
                n == self.universe(),
                n <= 64,
                forall|a: int, b: int| 0 <= a < b < v@.len() ==> v@[a] < v@[b],
                forall|a: int| 0 <= a < v@.len() ==> v@[a] < i,
                forall|x: u8| v@.contains(x) <==> (x < i && self.has(x as int)),
                v@ == self.members_below(i as nat),
            decreases n - i,
        {
            proof {
                lemma_test_bit(self.mask, i as u64);
            }
            let ghost pre = v@;
            if (self.mask & (1u64 << i)) != 0 {
                v.push(i);
            }
            proof {
                assert forall|x: u8| v@.contains(x) <==> (x < i + 1 && self.has(x as int)) by {
                    if pre.contains(x) {
                        let q = choose|q: int| 0 <= q < pre.len() && pre[q] == x;
                        assert(v@[q] == x);
                    }
                    if x == i && self.has(x as int) {
                        assert(v@[v@.len() - 1] == x);
                    }
                }
            }
            i = i + 1;
        }
        v
    }

    /// All coalitions of a universe of `n` players, ordered by bitmask, from
    /// the empty coalition to the grand coalition.
    pub fn all(n: u8) -> (r: Vec<Coalition>)
        requires
            n < 64,
        ensures
            r@.len() == pow2(n as nat),
            forall|k: int| 0 <= k < r@.len() ==> r@[k].bits() == k && r@[k].universe() == n,
    {
        let total: u64 = if n == 0 {
            1u64
        } else {
            1u64 << n
        };
        proof {
            lemma_coalition_count(n);
        }
        let mut v: Vec<Coalition> = Vec::new();
        let mut mask: u64 = 0;
        while mask < total
            invariant
                mask <= total,
                total == pow2(n as nat),
                v@.len() == mask,
                forall|k: int| 0 <= k < v@.len() ==> v@[k].bits() == k && v@[k].universe() == n,
            decreases total - mask,
        {
            v.push(Coalition { mask, num_players: n });
            mask = mask + 1;
        }
        v
    }

    /// All coalitions of exactly `k` players in a universe of `n`, ordered
    /// by bitmask.
    pub fn of_size(n: u8, k: u8) -> (r: Vec<Coalition>)
        requires
            n < 64,
        ensures
            forall|a: int, b: int| 0 <= a < b < r@.len() ==> r@[a].bits() < r@[b].bits(),
            forall|a: int|
                0 <= a < r@.len() ==> r@[a].universe() == n && r@[a].bits() < pow2(n as nat)
                    && r@[a].size() == k,
            forall|m: u64|
                m < pow2(n as nat) && popcount(m) == k ==> exists|a: int|
                    0 <= a < r@.len() && #[trigger] r@[a].bits() == m,
            r@.len() == count_from(0, pow2(n as nat), k as nat),
            r@.len() == binomial(n as nat, k as nat),
    {
        proof {
            law_of_size_counts_binomial(n as nat, k as nat);
        }
        let total: u64 = if n == 0 {
            1u64
        } else {
            1u64 << n
        };
        proof {
            lemma_coalition_count(n);
        }
        let mut v: Vec<Coalition> = Vec::new();
        let mut mask: u64 = 0;
        while mask < total
            invariant
                mask <= total,
                total == pow2(n as nat),
                forall|a: int, b: int| 0 <= a < b < v@.len() ==> v@[a].bits() < v@[b].bits(),
                forall|a: int|
                    0 <= a < v@.len() ==> v@[a].universe() == n && v@[a].bits() < mask
                        && v@[a].size() == k,
                forall|m: u64|
                    m < mask && popcount(m) == k ==> exists|a: int|
                        0 <= a < v@.len() && #[trigger] v@[a].bits() == m,
                v@.len() == count_from(0, mask as nat, k as nat),
            decreases total - mask,
        {
            let c = Coalition { mask, num_players: n };
            let ghost pre = v@;
            if c.count() == k as u32 {
                v.push(c);
                proof {
                    assert(v@[v@.len() - 1].bits() == mask);
                }
            }
            proof {
                assert forall|m: u64| m < mask + 1 && popcount(m) == k implies exists|a: int|
                    0 <= a < v@.len() && #[trigger] v@[a].bits() == m by {
                    if m < mask {
                        let a = choose|a: int| 0 <= a < pre.len() && #[trigger] pre[a].bits() == m;
                        assert(v@[a].bits() == m);
                    } else {
                        assert(v@[v@.len() - 1].bits() == m);
                    }
                }
            }
            mask = mask + 1;
        }
        v
    }
}


impl core::ops::BitOr for Coalition {
    type Output = Self;

    /// The union of two coalitions of the same universe.
    fn bitor(self, rhs: Self) -> (r: Self)
        ensures
            r.bits() == self.bits() | rhs.bits(),
            r.universe() == self.universe(),
            forall|i: int| r.has(i) <==> (self.has(i) || rhs.has(i)),
    {
        proof {
            assert forall|i: int| #[trigger] bit(self.mask | rhs.mask, i) <==> (bit(self.mask, i) || bit(rhs.mask, i)) by {
                if 0 <= i < 64 {
                    lemma_bit_or(self.mask, rhs.mask, i as u64);
                }
            }
        }
        Self { mask: self.mask | rhs.mask, num_players: self.num_players }
    }
}

impl vstd::std_specs::ops::BitOrSpecImpl for Coalition {
    open spec fn obeys_bitor_spec() -> bool {
        true
    }

    open spec fn bitor_req(self, rhs: Coalition) -> bool {
        self.universe() == rhs.universe()
    }

    open spec fn bitor_spec(self, rhs: Coalition) -> Coalition {
        Coalition::of(self.universe(), self.bits() | rhs.bits())
    }
}


impl core::ops::BitAnd for Coalition {
    type Output = Self;

    /// The intersection of two coalitions of the same universe.
    fn bitand(self, rhs: Self) -> (r: Self)
        ensures
            r.bits() == self.bits() & rhs.bits(),
            r.universe() == self.universe(),
            forall|i: int| r.has(i) <==> (self.has(i) && rhs.has(i)),
    {
        proof {
            assert forall|i: int| #[trigger] bit(self.mask & rhs.mask, i) <==> (bit(self.mask, i) && bit(rhs.mask, i)) by {
                if 0 <= i < 64 {
                    lemma_bit_and(self.mask, rhs.mask, i as u64);
                }
            }
        }
        Self { mask: self.mask & rhs.mask, num_players: self.num_players }
    }
}

impl vstd::std_specs::ops::BitAndSpecImpl for Coalition {
    open spec fn obeys_bitand_spec() -> bool {
        true
    }

    open spec fn bitand_req(self, rhs: Coalition) -> bool {
        self.universe() == rhs.universe()
    }

    open spec fn bitand_spec(self, rhs: Coalition) -> Coalition {
        Coalition::of(self.universe(), self.bits() & rhs.bits())
    }
}

impl core::ops::Sub for Coalition {
    type Output = Self;

    /// The members of `self` that are not members of `rhs`.
    fn sub(self, rhs: Self) -> (r: Self)
        ensures
            r.bits() == self.bits() & !rhs.bits(),
            r.universe() == self.universe(),
            forall|i: int| r.has(i) <==> (self.has(i) && !rhs.has(i)),
    {
        proof {
            assert forall|i: int| #[trigger] bit(self.mask & !rhs.mask, i) <==> (bit(self.mask, i) && !bit(rhs.mask, i)) by {
                if 0 <= i < 64 {
                    lemma_bit_and_not(self.mask, rhs.mask, i as u64);
                }
            }
        }
        Self { mask: self.mask & !rhs.mask, num_players: self.num_players }
    }
}

impl vstd::std_specs::ops::SubSpecImpl for Coalition {
    open spec fn obeys_sub_spec() -> bool {
        true
    }

    open spec fn sub_req(self, rhs: Coalition) -> bool {
        self.universe() == rhs.universe()
    }

    open spec fn sub_spec(self, rhs: Coalition) -> Coalition {
        Coalition::of(self.universe(), self.bits() & !rhs.bits())
    }
}

impl core::ops::BitOrAssign for Coalition {
    /// Adds the members of `rhs` to `self`.
    fn bitor_assign(&mut self, rhs: Self)
        ensures
            final(self).bits() == old(self).bits() | rhs.bits(),
            final(self).universe() == old(self).universe(),
    {
        self.mask = self.mask | rhs.mask;
    }
}



/// How many of the masks `a, a + 1, .., a + len - 1` have exactly `k` bits set.
pub open spec fn count_from(a: nat, len: nat, k: nat) -> nat
    decreases len,
{
    if len == 0 {
        0
    } else {
        count_from(a, (len - 1) as nat, k) + if popcount((a + len - 1) as u64) == k {
            1nat
        } else {
            0nat
        }
    }
}

/// The binomial coefficient: the number of ways to choose `k` of `n` items.
pub open spec fn binomial(n: nat, k: nat) -> nat
    decreases n,
{
    if k == 0 {
        1
    } else if n == 0 {
        0
    } else {
        binomial((n - 1) as nat, (k - 1) as nat) + binomial((n - 1) as nat, k)
    }
}

proof fn lemma_count_from_split(a: nat, len: nat, k: nat)
    ensures
        count_from(0, a + len, k) == count_from(0, a, k) + count_from(a, len, k),
    decreases len,
{
    if len > 0 {
        lemma_count_from_split(a, (len - 1) as nat, k);
        assert(count_from(0, a + len, k) == count_from(0, (a + len - 1) as nat, k) + if popcount(
            (a + len - 1) as u64,
        ) == k {
            1nat
        } else {
            0nat
        });
    }
}

proof fn lemma_high_bit_add(m: u64, n: u64)
    by (bit_vector)
    requires
        n < 64,
        m < (1u64 << n),
    ensures
        m + (1u64 << n) == m | (1u64 << n),
        (m >> n) & 1u64 != 1u64,
{
}

proof fn lemma_count_below_add_bit(m: u64, n: nat, j: nat)
    requires
        n < 64,
        j <= 64,
        !bit(m, n as int),
    ensures
        count_below(m | (1u64 << (n as u64)), j) == count_below(m, j) + if n < j {
            1nat
        } else {
            0nat
        },
    decreases j,
{
    if j > 0 {
        lemma_count_below_add_bit(m, n, (j - 1) as nat);
        lemma_bit_or(m, 1u64 << (n as u64), (j - 1) as u64);
        lemma_bit_single(n as u64, (j - 1) as u64);
    }
}

/// A mask below `2^n` plus `2^n` has one more bit set.
proof fn lemma_popcount_high_bit(m: u64, n: nat)
    requires
        n < 64,
        m < pow2(n),
    ensures
        popcount((m + pow2(n)) as u64) == popcount(m) + 1,
{
    lemma_u64_pow2_no_overflow(n);
    assert(1 * pow2(n) == pow2(n));
    lemma_u64_shl_is_mul(1u64, n as u64);
    lemma_high_bit_add(m, n as u64);
    lemma_count_below_add_bit(m, n, 64);
}

proof fn lemma_count_upper_half(n: nat, len: nat, k: nat)
    requires
        n < 64,
        len <= pow2(n),
    ensures
        count_from(pow2(n), len, k) == if k == 0 {
            0
        } else {
            count_from(0, len, (k - 1) as nat)
        },
    decreases len,
{
    if len > 0 {
        lemma_count_upper_half(n, (len - 1) as nat, k);
        vstd::arithmetic::power2::lemma2_to64();
        vstd::arithmetic::power2::lemma2_to64_rest();
        if n < 63 {
            vstd::arithmetic::power2::lemma_pow2_strictly_increases(n, 63);
        }
        assert(pow2(n) <= 0x8000_0000_0000_0000);
        lemma_popcount_high_bit((len - 1) as u64, n);
        assert((pow2(n) + len - 1) as u64 == ((len - 1) as u64 + pow2(n)) as u64);
        assert(0 + len - 1 == len - 1);
    }
}

/// Of the `2^n` coalitions of `n` players, `binomial(n, k)` have exactly `k`
/// members: `of_size(n, k)` returns that many.
pub proof fn law_of_size_counts_binomial(n: nat, k: nat)
    requires
        n < 64,
    ensures
        count_from(0, pow2(n), k) == binomial(n, k),
    decreases n,
{
    if n == 0 {
        vstd::arithmetic::power2::lemma2_to64();
        assert forall|i: int| 0 <= i < 64 implies (bit(0u64, i) <==> i < 0) by {
            lemma_bit_zero(i as u64);
        }
        lemma_count_below_low_bits(0u64, 0, 64);
        assert(count_from(0, 1, k) == count_from(0, 0, k) + if popcount(0u64) == k {
            1nat
        } else {
            0nat
        });
    } else {
        let h = (n - 1) as nat;
        law_of_size_counts_binomial(h, k);
        vstd::arithmetic::power2::lemma_pow2_unfold(n);
        lemma_count_from_split(pow2(h), pow2(h), k);
        lemma_count_upper_half(h, pow2(h), k);
        if k > 0 {
            law_of_size_counts_binomial(h, (k - 1) as nat);
        }
    }
}

// ---------------------------------------------------------------------------
// Laws of the coalition lattice.
// ---------------------------------------------------------------------------

proof fn lemma_and_facts(a: u64, b: u64, c: u64)
    by (bit_vector)
    ensures
        a & a == a,
        (a & b == a && b & a == b) ==> a == b,
        (a & b == a && b & c == b) ==> a & c == a,
{
}

proof fn lemma_insert_remove_bits(a: u64, i: u64)
    by (bit_vector)
    requires
        i < 64,
    ensures
        (a >> i) & 1u64 != 1u64 ==> (a | (1u64 << i)) & !(1u64 << i) == a,
        (a >> i) & 1u64 == 1u64 ==> (a & !(1u64 << i)) | (1u64 << i) == a,
{
}

/// Inclusion of coalitions (as `is_subset_of` decides it) is a partial
/// order: every coalition is a subset of itself, two coalitions of the same
/// universe that are subsets of each other are equal, and a subset of a
/// subset is a subset.
pub proof fn law_subset_is_partial_order(a: Coalition, b: Coalition, c: Coalition)
    ensures
        a.bits() & a.bits() == a.bits(),
        a.universe() == b.universe() && a.bits() & b.bits() == a.bits() && b.bits() & a.bits()
            == b.bits() ==> a == b,
        a.bits() & b.bits() == a.bits() && b.bits() & c.bits() == b.bits() ==> a.bits() & c.bits()
            == a.bits(),
{
    lemma_and_facts(a.bits(), b.bits(), c.bits());
}

/// Removing a player that `insert` has just added gives back the coalition
/// it was added to, and inserting a player that `remove` has just taken out
/// gives back the coalition it was taken from.
pub proof fn law_insert_remove_undo(c: Coalition, i: u8)
    requires
        i < 64,
    ensures
        !c.has(i as int) ==> (c.bits() | (1u64 << (i as u64))) & !(1u64 << (i as u64)) == c.bits(),
        c.has(i as int) ==> (c.bits() & !(1u64 << (i as u64))) | (1u64 << (i as u64)) == c.bits(),
{
    lemma_insert_remove_bits(c.bits(), i as u64);
}

/// A coalition is determined by its mask and its universe, so
/// `from_mask(c.num_players(), c.mask())` gives back `c`.
pub proof fn law_determined_by_mask(a: Coalition, b: Coalition)
    requires
        a.bits() == b.bits(),
        a.universe() == b.universe(),
    ensures
        a == b,
{
}


// ---------------------------------------------------------------------------
// Text form.
// ---------------------------------------------------------------------------

/// The decimal digit `d` as text.
pub open spec fn digit_text(d: nat) -> Seq<char> {
    if d == 0 {
        "0"@
    } else if d == 1 {
        "1"@
    } else if d == 2 {
        "2"@
    } else if d == 3 {
        "3"@
    } else if d == 4 {
        "4"@
    } else if d == 5 {
        "5"@
    } else if d == 6 {
        "6"@
    } else if d == 7 {
        "7"@
    } else if d == 8 {
        "8"@
    } else {
        "9"@
    }
}

/// `x` written in decimal.
pub open spec fn decimal_text(x: nat) -> Seq<char>
    decreases x,
{
    if x < 10 {
        digit_text(x)
    } else {
        decimal_text(x / 10) + digit_text(x % 10)
    }
}

/// The numbers of `ps` in decimal, separated by commas.
pub open spec fn list_text(ps: Seq<u8>) -> Seq<char>
    decreases ps.len(),
{
    if ps.len() == 0 {
        Seq::empty()
    } else if ps.len() == 1 {
        decimal_text(ps[0] as nat)
    } else {
        list_text(ps.drop_last()) + ","@ + decimal_text(ps.last() as nat)
    }
}

/// The digit `d` as text.
fn digit_str(d: u8) -> (r: &'static str)
    requires
        d < 10,
    ensures
        r@ == digit_text(d as nat),
{
    if d == 0 {
        "0"
    } else if d == 1 {
        "1"
    } else if d == 2 {
        "2"
    } else if d == 3 {
        "3"
    } else if d == 4 {
        "4"
    } else if d == 5 {
        "5"
    } else if d == 6 {
        "6"
    } else if d == 7 {
        "7"
    } else if d == 8 {
        "8"
    } else {
        "9"
    }
}

/// Appends `x` in decimal to `s`.
fn append_decimal(s: &mut String, x: u8)
    ensures
        final(s)@ == old(s)@ + decimal_text(x as nat),
{
    let ghost start = s@;
    proof {
        reveal_with_fuel(decimal_text, 3);
    }
    if x >= 100 {
        s.append(digit_str(x / 100));
    }
    if x >= 10 {
        s.append(digit_str((x / 10) % 10));
    }
    s.append(digit_str(x % 10));
    proof {
        let d = x as nat;
        if x >= 100 {
            assert(decimal_text(d / 100) == digit_text(d / 100));
            assert(decimal_text(d / 10) == digit_text(d / 100) + digit_text((d / 10) % 10));
            assert(s@ =~= start + decimal_text(d));
        } else if x >= 10 {
            assert(decimal_text(d) == digit_text(d / 10) + digit_text(d % 10));
            assert(s@ =~= start + decimal_text(d));
        } else {
            assert(s@ =~= start + decimal_text(d));
        }
    }
}

impl Coalition {
    /// The coalition as text: `Coalition{`, the member players in
    /// increasing order separated by commas, then `}`; for example
    /// `Coalition{0,2}`.
    pub fn debug_string(&self) -> (r: String)
        requires
            self.universe() <= 64,
        ensures
            r@ == "Coalition{"@ + list_text(self.members_below(self.universe() as nat)) + "}"@,
    {
        let players = self.players();
        let mut s = String::new();
        s.append("Coalition{");
        let mut k: usize = 0;
        while k < players.len()
            invariant
                k <= players@.len(),
                s@ == "Coalition{"@ + list_text(players@.take(k as int)),
            decreases players@.len() - k,
        {
            let ghost before = s@;
            if k > 0 {
                s.append(",");
            }
            append_decimal(&mut s, players[k]);
            proof {
                let t = players@.take(k + 1);
                assert(t.drop_last() =~= players@.take(k as int));
                assert(t.last() == players@[k as int]);
                if k == 0 {
                    assert(players@.take(0) =~= Seq::<u8>::empty());
                    assert(list_text(t) == decimal_text(t[0] as nat));
                    assert(s@ =~= "Coalition{"@ + list_text(t));
                } else {
                    assert(list_text(t) == list_text(t.drop_last()) + ","@ + decimal_text(t.last() as nat));
                    assert(s@ =~= "Coalition{"@ + list_text(t));
                }
            }
            k += 1;
        }
        proof {
            assert(players@.take(k as int) =~= players@);
        }
        s.append("}");
        s
    }
}

} // verus!
