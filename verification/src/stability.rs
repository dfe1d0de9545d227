//! Coalition structures: partitions of the players `0..n` into disjoint
//! groups, and the moves a single player can make between groups.

use vstd::prelude::*;
use crate::permutation::identity_order;
use vstd::multiset::Multiset;

verus! {

broadcast use vstd::seq_lib::group_to_multiset_ensures;

/// How many times `p` occurs in the group `g`.
pub open spec fn count_in(g: Seq<u8>, p: u8) -> nat {
    g.to_multiset().count(p)
}

/// How many times `p` occurs over all the groups `gs`.
pub open spec fn occurrences(gs: Seq<Seq<u8>>, p: u8) -> nat
    decreases gs.len(),
{
    if gs.len() == 0 {
        0
    } else {
        occurrences(gs.drop_last(), p) + count_in(gs.last(), p)
    }
}

/// `gs` partitions the players `0..n`: every entry is a player below `n`,
/// and every player below `n` occurs exactly once over all the groups.
/// Groups may be empty.
pub open spec fn is_partition(n: nat, gs: Seq<Seq<u8>>) -> bool {
    &&& forall|g: int, k: int| 0 <= g < gs.len() && 0 <= k < gs[g].len() ==> gs[g][k] < n
    &&& forall|p: u8| p < n ==> #[trigger] occurrences(gs, p) == 1
}

/// The groups as sequences of player indices.
pub open spec fn group_seqs(groups: Seq<Vec<u8>>) -> Seq<Seq<u8>> {
    groups.map_values(|g: Vec<u8>| g@)
}

/// The entries other than `player`.
pub open spec fn other_than(player: u8) -> spec_fn(u8) -> bool {
    |q: u8| q != player
}

/// The groups that are not empty.
pub open spec fn nonempty() -> spec_fn(Seq<u8>) -> bool {
    |g: Seq<u8>| g.len() > 0
}

/// The groups after `player` leaves group `from` and joins group `to`.
pub open spec fn moved_groups(gs: Seq<Seq<u8>>, player: u8, from: int, to: int) -> Seq<Seq<u8>> {
    let left = gs.update(from, gs[from].filter(other_than(player)));
    left.update(to, left[to].push(player))
}

/// The groups after `player` moves from group `from` to group `to`, with the
/// groups left empty dropped.
pub open spec fn move_spec(gs: Seq<Seq<u8>>, player: u8, from: int, to: int) -> Seq<Seq<u8>> {
    moved_groups(gs, player, from, to).filter(nonempty())
}

/// The groups after `player` leaves group `from` to form a group of its own,
/// placed last.
pub open spec fn leave_spec(gs: Seq<Seq<u8>>, player: u8, from: int) -> Seq<Seq<u8>> {
    gs.update(from, gs[from].filter(other_than(player))).push(seq![player])
}

// ---------------------------------------------------------------------------
// Lemmas on occurrences.
// ---------------------------------------------------------------------------

proof fn lemma_occurrences_push(gs: Seq<Seq<u8>>, g: Seq<u8>, p: u8)
    ensures
        occurrences(gs.push(g), p) == occurrences(gs, p) + count_in(g, p),
{
    assert(gs.push(g).drop_last() =~= gs);
}

proof fn lemma_occurrences_update(gs: Seq<Seq<u8>>, i: int, g: Seq<u8>, p: u8)
    requires
        0 <= i < gs.len(),
    ensures
        occurrences(gs.update(i, g), p) + count_in(gs[i], p) == occurrences(gs, p) + count_in(g, p),
    decreases gs.len(),
{
    let u = gs.update(i, g);
    if i == gs.len() - 1 {
        assert(u.drop_last() =~= gs.drop_last());
    } else {
        assert(u.drop_last() =~= gs.drop_last().update(i, g));
        lemma_occurrences_update(gs.drop_last(), i, g, p);
    }
}

proof fn lemma_occurrences_at_least(gs: Seq<Seq<u8>>, i: int, p: u8)
    requires
        0 <= i < gs.len(),
    ensures
        occurrences(gs, p) >= count_in(gs[i], p),
    decreases gs.len(),
{
    if i < gs.len() - 1 {
        lemma_occurrences_at_least(gs.drop_last(), i, p);
    }
}

proof fn lemma_occurrences_found(gs: Seq<Seq<u8>>, p: u8) -> (g: int)
    requires
        occurrences(gs, p) > 0,
    ensures
        0 <= g < gs.len(),
        gs[g].contains(p),
    decreases gs.len(),
{
    if count_in(gs.last(), p) > 0 {
        (gs.len() - 1) as int
    } else {
        lemma_occurrences_found(gs.drop_last(), p)
    }
}

/// In a partition, a player lies in at most one group.
proof fn lemma_single_group(gs: Seq<Seq<u8>>, p: u8, a: int, b: int)
    requires
        occurrences(gs, p) == 1,
        0 <= a < gs.len(),
        0 <= b < gs.len(),
        gs[a].contains(p),
        gs[b].contains(p),
    ensures
        a == b,
{
    if a != b {
        assert(count_in(gs[a], p) > 0);
        assert(count_in(gs[b], p) > 0);
        let e: Seq<u8> = Seq::empty();
        assert(count_in(e, p) == 0);
        lemma_occurrences_update(gs, a, e, p);
        let u = gs.update(a, e);
        assert(u[b] == gs[b]);
        lemma_occurrences_at_least(u, b, p);
    }
}

proof fn lemma_count_filter_out(g: Seq<u8>, x: u8, p: u8)
    ensures
        count_in(g.filter(other_than(x)), p) == if p == x {
            0
        } else {
            count_in(g, p)
        },
    decreases g.len(),
{
    reveal(Seq::filter);
    if g.len() > 0 {
        lemma_count_filter_out(g.drop_last(), x, p);
        assert(g.drop_last().push(g.last()) =~= g);
    }
}

proof fn lemma_occurrences_drop_empty(gs: Seq<Seq<u8>>, p: u8)
    ensures
        occurrences(gs.filter(nonempty()), p) == occurrences(gs, p),
    decreases gs.len(),
{
    reveal(Seq::filter);
    if gs.len() > 0 {
        lemma_occurrences_drop_empty(gs.drop_last(), p);
        let sub = gs.drop_last().filter(nonempty());
        if gs.last().len() > 0 {
            lemma_occurrences_push(sub, gs.last(), p);
        } else {
            assert(gs.last().to_multiset().len() == 0);
        }
    }
}

proof fn lemma_identity_once(n: nat, p: u8)
    requires
        n <= 256,
        p < n,
    ensures
        count_in(identity_order(n), p) == 1,
{
    let id = identity_order(n);
    assert(id.no_duplicates());
    id.lemma_multiset_has_no_duplicates();
    assert(id[p as int] == p);
    assert(id.contains(p));
}

/// Moving a player between groups keeps a partition a partition.
proof fn lemma_move_keeps_partition(n: nat, gs: Seq<Seq<u8>>, player: u8, from: int, to: int)
    requires
        is_partition(n, gs),
        0 <= from < gs.len(),
        0 <= to < gs.len(),
        gs[from].contains(player),
    ensures
        is_partition(n, move_spec(gs, player, from, to)),
{
    broadcast use vstd::seq_lib::group_filter_ensures;
    broadcast use vstd::multiset::group_multiset_axioms;

    let pred = other_than(player);
    let filtered = gs[from].filter(pred);
    let left = gs.update(from, filtered);
    let moved = moved_groups(gs, player, from, to);
    let r = move_spec(gs, player, from, to);
    assert(player < n);
    assert(moved[to] == left[to].push(player));
    assert forall|g: int| 0 <= g < moved.len() && g != to implies moved[g] == left[g] by {}
    assert forall|g: int| 0 <= g < left.len() && g != from implies left[g] == gs[g] by {}
    assert forall|x: u8| filtered.contains(x) implies x < n by {
        gs[from].lemma_filter_contains_rev(pred, x);
        let j = choose|j: int| 0 <= j < gs[from].len() && gs[from][j] == x;
    }
    assert forall|g: int, k: int| 0 <= g < left.len() && 0 <= k < left[g].len() implies left[g][k] < n by {
        if g == from {
            assert(filtered.contains(filtered[k]));
        }
    }
    assert forall|g: int, k: int| 0 <= g < moved.len() && 0 <= k < moved[g].len() implies moved[g][k] < n by {
        if g == to {
            if k == left[to].len() {
                assert(moved[g][k] == player);
            } else {
                assert(moved[g][k] == left[to][k]);
            }
        }
    }
    assert forall|g: int, k: int| 0 <= g < r.len() && 0 <= k < r[g].len() implies r[g][k] < n by {
        assert(r.contains(r[g]));
        moved.lemma_filter_contains_rev(nonempty(), r[g]);
        let h = choose|h: int| 0 <= h < moved.len() && moved[h] == r[g];
        assert(moved[h][k] < n);
    }
    assert forall|p: u8| p < n implies #[trigger] occurrences(r, p) == 1 by {
        lemma_occurrences_drop_empty(moved, p);
        lemma_count_filter_out(gs[from], player, p);
        lemma_occurrences_update(gs, from, filtered, p);
        lemma_occurrences_update(left, to, left[to].push(player), p);
        assert(left[to].push(player).to_multiset() == left[to].to_multiset().insert(player));
        if p == player {
            assert(count_in(gs[from], p) > 0);
            lemma_occurrences_at_least(gs, from, p);
        }
    }
}

/// A player leaving its group to stand alone keeps a partition a partition.
proof fn lemma_leave_keeps_partition(n: nat, gs: Seq<Seq<u8>>, player: u8, from: int)
    requires
        is_partition(n, gs),
        0 <= from < gs.len(),
        gs[from].contains(player),
    ensures
        is_partition(n, leave_spec(gs, player, from)),
{
    broadcast use vstd::seq_lib::group_filter_ensures;
    broadcast use vstd::multiset::group_multiset_axioms;

    let pred = other_than(player);
    let filtered = gs[from].filter(pred);
    let left = gs.update(from, filtered);
    let r = leave_spec(gs, player, from);
    assert(player < n);
    assert forall|x: u8| filtered.contains(x) implies x < n by {
        gs[from].lemma_filter_contains_rev(pred, x);
        let j = choose|j: int| 0 <= j < gs[from].len() && gs[from][j] == x;
    }
    assert forall|g: int, k: int| 0 <= g < r.len() && 0 <= k < r[g].len() implies r[g][k] < n by {
        if g == left.len() {
            assert(r[g] == seq![player]);
        } else if g == from {
            assert(r[g] == filtered);
            assert(filtered.contains(filtered[k]));
        } else {
            assert(r[g] == gs[g]);
        }
    }
    assert forall|p: u8| p < n implies #[trigger] occurrences(r, p) == 1 by {
        lemma_occurrences_push(left, seq![player], p);
        lemma_count_filter_out(gs[from], player, p);
        lemma_occurrences_update(gs, from, filtered, p);
        assert(seq![player] =~= Seq::<u8>::empty().push(player));
        assert(Seq::<u8>::empty().to_multiset() =~= Multiset::empty());
        if p == player {
            assert(count_in(gs[from], p) > 0);
            lemma_occurrences_at_least(gs, from, p);
        }
    }
}


/// Moving `player` from group `from` to another group `to` makes the player
/// join the members of `to`: the result has the group of the old members of
/// `to` followed by the player, keeps the other members of `from` as a group
/// (when there are any), keeps every other non-empty group, and has no other
/// group and no empty group. This holds whichever of `from` and `to` comes
/// first.
pub proof fn law_move_joins_target_group(gs: Seq<Seq<u8>>, player: u8, from: int, to: int)
    requires
        0 <= from < gs.len(),
        0 <= to < gs.len(),
        from != to,
        gs[from].contains(player),
    ensures
        ({
            let r = move_spec(gs, player, from, to);
            let rest = gs[from].filter(other_than(player));
            &&& r.contains(gs[to].push(player))
            &&& rest.len() > 0 ==> r.contains(rest)
            &&& forall|x: u8| rest.contains(x) <==> gs[from].contains(x) && x != player
            &&& forall|h: int|
                0 <= h < gs.len() && h != from && h != to && gs[h].len() > 0 ==> r.contains(
                    #[trigger] gs[h],
                )
            &&& forall|g: int|
                0 <= g < r.len() ==> #[trigger] r[g].len() > 0 && (r[g] == gs[to].push(player)
                    || r[g] == rest || exists|h: int|
                    0 <= h < gs.len() && h != from && h != to && r[g] == gs[h])
        }),
{
    broadcast use vstd::seq_lib::group_filter_ensures;

    let pred = other_than(player);
    let rest = gs[from].filter(pred);
    let left = gs.update(from, rest);
    let moved = moved_groups(gs, player, from, to);
    let r = move_spec(gs, player, from, to);
    assert(moved[to] == gs[to].push(player));
    assert(moved[from] == rest);
    moved.lemma_filter_contains(nonempty(), to);
    if rest.len() > 0 {
        moved.lemma_filter_contains(nonempty(), from);
    }
    assert forall|x: u8| rest.contains(x) <==> gs[from].contains(x) && x != player by {
        if rest.contains(x) {
            gs[from].lemma_filter_contains_rev(pred, x);
            let k = choose|k: int| 0 <= k < rest.len() && rest[k] == x;
            gs[from].lemma_filter_pred(pred, k);
        }
        if gs[from].contains(x) && x != player {
            let k = choose|k: int| 0 <= k < gs[from].len() && gs[from][k] == x;
            gs[from].lemma_filter_contains(pred, k);
        }
    }
    assert forall|h: int|
        0 <= h < gs.len() && h != from && h != to && gs[h].len() > 0 implies r.contains(
        #[trigger] gs[h],
    ) by {
        assert(moved[h] == gs[h]);
        moved.lemma_filter_contains(nonempty(), h);
    }
    assert forall|g: int| 0 <= g < r.len() implies #[trigger] r[g].len() > 0 && (r[g] == gs[to].push(
        player,
    ) || r[g] == rest || exists|h: int| 0 <= h < gs.len() && h != from && h != to && r[g] == gs[h]) by {
        moved.lemma_filter_pred(nonempty(), g);
        assert(r.contains(r[g]));
        moved.lemma_filter_contains_rev(nonempty(), r[g]);
        let h = choose|h: int| 0 <= h < moved.len() && moved[h] == r[g];
        if h != from && h != to {
            assert(moved[h] == gs[h]);
        }
    }
}

// ---------------------------------------------------------------------------
// Coalition structures.
// ---------------------------------------------------------------------------

/// A coalition structure: a partition of players into disjoint coalitions.
#[derive(Debug)]
pub struct CoalitionStructure {
    /// Groups of player indices (each group is a coalition).
    groups: Vec<Vec<u8>>,
    /// Number of players in the universe.
    n: u8,
}

impl CoalitionStructure {
    #[verifier::type_invariant]
    spec fn partitions_players(self) -> bool {
        is_partition(self.n as nat, group_seqs(self.groups@))
    }

    /// The groups, as sequences of player indices.
    pub closed spec fn group_list(self) -> Seq<Seq<u8>> {
        group_seqs(self.groups@)
    }

    /// The number of players in the universe.
    pub closed spec fn universe(self) -> u8 {
        self.n
    }

    /// Does `groups` partition the players `0..n`: every entry below `n`,
    /// and every player below `n` in exactly one place?
    pub fn is_valid_partition(n: u8, groups: &Vec<Vec<u8>>) -> (r: bool)
        ensures
            r == is_partition(n as nat, group_seqs(groups@)),
    {
        let ghost gs = group_seqs(groups@);
        let mut g: usize = 0;
        while g < groups.len()
            invariant
                gs == group_seqs(groups@),
                g <= groups@.len(),
                forall|a: int, k: int| 0 <= a < g && 0 <= k < gs[a].len() ==> gs[a][k] < n,
            decreases groups@.len() - g,
        {
            let group = &groups[g];
            let mut k: usize = 0;
            while k < group.len()
                invariant
                    gs == group_seqs(groups@),
                    g < groups@.len(),
                    group@ == gs[g as int],
                    k <= group@.len(),
                    forall|a: int, q: int| 0 <= a < g && 0 <= q < gs[a].len() ==> gs[a][q] < n,
                    forall|q: int| 0 <= q < k ==> gs[g as int][q] < n,
                decreases group@.len() - k,
            {
                if group[k] >= n {
                    return false;
                }
                k += 1;
            }
            g += 1;
        }
        let mut p: u8 = 0;
        while p < n
            invariant
                gs == group_seqs(groups@),
                p <= n,
                forall|a: int, k: int| 0 <= a < gs.len() && 0 <= k < gs[a].len() ==> gs[a][k] < n,
                forall|q: u8| q < p ==> #[trigger] occurrences(gs, q) == 1,
            decreases n - p,
        {
            if !Self::occurs_once(groups, p) {
                return false;
            }
            p += 1;
        }
        true
    }

    /// Does `p` occur exactly once over all the groups?
    fn occurs_once(groups: &Vec<Vec<u8>>, p: u8) -> (r: bool)
        ensures
            r == (occurrences(group_seqs(groups@), p) == 1),
    {
        let ghost gs = group_seqs(groups@);
        // `seen` counts the occurrences so far, capped at 2.
        let mut seen: u8 = 0;
        let mut g: usize = 0;
        while g < groups.len()
            invariant
                gs == group_seqs(groups@),
                g <= gs.len(),
                seen == if occurrences(gs.take(g as int), p) < 2 {
                    occurrences(gs.take(g as int), p)
                } else {
                    2
                },
            decreases gs.len() - g,
        {
            let group = &groups[g];
            let ghost before = occurrences(gs.take(g as int), p);
            let mut k: usize = 0;
            while k < group.len()
                invariant
                    gs == group_seqs(groups@),
                    g < gs.len(),
                    group@ == gs[g as int],
                    k <= group@.len(),
                    seen == if before + count_in(group@.take(k as int), p) < 2 {
                        before + count_in(group@.take(k as int), p)
                    } else {
                        2
                    },
                decreases group@.len() - k,
            {
                proof {
                    assert(group@.take(k + 1) =~= group@.take(k as int).push(group@[k as int]));
                }
                if group[k] == p && seen < 2 {
                    seen += 1;
                }
                k += 1;
            }
            proof {
                assert(group@.take(k as int) =~= group@);
                assert(gs.take(g + 1) =~= gs.take(g as int).push(gs[g as int]));
                lemma_occurrences_push(gs.take(g as int), gs[g as int], p);
            }
            g += 1;
        }
        proof {
            assert(gs.take(g as int) =~= gs);
        }
        seen == 1
    }

    /// Create a coalition structure from groups that partition the players
    /// `0..n`.
    pub fn new(n: u8, groups: Vec<Vec<u8>>) -> (r: Self)
        requires
            is_partition(n as nat, group_seqs(groups@)),
        ensures
            r.universe() == n,
            r.group_list() == group_seqs(groups@),
            is_partition(r.universe() as nat, r.group_list()),
    {
        Self { groups, n }
    }

    /// The grand coalition structure (everyone together).
    pub fn grand(n: u8) -> (r: Self)
        ensures
            r.universe() == n,
            r.group_list() == seq![identity_order(n as nat)],
            is_partition(r.universe() as nat, r.group_list()),
    {
        let mut all: Vec<u8> = Vec::new();
        let mut k: u8 = 0;
        while k < n
            invariant
                k <= n,
                all@ == identity_order(k as nat),
            decreases n - k,
        {
            all.push(k);
            proof {
                assert(all@ =~= identity_order((k + 1) as nat));
            }
            k = k + 1;
        }
        let mut groups: Vec<Vec<u8>> = Vec::new();
        groups.push(all);
        proof {
            let gs = group_seqs(groups@);
            let id = identity_order(n as nat);
            assert(gs =~= seq![id]);
            assert forall|p: u8| p < n implies #[trigger] occurrences(gs, p) == 1 by {
                lemma_identity_once(n as nat, p);
                assert(gs.drop_last() =~= Seq::<Seq<u8>>::empty());
                assert(occurrences(gs.drop_last(), p) == 0);
                assert(gs.last() == id);
                assert(count_in(id, p) == 1);
                assert(occurrences(gs, p) == occurrences(gs.drop_last(), p) + count_in(gs.last(), p));
            }
            assert forall|g: int, k: int| 0 <= g < gs.len() && 0 <= k < gs[g].len() implies gs[g][k] < n by {
                assert(gs[g] == id);
            }
        }
        Self { groups, n }
    }

    /// The singleton structure (everyone alone).
    pub fn singleton(n: u8) -> (r: Self)
        ensures
            r.universe() == n,
            r.group_list() == Seq::new(n as nat, |i: int| seq![i as u8]),
            is_partition(r.universe() as nat, r.group_list()),
    {
        let mut groups: Vec<Vec<u8>> = Vec::new();
        let mut k: u8 = 0;
        while k < n
            invariant
                k <= n,
                group_seqs(groups@) == Seq::new(k as nat, |i: int| seq![i as u8]),
                forall|p: u8| #[trigger] occurrences(group_seqs(groups@), p) == if p < k {
                    1nat
                } else {
                    0nat
                },
            decreases n - k,
        {
            let ghost before = group_seqs(groups@);
            let g = Self::alone(k);
            groups.push(g);
            proof {
                assert(group_seqs(groups@) =~= before.push(seq![k]));
                assert(group_seqs(groups@) =~= Seq::new((k + 1) as nat, |i: int| seq![i as u8]));
                assert forall|p: u8| #[trigger] occurrences(group_seqs(groups@), p) == if p < k + 1 {
                    1nat
                } else {
                    0nat
                } by {
                    lemma_occurrences_push(before, seq![k], p);
                    assert(seq![k] =~= Seq::<u8>::empty().push(k));
                    assert(Seq::<u8>::empty().to_multiset().count(p) == 0);
                }
            }
            k = k + 1;
        }
        Self { groups, n }
    }

    /// Number of players. (Each of `n`, `num_groups` and `groups` also
    /// states that the groups partition the players `0..n`.)
    pub fn n(&self) -> (r: u8)
        ensures
            r == self.universe(),
            is_partition(self.universe() as nat, self.group_list()),
    {
        proof {
            use_type_invariant(self);
        }
        self.n
    }

    /// Number of groups (coalitions in the structure).
    pub fn num_groups(&self) -> (r: usize)
        ensures
            r == self.group_list().len(),
            is_partition(self.universe() as nat, self.group_list()),
    {
        proof {
            use_type_invariant(self);
        }
        self.groups.len()
    }

    /// Access the groups.
    pub fn groups(&self) -> (r: &[Vec<u8>])
        ensures
            group_seqs(r@) == self.group_list(),
            is_partition(self.universe() as nat, self.group_list()),
    {
        proof {
            use_type_invariant(self);
        }
        self.groups.as_slice()
    }

    /// The index of the group that contains `player`.
    pub fn group_of(&self, player: u8) -> (r: usize)
        requires
            player < self.universe(),
        ensures
            r < self.group_list().len(),
            self.group_list()[r as int].contains(player),
            forall|g: int|
                0 <= g < self.group_list().len() && #[trigger] self.group_list()[g].contains(player)
                    ==> g == r,
    {
        proof {
            use_type_invariant(self);
        }
        let ghost gs = group_seqs(self.groups@);
        proof {
            assert(occurrences(gs, player) == 1);
        }
        let mut g: usize = 0;
        while g < self.groups.len()
            invariant
                gs == group_seqs(self.groups@),
                g <= gs.len(),
                occurrences(gs, player) == 1,
                forall|a: int| 0 <= a < g ==> !#[trigger] gs[a].contains(player),
            decreases gs.len() - g,
        {
            let group = &self.groups[g];
            let mut k: usize = 0;
            while k < group.len()
                invariant
                    gs == group_seqs(self.groups@),
                    g < gs.len(),
                    group@ == gs[g as int],
                    k <= group@.len(),
                    occurrences(gs, player) == 1,
                    forall|a: int| 0 <= a < g ==> !#[trigger] gs[a].contains(player),
                    forall|q: int| 0 <= q < k ==> group@[q] != player,
                decreases group@.len() - k,
            {
                if group[k] == player {
                    proof {
                        assert(gs[g as int].contains(player));
                        assert forall|a: int| 0 <= a < gs.len() && #[trigger] gs[a].contains(player)
                            implies a == g by {
                            lemma_single_group(gs, player, a, g as int);
                        }
                    }
                    return g;
                }
                k += 1;
            }
            proof {
                assert(!gs[g as int].contains(player));
            }
            g += 1;
        }
        proof {
            let a = lemma_occurrences_found(gs, player);
            assert(gs[a].contains(player));
        }
        0
    }

    /// A new structure where `player` has moved from group `from` to group
    /// `to`; groups left empty are dropped.
    pub fn with_move(&self, player: u8, from: usize, to: usize) -> (r: CoalitionStructure)
        requires
            from < self.group_list().len(),
            to < self.group_list().len(),
            self.group_list()[from as int].contains(player),
        ensures
            r.universe() == self.universe(),
            r.group_list() == move_spec(self.group_list(), player, from as int, to as int),
            is_partition(r.universe() as nat, r.group_list()),
            from != to ==> r.group_list().contains(self.group_list()[to as int].push(player)),
    {
        proof {
            use_type_invariant(self);
            if from != to {
                law_move_joins_target_group(group_seqs(self.groups@), player, from as int, to as int);
            }
        }
        let ghost gs = group_seqs(self.groups@);
        let mut new_groups: Vec<Vec<u8>> = Vec::new();
        let mut g: usize = 0;
        let ghost moved = moved_groups(gs, player, from as int, to as int);
        while g < self.groups.len()
            invariant
                gs == group_seqs(self.groups@),
                moved == moved_groups(gs, player, from as int, to as int),
                from < gs.len(),
                to < gs.len(),
                g <= gs.len(),
                group_seqs(new_groups@) == moved.take(g as int).filter(nonempty()),
            decreases gs.len() - g,
        {
            let mut group: Vec<u8> = if g == from {
                Self::without(&self.groups[g], player)
            } else {
                Self::copy_group(&self.groups[g])
            };
            if g == to {
                group.push(player);
            }
            proof {
                let left = gs.update(from as int, gs[from as int].filter(other_than(player)));
                assert(gs[g as int] == self.groups@[g as int]@);
                assert(moved[g as int] == if g == to {
                    left[g as int].push(player)
                } else {
                    left[g as int]
                });
                assert(group@ == moved[g as int]);
                assert(moved.take(g + 1).drop_last() =~= moved.take(g as int));
                assert(moved.take(g + 1).last() == moved[g as int]);
                reveal(Seq::filter);
            }
            let ghost before = group_seqs(new_groups@);
            if group.len() > 0 {
                new_groups.push(group);
                proof {
                    assert(group_seqs(new_groups@) =~= before.push(moved[g as int]));
                }
            }
            g += 1;
        }
        proof {
            assert(moved.take(g as int) =~= moved);
            lemma_move_keeps_partition(self.n as nat, gs, player, from as int, to as int);
        }
        CoalitionStructure { groups: new_groups, n: self.n }
    }

    /// A new structure where `player` leaves group `from` to form a group of
    /// its own, placed last.
    pub fn with_leave(&self, player: u8, from: usize) -> (r: CoalitionStructure)
        requires
            from < self.group_list().len(),
            self.group_list()[from as int].contains(player),
        ensures
            r.universe() == self.universe(),
            r.group_list() == leave_spec(self.group_list(), player, from as int),
            is_partition(r.universe() as nat, r.group_list()),
    {
        proof {
            use_type_invariant(self);
        }
        let ghost gs = group_seqs(self.groups@);
        let mut new_groups: Vec<Vec<u8>> = Self::copy_groups(&self.groups);
        let reduced = Self::without(&self.groups[from], player);
        new_groups.set(from, reduced);
        new_groups.push(Self::alone(player));
        proof {
            assert(group_seqs(new_groups@) =~= leave_spec(gs, player, from as int));
            lemma_leave_keeps_partition(self.n as nat, gs, player, from as int);
        }
        CoalitionStructure { groups: new_groups, n: self.n }
    }

    /// The members of `group` other than `player`, in order.
    fn without(group: &Vec<u8>, player: u8) -> (r: Vec<u8>)
        ensures
            r@ == group@.filter(other_than(player)),
    {
        let mut r: Vec<u8> = Vec::new();
        let mut k: usize = 0;
        while k < group.len()
            invariant
                k <= group@.len(),
                r@ == group@.take(k as int).filter(other_than(player)),
            decreases group@.len() - k,
        {
            proof {
                assert(group@.take(k + 1).drop_last() =~= group@.take(k as int));
                reveal(Seq::filter);
            }
            if group[k] != player {
                r.push(group[k]);
            }
            k += 1;
        }
        proof {
            assert(group@.take(k as int) =~= group@);
        }
        r
    }
}

impl CoalitionStructure {
    /// A group holding `player` alone.
    fn alone(player: u8) -> (r: Vec<u8>)
        ensures
            r@ == seq![player],
    {
        let mut r: Vec<u8> = Vec::new();
        r.push(player);
        proof {
            assert(r@ =~= seq![player]);
        }
        r
    }

    /// A copy of a group.
    fn copy_group(group: &Vec<u8>) -> (r: Vec<u8>)
        ensures
            r@ == group@,
    {
        let r = group.clone();
        proof {
            assert(r@ =~= group@);
        }
        r
    }

    /// A copy of the groups.
    fn copy_groups(groups: &Vec<Vec<u8>>) -> (r: Vec<Vec<u8>>)
        ensures
            group_seqs(r@) == group_seqs(groups@),
    {
        let mut r: Vec<Vec<u8>> = Vec::new();
        let mut g: usize = 0;
        while g < groups.len()
            invariant
                g <= groups@.len(),
                r@.len() == g,
                group_seqs(r@) == group_seqs(groups@).take(g as int),
            decreases groups@.len() - g,
        {
            let c = Self::copy_group(&groups[g]);
            let ghost before = r@;
            r.push(c);
            proof {
                assert(r@ == before.push(c));
                assert forall|k: int| 0 <= k < g + 1 implies #[trigger] group_seqs(r@)[k] == group_seqs(groups@)[k] by {
                    if k < g {
                        assert(group_seqs(r@)[k] == group_seqs(before)[k]);
                    } else {
                        assert(r@[k] == c);
                    }
                }
                assert(group_seqs(r@) =~= group_seqs(groups@).take(g + 1));
            }
            g += 1;
        }
        proof {
            assert(group_seqs(groups@).take(g as int) =~= group_seqs(groups@));
        }
        r
    }
}

impl Clone for CoalitionStructure {
    /// A copy of the structure.
    fn clone(&self) -> (r: Self)
        ensures
            r.universe() == self.universe(),
            r.group_list() == self.group_list(),
    {
        proof {
            use_type_invariant(self);
        }
        CoalitionStructure { groups: Self::copy_groups(&self.groups), n: self.n }
    }
}

/// Results of stability analysis.
#[derive(Clone, Debug)]
pub struct StabilityReport {
    /// Is the structure Nash-stable?
    pub nash_stable: bool,
    /// Is the structure individually stable?
    pub individually_stable: bool,
    /// Is the structure core-stable?
    pub core_stable: bool,
    /// Players who want to deviate (Nash).
    pub nash_unstable_players: Vec<u8>,
    /// Blocking coalitions (for core stability).
    pub blocking_coalitions: Vec<Vec<u8>>,
}

/// Stability analysis for coalition structures of `n` players.
#[derive(Clone, Debug)]
pub struct StabilityAnalysis {
    n: u8,
}

impl StabilityAnalysis {
    /// The number of players analysed.
    pub closed spec fn players(self) -> u8 {
        self.n
    }

    /// Create a new stability analyzer for `n` players.
    pub fn new(n: u8) -> (r: Self)
        ensures
            r.players() == n,
    {
        Self { n }
    }

    /// The number of players analysed.
    pub fn n(&self) -> (r: u8)
        ensures
            r == self.players(),
    {
        self.n
    }
}

} // verus!
