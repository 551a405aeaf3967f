//! Union-find: a partition of `0..n` that can only get coarser.

use vstd::arithmetic::power2::{lemma2_to64, lemma_pow2_unfold, pow2};
use vstd::prelude::*;

verus! {

/// Disjoint sets of the numbers `0..n`, with union by rank and path compression.
///
/// The view gives the representative of every element: two elements are in one set exactly when
/// their representatives are equal.
pub struct UnionFind {
    parent: Vec<usize>,
    rank: Vec<usize>,
}

/// The root reached from `x` by following parents. Ranks grow on the way up.
spec fn root_of(parent: Seq<usize>, rank: Seq<usize>, x: int) -> int
    decreases parent.len() - rank[x],
{
    if 0 <= x < parent.len() && parent[x] != x && rank[x] < rank[parent[x] as int]
        && rank[parent[x] as int] <= parent.len() {
        root_of(parent, rank, parent[x] as int)
    } else {
        x
    }
}

/// How many of the first `k` elements are roots.
spec fn roots_below(parent: Seq<usize>, k: nat) -> nat
    decreases k,
{
    if k == 0 {
        0
    } else {
        roots_below(parent, (k - 1) as nat) + if parent[k - 1] == k - 1 {
            1nat
        } else {
            0nat
        }
    }
}

spec fn forest(parent: Seq<usize>, rank: Seq<usize>) -> bool {
    &&& parent.len() == rank.len()
    &&& forall|i: int| 0 <= i < parent.len() ==> (#[trigger] parent[i]) < parent.len()
    &&& forall|i: int|
        0 <= i < parent.len() && parent[i] != i ==> rank[i] < rank[(#[trigger] parent[i]) as int]
    &&& forall|i: int|
        0 <= i < parent.len() ==> (#[trigger] rank[i]) + roots_below(parent, parent.len())
            <= parent.len()
}

spec fn reps_of(parent: Seq<usize>, rank: Seq<usize>) -> Seq<int> {
    Seq::new(parent.len(), |i: int| root_of(parent, rank, i))
}

/// A root is where the climb from `x` ends.
proof fn lemma_root(parent: Seq<usize>, rank: Seq<usize>, x: int)
    requires
        forest(parent, rank),
        0 <= x < parent.len(),
    ensures
        0 <= root_of(parent, rank, x) < parent.len(),
        parent[root_of(parent, rank, x)] == root_of(parent, rank, x),
        root_of(parent, rank, root_of(parent, rank, x)) == root_of(parent, rank, x),
        rank[x] <= rank[root_of(parent, rank, x)],
        root_of(parent, rank, x) == x <==> parent[x] == x,
        parent[x] != x ==> root_of(parent, rank, x) == root_of(parent, rank, parent[x] as int),
        parent[x] != x ==> rank[x] < rank[root_of(parent, rank, x)],
    decreases parent.len() - rank[x],
{
    if parent[x] != x {
        let p = parent[x] as int;
        assert(rank[p] + roots_below(parent, parent.len()) <= parent.len());
        lemma_root(parent, rank, p);
    }
}

proof fn lemma_roots_update(parent: Seq<usize>, x: int, v: usize, k: nat)
    requires
        0 <= x < parent.len(),
        k <= parent.len(),
        v != x,
    ensures
        roots_below(parent.update(x, v), k) == roots_below(parent, k) - if x < k && parent[x] == x {
            1int
        } else {
            0int
        },
    decreases k,
{
    if k > 0 {
        lemma_roots_update(parent, x, v, (k - 1) as nat);
    }
}

proof fn lemma_roots_present(parent: Seq<usize>, x: int, y: int, k: nat)
    requires
        k <= parent.len(),
    ensures
        0 <= x < k && parent[x] == x ==> roots_below(parent, k) >= 1,
        0 <= x < k && parent[x] == x && 0 <= y < k && parent[y] == y && x != y ==> roots_below(
            parent,
            k,
        ) >= 2,
    decreases k,
{
    if k > 0 {
        lemma_roots_present(parent, x, y, (k - 1) as nat);
        lemma_roots_present(parent, y, x, (k - 1) as nat);
    }
}

/// Path compression: pointing `x` straight at its root moves no element to another root.
proof fn lemma_compress(parent: Seq<usize>, rank: Seq<usize>, x: int, r: usize, y: int)
    requires
        forest(parent, rank),
        0 <= x < parent.len(),
        0 <= y < parent.len(),
        r == root_of(parent, rank, x),
        r != x,
    ensures
        forest(parent.update(x, r), rank),
        root_of(parent.update(x, r), rank, y) == root_of(parent, rank, y),
    decreases parent.len() - rank[y],
{
    let after = parent.update(x, r);
    lemma_root(parent, rank, x);
    lemma_roots_update(parent, x, r, parent.len());
    assert(roots_below(after, parent.len()) == roots_below(parent, parent.len()));
    assert forall|i: int| 0 <= i < after.len() && after[i] != i implies rank[i] < rank[(
    #[trigger] after[i]) as int] by {
        if i != x {
            assert(after[i] == parent[i]);
        }
    }
    assert forall|i: int| 0 <= i < after.len() implies (#[trigger] after[i]) < after.len() by {
        if i != x {
            assert(after[i] == parent[i]);
        }
    }
    assert(forest(after, rank));
    lemma_root(parent, rank, y);
    lemma_root(after, rank, y);
    if y == x {
        assert(after[r as int] == r);
        lemma_root(after, rank, r as int);
    } else if parent[y] != y {
        lemma_compress(parent, rank, x, r, parent[y] as int);
    }
}

/// Linking: hanging the root `c` under the root `r` moves exactly the elements below `c`.
proof fn lemma_link(
    parent: Seq<usize>,
    rank: Seq<usize>,
    rank2: Seq<usize>,
    c: int,
    r: usize,
    y: int,
)
    requires
        forest(parent, rank),
        0 <= c < parent.len(),
        r < parent.len(),
        0 <= y < parent.len(),
        parent[c] == c,
        parent[r as int] == r,
        c != r,
        rank2.len() == rank.len(),
        forall|i: int| 0 <= i < rank.len() && i != r ==> #[trigger] rank2[i] == rank[i],
        rank[r as int] <= rank2[r as int] <= rank[r as int] + 1,
        rank2[c] < rank2[r as int],
    ensures
        forest(parent.update(c, r), rank2),
        root_of(parent.update(c, r), rank2, y) == if root_of(parent, rank, y) == c {
            r as int
        } else {
            root_of(parent, rank, y)
        },
    decreases parent.len() - rank[y],
{
    let after = parent.update(c, r);
    lemma_roots_update(parent, c, r, parent.len());
    lemma_roots_present(parent, c, r as int, parent.len());
    assert forall|i: int| 0 <= i < after.len() && after[i] != i implies rank2[i] < rank2[(
    #[trigger] after[i]) as int] by {
        if i != c {
            assert(after[i] == parent[i]);
            assert(i != r);
            assert(rank[i] < rank[parent[i] as int]);
            assert(rank2[i] == rank[i]);
            if parent[i] != r {
                assert(rank2[parent[i] as int] == rank[parent[i] as int]);
            }
        }
    }
    assert forall|i: int| 0 <= i < after.len() implies (#[trigger] after[i]) < after.len() by {
        if i != c {
            assert(after[i] == parent[i]);
        }
    }
    assert forall|i: int| 0 <= i < after.len() implies (#[trigger] rank2[i]) + roots_below(
        after,
        after.len(),
    ) <= after.len() by {
        assert(rank[i] + roots_below(parent, parent.len()) <= parent.len());
    }
    assert(forest(after, rank2));
    lemma_root(parent, rank, y);
    lemma_root(after, rank2, y);
    if y == c {
        assert(after[r as int] == r);
        lemma_root(after, rank2, r as int);
    } else if parent[y] != y {
        lemma_link(parent, rank, rank2, c, r, parent[y] as int);
        assert(after[y] == parent[y]);
    }
}

proof fn lemma_all_roots(parent: Seq<usize>, k: nat)
    requires
        k <= parent.len(),
        forall|i: int| 0 <= i < parent.len() ==> #[trigger] parent[i] == i,
    ensures
        roots_below(parent, k) == k,
    decreases k,
{
    if k > 0 {
        lemma_all_roots(parent, (k - 1) as nat);
    }
}

/// The representative that wins when the sets of `a` and `b` are joined: the one of higher rank,
/// and that of `a` where the ranks are equal.
pub open spec fn winner(reps: Seq<int>, ranks: Seq<nat>, a: int, b: int) -> int {
    if ranks[reps[a]] < ranks[reps[b]] {
        reps[b]
    } else {
        reps[a]
    }
}

/// The representatives after the sets of `a` and `b` have been joined.
pub open spec fn joined(reps: Seq<int>, ranks: Seq<nat>, a: int, b: int) -> Seq<int> {
    reps.map_values(
        |r: int|
            if r == reps[a] || r == reps[b] {
                winner(reps, ranks, a, b)
            } else {
                r
            },
    )
}

/// The ranks after the sets of `a` and `b` have been joined: only a tie between two different
/// representatives raises one.
pub open spec fn joined_ranks(reps: Seq<int>, ranks: Seq<nat>, a: int, b: int) -> Seq<nat> {
    if reps[a] != reps[b] && ranks[reps[a]] == ranks[reps[b]] {
        ranks.update(reps[a], ranks[reps[a]] + 1)
    } else {
        ranks
    }
}

/// How many of the elements have the representative `r`.
pub open spec fn class_size(reps: Seq<int>, r: int) -> nat
    decreases reps.len(),
{
    if reps.len() == 0 {
        0
    } else {
        class_size(reps.drop_last(), r) + if reps.last() == r {
            1nat
        } else {
            0nat
        }
    }
}

/// Whether every set is at least as large as the rank of its representative says: two to the power
/// of the rank.
pub open spec fn populous(reps: Seq<int>, ranks: Seq<nat>) -> bool {
    forall|r: int|
        0 <= r < reps.len() && reps[r] == r ==> pow2(#[trigger] ranks[r]) <= class_size(reps, r)
}

proof fn lemma_class_not_empty(reps: Seq<int>, x: int)
    requires
        0 <= x < reps.len(),
    ensures
        class_size(reps, reps[x]) >= 1,
    decreases reps.len(),
{
    if x < reps.len() - 1 {
        lemma_class_not_empty(reps.drop_last(), x);
    }
}

/// The representatives with `w` in the place of `u` and `v`.
spec fn redirected(reps: Seq<int>, u: int, v: int, w: int) -> Seq<int> {
    Seq::new(
        reps.len(),
        |i: int|
            if reps[i] == u || reps[i] == v {
                w
            } else {
                reps[i]
            },
    )
}

proof fn lemma_redirected_sizes(reps: Seq<int>, u: int, v: int, w: int, r: int)
    requires
        u != v,
        w == u || w == v,
    ensures
        class_size(redirected(reps, u, v, w), r) == if r == w {
            class_size(reps, u) + class_size(reps, v)
        } else if r == u || r == v {
            0
        } else {
            class_size(reps, r)
        },
    decreases reps.len(),
{
    if reps.len() > 0 {
        lemma_redirected_sizes(reps.drop_last(), u, v, w, r);
        assert(redirected(reps, u, v, w).drop_last() =~= redirected(reps.drop_last(), u, v, w));
    }
}

/// Joining keeps sets as large as the ranks of their representatives say.
proof fn lemma_joined_populous(reps: Seq<int>, ranks: Seq<nat>, a: int, b: int)
    requires
        ranks.len() == reps.len(),
        0 <= a < reps.len(),
        0 <= b < reps.len(),
        0 <= reps[a] < reps.len(),
        0 <= reps[b] < reps.len(),
        reps[reps[a]] == reps[a],
        reps[reps[b]] == reps[b],
        populous(reps, ranks),
    ensures
        populous(joined(reps, ranks, a, b), joined_ranks(reps, ranks, a, b)),
{
    let after = joined(reps, ranks, a, b);
    let after_ranks = joined_ranks(reps, ranks, a, b);
    let u = reps[a];
    let v = reps[b];
    if u == v {
        assert(after =~= reps);
    } else {
        let w = winner(reps, ranks, a, b);
        assert(after =~= redirected(reps, u, v, w));
        assert forall|r: int| 0 <= r < after.len() && after[r] == r implies pow2(
            #[trigger] after_ranks[r],
        ) <= class_size(after, r) by {
            lemma_redirected_sizes(reps, u, v, w, r);
            assert(pow2(ranks[u]) <= class_size(reps, u));
            assert(pow2(ranks[v]) <= class_size(reps, v));
            if r == w {
                lemma_pow2_unfold(ranks[u] + 1);
            } else {
                assert(reps[r] == r);
                assert(pow2(ranks[r]) <= class_size(reps, r));
            }
        }
    }
}

impl View for UnionFind {
    type V = Seq<int>;

    closed spec fn view(&self) -> Seq<int> {
        reps_of(self.parent@, self.rank@)
    }
}

impl UnionFind {
    /// The parents form a forest in which ranks grow towards the roots, and no rank is higher than
    /// the size of its set allows.
    pub closed spec fn wf(&self) -> bool {
        &&& forest(self.parent@, self.rank@)
        &&& populous(self@, self.ranks())
    }

    /// The parent of every element. A representative is its own parent.
    pub closed spec fn parents(&self) -> Seq<int> {
        self.parent@.map_values(|p: usize| p as int)
    }

    /// The rank of every element.
    pub closed spec fn ranks(&self) -> Seq<nat> {
        self.rank@.map_values(|r: usize| r as nat)
    }

    /// Every element in a set of its own.
    pub fn new(n: usize) -> (uf: Self)
        ensures
            uf.wf(),
            uf@ == Seq::new(n as nat, |i: int| i),
            uf.ranks() == Seq::new(n as nat, |i: int| 0nat),
    {
        let mut parent: Vec<usize> = Vec::new();
        let mut rank: Vec<usize> = Vec::new();
        let mut i: usize = 0;
        while i < n
            invariant
                i <= n,
                parent@.len() == i,
                rank@.len() == i,
                forall|j: int| 0 <= j < i ==> #[trigger] parent@[j] == j,
                forall|j: int| 0 <= j < i ==> #[trigger] rank@[j] == 0,
            decreases n - i,
        {
            parent.push(i);
            rank.push(0);
            i += 1;
        }
        let uf = UnionFind { parent, rank };
        proof {
            lemma_all_roots(uf.parent@, n as nat);
            assert(uf@ =~= Seq::new(n as nat, |i: int| i));
            assert(uf.ranks() =~= Seq::new(n as nat, |i: int| 0nat));
            assert(populous(uf@, uf.ranks())) by {
                lemma2_to64();
                assert forall|r: int| 0 <= r < uf@.len() && uf@[r] == r implies pow2(
                    #[trigger] uf.ranks()[r],
                ) <= class_size(uf@, r) by {
                    lemma_class_not_empty(uf@, r);
                }
            }
        }
        uf
    }

    /// The representative of the set that holds `x`. The sets stay as they were.
    pub fn find(&mut self, x: usize) -> (r: usize)
        requires
            old(self).wf(),
            x < old(self)@.len(),
        ensures
            final(self).wf(),
            final(self)@ == old(self)@,
            final(self).ranks() == old(self).ranks(),
            r == old(self)@[x as int],
            r < old(self)@.len(),
        decreases old(self)@.len() - old(self).ranks()[x as int],
    {
        proof {
            lemma_root(self.parent@, self.rank@, x as int);
            assert(self.rank@[x as int] + roots_below(self.parent@, self.parent@.len())
                <= self.parent@.len());
        }
        if self.parent[x] != x {
            let p = self.parent[x];
            proof {
                lemma_root(self.parent@, self.rank@, p as int);
                assert(self.rank@[p as int] + roots_below(self.parent@, self.parent@.len())
                    <= self.parent@.len());
            }
            let r = self.find(p);
            proof {
                assert(self@[x as int] == old(self)@[x as int]);
                assert(r == root_of(self.parent@, self.rank@, x as int));
                assert forall|y: int| 0 <= y < self.parent@.len() implies root_of(
                    self.parent@.update(x as int, r),
                    self.rank@,
                    y,
                ) == #[trigger] root_of(self.parent@, self.rank@, y) by {
                    lemma_compress(self.parent@, self.rank@, x as int, r, y);
                }
                lemma_compress(self.parent@, self.rank@, x as int, r, 0);
            }
            self.parent.set(x, r);
            assert(self@ =~= old(self)@);
        }
        self.parent[x]
    }

    /// Joins the sets that hold `a` and `b`.
    pub fn union(&mut self, a: usize, b: usize)
        requires
            old(self).wf(),
            a < old(self)@.len(),
            b < old(self)@.len(),
        ensures
            final(self).wf(),
            final(self)@ == joined(old(self)@, old(self).ranks(), a as int, b as int),
            final(self).ranks() == joined_ranks(old(self)@, old(self).ranks(), a as int, b as int),
    {
        let ra = self.find(a);
        let rb = self.find(b);
        if ra == rb {
            assert(self@ =~= joined(old(self)@, old(self).ranks(), a as int, b as int));
            return;
        }
        let ghost parent = self.parent@;
        let ghost rank = self.rank@;
        proof {
            lemma_root(parent, rank, a as int);
            lemma_root(parent, rank, b as int);
            lemma_roots_present(parent, ra as int, rb as int, parent.len());
            assert(rank[ra as int] + roots_below(parent, parent.len()) <= parent.len());
            assert(parent.len() == self.parent.len());
        }
        let ghost mut loser = rb as int;
        let ghost mut wins = ra;
        if self.rank[ra] < self.rank[rb] {
            proof {
                loser = ra as int;
                wins = rb;
            }
            self.parent.set(ra, rb);
        } else if self.rank[ra] > self.rank[rb] {
            self.parent.set(rb, ra);
        } else {
            self.parent.set(rb, ra);
            let bumped = self.rank[ra] + 1;
            self.rank.set(ra, bumped);
        }
        proof {
            assert forall|y: int| 0 <= y < parent.len() implies #[trigger] self@[y] == joined(
                old(self)@,
                old(self).ranks(),
                a as int,
                b as int,
            )[y] by {
                lemma_link(parent, rank, self.rank@, loser, wins, y);
            }
            lemma_link(parent, rank, self.rank@, loser, wins, 0);
            assert(self@ =~= joined(old(self)@, old(self).ranks(), a as int, b as int));
            assert(self.ranks() =~= joined_ranks(
                old(self)@,
                old(self).ranks(),
                a as int,
                b as int,
            ));
            law_representative_represents_itself(*old(self), a as int);
            law_representative_represents_itself(*old(self), b as int);
            lemma_joined_populous(old(self)@, old(self).ranks(), a as int, b as int);
        }
    }
}

/// A representative is an element, and it represents itself.
pub proof fn law_representative_represents_itself(uf: UnionFind, x: int)
    requires
        uf.wf(),
        0 <= x < uf@.len(),
    ensures
        0 <= uf@[x] < uf@.len(),
        uf@[uf@[x]] == uf@[x],
{
    lemma_root(uf.parent@, uf.rank@, x);
}

/// Joining two sets makes exactly the relation that joining should: two elements are together
/// afterwards if and only if they were together before or one was with `a` and the other with `b`.
pub proof fn law_union_joins_exactly_two_sets(
    reps: Seq<int>,
    ranks: Seq<nat>,
    a: int,
    b: int,
    x: int,
    y: int,
)
    requires
        0 <= a < reps.len(),
        0 <= b < reps.len(),
        0 <= x < reps.len(),
        0 <= y < reps.len(),
    ensures
        ({
            let after = joined(reps, ranks, a, b);
            after[x] == after[y] <==> {
                ||| reps[x] == reps[y]
                ||| reps[x] == reps[a] && reps[y] == reps[b]
                ||| reps[x] == reps[b] && reps[y] == reps[a]
            }
        }),
{
}

/// Union by rank keeps the sets shallow: ranks grow on the way from an element to its
/// representative, so the way ends, and a set whose representative has rank `r` holds at least two
/// to the power of `r` elements.
pub proof fn law_ranks_bound_the_way_up(uf: UnionFind, x: int)
    requires
        uf.wf(),
        0 <= x < uf@.len(),
    ensures
        uf.parents().len() == uf@.len(),
        uf.ranks().len() == uf@.len(),
        0 <= uf.parents()[x] < uf@.len(),
        uf@[uf.parents()[x]] == uf@[x],
        uf.parents()[x] == x <==> uf@[x] == x,
        uf.parents()[x] != x ==> uf.ranks()[x] < uf.ranks()[uf.parents()[x]],
        pow2(uf.ranks()[uf@[x]]) <= class_size(uf@, uf@[x]),
{
    lemma_root(uf.parent@, uf.rank@, x);
    law_representative_represents_itself(uf, x);
    assert(uf.parent@[x] < uf.parent@.len());
    assert(pow2(uf.ranks()[uf@[x]]) <= class_size(uf@, uf@[x]));
}

} // verus!
