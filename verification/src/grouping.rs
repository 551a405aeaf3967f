//! Grouping: which items of a list share a key.

use vstd::prelude::*;

verus! {

/// The positions that carry the key `k`, in order.
pub open spec fn members<K>(keys: Seq<Option<K>>, k: K) -> Seq<int>
    decreases keys.len(),
{
    if keys.len() == 0 {
        Seq::empty()
    } else if keys.last() == Some(k) {
        members(keys.drop_last(), k).push(keys.len() - 1)
    } else {
        members(keys.drop_last(), k)
    }
}

/// The keys that occur, each once, in the order in which they first occur. A position may carry
/// no key.
pub open spec fn first_seen<K>(keys: Seq<Option<K>>) -> Seq<K>
    decreases keys.len(),
{
    if keys.len() == 0 {
        Seq::empty()
    } else {
        let before = first_seen(keys.drop_last());
        match keys.last() {
            Some(k) => if before.contains(k) {
                before
            } else {
                before.push(k)
            },
            None => before,
        }
    }
}

/// The positions grouped by key, the groups in the order of their first positions.
pub open spec fn all_groups<K>(keys: Seq<Option<K>>) -> Seq<Seq<int>> {
    first_seen(keys).map_values(|k: K| members(keys, k))
}

/// The groups of two or more positions.
pub open spec fn repeated_groups<K>(keys: Seq<Option<K>>) -> Seq<Seq<int>> {
    all_groups(keys).filter(|g: Seq<int>| g.len() > 1)
}

/// The items at the positions of each group.
pub open spec fn pick<T>(items: Seq<T>, groups: Seq<Seq<int>>) -> Seq<Seq<T>> {
    groups.map_values(|g: Seq<int>| g.map_values(|i: int| items[i]))
}

/// The contents of a list of lists.
pub open spec fn contents<T>(lists: Seq<Vec<T>>) -> Seq<Seq<T>> {
    lists.map_values(|v: Vec<T>| v@)
}

proof fn lemma_members_range<K>(keys: Seq<Option<K>>, k: K)
    ensures
        forall|j: int|
            0 <= j < members(keys, k).len() ==> 0 <= #[trigger] members(keys, k)[j] < keys.len()
                && keys[members(keys, k)[j]] == Some(k),
        forall|i: int, j: int|
            0 <= i < j < members(keys, k).len() ==> members(keys, k)[i] < members(keys, k)[j],
        forall|i: int|
            0 <= i < keys.len() && #[trigger] keys[i] == Some(k) ==> members(keys, k).contains(i),
    decreases keys.len(),
{
    if keys.len() > 0 {
        let rest = keys.drop_last();
        lemma_members_range(rest, k);
        let m = members(keys, k);
        let n = members(rest, k);
        assert forall|j: int| 0 <= j < m.len() implies 0 <= #[trigger] m[j] < keys.len()
            && keys[m[j]] == Some(k) by {
            if j < n.len() {
                assert(m[j] == n[j]);
                assert(rest[n[j]] == keys[n[j]]);
            }
        }
        assert forall|i: int| 0 <= i < keys.len() && #[trigger] keys[i] == Some(k) implies m.contains(
            i,
        ) by {
            if i < rest.len() {
                assert(rest[i] == Some(k));
                let j = choose|j: int| 0 <= j < n.len() && n[j] == i;
                assert(m[j] == i);
            } else {
                assert(m[m.len() - 1] == i);
            }
        }
    }
}

proof fn lemma_first_seen<K>(keys: Seq<Option<K>>)
    ensures
        first_seen(keys).no_duplicates(),
        first_seen(keys).len() <= keys.len(),
        forall|k: K|
            #[trigger] first_seen(keys).contains(k) <==> exists|i: int|
                0 <= i < keys.len() && keys[i] == Some(k),
    decreases keys.len(),
{
    if keys.len() > 0 {
        let rest = keys.drop_last();
        lemma_first_seen(rest);
        let f = first_seen(keys);
        let g = first_seen(rest);
        assert forall|k: K| #[trigger] f.contains(k) <==> exists|i: int|
            0 <= i < keys.len() && keys[i] == Some(k) by {
            if f.contains(k) {
                let j = choose|j: int| 0 <= j < f.len() && f[j] == k;
                if j < g.len() {
                    assert(g[j] == k);
                    assert(g.contains(k));
                    let i = choose|i: int| 0 <= i < rest.len() && rest[i] == Some(k);
                    assert(keys[i] == Some(k));
                } else {
                    assert(keys[keys.len() - 1] == Some(k));
                }
            }
            if exists|i: int| 0 <= i < keys.len() && keys[i] == Some(k) {
                let i = choose|i: int| 0 <= i < keys.len() && keys[i] == Some(k);
                if i < rest.len() {
                    assert(rest[i] == Some(k));
                    assert(g.contains(k));
                    let j = choose|j: int| 0 <= j < g.len() && g[j] == k;
                    assert(f[j] == k);
                } else if g.contains(k) {
                    let j = choose|j: int| 0 <= j < g.len() && g[j] == k;
                    assert(f[j] == k);
                } else {
                    assert(f[f.len() - 1] == k);
                }
            }
        }
    }
}

/// Two ways of naming the keys that tell the same positions apart give the same groups.
pub proof fn lemma_groups_relabel<A, B>(a: Seq<Option<A>>, b: Seq<Option<B>>)
    requires
        a.len() == b.len(),
        forall|i: int| 0 <= i < a.len() ==> (#[trigger] a[i] is Some <==> b[i] is Some),
        forall|i: int, j: int|
            0 <= i < a.len() && 0 <= j < a.len() && a[i] is Some ==> (#[trigger] a[i]
                == #[trigger] a[j] <==> b[i] == b[j]),
    ensures
        all_groups(a) == all_groups(b),
        repeated_groups(a) == repeated_groups(b),
{
    lemma_relabel_step(a, b);
    assert(all_groups(a) =~= all_groups(b));
}

spec fn same_name<A, B>(a: Seq<Option<A>>, b: Seq<Option<B>>, x: A, y: B) -> bool {
    exists|i: int| 0 <= i < a.len() && #[trigger] a[i] == Some(x) && b[i] == Some(y)
}

proof fn lemma_members_relabel<A, B>(
    a: Seq<Option<A>>,
    b: Seq<Option<B>>,
    x: A,
    y: B,
)
    requires
        a.len() == b.len(),
        forall|i: int| 0 <= i < a.len() ==> (#[trigger] a[i] == Some(x) <==> b[i] == Some(y)),
    ensures
        members(a, x) == members(b, y),
    decreases a.len(),
{
    if a.len() > 0 {
        assert forall|i: int| 0 <= i < a.len() - 1 implies (#[trigger] a.drop_last()[i] == Some(x)
            <==> b.drop_last()[i] == Some(y)) by {
            assert(a.drop_last()[i] == a[i]);
        }
        lemma_members_relabel(a.drop_last(), b.drop_last(), x, y);
        assert(a[a.len() - 1] == Some(x) <==> b[a.len() - 1] == Some(y));
    }
}

proof fn lemma_relabel_step<A, B>(a: Seq<Option<A>>, b: Seq<Option<B>>)
    requires
        a.len() == b.len(),
        forall|i: int| 0 <= i < a.len() ==> (#[trigger] a[i] is Some <==> b[i] is Some),
        forall|i: int, j: int|
            0 <= i < a.len() && 0 <= j < a.len() && a[i] is Some ==> (#[trigger] a[i]
                == #[trigger] a[j] <==> b[i] == b[j]),
    ensures
        first_seen(a).len() == first_seen(b).len(),
        forall|g: int|
            0 <= g < first_seen(a).len() ==> same_name(
                a,
                b,
                #[trigger] first_seen(a)[g],
                first_seen(b)[g],
            ),
        forall|g: int|
            0 <= g < first_seen(a).len() ==> members(a, #[trigger] first_seen(a)[g]) == members(
                b,
                first_seen(b)[g],
            ),
    decreases a.len(),
{
    if a.len() > 0 {
        let a0 = a.drop_last();
        let b0 = b.drop_last();
        let n = a.len() - 1;
        assert forall|i: int, j: int|
            0 <= i < a0.len() && 0 <= j < a0.len() && a0[i] is Some implies (#[trigger] a0[i]
            == #[trigger] a0[j] <==> b0[i] == b0[j]) by {
            assert(a0[i] == a[i] && a0[j] == a[j]);
        }
        assert forall|i: int| 0 <= i < a0.len() implies (#[trigger] a0[i] is Some
            <==> b0[i] is Some) by {
            assert(a0[i] == a[i]);
        }
        lemma_relabel_step(a0, b0);
        assert(a[n] is Some <==> b[n] is Some);
        let fa = first_seen(a0);
        let fb = first_seen(b0);
        if a[n] is Some {
            let x = a[n]->0;
            let y = b[n]->0;
            assert(fa.contains(x) <==> fb.contains(y)) by {
                if fa.contains(x) {
                    let g = choose|g: int| 0 <= g < fa.len() && fa[g] == x;
                    assert(same_name(a0, b0, fa[g], fb[g]));
                    let i = choose|i: int|
                        0 <= i < a0.len() && #[trigger] a0[i] == Some(fa[g]) && b0[i] == Some(fb[g]);
                    assert(a[i] == a[n]);
                    assert(fb[g] == y);
                }
                if fb.contains(y) {
                    let g = choose|g: int| 0 <= g < fb.len() && fb[g] == y;
                    assert(same_name(a0, b0, fa[g], fb[g]));
                    let i = choose|i: int|
                        0 <= i < a0.len() && #[trigger] a0[i] == Some(fa[g]) && b0[i] == Some(fb[g]);
                    assert(a[i] == a0[i] && b[i] == b0[i]);
                    assert(a[i] == a[n] <==> b[i] == b[n]);
                    assert(fa[g] == x);
                }
            }
        }
        assert forall|g: int| 0 <= g < first_seen(a).len() implies same_name(
            a,
            b,
            #[trigger] first_seen(a)[g],
            first_seen(b)[g],
        ) by {
            if g < fa.len() {
                assert(same_name(a0, b0, fa[g], fb[g]));
                let i = choose|i: int|
                    0 <= i < a0.len() && #[trigger] a0[i] == Some(fa[g]) && b0[i] == Some(fb[g]);
                assert(a[i] == Some(first_seen(a)[g]) && b[i] == Some(first_seen(b)[g]));
            } else {
                assert(a[n] == Some(first_seen(a)[g]) && b[n] == Some(first_seen(b)[g]));
            }
        }
        assert forall|g: int| 0 <= g < first_seen(a).len() implies members(
            a,
            #[trigger] first_seen(a)[g],
        ) == members(b, first_seen(b)[g]) by {
            let x = first_seen(a)[g];
            let y = first_seen(b)[g];
            assert(same_name(a, b, x, y));
            let i = choose|i: int|
                0 <= i < a.len() && #[trigger] a[i] == Some(x) && b[i] == Some(y);
            assert forall|j: int| 0 <= j < a.len() implies (#[trigger] a[j] == Some(x) <==> b[j]
                == Some(y)) by {
                assert(a[i] == a[j] <==> b[i] == b[j]);
            }
            lemma_members_relabel(a, b, x, y);
        }
    }
}

/// Sorts the items into groups by label and keeps the groups of two or more. The groups come in
/// the order of their first items, and the items of a group in the order of the list.
pub fn bucket<T>(items: Vec<T>, labels: &Vec<Option<usize>>) -> (groups: Vec<Vec<T>>)
    requires
        items@.len() == labels@.len(),
        forall|i: int|
            0 <= i < labels@.len() && (#[trigger] labels@[i]) is Some ==> labels@[i]->0
                < labels@.len(),
    ensures
        contents(groups@) == pick(items@, repeated_groups(labels@)),
{
    let n = items.len();
    let mut slot: Vec<Option<usize>> = Vec::new();
    let mut filled: usize = 0;
    while filled < n
        invariant
            filled <= n,
            slot@.len() == filled,
            forall|l: int| 0 <= l < filled ==> #[trigger] slot@[l] is None,
        decreases n - filled,
    {
        slot.push(None);
        filled += 1;
    }
    let mut groups: Vec<Vec<T>> = Vec::new();
    let ghost all = items@;
    let ghost keys = labels@;
    let mut i: usize = 0;
    assert(all.take(0) =~= Seq::<T>::empty());
    for item in it: items
        invariant
            it.seq() == all,
            i == it.index(),
            all.len() == n,
            keys == labels@,
            keys.len() == n,
            slot@.len() == n,
            forall|j: int|
                0 <= j < keys.len() && (#[trigger] keys[j]) is Some ==> keys[j]->0 < keys.len(),
            groups@.len() == first_seen(keys.take(i as int)).len(),
            forall|g: int|
                0 <= g < groups@.len() ==> (#[trigger] groups@[g])@ == members(
                    keys.take(i as int),
                    first_seen(keys.take(i as int))[g],
                ).map_values(|j: int| all[j]),
            forall|l: int|
                0 <= l < n ==> match #[trigger] slot@[l] {
                    Some(g) => g < groups@.len() && first_seen(keys.take(i as int))[g as int] == l,
                    None => !first_seen(keys.take(i as int)).contains(l as usize),
                },
    {
        let ghost before = keys.take(i as int);
        let ghost after = keys.take(i + 1);
        let ghost seen = first_seen(before);
        let ghost old_groups = groups@;
        proof {
            assert(after.drop_last() =~= before);
            assert(after.last() == keys[i as int]);
            lemma_first_seen(before);
        }
        match labels[i] {
            Some(l) => {
                assert(keys[i as int] is Some);
                match slot[l] {
                    Some(g) => {
                        groups[g].push(item);
                    },
                    None => {
                        let at = groups.len();
                        slot.set(l, Some(at));
                        let mut fresh: Vec<T> = Vec::new();
                        fresh.push(item);
                        groups.push(fresh);
                    },
                }
            },
            None => {},
        }
        i += 1;
        proof {
            let now = first_seen(after);
            assert forall|g: int| 0 <= g < groups@.len() implies (#[trigger] groups@[g])@
                == members(after, now[g]).map_values(|j: int| all[j]) by {
                let k = now[g];
                if g < old_groups.len() {
                    assert(k == seen[g]);
                    assert(old_groups[g]@ == members(before, k).map_values(|j: int| all[j]));
                } else {
                    lemma_members_range(before, k);
                    if members(before, k).len() > 0 {
                        let j = members(before, k)[0];
                        assert(before[j] == Some(k));
                        assert(seen.contains(k));
                    }
                }
                assert(groups@[g]@ =~= members(after, k).map_values(|j: int| all[j]));
            }
        }
    }
    proof {
        assert(keys.take(n as int) =~= keys);
        assert(contents(groups@) =~= pick(all, all_groups(keys)));
        lemma_pick_filter(all, all_groups(keys));
    }
    keep_repeated(groups)
}

proof fn lemma_pick_filter<T>(items: Seq<T>, groups: Seq<Seq<int>>)
    ensures
        pick(items, groups.filter(|g: Seq<int>| g.len() > 1)) == pick(items, groups).filter(
            |g: Seq<T>| g.len() > 1,
        ),
    decreases groups.len(),
{
    reveal(Seq::filter);
    if groups.len() > 0 {
        lemma_pick_filter(items, groups.drop_last());
        assert(pick(items, groups).drop_last() =~= pick(items, groups.drop_last()));
    }
    assert(pick(items, groups.filter(|g: Seq<int>| g.len() > 1)) =~= pick(items, groups).filter(
        |g: Seq<T>| g.len() > 1,
    ));
}

fn keep_repeated<T>(groups: Vec<Vec<T>>) -> (kept: Vec<Vec<T>>)
    ensures
        contents(kept@) == contents(groups@).filter(|g: Seq<T>| g.len() > 1),
{
    let mut kept: Vec<Vec<T>> = Vec::new();
    let ghost all = groups@;
    let ghost many = |g: Seq<T>| g.len() > 1;
    proof {
        reveal(Seq::filter);
        assert(contents(all.take(0)) =~= Seq::<Seq<T>>::empty());
        assert(contents(kept@) =~= contents(all.take(0)).filter(many));
    }
    for group in it: groups
        invariant
            it.seq() == all,
            many == (|g: Seq<T>| g.len() > 1),
            contents(kept@) == contents(all.take(it.index())).filter(many),
    {
        let ghost k = it.index();
        let ghost before = kept@;
        proof {
            reveal(Seq::filter);
            assert(contents(all.take(k + 1)).drop_last() =~= contents(all.take(k)));
            assert(contents(all.take(k + 1)).last() == group@);
        }
        if group.len() > 1 {
            kept.push(group);
            assert(contents(kept@) =~= contents(before).push(group@));
        }
    }
    assert(all.take(all.len() as int) =~= all);
    kept
}

/// Whether two groups have no position in common.
pub open spec fn apart(a: Seq<int>, b: Seq<int>) -> bool {
    forall|i: int| !(#[trigger] a.contains(i) && b.contains(i))
}

/// Whether the positions of a group rise and lie below `n`.
pub open spec fn rising(group: Seq<int>, n: int) -> bool {
    &&& forall|a: int| 0 <= a < group.len() ==> 0 <= #[trigger] group[a] < n
    &&& forall|a: int, b: int| 0 <= a < b < group.len() ==> #[trigger] group[a] < #[trigger] group[b]
}

/// Whether some group holds both positions.
pub open spec fn together(groups: Seq<Seq<int>>, i: int, j: int) -> bool {
    exists|g: int| 0 <= g < groups.len() && #[trigger] groups[g].contains(i) && groups[g].contains(j)
}

proof fn lemma_filter_apart(groups: Seq<Seq<int>>, keep: spec_fn(Seq<int>) -> bool)
    requires
        forall|a: int, b: int|
            0 <= a < b < groups.len() ==> apart(#[trigger] groups[a], #[trigger] groups[b]),
    ensures
        forall|a: int, b: int|
            0 <= a < b < groups.filter(keep).len() ==> apart(
                #[trigger] groups.filter(keep)[a],
                #[trigger] groups.filter(keep)[b],
            ),
        forall|a: int|
            0 <= a < groups.filter(keep).len() ==> groups.contains(#[trigger] groups.filter(keep)[a])
                && keep(groups.filter(keep)[a]),
        forall|a: int|
            0 <= a < groups.len() && keep(#[trigger] groups[a]) ==> groups.filter(keep).contains(
                groups[a],
            ),
    decreases groups.len(),
{
    reveal(Seq::filter);
    if groups.len() > 0 {
        let rest = groups.drop_last();
        assert forall|a: int, b: int| 0 <= a < b < rest.len() implies apart(
            #[trigger] rest[a],
            #[trigger] rest[b],
        ) by {
            assert(rest[a] == groups[a] && rest[b] == groups[b]);
        }
        lemma_filter_apart(rest, keep);
        let f = groups.filter(keep);
        let r = rest.filter(keep);
        assert forall|a: int| 0 <= a < f.len() implies groups.contains(#[trigger] f[a]) && keep(
            f[a],
        ) by {
            if a < r.len() {
                assert(rest.contains(r[a]));
                let c = choose|c: int| 0 <= c < rest.len() && rest[c] == r[a];
                assert(groups[c] == f[a]);
            } else {
                assert(groups[groups.len() - 1] == f[a]);
            }
        }
        assert forall|a: int, b: int| 0 <= a < b < f.len() implies apart(
            #[trigger] f[a],
            #[trigger] f[b],
        ) by {
            assert(f[a] == r[a]);
            if b < r.len() {
                assert(f[b] == r[b]);
            } else {
                assert(rest.contains(r[a]));
                let c = choose|c: int| 0 <= c < rest.len() && rest[c] == r[a];
                assert(groups[c] == f[a]);
                assert(groups[groups.len() - 1] == f[b]);
            }
        }
        assert forall|a: int| 0 <= a < groups.len() && keep(#[trigger] groups[a]) implies f.contains(
            groups[a],
        ) by {
            if a < rest.len() {
                assert(rest[a] == groups[a]);
                assert(r.contains(rest[a]));
                let c = choose|c: int| 0 <= c < r.len() && r[c] == rest[a];
                assert(f[c] == groups[a]);
            } else {
                assert(f[f.len() - 1] == groups[a]);
            }
        }
    }
}

/// What the groups are: each holds two or more positions in rising order, no position is in two of
/// them, and two positions are together exactly when they carry the same key.
pub proof fn law_groups_are_the_repeated_keys<K>(keys: Seq<Option<K>>)
    ensures
        forall|g: int|
            0 <= g < repeated_groups(keys).len() ==> (#[trigger] repeated_groups(keys)[g]).len() >= 2,
        forall|g: int|
            0 <= g < repeated_groups(keys).len() ==> rising(
                #[trigger] repeated_groups(keys)[g],
                keys.len() as int,
            ),
        forall|a: int, b: int|
            0 <= a < b < repeated_groups(keys).len() ==> apart(
                #[trigger] repeated_groups(keys)[a],
                #[trigger] repeated_groups(keys)[b],
            ),
        forall|i: int, j: int|
            0 <= i < keys.len() && 0 <= j < keys.len() && i != j ==> (#[trigger] together(
                repeated_groups(keys),
                i,
                j,
            ) <==> keys[i] is Some && keys[i] == keys[j]),
{
    let all = all_groups(keys);
    let seen = first_seen(keys);
    let kept = repeated_groups(keys);
    let many = |g: Seq<int>| g.len() > 1;
    lemma_first_seen(keys);
    assert forall|a: int, b: int| 0 <= a < b < all.len() implies apart(
        #[trigger] all[a],
        #[trigger] all[b],
    ) by {
        lemma_members_range(keys, seen[a]);
        lemma_members_range(keys, seen[b]);
        assert(seen[a] != seen[b]);
    }
    lemma_filter_apart(all, many);
    assert forall|g: int| 0 <= g < kept.len() implies (#[trigger] kept[g]).len() >= 2 by {
        assert(many(kept[g]));
    }
    assert forall|g: int| 0 <= g < kept.len() implies rising(
        #[trigger] kept[g],
        keys.len() as int,
    ) by {
        assert(all.contains(kept[g]));
        let c = choose|c: int| 0 <= c < all.len() && all[c] == kept[g];
        lemma_members_range(keys, seen[c]);
    }
    assert forall|i: int, j: int|
        0 <= i < keys.len() && 0 <= j < keys.len() && i != j implies (#[trigger] together(
        kept,
        i,
        j,
    ) <==> keys[i] is Some && keys[i] == keys[j]) by {
        if together(kept, i, j) {
            let g = choose|g: int|
                0 <= g < kept.len() && #[trigger] kept[g].contains(i) && kept[g].contains(j);
            assert(all.contains(kept[g]));
            let c = choose|c: int| 0 <= c < all.len() && all[c] == kept[g];
            lemma_members_range(keys, seen[c]);
        }
        if keys[i] is Some && keys[i] == keys[j] {
            let k = keys[i]->0;
            assert(keys[i] == Some(k));
            assert(seen.contains(k));
            let c = choose|c: int| 0 <= c < seen.len() && seen[c] == k;
            lemma_members_range(keys, k);
            let m = members(keys, k);
            assert(keys[j] == Some(k));
            assert(m.contains(i) && m.contains(j));
            assert(m.len() > 1) by {
                let p = choose|p: int| 0 <= p < m.len() && m[p] == i;
                let q = choose|q: int| 0 <= q < m.len() && m[q] == j;
                assert(p != q);
            }
            assert(all[c] == m);
            assert(many(all[c]));
            assert(kept.contains(all[c]));
            let g = choose|g: int| 0 <= g < kept.len() && kept[g] == m;
            assert(kept[g].contains(i) && kept[g].contains(j));
        }
    }
}

/// Whether `groups` are the items at `places`, put together just as `same` puts positions together:
/// groups of two or more, no position used twice, any two positions of a group the same, and any two
/// different positions that are the same in one group.
pub open spec fn splits<T>(
    items: Seq<T>,
    same: spec_fn(int, int) -> bool,
    groups: Seq<Seq<T>>,
    places: Seq<Seq<int>>,
) -> bool {
    &&& groups.len() == places.len()
    &&& forall|g: int|
        0 <= g < groups.len() ==> (#[trigger] groups[g]).len() == places[g].len() && groups[g].len()
            >= 2
    &&& forall|g: int, a: int|
        0 <= g < groups.len() && 0 <= a < groups[g].len() ==> 0 <= #[trigger] places[g][a]
            < items.len() && groups[g][a] == items[places[g][a]]
    &&& forall|g: int, a: int, h: int, b: int|
        0 <= g < groups.len() && 0 <= a < groups[g].len() && 0 <= h < groups.len() && 0 <= b
            < groups[h].len() && (g != h || a != b) ==> #[trigger] places[g][a]
            != #[trigger] places[h][b]
    &&& forall|g: int, a: int, b: int|
        0 <= g < groups.len() && 0 <= a < groups[g].len() && 0 <= b < groups[g].len() && a != b
            ==> same(#[trigger] places[g][a], #[trigger] places[g][b])
    &&& forall|p: int, q: int|
        0 <= p < items.len() && 0 <= q < items.len() && p != q && #[trigger] same(p, q)
            ==> exists|g: int|
            0 <= g < groups.len() && (#[trigger] places[g]).contains(p) && places[g].contains(q)
}

/// The groups of items with a repeated key are the items put together by their keys.
pub proof fn law_picked_groups_split_the_items<T, K>(items: Seq<T>, keys: Seq<Option<K>>)
    requires
        items.len() == keys.len(),
    ensures
        splits(
            items,
            |p: int, q: int| keys[p] is Some && keys[p] == keys[q],
            pick(items, repeated_groups(keys)),
            repeated_groups(keys),
        ),
{
    let places = repeated_groups(keys);
    let groups = pick(items, places);
    let same = |p: int, q: int| keys[p] is Some && keys[p] == keys[q];
    law_groups_are_the_repeated_keys(keys);
    assert forall|g: int, a: int, b: int|
        0 <= g < groups.len() && 0 <= a < groups[g].len() && 0 <= b < groups[g].len() && a
            != b implies same(#[trigger] places[g][a], #[trigger] places[g][b]) by {
        assert(rising(places[g], keys.len() as int));
        assert(places[g].contains(places[g][a]) && places[g].contains(places[g][b]));
        assert(together(places, places[g][a], places[g][b]));
        if a < b {
            assert(places[g][a] < places[g][b]);
        } else {
            assert(places[g][b] < places[g][a]);
        }
    }
    assert forall|g: int, a: int, h: int, b: int|
        0 <= g < groups.len() && 0 <= a < groups[g].len() && 0 <= h < groups.len() && 0 <= b
            < groups[h].len() && (g != h || a != b) implies #[trigger] places[g][a]
        != #[trigger] places[h][b] by {
        assert(rising(places[g], keys.len() as int));
        assert(places[g].contains(places[g][a]) && places[h].contains(places[h][b]));
        if g < h {
            assert(apart(places[g], places[h]));
        } else if h < g {
            assert(apart(places[h], places[g]));
        } else if a < b {
            assert(places[g][a] < places[g][b]);
        } else {
            assert(places[g][b] < places[g][a]);
        }
    }
    assert forall|g: int, a: int|
        0 <= g < groups.len() && 0 <= a < groups[g].len() implies 0 <= #[trigger] places[g][a]
        < items.len() && groups[g][a] == items[places[g][a]] by {
        assert(rising(places[g], keys.len() as int));
    }
    assert forall|p: int, q: int|
        0 <= p < items.len() && 0 <= q < items.len() && p != q && #[trigger] same(
            p,
            q,
        ) implies exists|g: int|
        0 <= g < groups.len() && (#[trigger] places[g]).contains(p) && places[g].contains(q) by {
        assert(together(places, p, q));
        let g = choose|g: int|
            0 <= g < places.len() && #[trigger] places[g].contains(p) && places[g].contains(q);
        assert(places[g].contains(p));
    }
}

} // verus!
