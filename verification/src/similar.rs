//! Groups of pictures that look alike.

use vstd::prelude::*;
use crate::cache::{
    cached, law_cache_key_tells_versions_apart, loaded, with_hash, HashCache,
};
use crate::dhash::{hamming, hamming_distance, law_hamming_at_most_64, law_hamming_symmetric};
use crate::entry::FileEntry;
use crate::grouping::{
    apart, bucket, contents, law_groups_are_the_repeated_keys, law_picked_groups_split_the_items,
    lemma_groups_relabel, pick, repeated_groups, rising, splits, together,
};
use crate::union_find::{joined, law_union_joins_exactly_two_sets, UnionFind};

verus! {

/// The largest distance between the hashes of two pictures at which they are taken for similar,
/// where no other is asked for: 10 of 64 bits, or about 15%.
pub const DEFAULT_THRESHOLD: u32 = 10;

/// What the cache knows of a list of files, and what is left to do.
pub struct HashPlan {
    /// The hash of each file, where the cache has it.
    pub hashes: Vec<Option<u64>>,
    /// The positions of the files that have to be hashed.
    pub to_hash: Vec<usize>,
    /// How many files the cache answered for.
    pub cached_count: usize,
}

/// The hash of each file that the cache has.
pub open spec fn cached_hashes(files: Seq<FileEntry>, entries: Map<Seq<char>, u64>) -> Seq<
    Option<u64>,
> {
    files.map_values(|f: FileEntry| cached(entries, f@))
}

/// The positions without a hash, in order.
pub open spec fn unhashed(hashes: Seq<Option<u64>>) -> Seq<usize>
    decreases hashes.len(),
{
    if hashes.len() == 0 {
        Seq::empty()
    } else if hashes.last() is None {
        unhashed(hashes.drop_last()).push((hashes.len() - 1) as usize)
    } else {
        unhashed(hashes.drop_last())
    }
}

/// Looks every file up in the cache.
pub fn plan_hashing(files: &Vec<FileEntry>, cache: &HashCache) -> (plan: HashPlan)
    ensures
        plan.hashes@ == cached_hashes(files@, cache@),
        plan.to_hash@ == unhashed(plan.hashes@),
        plan.cached_count + plan.to_hash@.len() == files@.len(),
        forall|k: int| 0 <= k < plan.to_hash@.len() ==> #[trigger] plan.to_hash@[k] < files@.len(),
{
    let mut hashes: Vec<Option<u64>> = Vec::new();
    let mut to_hash: Vec<usize> = Vec::new();
    let mut cached_count: usize = 0;
    let mut i: usize = 0;
    let ghost all = cached_hashes(files@, cache@);
    assert(all.take(0) =~= Seq::<Option<u64>>::empty());
    while i < files.len()
        invariant
            i <= files@.len(),
            all == cached_hashes(files@, cache@),
            hashes@ == all.take(i as int),
            to_hash@ == unhashed(hashes@),
            cached_count + to_hash@.len() == i,
            forall|k: int| 0 <= k < to_hash@.len() ==> #[trigger] to_hash@[k] < i,
        decreases files@.len() - i,
    {
        let found = cache.get(&files[i]);
        let ghost before = hashes@;
        hashes.push(found);
        assert(hashes@ =~= all.take(i + 1));
        assert(hashes@.drop_last() =~= before);
        match found {
            Some(_) => {
                cached_count += 1;
            },
            None => {
                to_hash.push(i);
            },
        }
        i += 1;
    }
    assert(all.take(files@.len() as int) =~= all);
    HashPlan { hashes, to_hash, cached_count }
}

/// The hashes after the results of hashing have been filled in.
pub open spec fn filled(hashes: Seq<Option<u64>>, results: Seq<(usize, Option<u64>)>) -> Seq<
    Option<u64>,
>
    decreases results.len(),
{
    if results.len() == 0 {
        hashes
    } else {
        filled(hashes, results.drop_last()).update(results.last().0 as int, results.last().1)
    }
}

/// The cache after the results of hashing have been kept in it. A failure is not kept.
pub open spec fn kept(
    entries: Map<Seq<char>, u64>,
    files: Seq<FileEntry>,
    results: Seq<(usize, Option<u64>)>,
) -> Map<Seq<char>, u64>
    decreases results.len(),
{
    if results.len() == 0 {
        entries
    } else {
        let before = kept(entries, files, results.drop_last());
        match results.last().1 {
            Some(hash) => with_hash(before, files[results.last().0 as int]@, hash),
            None => before,
        }
    }
}

/// How many files could not be hashed.
pub open spec fn failures(results: Seq<(usize, Option<u64>)>) -> nat
    decreases results.len(),
{
    if results.len() == 0 {
        0
    } else {
        failures(results.drop_last()) + if results.last().1 is None {
            1nat
        } else {
            0nat
        }
    }
}

/// Fills in what hashing gave, keeps it in the cache, and counts the failures.
pub fn record_hashes(
    files: &Vec<FileEntry>,
    results: &Vec<(usize, Option<u64>)>,
    hashes: &mut Vec<Option<u64>>,
    cache: &mut HashCache,
) -> (errors: usize)
    requires
        old(cache).wf(),
        old(hashes)@.len() == files@.len(),
        forall|k: int| 0 <= k < results@.len() ==> (#[trigger] results@[k]).0 < files@.len(),
    ensures
        final(cache).wf(),
        final(hashes)@ == filled(old(hashes)@, results@),
        final(cache)@ == kept(old(cache)@, files@, results@),
        errors == failures(results@),
{
    let mut errors: usize = 0;
    let mut k: usize = 0;
    let ghost all = results@;
    assert(all.take(0) =~= Seq::<(usize, Option<u64>)>::empty());
    while k < results.len()
        invariant
            k <= results@.len(),
            all == results@,
            cache.wf(),
            hashes@.len() == files@.len(),
            forall|k: int| 0 <= k < results@.len() ==> (#[trigger] results@[k]).0 < files@.len(),
            hashes@ == filled(old(hashes)@, all.take(k as int)),
            cache@ == kept(old(cache)@, files@, all.take(k as int)),
            errors == failures(all.take(k as int)),
            errors <= k,
        decreases results@.len() - k,
    {
        let (i, h) = results[k];
        assert(all[k as int].0 < files@.len());
        assert(all.take(k + 1).drop_last() =~= all.take(k as int));
        assert(all.take(k + 1).last() == all[k as int]);
        hashes.set(i, h);
        match h {
            Some(hash) => {
                cache.insert(&files[i], hash);
            },
            None => {
                errors += 1;
            },
        }
        k += 1;
    }
    assert(all.take(all.len() as int) =~= all);
    errors
}

/// Whether two pictures are similar: both have a hash, and the hashes differ in no more bits than
/// the threshold.
pub open spec fn similar(hashes: Seq<Option<u64>>, threshold: u32, i: int, j: int) -> bool {
    &&& 0 <= i < hashes.len() && 0 <= j < hashes.len()
    &&& hashes[i] is Some && hashes[j] is Some
    &&& hamming(hashes[i]->0, hashes[j]->0) <= threshold
}

/// Whether one picture can be reached from another in so many steps, each from a picture to a
/// similar one.
pub open spec fn reachable(
    hashes: Seq<Option<u64>>,
    threshold: u32,
    i: int,
    j: int,
    steps: nat,
) -> bool
    decreases steps,
{
    if steps == 0 {
        i == j && 0 <= i < hashes.len() && hashes[i] is Some
    } else {
        exists|k: int|
            reachable(hashes, threshold, i, k, (steps - 1) as nat) && #[trigger] similar(
                hashes,
                threshold,
                k,
                j,
            )
    }
}

/// Whether two pictures belong together: a chain of similar pictures leads from one to the other.
pub open spec fn linked(hashes: Seq<Option<u64>>, threshold: u32, i: int, j: int) -> bool {
    exists|steps: nat| #[trigger] reachable(hashes, threshold, i, j, steps)
}

/// The first of the pictures that belong together with picture `i`.
pub open spec fn leader(hashes: Seq<Option<u64>>, threshold: u32, i: int) -> int {
    choose|l: int|
        #[trigger] linked(hashes, threshold, i, l) && forall|k: int| #[trigger]
            linked(hashes, threshold, i, k) ==> l <= k
}

/// For each picture that has a hash, the first of those that belong together with it.
pub open spec fn leaders(hashes: Seq<Option<u64>>, threshold: u32) -> Seq<Option<int>> {
    Seq::new(
        hashes.len(),
        |i: int|
            if hashes[i] is Some {
                Some(leader(hashes, threshold, i))
            } else {
                None
            },
    )
}

/// The groups of two or more pictures that belong together, by position.
pub open spec fn similar_groups(hashes: Seq<Option<u64>>, threshold: u32) -> Seq<Seq<int>> {
    repeated_groups(leaders(hashes, threshold))
}

proof fn lemma_reachable_range(hashes: Seq<Option<u64>>, t: u32, i: int, j: int, steps: nat)
    requires
        reachable(hashes, t, i, j, steps),
    ensures
        0 <= i < hashes.len(),
        0 <= j < hashes.len(),
        hashes[i] is Some,
        hashes[j] is Some,
    decreases steps,
{
    if steps > 0 {
        let k = choose|k: int|
            reachable(hashes, t, i, k, (steps - 1) as nat) && #[trigger] similar(hashes, t, k, j);
        lemma_reachable_range(hashes, t, i, k, (steps - 1) as nat);
    }
}

proof fn lemma_step_before(hashes: Seq<Option<u64>>, t: u32, i: int, k: int, j: int, steps: nat)
    requires
        similar(hashes, t, i, k),
        reachable(hashes, t, k, j, steps),
    ensures
        reachable(hashes, t, i, j, steps + 1),
    decreases steps,
{
    if steps == 0 {
        assert(reachable(hashes, t, i, i, 0));
        assert(reachable(hashes, t, i, i, 0) && similar(hashes, t, i, j));
        assert((steps + 1 - 1) as nat == 0);
    } else {
        let m = choose|m: int|
            reachable(hashes, t, k, m, (steps - 1) as nat) && #[trigger] similar(hashes, t, m, j);
        lemma_step_before(hashes, t, i, k, m, (steps - 1) as nat);
        assert(reachable(hashes, t, i, m, (steps + 1 - 1) as nat) && similar(hashes, t, m, j));
    }
}

proof fn lemma_reachable_back(hashes: Seq<Option<u64>>, t: u32, i: int, j: int, steps: nat)
    requires
        reachable(hashes, t, i, j, steps),
    ensures
        reachable(hashes, t, j, i, steps),
    decreases steps,
{
    if steps > 0 {
        let k = choose|k: int|
            reachable(hashes, t, i, k, (steps - 1) as nat) && #[trigger] similar(hashes, t, k, j);
        lemma_reachable_back(hashes, t, i, k, (steps - 1) as nat);
        law_hamming_symmetric(hashes[k]->0, hashes[j]->0);
        assert(similar(hashes, t, j, k));
        lemma_step_before(hashes, t, j, k, i, (steps - 1) as nat);
    }
}

proof fn lemma_reachable_on(
    hashes: Seq<Option<u64>>,
    t: u32,
    i: int,
    j: int,
    k: int,
    a: nat,
    b: nat,
)
    requires
        reachable(hashes, t, i, j, a),
        reachable(hashes, t, j, k, b),
    ensures
        reachable(hashes, t, i, k, a + b),
    decreases b,
{
    if b > 0 {
        let m = choose|m: int|
            reachable(hashes, t, j, m, (b - 1) as nat) && #[trigger] similar(hashes, t, m, k);
        lemma_reachable_on(hashes, t, i, j, m, a, (b - 1) as nat);
        assert(reachable(hashes, t, i, m, (a + b - 1) as nat) && similar(hashes, t, m, k));
    }
}

/// Belonging together is an equivalence on the pictures that have a hash: each belongs to itself,
/// in both directions, and over a third.
pub proof fn law_linked_is_an_equivalence(
    hashes: Seq<Option<u64>>,
    threshold: u32,
    i: int,
    j: int,
    k: int,
)
    ensures
        linked(hashes, threshold, i, i) <==> 0 <= i < hashes.len() && hashes[i] is Some,
        linked(hashes, threshold, i, j) ==> linked(hashes, threshold, j, i),
        linked(hashes, threshold, i, j) && linked(hashes, threshold, j, k) ==> linked(
            hashes,
            threshold,
            i,
            k,
        ),
{
    if linked(hashes, threshold, i, i) {
        let n = choose|n: nat| #[trigger] reachable(hashes, threshold, i, i, n);
        lemma_reachable_range(hashes, threshold, i, i, n);
    }
    if 0 <= i < hashes.len() && hashes[i] is Some {
        assert(reachable(hashes, threshold, i, i, 0));
    }
    if linked(hashes, threshold, i, j) {
        let a = choose|a: nat| #[trigger] reachable(hashes, threshold, i, j, a);
        lemma_reachable_back(hashes, threshold, i, j, a);
        if linked(hashes, threshold, j, k) {
            let b = choose|b: nat| #[trigger] reachable(hashes, threshold, j, k, b);
            lemma_reachable_on(hashes, threshold, i, j, k, a, b);
        }
    }
}

proof fn lemma_linked_range(hashes: Seq<Option<u64>>, t: u32, i: int, j: int)
    requires
        linked(hashes, t, i, j),
    ensures
        0 <= i < hashes.len(),
        0 <= j < hashes.len(),
        hashes[i] is Some,
        hashes[j] is Some,
{
    let n = choose|n: nat| #[trigger] reachable(hashes, t, i, j, n);
    lemma_reachable_range(hashes, t, i, j, n);
}

proof fn lemma_similar_linked(hashes: Seq<Option<u64>>, t: u32, i: int, j: int)
    requires
        similar(hashes, t, i, j),
    ensures
        linked(hashes, t, i, j),
{
    assert(reachable(hashes, t, i, i, 0));
    assert(reachable(hashes, t, i, i, (1 - 1) as nat) && similar(hashes, t, i, j));
    assert(reachable(hashes, t, i, j, 1));
}

proof fn lemma_least_linked(hashes: Seq<Option<u64>>, t: u32, i: int, bound: nat)
    requires
        exists|l: int| l < bound && #[trigger] linked(hashes, t, i, l),
    ensures
        exists|l: int|
            #[trigger] linked(hashes, t, i, l) && forall|k: int| #[trigger]
                linked(hashes, t, i, k) ==> l <= k,
    decreases bound,
{
    let l = choose|l: int| l < bound && #[trigger] linked(hashes, t, i, l);
    lemma_linked_range(hashes, t, i, l);
    if forall|k: int| #[trigger] linked(hashes, t, i, k) ==> l <= k {
    } else {
        let k = choose|k: int| #[trigger] linked(hashes, t, i, k) && k < l;
        lemma_linked_range(hashes, t, i, k);
        lemma_least_linked(hashes, t, i, l as nat);
    }
}

proof fn lemma_leader(hashes: Seq<Option<u64>>, t: u32, i: int)
    requires
        0 <= i < hashes.len(),
        hashes[i] is Some,
    ensures
        linked(hashes, t, i, leader(hashes, t, i)),
        forall|k: int| #[trigger] linked(hashes, t, i, k) ==> leader(hashes, t, i) <= k,
{
    law_linked_is_an_equivalence(hashes, t, i, i, i);
    lemma_least_linked(hashes, t, i, (i + 1) as nat);
}

proof fn lemma_leader_tells(hashes: Seq<Option<u64>>, t: u32, i: int, j: int)
    requires
        0 <= i < hashes.len(),
        0 <= j < hashes.len(),
        hashes[i] is Some,
        hashes[j] is Some,
    ensures
        leader(hashes, t, i) == leader(hashes, t, j) <==> linked(hashes, t, i, j),
{
    lemma_leader(hashes, t, i);
    lemma_leader(hashes, t, j);
    let a = leader(hashes, t, i);
    let b = leader(hashes, t, j);
    if a == b {
        law_linked_is_an_equivalence(hashes, t, j, a, i);
        law_linked_is_an_equivalence(hashes, t, i, a, j);
    }
    if linked(hashes, t, i, j) {
        law_linked_is_an_equivalence(hashes, t, i, j, b);
        law_linked_is_an_equivalence(hashes, t, j, i, a);
    }
}

/// What the groups are: two different pictures are in one group exactly when a chain of similar
/// pictures leads from one to the other. A picture without a hash is in no group.
pub proof fn law_groups_are_the_linked_pictures(
    hashes: Seq<Option<u64>>,
    threshold: u32,
    i: int,
    j: int,
)
    requires
        0 <= i < hashes.len(),
        0 <= j < hashes.len(),
        i != j,
    ensures
        together(similar_groups(hashes, threshold), i, j) <==> linked(hashes, threshold, i, j),
{
    let keys = leaders(hashes, threshold);
    law_groups_are_the_repeated_keys(keys);
    assert(together(repeated_groups(keys), i, j) <==> keys[i] is Some && keys[i] == keys[j]);
    if hashes[i] is Some && hashes[j] is Some {
        lemma_leader_tells(hashes, threshold, i, j);
    }
    if linked(hashes, threshold, i, j) {
        lemma_linked_range(hashes, threshold, i, j);
    }
}

/// Two pictures whose hashes differ in no more bits than the threshold are always in one group.
pub proof fn law_similar_pictures_are_together(
    hashes: Seq<Option<u64>>,
    threshold: u32,
    i: int,
    j: int,
)
    requires
        0 <= i < hashes.len(),
        0 <= j < hashes.len(),
        i != j,
        hashes[i] is Some,
        hashes[j] is Some,
        hamming(hashes[i]->0, hashes[j]->0) <= threshold,
    ensures
        together(similar_groups(hashes, threshold), i, j),
{
    lemma_similar_linked(hashes, threshold, i, j);
    law_groups_are_the_linked_pictures(hashes, threshold, i, j);
}

proof fn lemma_reachable_wider(
    hashes: Seq<Option<u64>>,
    low: u32,
    high: u32,
    i: int,
    j: int,
    steps: nat,
)
    requires
        low <= high,
        reachable(hashes, low, i, j, steps),
    ensures
        reachable(hashes, high, i, j, steps),
    decreases steps,
{
    if steps > 0 {
        let k = choose|k: int|
            reachable(hashes, low, i, k, (steps - 1) as nat) && #[trigger] similar(
                hashes,
                low,
                k,
                j,
            );
        lemma_reachable_wider(hashes, low, high, i, k, (steps - 1) as nat);
        assert(similar(hashes, high, k, j));
    }
}

/// A higher threshold only brings more pictures together: what a stricter one has found stays
/// together.
pub proof fn law_higher_threshold_keeps_groups_together(
    hashes: Seq<Option<u64>>,
    low: u32,
    high: u32,
    i: int,
    j: int,
)
    requires
        low <= high,
        0 <= i < hashes.len(),
        0 <= j < hashes.len(),
        i != j,
        together(similar_groups(hashes, low), i, j),
    ensures
        together(similar_groups(hashes, high), i, j),
{
    law_groups_are_the_linked_pictures(hashes, low, i, j);
    law_groups_are_the_linked_pictures(hashes, high, i, j);
    let n = choose|n: nat| #[trigger] reachable(hashes, low, i, j, n);
    lemma_reachable_wider(hashes, low, high, i, j, n);
}

/// The sets of the union-find hold only pictures that belong together.
spec fn sound(reps: Seq<int>, hashes: Seq<Option<u64>>, t: u32) -> bool {
    forall|x: int, y: int|
        0 <= x < reps.len() && 0 <= y < reps.len() && x != y && #[trigger] reps[x]
            == #[trigger] reps[y] ==> linked(hashes, t, x, y)
}

proof fn lemma_union_sound(
    reps: Seq<int>,
    ranks: Seq<nat>,
    hashes: Seq<Option<u64>>,
    t: u32,
    a: int,
    b: int,
)
    requires
        reps.len() == hashes.len(),
        sound(reps, hashes, t),
        similar(hashes, t, a, b),
    ensures
        sound(joined(reps, ranks, a, b), hashes, t),
{
    let after = joined(reps, ranks, a, b);
    lemma_similar_linked(hashes, t, a, b);
    law_linked_is_an_equivalence(hashes, t, a, b, a);
    assert forall|x: int, y: int|
        0 <= x < after.len() && 0 <= y < after.len() && x != y && #[trigger] after[x]
            == #[trigger] after[y] implies linked(hashes, t, x, y) by {
        law_union_joins_exactly_two_sets(reps, ranks, a, b, x, y);
        if reps[x] == reps[y] {
        } else if reps[x] == reps[a] && reps[y] == reps[b] {
            law_linked_is_an_equivalence(hashes, t, x, a, b);
            law_linked_is_an_equivalence(hashes, t, y, b, y);
            law_linked_is_an_equivalence(hashes, t, x, b, y);
            law_linked_is_an_equivalence(hashes, t, a, b, y);
        } else {
            law_linked_is_an_equivalence(hashes, t, x, b, a);
            law_linked_is_an_equivalence(hashes, t, y, a, y);
            law_linked_is_an_equivalence(hashes, t, x, a, y);
            law_linked_is_an_equivalence(hashes, t, b, a, y);
        }
    }
}

proof fn lemma_complete(
    reps: Seq<int>,
    hashes: Seq<Option<u64>>,
    t: u32,
    i: int,
    j: int,
    steps: nat,
)
    requires
        reps.len() == hashes.len(),
        forall|x: int, y: int|
            0 <= x < y < hashes.len() && #[trigger] similar(hashes, t, x, y) ==> reps[x] == reps[y],
        reachable(hashes, t, i, j, steps),
    ensures
        reps[i] == reps[j],
    decreases steps,
{
    if steps > 0 {
        let k = choose|k: int|
            reachable(hashes, t, i, k, (steps - 1) as nat) && #[trigger] similar(hashes, t, k, j);
        lemma_complete(reps, hashes, t, i, k, (steps - 1) as nat);
        if j < k {
            law_hamming_symmetric(hashes[k]->0, hashes[j]->0);
            assert(similar(hashes, t, j, k));
        }
    }
}

/// Compares every two pictures and joins the similar ones.
fn compare_all(hashes: &Vec<Option<u64>>, threshold: u32) -> (uf: UnionFind)
    ensures
        uf.wf(),
        uf@.len() == hashes@.len(),
        sound(uf@, hashes@, threshold),
        forall|x: int, y: int|
            0 <= x < y < hashes@.len() && #[trigger] similar(hashes@, threshold, x, y) ==> uf@[x]
                == uf@[y],
{
    let n = hashes.len();
    let mut uf = UnionFind::new(n);
    let mut i: usize = 0;
    while i < n
        invariant
            n == hashes@.len(),
            i <= n,
            uf.wf(),
            uf@.len() == n,
            sound(uf@, hashes@, threshold),
            forall|x: int, y: int|
                0 <= x < y < n && x < i && #[trigger] similar(hashes@, threshold, x, y) ==> uf@[x]
                    == uf@[y],
        decreases n - i,
    {
        if let Some(h1) = hashes[i] {
            let mut j: usize = i + 1;
            while j < n
                invariant
                    n == hashes@.len(),
                    i < j <= n,
                    hashes@[i as int] == Some(h1),
                    uf.wf(),
                    uf@.len() == n,
                    sound(uf@, hashes@, threshold),
                    forall|x: int, y: int|
                        0 <= x < y < n && (x < i || x == i && y < j) && #[trigger] similar(
                            hashes@,
                            threshold,
                            x,
                            y,
                        ) ==> uf@[x] == uf@[y],
                decreases n - j,
            {
                if let Some(h2) = hashes[j] {
                    if hamming_distance(h1, h2) <= threshold {
                        let ghost reps = uf@;
                        let ghost ranks = uf.ranks();
                        uf.union(i, j);
                        proof {
                            assert(similar(hashes@, threshold, i as int, j as int));
                            lemma_union_sound(
                                reps,
                                ranks,
                                hashes@,
                                threshold,
                                i as int,
                                j as int,
                            );
                            assert forall|x: int, y: int|
                                0 <= x < y < n && (x < i || x == i && y < j + 1)
                                    && #[trigger] similar(hashes@, threshold, x, y) implies uf@[x]
                                == uf@[y] by {
                                law_union_joins_exactly_two_sets(
                                    reps,
                                    ranks,
                                    i as int,
                                    j as int,
                                    x,
                                    y,
                                );
                            }
                        }
                    }
                }
                j += 1;
            }
        }
        i += 1;
    }
    uf
}

/// The groups of two or more pictures that belong together: a chain of similar pictures, each at
/// most `threshold` bits from the next, leads from any of them to any other. The groups come in
/// the order of their first pictures, and the pictures of a group in the order of the list.
pub fn find_similar(files: Vec<FileEntry>, hashes: &Vec<Option<u64>>, threshold: u32) -> (groups:
    Vec<Vec<FileEntry>>)
    requires
        hashes@.len() == files@.len(),
    ensures
        contents(groups@) == pick(files@, similar_groups(hashes@, threshold)),
{
    let n = hashes.len();
    let mut uf = compare_all(hashes, threshold);
    let ghost reps = uf@;
    let mut labels: Vec<Option<usize>> = Vec::new();
    let mut i: usize = 0;
    while i < n
        invariant
            n == hashes@.len(),
            i <= n,
            uf.wf(),
            uf@ == reps,
            reps.len() == n,
            labels@.len() == i,
            forall|k: int|
                0 <= k < i ==> (#[trigger] labels@[k] is Some <==> hashes@[k] is Some),
            forall|k: int|
                0 <= k < i && (#[trigger] labels@[k]) is Some ==> labels@[k]->0 == reps[k]
                    && labels@[k]->0 < n,
        decreases n - i,
    {
        match hashes[i] {
            Some(_) => {
                let root = uf.find(i);
                labels.push(Some(root));
            },
            None => {
                labels.push(None);
            },
        }
        i += 1;
    }
    proof {
        let names = leaders(hashes@, threshold);
        assert forall|x: int, y: int|
            0 <= x < n && 0 <= y < n && labels@[x] is Some implies (#[trigger] labels@[x]
            == #[trigger] labels@[y] <==> names[x] == names[y]) by {
            if labels@[y] is Some {
                lemma_leader_tells(hashes@, threshold, x, y);
                if x == y {
                } else {
                    if reps[x] == reps[y] {
                        assert(linked(hashes@, threshold, x, y));
                    }
                    if linked(hashes@, threshold, x, y) {
                        let steps = choose|steps: nat|
                            #[trigger] reachable(hashes@, threshold, x, y, steps);
                        lemma_complete(reps, hashes@, threshold, x, y, steps);
                    }
                }
            }
        }
        lemma_groups_relabel(labels@, names);
    }
    bucket(files, &labels)
}

proof fn lemma_kept_found(
    hashes: Seq<Option<u64>>,
    entries: Map<Seq<char>, u64>,
    files: Seq<FileEntry>,
    results: Seq<(usize, Option<u64>)>,
)
    requires
        hashes.len() == files.len(),
        forall|k: int| 0 <= k < results.len() ==> (#[trigger] results[k]).0 < files.len(),
        forall|i: int|
            0 <= i < files.len() && (#[trigger] hashes[i]) is Some ==> cached(
                entries,
                files[i]@,
            ) is Some,
    ensures
        filled(hashes, results).len() == files.len(),
        forall|i: int|
            0 <= i < files.len() && (#[trigger] filled(hashes, results)[i]) is Some ==> cached(
                kept(entries, files, results),
                files[i]@,
            ) is Some,
    decreases results.len(),
{
    if results.len() > 0 {
        let rest = results.drop_last();
        assert forall|k: int| 0 <= k < rest.len() implies (#[trigger] rest[k]).0 < files.len() by {
            assert(rest[k] == results[k]);
        }
        lemma_kept_found(hashes, entries, files, rest);
        assert(results[results.len() - 1].0 < files.len());
        let at = results.last().0 as int;
        assert forall|i: int|
            0 <= i < files.len() && (#[trigger] filled(hashes, results)[i]) is Some implies cached(
            kept(entries, files, results),
            files[i]@,
        ) is Some by {
            if i != at {
                assert(filled(hashes, rest)[i] is Some);
            }
        }
    }
}

/// A second run hashes only what could not be hashed before: every file that has a hash at the end
/// of a run is answered for by the cache that the run leaves behind.
pub proof fn law_second_run_finds_every_hash(
    files: Seq<FileEntry>,
    entries: Map<Seq<char>, u64>,
    results: Seq<(usize, Option<u64>)>,
    i: int,
)
    requires
        forall|k: int| 0 <= k < results.len() ==> (#[trigger] results[k]).0 < files.len(),
        0 <= i < files.len(),
        filled(cached_hashes(files, entries), results)[i] is Some,
    ensures
        cached_hashes(files, kept(entries, files, results))[i] is Some,
{
    lemma_kept_found(cached_hashes(files, entries), entries, files, results);
}

/// A picture has to be hashed just where there is no hash of it.
pub proof fn lemma_unhashed_places(hashes: Seq<Option<u64>>)
    requires
        hashes.len() <= usize::MAX,
    ensures
        forall|k: int|
            0 <= k < unhashed(hashes).len() ==> 0 <= #[trigger] unhashed(hashes)[k] < hashes.len()
                && hashes[unhashed(hashes)[k] as int] is None,
        forall|i: int|
            0 <= i < hashes.len() && (#[trigger] hashes[i]) is None ==> unhashed(hashes).contains(
                i as usize,
            ),
        forall|k: int, l: int|
            0 <= k < l < unhashed(hashes).len() ==> #[trigger] unhashed(hashes)[k]
                < #[trigger] unhashed(hashes)[l],
    decreases hashes.len(),
{
    if hashes.len() > 0 {
        let shorter = hashes.drop_last();
        lemma_unhashed_places(shorter);
        let last = hashes.len() - 1;
        assert forall|k: int| 0 <= k < unhashed(hashes).len() implies 0 <= #[trigger] unhashed(
            hashes,
        )[k] < hashes.len() && hashes[unhashed(hashes)[k] as int] is None by {
            if k < unhashed(shorter).len() {
                assert(unhashed(hashes)[k] == unhashed(shorter)[k]);
                assert(shorter[unhashed(shorter)[k] as int] is None);
            }
        }
        assert forall|i: int| 0 <= i < hashes.len() && (#[trigger] hashes[i]) is None implies unhashed(
            hashes,
        ).contains(i as usize) by {
            if i < last {
                assert(shorter[i] is None);
                assert(unhashed(shorter).contains(i as usize));
                let k = choose|k: int|
                    0 <= k < unhashed(shorter).len() && unhashed(shorter)[k] == i as usize;
                assert(unhashed(hashes)[k] == i as usize);
            } else {
                assert(unhashed(hashes)[unhashed(hashes).len() - 1] == i as usize);
            }
        }
    }
}

/// Every picture has a hash once those that had none got one.
pub proof fn lemma_all_hashed(hashes: Seq<Option<u64>>, results: Seq<(usize, Option<u64>)>)
    requires
        forall|k: int|
            0 <= k < results.len() ==> (#[trigger] results[k]).0 < hashes.len() && results[k].1 is Some,
    ensures
        filled(hashes, results).len() == hashes.len(),
        forall|i: int|
            0 <= i < hashes.len() && hashes[i] is Some ==> (#[trigger] filled(hashes, results)[i]) is Some,
        forall|k: int|
            0 <= k < results.len() ==> filled(hashes, results)[(#[trigger] results[k]).0 as int] is Some,
    decreases results.len(),
{
    if results.len() > 0 {
        let before = results.drop_last();
        assert forall|k: int| 0 <= k < before.len() implies (#[trigger] before[k]).0 < hashes.len()
            && before[k].1 is Some by {
            assert(before[k] == results[k]);
        }
        lemma_all_hashed(hashes, before);
        assert(results.last() == results[results.len() - 1]);
        assert forall|k: int| 0 <= k < results.len() implies filled(hashes, results)[(
        #[trigger] results[k]).0 as int] is Some by {
            if k < before.len() {
                assert(before[k] == results[k]);
            }
        }
    }
}

/// Whether no two files agree in path, size and time of change.
pub open spec fn all_distinct(files: Seq<FileEntry>) -> bool {
    forall|i: int, j: int|
        0 <= i < j < files.len() ==> (#[trigger] files[i]).display_path@ != (
        #[trigger] files[j]).display_path@ || files[i].size != files[j].size || files[i].mtime
            != files[j].mtime
}

/// Whether these are results for the files that a run had to hash, in their order.
pub open spec fn answers(hashes: Seq<Option<u64>>, results: Seq<(usize, Option<u64>)>) -> bool {
    &&& results.len() == unhashed(hashes).len()
    &&& forall|k: int|
        0 <= k < results.len() ==> (#[trigger] results[k]).0 == unhashed(hashes)[k]
}

proof fn lemma_kept_is_filled(
    files: Seq<FileEntry>,
    entries: Map<Seq<char>, u64>,
    results: Seq<(usize, Option<u64>)>,
)
    requires
        all_distinct(files),
        forall|k: int|
            0 <= k < results.len() ==> (#[trigger] results[k]).0 < files.len() && cached_hashes(
                files,
                entries,
            )[results[k].0 as int] is None,
        forall|k: int, l: int|
            0 <= k < l < results.len() ==> (#[trigger] results[k]).0 < (#[trigger] results[l]).0,
    ensures
        filled(cached_hashes(files, entries), results).len() == files.len(),
        forall|i: int|
            0 <= i < files.len() ==> cached(kept(entries, files, results), (#[trigger] files[i])@)
                == filled(cached_hashes(files, entries), results)[i],
        forall|i: int|
            0 <= i < files.len() && (forall|k: int|
                0 <= k < results.len() ==> (#[trigger] results[k]).0 != i) ==> (#[trigger] filled(
                cached_hashes(files, entries),
                results,
            )[i]) == cached_hashes(files, entries)[i],
        forall|k: int|
            0 <= k < results.len() ==> filled(
                cached_hashes(files, entries),
                results,
            )[(#[trigger] results[k]).0 as int] == results[k].1,
    decreases results.len(),
{
    let hashes = cached_hashes(files, entries);
    if results.len() > 0 {
        let rest = results.drop_last();
        let n = results.len() - 1;
        assert(results.last() == results[n]);
        let at = results[n].0 as int;
        assert forall|k: int| 0 <= k < rest.len() implies (#[trigger] rest[k]).0 < files.len()
            && hashes[rest[k].0 as int] is None by {
            assert(rest[k] == results[k]);
        }
        assert forall|k: int, l: int| 0 <= k < l < rest.len() implies (#[trigger] rest[k]).0 < (
        #[trigger] rest[l]).0 by {
            assert(results[k].0 < results[l].0);
        }
        lemma_kept_is_filled(files, entries, rest);
        assert forall|k: int| 0 <= k < rest.len() implies (#[trigger] rest[k]).0 != at by {
            assert(results[k].0 < results[n].0);
        }
        assert(filled(hashes, rest)[at] == hashes[at]);
        assert forall|i: int| 0 <= i < files.len() implies cached(
            kept(entries, files, results),
            (#[trigger] files[i])@,
        ) == filled(hashes, results)[i] by {
            law_cache_key_tells_versions_apart(files[i]@, files[at]@);
            assert(cached(kept(entries, files, rest), files[i]@) == filled(hashes, rest)[i]);
            if i < at {
                assert(files[i].display_path@ != files[at].display_path@ || files[i].size
                    != files[at].size || files[i].mtime != files[at].mtime);
            } else if at < i {
                assert(files[at].display_path@ != files[i].display_path@ || files[at].size
                    != files[i].size || files[at].mtime != files[i].mtime);
            }
        }
        assert forall|i: int|
            0 <= i < files.len() && (forall|k: int|
                0 <= k < results.len() ==> (#[trigger] results[k]).0 != i) implies (
        #[trigger] filled(hashes, results)[i]) == hashes[i] by {
            assert(results[n].0 != i);
            assert forall|k: int| 0 <= k < rest.len() implies (#[trigger] rest[k]).0 != i by {
                assert(rest[k] == results[k]);
            }
            assert(filled(hashes, rest)[i] == hashes[i]);
        }
        assert forall|k: int| 0 <= k < results.len() implies filled(hashes, results)[(
        #[trigger] results[k]).0 as int] == results[k].1 by {
            if k < n {
                assert(rest[k] == results[k]);
                assert(rest[k].0 != at);
            }
        }
    }
}

/// A second run over the same files finds in the cache the very hashes that the first one ended
/// with: of a file that could be hashed its hash, of any other none. The files are told apart by
/// path, size and time of change.
pub proof fn law_second_run_finds_the_same_hashes(
    files: Seq<FileEntry>,
    entries: Map<Seq<char>, u64>,
    results: Seq<(usize, Option<u64>)>,
)
    requires
        files.len() <= usize::MAX,
        all_distinct(files),
        answers(cached_hashes(files, entries), results),
    ensures
        cached_hashes(files, kept(entries, files, results)) == filled(
            cached_hashes(files, entries),
            results,
        ),
        forall|i: int|
            0 <= i < files.len() ==> ((#[trigger] filled(
                cached_hashes(files, entries),
                results,
            )[i]) is None <==> exists|k: int|
                0 <= k < results.len() && (#[trigger] results[k]).0 == i && results[k].1 is None),
{
    let hashes = cached_hashes(files, entries);
    lemma_unhashed_places(hashes);
    assert forall|k: int, l: int| 0 <= k < l < results.len() implies (#[trigger] results[k]).0 < (
    #[trigger] results[l]).0 by {
        assert(unhashed(hashes)[k] < unhashed(hashes)[l]);
    }
    assert forall|k: int| 0 <= k < results.len() implies (#[trigger] results[k]).0 < files.len()
        && hashes[results[k].0 as int] is None by {
        assert(hashes[unhashed(hashes)[k] as int] is None);
    }
    lemma_kept_is_filled(files, entries, results);
    assert(cached_hashes(files, kept(entries, files, results)) =~= filled(hashes, results));
    assert forall|i: int| 0 <= i < files.len() implies ((#[trigger] filled(hashes, results)[i]) is None
        <==> exists|k: int|
        0 <= k < results.len() && (#[trigger] results[k]).0 == i && results[k].1 is None) by {
        if filled(hashes, results)[i] is None {
            if hashes[i] is None {
                assert(unhashed(hashes).contains(i as usize));
                let k = choose|k: int|
                    0 <= k < unhashed(hashes).len() && unhashed(hashes)[k] == i as usize;
                assert(results[k].0 == i);
            } else {
                assert forall|k: int| 0 <= k < results.len() implies (#[trigger] results[k]).0
                    != i by {
                    assert(hashes[results[k].0 as int] is None);
                }
            }
        }
    }
}

/// An empty cache knows no hash: every picture has to be hashed.
pub proof fn law_empty_cache_knows_no_hash(files: Seq<FileEntry>)
    requires
        files.len() <= usize::MAX,
    ensures
        forall|i: int|
            0 <= i < files.len() ==> #[trigger] cached_hashes(files, loaded(None))[i] is None,
        unhashed(cached_hashes(files, loaded(None))).len() == files.len(),
        forall|i: int|
            0 <= i < files.len() ==> #[trigger] unhashed(cached_hashes(files, loaded(None)))[i] == i,
    decreases files.len(),
{
    if files.len() > 0 {
        let shorter = files.drop_last();
        law_empty_cache_knows_no_hash(shorter);
        assert(cached_hashes(files, loaded(None)).drop_last() =~= cached_hashes(
            shorter,
            loaded(None),
        ));
    }
}

/// With a threshold of 64 bits or more, all pictures that could be hashed are in one group.
pub proof fn law_highest_threshold_joins_everything(
    hashes: Seq<Option<u64>>,
    threshold: u32,
    i: int,
    j: int,
)
    requires
        threshold >= 64,
        0 <= i < hashes.len(),
        0 <= j < hashes.len(),
        i != j,
        hashes[i] is Some,
        hashes[j] is Some,
    ensures
        together(similar_groups(hashes, threshold), i, j),
{
    law_hamming_at_most_64(hashes[i]->0, hashes[j]->0);
    law_similar_pictures_are_together(hashes, threshold, i, j);
}

/// Whether a gap runs between some positions and all others: every hash of the one side differs from
/// every hash of the other in more bits than the threshold.
pub open spec fn gap(hashes: Seq<Option<u64>>, threshold: u32, side: Set<int>) -> bool {
    forall|x: int, y: int|
        0 <= x < hashes.len() && 0 <= y < hashes.len() && #[trigger] side.contains(x)
            && !(#[trigger] side.contains(y)) && hashes[x] is Some && hashes[y] is Some ==> hamming(
            hashes[x]->0,
            hashes[y]->0,
        ) > threshold
}

proof fn lemma_gap_holds(
    hashes: Seq<Option<u64>>,
    threshold: u32,
    side: Set<int>,
    i: int,
    j: int,
    steps: nat,
)
    requires
        gap(hashes, threshold, side),
        side.contains(i),
        reachable(hashes, threshold, i, j, steps),
    ensures
        side.contains(j),
    decreases steps,
{
    if steps > 0 {
        let k = choose|k: int|
            reachable(hashes, threshold, i, k, (steps - 1) as nat) && #[trigger] similar(
                hashes,
                threshold,
                k,
                j,
            );
        lemma_gap_holds(hashes, threshold, side, i, k, (steps - 1) as nat);
        if !side.contains(j) {
            assert(hamming(hashes[k]->0, hashes[j]->0) > threshold);
        }
    }
}

/// Whether two pictures have hashes and no gap runs between them: whatever way the pictures are
/// parted with the two on different sides, some hash of the one side is within the threshold of some
/// hash of the other.
pub open spec fn not_parted(hashes: Seq<Option<u64>>, threshold: u32, i: int, j: int) -> bool {
    &&& 0 <= i < hashes.len() && 0 <= j < hashes.len()
    &&& hashes[i] is Some && hashes[j] is Some
    &&& forall|side: Set<int>| #[trigger]
        side.contains(i) && !side.contains(j) ==> !gap(hashes, threshold, side)
}

/// Two pictures are in one group exactly when they have hashes and no gap runs between them.
pub proof fn law_groups_are_parted_by_gaps(
    hashes: Seq<Option<u64>>,
    threshold: u32,
    i: int,
    j: int,
)
    requires
        0 <= i < hashes.len(),
        0 <= j < hashes.len(),
        i != j,
    ensures
        together(similar_groups(hashes, threshold), i, j) <==> not_parted(hashes, threshold, i, j),
{
    law_groups_are_the_linked_pictures(hashes, threshold, i, j);
    law_linked_is_an_equivalence(hashes, threshold, i, i, i);
    if linked(hashes, threshold, i, j) {
        let steps = choose|steps: nat| #[trigger] reachable(hashes, threshold, i, j, steps);
        lemma_linked_range(hashes, threshold, i, j);
        assert forall|side: Set<int>| #[trigger]
            side.contains(i) && !side.contains(j) implies !gap(hashes, threshold, side) by {
            if gap(hashes, threshold, side) {
                lemma_gap_holds(hashes, threshold, side, i, j, steps);
            }
        }
    } else if hashes[i] is Some && hashes[j] is Some {
        let side = Set::new(|k: int| linked(hashes, threshold, i, k));
        assert(side.contains(i));
        assert(gap(hashes, threshold, side)) by {
            assert forall|x: int, y: int|
                0 <= x < hashes.len() && 0 <= y < hashes.len() && #[trigger] side.contains(x)
                    && !(#[trigger] side.contains(y)) && hashes[x] is Some
                    && hashes[y] is Some implies hamming(hashes[x]->0, hashes[y]->0)
                > threshold by {
                if hamming(hashes[x]->0, hashes[y]->0) <= threshold {
                    assert(similar(hashes, threshold, x, y));
                    lemma_similar_linked(hashes, threshold, x, y);
                    law_linked_is_an_equivalence(hashes, threshold, i, x, y);
                }
            }
        }
        assert(!side.contains(j));
    }
}

/// No group holds pictures of both sides of a gap.
pub proof fn law_no_group_crosses_a_gap(
    hashes: Seq<Option<u64>>,
    threshold: u32,
    side: Set<int>,
    i: int,
    j: int,
)
    requires
        0 <= i < hashes.len(),
        0 <= j < hashes.len(),
        side.contains(i),
        !side.contains(j),
        forall|x: int, y: int|
            0 <= x < hashes.len() && 0 <= y < hashes.len() && #[trigger] side.contains(x)
                && !(#[trigger] side.contains(y)) && hashes[x] is Some && hashes[y] is Some
                ==> hamming(hashes[x]->0, hashes[y]->0) > threshold,
    ensures
        !together(similar_groups(hashes, threshold), i, j),
{
    law_groups_are_parted_by_gaps(hashes, threshold, i, j);
}

/// Of two pictures alone the distance decides.
pub proof fn law_two_pictures_are_grouped_by_distance(a: u64, b: u64, threshold: u32)
    ensures
        together(similar_groups(seq![Some(a), Some(b)], threshold), 0, 1) <==> hamming(a, b)
            <= threshold,
        hamming(a, b) > threshold ==> similar_groups(seq![Some(a), Some(b)], threshold).len() == 0,
        hamming(a, b) <= threshold ==> similar_groups(seq![Some(a), Some(b)], threshold) == seq![
            seq![0int, 1int],
        ],
{
    let hashes = seq![Some(a), Some(b)];
    let groups = similar_groups(hashes, threshold);
    if hamming(a, b) <= threshold {
        law_similar_pictures_are_together(hashes, threshold, 0, 1);
    } else {
        let side = Set::new(|k: int| k == 0);
        assert(side.contains(0) && !side.contains(1));
        law_no_group_crosses_a_gap(hashes, threshold, side, 0, 1);
    }
    law_groups_are_the_repeated_keys(leaders(hashes, threshold));
    assert forall|g: int| 0 <= g < groups.len() implies #[trigger] groups[g] == seq![0int, 1int] by {
        assert(groups[g].len() >= 2);
        assert(rising(groups[g], 2));
        assert(groups[g][0] < groups[g][1]);
        if groups[g].len() > 2 {
            assert(groups[g][1] < groups[g][2]);
        }
        assert(groups[g] =~= seq![0int, 1int]);
    }
    if groups.len() > 0 {
        assert(groups[0].contains(groups[0][0]) && groups[0].contains(groups[0][1]));
        assert(groups[0][0] == 0 && groups[0][1] == 1);
        assert(together(groups, 0, 1));
    }
    if groups.len() > 1 {
        assert(apart(groups[0], groups[1]));
        assert(groups[0][0] == 0 && groups[1][0] == 0);
        assert(groups[0].contains(0) && groups[1].contains(0));
    }
    if hamming(a, b) <= threshold {
        assert(groups =~= seq![seq![0int, 1int]]);
    }
}

/// The groups of similar pictures are the pictures put together wherever no gap runs between them.
pub proof fn law_similar_groups_split_the_pictures<T>(
    items: Seq<T>,
    hashes: Seq<Option<u64>>,
    threshold: u32,
)
    requires
        items.len() == hashes.len(),
    ensures
        splits(
            items,
            |p: int, q: int| not_parted(hashes, threshold, p, q),
            pick(items, similar_groups(hashes, threshold)),
            similar_groups(hashes, threshold),
        ),
{
    let keys = leaders(hashes, threshold);
    let places = similar_groups(hashes, threshold);
    let groups = pick(items, places);
    let same = |p: int, q: int| not_parted(hashes, threshold, p, q);
    let keyed = |p: int, q: int| keys[p] is Some && keys[p] == keys[q];
    law_picked_groups_split_the_items(items, keys);
    assert(splits(items, keyed, groups, places));
    assert forall|g: int, a: int, b: int|
        0 <= g < groups.len() && 0 <= a < groups[g].len() && 0 <= b < groups[g].len() && a
            != b implies same(#[trigger] places[g][a], #[trigger] places[g][b]) by {
        assert(places[g][a] != places[g][b]);
        assert(places[g].contains(places[g][a]) && places[g].contains(places[g][b]));
        assert(together(places, places[g][a], places[g][b]));
        law_groups_are_parted_by_gaps(hashes, threshold, places[g][a], places[g][b]);
    }
    assert forall|p: int, q: int|
        0 <= p < items.len() && 0 <= q < items.len() && p != q && #[trigger] same(
            p,
            q,
        ) implies exists|g: int|
        0 <= g < groups.len() && (#[trigger] places[g]).contains(p) && places[g].contains(q) by {
        law_groups_are_parted_by_gaps(hashes, threshold, p, q);
        assert(together(places, p, q));
        let g = choose|g: int|
            0 <= g < places.len() && #[trigger] places[g].contains(p) && places[g].contains(q);
        assert(places[g].contains(p));
    }
}

/// Results take their places among the hashes, and all other hashes stay as they are.
pub proof fn law_results_take_their_places(
    hashes: Seq<Option<u64>>,
    results: Seq<(usize, Option<u64>)>,
)
    requires
        forall|k: int| 0 <= k < results.len() ==> (#[trigger] results[k]).0 < hashes.len(),
        forall|k: int, l: int|
            0 <= k < l < results.len() ==> (#[trigger] results[k]).0 != (#[trigger] results[l]).0,
    ensures
        filled(hashes, results).len() == hashes.len(),
        forall|k: int|
            0 <= k < results.len() ==> filled(hashes, results)[(#[trigger] results[k]).0 as int]
                == results[k].1,
        forall|i: int|
            0 <= i < hashes.len() && (forall|k: int|
                0 <= k < results.len() ==> (#[trigger] results[k]).0 != i) ==> (#[trigger] filled(
                hashes,
                results,
            )[i]) == hashes[i],
        failures(results) == results.filter(|r: (usize, Option<u64>)| r.1 is None).len(),
    decreases results.len(),
{
    reveal(Seq::filter);
    if results.len() > 0 {
        let rest = results.drop_last();
        let n = results.len() - 1;
        assert(results.last() == results[n]);
        assert forall|k: int| 0 <= k < rest.len() implies (#[trigger] rest[k]).0 < hashes.len() by {
            assert(rest[k] == results[k]);
        }
        assert forall|k: int, l: int| 0 <= k < l < rest.len() implies (#[trigger] rest[k]).0 != (
        #[trigger] rest[l]).0 by {
            assert(results[k].0 != results[l].0);
        }
        law_results_take_their_places(hashes, rest);
        assert forall|k: int| 0 <= k < results.len() implies filled(hashes, results)[(
        #[trigger] results[k]).0 as int] == results[k].1 by {
            if k < n {
                assert(rest[k] == results[k]);
                assert(results[k].0 != results[n].0);
            }
        }
        assert forall|i: int|
            0 <= i < hashes.len() && (forall|k: int|
                0 <= k < results.len() ==> (#[trigger] results[k]).0 != i) implies (
        #[trigger] filled(hashes, results)[i]) == hashes[i] by {
            assert(results[n].0 != i);
            assert forall|k: int| 0 <= k < rest.len() implies (#[trigger] rest[k]).0 != i by {
                assert(rest[k] == results[k]);
            }
            assert(filled(hashes, rest)[i] == hashes[i]);
        }
    }
}

} // verus!
