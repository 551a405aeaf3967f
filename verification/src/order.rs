//! Stable sorting, and the order in which groups are presented.

use vstd::prelude::*;

verus! {

/// A way to compare things: a total preorder on the things that it covers.
pub trait Order<T> {
    /// Whether a thing can be compared.
    spec fn covers(&self, a: T) -> bool;

    /// Whether `a` may stand before `b`.
    spec fn le(&self, a: T, b: T) -> bool;

    proof fn total(&self, a: T, b: T)
        requires
            self.covers(a),
            self.covers(b),
        ensures
            self.le(a, b) || self.le(b, a),
    ;

    proof fn transitive(&self, a: T, b: T, c: T)
        requires
            self.le(a, b),
            self.le(b, c),
        ensures
            self.le(a, c),
    ;

    fn is_le(&self, a: &T, b: &T) -> (r: bool)
        requires
            self.covers(*a),
            self.covers(*b),
        ensures
            r == self.le(*a, *b),
    ;
}

/// Whether `after` is `before` put in order, position `i` taking what was at `from[i]`: every
/// thing stands once, none before one that belongs before it, and things that may stand either way
/// stand as they stood.
pub open spec fn arranges<T>(
    before: Seq<T>,
    after: Seq<T>,
    le: spec_fn(T, T) -> bool,
    from: Seq<int>,
) -> bool {
    &&& after.len() == before.len()
    &&& from.len() == before.len()
    &&& forall|i: int|
        0 <= i < from.len() ==> 0 <= #[trigger] from[i] < before.len() && after[i]
            == before[from[i]]
    &&& forall|i: int, j: int| 0 <= i < j < from.len() ==> #[trigger] from[i] != #[trigger] from[j]
    &&& forall|i: int, j: int|
        0 <= i < j < from.len() ==> le(#[trigger] after[i], #[trigger] after[j]) && (le(
            after[j],
            after[i],
        ) ==> from[i] < from[j])
}

/// Whether `after` is `before` put in order, with ties left as they were.
pub open spec fn stably_sorted<T>(
    before: Seq<T>,
    after: Seq<T>,
    le: spec_fn(T, T) -> bool,
) -> bool {
    exists|from: Seq<int>| #[trigger] arranges(before, after, le, from)
}

/// The list put in order, with ties left as they were.
pub open spec fn stable_sort<T>(list: Seq<T>, le: spec_fn(T, T) -> bool) -> Seq<T> {
    choose|after: Seq<T>| #[trigger] stably_sorted(list, after, le)
}

/// A list of different places that all are in it holds every place.
pub proof fn lemma_onto(from: Seq<int>, x: int)
    requires
        forall|i: int| 0 <= i < from.len() ==> 0 <= #[trigger] from[i] < from.len(),
        forall|i: int, j: int|
            0 <= i < j < from.len() ==> #[trigger] from[i] != #[trigger] from[j],
        0 <= x < from.len(),
    ensures
        from.contains(x),
{
    let n = from.len() as int;
    assert(from.no_duplicates());
    from.unique_seq_to_set();
    let s = from.to_set();
    let r = vstd::set_lib::set_int_range(0, n);
    vstd::set_lib::lemma_int_range(0, n);
    assert(s.subset_of(r)) by {
        assert forall|y: int| s.contains(y) implies r.contains(y) by {
            assert(from.contains(y));
        }
    }
    vstd::set_lib::lemma_subset_equality(s, r);
    assert(r.contains(x));
    assert(s.contains(x));
}

proof fn lemma_same_from<T>(
    before: Seq<T>,
    a: Seq<T>,
    b: Seq<T>,
    le: spec_fn(T, T) -> bool,
    f: Seq<int>,
    g: Seq<int>,
    k: int,
)
    requires
        arranges(before, a, le, f),
        arranges(before, b, le, g),
        0 <= k <= before.len(),
    ensures
        forall|i: int| 0 <= i < k ==> #[trigger] f[i] == g[i],
    decreases k,
{
    if k > 0 {
        lemma_same_from(before, a, b, le, f, g, k - 1);
        let x = f[k - 1];
        let y = g[k - 1];
        if x != y {
            lemma_onto(g, x);
            lemma_onto(f, y);
            let p = choose|p: int| 0 <= p < g.len() && g[p] == x;
            let q = choose|q: int| 0 <= q < f.len() && f[q] == y;
            if p < k - 1 {
                assert(f[p] == g[p]);
            }
            if q < k - 1 {
                assert(f[q] == g[q]);
            }
            assert(le(b[k - 1], b[p]));
            assert(le(a[k - 1], a[q]));
            assert(a[k - 1] == b[p] && a[q] == b[k - 1]);
            assert(false);
        }
    }
}

/// There is one way to put a list in order and leave ties as they were, so sorting has one result.
pub proof fn law_stable_sort_is_unique<T>(
    list: Seq<T>,
    after: Seq<T>,
    le: spec_fn(T, T) -> bool,
)
    requires
        stably_sorted(list, after, le),
    ensures
        after == stable_sort(list, le),
{
    let other = stable_sort(list, le);
    let f = choose|f: Seq<int>| #[trigger] arranges(list, after, le, f);
    let g = choose|g: Seq<int>| #[trigger] arranges(list, other, le, g);
    lemma_same_from(list, after, other, le, f, g, list.len() as int);
    assert forall|i: int| 0 <= i < after.len() implies after[i] == other[i] by {
        assert(f[i] == g[i]);
    }
    assert(after =~= other);
}

/// Whether every two things of a list can be compared, and comparing is transitive.
pub open spec fn comparable<T>(list: Seq<T>, le: spec_fn(T, T) -> bool) -> bool {
    &&& forall|a: T, b: T|
        list.contains(a) && list.contains(b) ==> #[trigger] le(a, b) || le(b, a)
    &&& forall|a: T, b: T, c: T| #[trigger] le(a, b) && #[trigger] le(b, c) ==> le(a, c)
}

/// The place of `x` behind everything in a sorted list that may stand before it.
proof fn lemma_place<T>(sorted: Seq<T>, x: T, le: spec_fn(T, T) -> bool, k: int) -> (p: int)
    requires
        0 <= k <= sorted.len(),
        forall|i: int, j: int|
            0 <= i < j < sorted.len() ==> le(#[trigger] sorted[i], #[trigger] sorted[j]),
        forall|a: T, b: T, c: T| #[trigger] le(a, b) && #[trigger] le(b, c) ==> le(a, c),
        forall|i: int| k <= i < sorted.len() ==> !le(#[trigger] sorted[i], x),
    ensures
        0 <= p <= sorted.len(),
        forall|i: int| 0 <= i < p ==> le(#[trigger] sorted[i], x),
        forall|i: int| p <= i < sorted.len() ==> !le(#[trigger] sorted[i], x),
    decreases k,
{
    if k == 0 {
        0
    } else if le(sorted[k - 1], x) {
        assert forall|i: int| 0 <= i < k implies le(#[trigger] sorted[i], x) by {
            if i < k - 1 {
                assert(le(sorted[i], sorted[k - 1]));
            }
        }
        k
    } else {
        lemma_place(sorted, x, le, k - 1)
    }
}

proof fn lemma_sorted_exists<T>(list: Seq<T>, le: spec_fn(T, T) -> bool)
    requires
        comparable(list, le),
    ensures
        exists|after: Seq<T>| #[trigger] stably_sorted(list, after, le),
    decreases list.len(),
{
    if list.len() == 0 {
        assert(arranges(list, list, le, Seq::empty()));
        assert(stably_sorted(list, list, le));
    } else {
        let rest = list.drop_last();
        let x = list.last();
        let n = rest.len() as int;
        assert forall|a: T, b: T| rest.contains(a) && rest.contains(b) implies #[trigger] le(a, b)
            || le(b, a) by {
            let i = choose|i: int| 0 <= i < rest.len() && rest[i] == a;
            let j = choose|j: int| 0 <= j < rest.len() && rest[j] == b;
            assert(list[i] == a && list[j] == b);
            assert(list.contains(a) && list.contains(b));
        }
        lemma_sorted_exists(rest, le);
        let s = choose|s: Seq<T>| #[trigger] stably_sorted(rest, s, le);
        let f = choose|f: Seq<int>| #[trigger] arranges(rest, s, le, f);
        let p = lemma_place(s, x, le, n);
        let after = s.insert(p, x);
        let from = f.insert(p, n);
        assert(list[n] == x);
        assert(list.contains(x));
        assert forall|i: int| 0 <= i < from.len() implies 0 <= #[trigger] from[i] < list.len()
            && after[i] == list[from[i]] by {
            if i < p {
                assert(from[i] == f[i]);
            } else if i > p {
                assert(from[i] == f[i - 1]);
            }
        }
        assert forall|i: int, j: int| 0 <= i < j < from.len() implies #[trigger] from[i]
            != #[trigger] from[j] by {
            let a = if i < p {
                i
            } else {
                i - 1
            };
            let b = if j < p {
                j
            } else {
                j - 1
            };
            if i == p {
                assert(from[j] == f[b]);
            } else if j == p {
                assert(from[i] == f[a]);
            } else {
                assert(from[i] == f[a] && from[j] == f[b]);
            }
        }
        assert forall|i: int, j: int| 0 <= i < j < from.len() implies le(
            #[trigger] after[i],
            #[trigger] after[j],
        ) && (le(after[j], after[i]) ==> from[i] < from[j]) by {
            if i == p {
                assert(after[j] == s[j - 1] && from[j] == f[j - 1]);
                assert(!le(s[j - 1], x));
                assert(rest[f[j - 1]] == s[j - 1]);
                assert(list[f[j - 1]] == s[j - 1]);
                assert(list.contains(s[j - 1]));
                assert(le(x, s[j - 1]) || le(s[j - 1], x));
            } else if j == p {
                assert(after[i] == s[i] && from[i] == f[i]);
            } else if i < p && j < p {
                assert(after[i] == s[i] && after[j] == s[j]);
                assert(from[i] == f[i] && from[j] == f[j]);
            } else if i < p {
                assert(after[i] == s[i] && after[j] == s[j - 1]);
                assert(from[i] == f[i] && from[j] == f[j - 1]);
            } else {
                assert(after[i] == s[i - 1] && after[j] == s[j - 1]);
                assert(from[i] == f[i - 1] && from[j] == f[j - 1]);
            }
        }
        assert(arranges(list, after, le, from));
        assert(stably_sorted(list, after, le));
    }
}

/// Sorting puts a list in order, loses nothing, adds nothing, and leaves ties as they were.
pub proof fn law_stable_sort_sorts<T>(list: Seq<T>, le: spec_fn(T, T) -> bool)
    requires
        comparable(list, le),
    ensures
        stably_sorted(list, stable_sort(list, le), le),
{
    lemma_sorted_exists(list, le);
}

/// How far a merge has come: `out` holds the first `i` things of `left` and the first `j` of
/// `right`, in order.
spec fn merging<T, O: Order<T>>(
    order: &O,
    before: Seq<T>,
    left: Seq<T>,
    right: Seq<T>,
    fl: Seq<int>,
    fr: Seq<int>,
    i: int,
    j: int,
    out: Seq<T>,
    from: Seq<int>,
) -> bool {
    let m = left.len() as int;
    &&& 0 <= i <= left.len()
    &&& 0 <= j <= right.len()
    &&& out.len() == i + j
    &&& from.len() == i + j
    &&& forall|k: int|
        0 <= k < from.len() ==> 0 <= #[trigger] from[k] < before.len() && out[k] == before[from[k]]
    &&& forall|k: int|
        0 <= k < from.len() ==> {
            ||| exists|a: int| 0 <= a < i && #[trigger] fl[a] == #[trigger] from[k]
            ||| exists|b: int| 0 <= b < j && m + #[trigger] fr[b] == from[k]
        }
    &&& forall|k: int, l: int| 0 <= k < l < from.len() ==> #[trigger] from[k] != #[trigger] from[l]
    &&& forall|k: int, l: int|
        0 <= k < l < from.len() ==> order.le(#[trigger] out[k], #[trigger] out[l]) && (order.le(
            out[l],
            out[k],
        ) ==> from[k] < from[l])
    &&& forall|k: int, a: int|
        0 <= k < from.len() && i <= a < left.len() ==> order.le(
            #[trigger] out[k],
            #[trigger] left[a],
        ) && (order.le(left[a], out[k]) ==> from[k] < fl[a])
    &&& forall|k: int, b: int|
        0 <= k < from.len() && j <= b < right.len() ==> order.le(
            #[trigger] out[k],
            #[trigger] right[b],
        ) && (order.le(right[b], out[k]) ==> from[k] < m + fr[b])
}

spec fn halves<T, O: Order<T>>(
    order: &O,
    before: Seq<T>,
    left: Seq<T>,
    right: Seq<T>,
    fl: Seq<int>,
    fr: Seq<int>,
) -> bool {
    let m = left.len() as int;
    let le = |a: T, b: T| order.le(a, b);
    &&& before.len() == left.len() + right.len()
    &&& arranges(before.take(m), left, le, fl)
    &&& arranges(before.skip(m), right, le, fr)
    &&& forall|x: int| 0 <= x < before.len() ==> order.covers(#[trigger] before[x])
}

proof fn lemma_merge_left<T, O: Order<T>>(
    order: &O,
    before: Seq<T>,
    left: Seq<T>,
    right: Seq<T>,
    fl: Seq<int>,
    fr: Seq<int>,
    i: int,
    j: int,
    out: Seq<T>,
    from: Seq<int>,
)
    requires
        halves(order, before, left, right, fl, fr),
        merging(order, before, left, right, fl, fr, i, j, out, from),
        i < left.len(),
        j < right.len() ==> order.le(left[i], right[j]),
    ensures
        merging(
            order,
            before,
            left,
            right,
            fl,
            fr,
            i + 1,
            j,
            out.push(left[i]),
            from.push(fl[i]),
        ),
{
    let m = left.len() as int;
    let out2 = out.push(left[i]);
    let from2 = from.push(fl[i]);
    let n = from.len() as int;
    let le = |a: T, b: T| order.le(a, b);
    assert(before.take(m)[fl[i]] == before[fl[i]]);
    assert forall|k: int| 0 <= k < from2.len() implies {
        ||| exists|a: int| 0 <= a < i + 1 && #[trigger] fl[a] == #[trigger] from2[k]
        ||| exists|b: int| 0 <= b < j && m + #[trigger] fr[b] == from2[k]
    } by {
        if k < n {
            assert(from2[k] == from[k]);
        } else {
            assert(fl[i] == from2[k]);
        }
    }
    assert forall|k: int, l: int| 0 <= k < l < from2.len() implies #[trigger] from2[k]
        != #[trigger] from2[l] by {
        if l == n {
            assert(from2[k] == from[k]);
            if exists|a: int| 0 <= a < i && #[trigger] fl[a] == from[k] {
                let a = choose|a: int| 0 <= a < i && #[trigger] fl[a] == from[k];
                assert(fl[a] != fl[i]);
            } else {
                let b = choose|b: int| 0 <= b < j && m + #[trigger] fr[b] == from[k];
                assert(0 <= fr[b]);
            }
        }
    }
    assert forall|k: int, l: int| 0 <= k < l < from2.len() implies order.le(
        #[trigger] out2[k],
        #[trigger] out2[l],
    ) && (order.le(out2[l], out2[k]) ==> from2[k] < from2[l]) by {
        assert(out2[k] == out[k]);
        if l == n {
            assert(order.le(out[k], left[i]));
        } else {
            assert(out2[l] == out[l]);
        }
    }
    assert forall|k: int, a: int| 0 <= k < from2.len() && i + 1 <= a < left.len() implies order.le(
        #[trigger] out2[k],
        #[trigger] left[a],
    ) && (order.le(left[a], out2[k]) ==> from2[k] < fl[a]) by {
        if k < n {
            assert(out2[k] == out[k]);
        } else {
            assert(le(left[i], left[a]));
        }
    }
    assert forall|k: int, b: int| 0 <= k < from2.len() && j <= b < right.len() implies order.le(
        #[trigger] out2[k],
        #[trigger] right[b],
    ) && (order.le(right[b], out2[k]) ==> from2[k] < m + fr[b]) by {
        if k < n {
            assert(out2[k] == out[k]);
        } else {
            assert(0 <= fr[b]);
            if j < b {
                assert(le(right[j], right[b]));
                order.transitive(left[i], right[j], right[b]);
            }
        }
    }
}

proof fn lemma_merge_right<T, O: Order<T>>(
    order: &O,
    before: Seq<T>,
    left: Seq<T>,
    right: Seq<T>,
    fl: Seq<int>,
    fr: Seq<int>,
    i: int,
    j: int,
    out: Seq<T>,
    from: Seq<int>,
)
    requires
        halves(order, before, left, right, fl, fr),
        merging(order, before, left, right, fl, fr, i, j, out, from),
        j < right.len(),
        i < left.len() ==> !order.le(left[i], right[j]),
    ensures
        merging(
            order,
            before,
            left,
            right,
            fl,
            fr,
            i,
            j + 1,
            out.push(right[j]),
            from.push(left.len() + fr[j]),
        ),
{
    let m = left.len() as int;
    let out2 = out.push(right[j]);
    let from2 = from.push(m + fr[j]);
    let n = from.len() as int;
    let le = |a: T, b: T| order.le(a, b);
    assert(before.skip(m)[fr[j]] == before[m + fr[j]]);
    assert(right[j] == before[m + fr[j]]);
    assert(order.covers(before[m + fr[j]]));
    assert forall|k: int| 0 <= k < from2.len() implies {
        ||| exists|a: int| 0 <= a < i && #[trigger] fl[a] == #[trigger] from2[k]
        ||| exists|b: int| 0 <= b < j + 1 && m + #[trigger] fr[b] == from2[k]
    } by {
        if k < n {
            assert(from2[k] == from[k]);
        } else {
            assert(m + fr[j] == from2[k]);
        }
    }
    assert forall|k: int, l: int| 0 <= k < l < from2.len() implies #[trigger] from2[k]
        != #[trigger] from2[l] by {
        if l == n {
            assert(from2[k] == from[k]);
            if exists|a: int| 0 <= a < i && #[trigger] fl[a] == from[k] {
                let a = choose|a: int| 0 <= a < i && #[trigger] fl[a] == from[k];
                assert(fl[a] < m);
                assert(0 <= fr[j]);
            } else {
                let b = choose|b: int| 0 <= b < j && m + #[trigger] fr[b] == from[k];
                assert(fr[b] != fr[j]);
            }
        }
    }
    assert forall|k: int, l: int| 0 <= k < l < from2.len() implies order.le(
        #[trigger] out2[k],
        #[trigger] out2[l],
    ) && (order.le(out2[l], out2[k]) ==> from2[k] < from2[l]) by {
        assert(out2[k] == out[k]);
        if l == n {
            assert(order.le(out[k], right[j]));
        } else {
            assert(out2[l] == out[l]);
        }
    }
    assert forall|k: int, a: int| 0 <= k < from2.len() && i <= a < left.len() implies order.le(
        #[trigger] out2[k],
        #[trigger] left[a],
    ) && (order.le(left[a], out2[k]) ==> from2[k] < fl[a]) by {
        if k < n {
            assert(out2[k] == out[k]);
        } else {
            assert(0 <= fl[i] < m);
            assert(before.take(m)[fl[i]] == before[fl[i]]);
            assert(order.covers(before[fl[i]]));
            order.total(left[i], right[j]);
            if i < a {
                assert(le(left[i], left[a]));
                order.transitive(right[j], left[i], left[a]);
                if order.le(left[a], right[j]) {
                    order.transitive(left[i], left[a], right[j]);
                }
            }
        }
    }
    assert forall|k: int, b: int| 0 <= k < from2.len() && j + 1 <= b < right.len() implies order.le(
        #[trigger] out2[k],
        #[trigger] right[b],
    ) && (order.le(right[b], out2[k]) ==> from2[k] < m + fr[b]) by {
        if k < n {
            assert(out2[k] == out[k]);
        } else {
            assert(le(right[j], right[b]));
        }
    }
}

fn reversed<T>(list: Vec<T>) -> (r: Vec<T>)
    ensures
        r@ == list@.reverse(),
{
    let mut list = list;
    let ghost all = list@;
    let mut r: Vec<T> = Vec::new();
    while list.len() > 0
        invariant
            list@ == all.take(list@.len() as int),
            list@.len() <= all.len(),
            r@ == all.skip(list@.len() as int).reverse(),
        decreases list@.len(),
    {
        let ghost k = list@.len();
        if let Some(x) = list.pop() {
            r.push(x);
            assert(list@ =~= all.take(k - 1));
            assert(r@ =~= all.skip(k - 1).reverse());
        }
    }
    assert(all.skip(0) =~= all);
    r
}

fn sort_traced<T, O: Order<T>>(order: &O, list: Vec<T>) -> (r: (Vec<T>, Ghost<Seq<int>>))
    requires
        forall|x: int| 0 <= x < list@.len() ==> order.covers(#[trigger] list@[x]),
    ensures
        arranges(list@, r.0@, |a: T, b: T| order.le(a, b), r.1@),
    decreases list@.len(),
{
    let n = list.len();
    let ghost before = list@;
    if n <= 1 {
        return (list, Ghost(Seq::new(n as nat, |i: int| i)));
    }
    let mut first = list;
    let m = n / 2;
    let second = first.split_off(m);
    assert(first@ =~= before.take(m as int));
    assert(second@ =~= before.skip(m as int));
    let (left, Ghost(fl)) = sort_traced(order, first);
    let (right, Ghost(fr)) = sort_traced(order, second);
    let ghost l = left@;
    let ghost r = right@;
    let mut left = reversed(left);
    let mut right = reversed(right);
    let mut out: Vec<T> = Vec::new();
    let ghost mut from: Seq<int> = Seq::empty();
    let ghost mut i: int = 0;
    let ghost mut j: int = 0;
    assert(l.skip(0) =~= l);
    assert(r.skip(0) =~= r);
    assert(halves(order, before, l, r, fl, fr));
    assert(merging(order, before, l, r, fl, fr, i, j, out@, from));
    while left.len() > 0 || right.len() > 0
        invariant
            halves(order, before, l, r, fl, fr),
            merging(order, before, l, r, fl, fr, i, j, out@, from),
            left@ == l.skip(i).reverse(),
            right@ == r.skip(j).reverse(),
        decreases left@.len() + right@.len(),
    {
        let take_left = if left.len() == 0 {
            false
        } else if right.len() == 0 {
            true
        } else {
            proof {
                assert(left@[left@.len() - 1] == l[i]);
                assert(right@[right@.len() - 1] == r[j]);
                assert(before.take(l.len() as int)[fl[i]] == before[fl[i]]);
                assert(before.skip(l.len() as int)[fr[j]] == before[l.len() + fr[j]]);
                assert(order.covers(before[fl[i]]));
                assert(order.covers(before[l.len() + fr[j]]));
            }
            order.is_le(&left[left.len() - 1], &right[right.len() - 1])
        };
        if take_left {
            if let Some(x) = left.pop() {
                proof {
                    lemma_merge_left(order, before, l, r, fl, fr, i, j, out@, from);
                    assert(x == l[i]);
                    from = from.push(fl[i]);
                    i = i + 1;
                    assert(left@ =~= l.skip(i).reverse());
                }
                out.push(x);
            }
        } else {
            if let Some(x) = right.pop() {
                proof {
                    lemma_merge_right(order, before, l, r, fl, fr, i, j, out@, from);
                    assert(x == r[j]);
                    from = from.push(l.len() + fr[j]);
                    j = j + 1;
                    assert(right@ =~= r.skip(j).reverse());
                }
                out.push(x);
            }
        }
    }
    (out, Ghost(from))
}

/// Puts a list in order and leaves ties as they were.
pub fn sort_by_order<T, O: Order<T>>(order: &O, list: Vec<T>) -> (after: Vec<T>)
    requires
        forall|x: int| 0 <= x < list@.len() ==> order.covers(#[trigger] list@[x]),
    ensures
        stably_sorted(list@, after@, |a: T, b: T| order.le(a, b)),
{
    let (after, Ghost(from)) = sort_traced(order, list);
    assert(arranges(list@, after@, |a: T, b: T| order.le(a, b), from));
    after
}

/// The sum of some numbers.
pub open spec fn sum(values: Seq<nat>) -> nat
    decreases values.len(),
{
    if values.len() == 0 {
        0
    } else {
        sum(values.drop_last()) + values.last()
    }
}

proof fn lemma_sum_remove(values: Seq<nat>, p: int)
    requires
        0 <= p < values.len(),
    ensures
        sum(values) == sum(values.remove(p)) + values[p],
    decreases values.len(),
{
    let rest = values.drop_last();
    if p == values.len() - 1 {
        assert(values.remove(p) =~= rest);
    } else {
        lemma_sum_remove(rest, p);
        assert(values.remove(p).drop_last() =~= rest.remove(p));
        assert(values.remove(p).last() == values.last());
    }
}

/// The order of numbers does not change their sum.
proof fn lemma_sum_reordered(before: Seq<nat>, after: Seq<nat>, from: Seq<int>)
    requires
        after.len() == before.len(),
        from.len() == before.len(),
        forall|i: int|
            0 <= i < from.len() ==> 0 <= #[trigger] from[i] < before.len() && after[i]
                == before[from[i]],
        forall|i: int, j: int|
            0 <= i < j < from.len() ==> #[trigger] from[i] != #[trigger] from[j],
    ensures
        sum(after) == sum(before),
    decreases before.len(),
{
    if before.len() > 0 {
        let n = before.len() - 1;
        let p = from[n];
        let rest = before.remove(p);
        let moved = Seq::new(
            n as nat,
            |i: int|
                if from[i] < p {
                    from[i]
                } else {
                    from[i] - 1
                },
        );
        assert forall|i: int| 0 <= i < moved.len() implies 0 <= #[trigger] moved[i] < rest.len()
            && after.drop_last()[i] == rest[moved[i]] by {
            assert(from[i] != from[n]);
        }
        assert forall|i: int, j: int| 0 <= i < j < moved.len() implies #[trigger] moved[i]
            != #[trigger] moved[j] by {
            assert(from[i] != from[j]);
            assert(from[i] != from[n] && from[j] != from[n]);
        }
        lemma_sum_reordered(rest, after.drop_last(), moved);
        lemma_sum_remove(before, p);
    }
}

/// Putting a list in order does not change what a measure of its things sums up to.
pub proof fn lemma_sorted_sum<T>(
    before: Seq<T>,
    after: Seq<T>,
    le: spec_fn(T, T) -> bool,
    measure: spec_fn(T) -> nat,
)
    requires
        stably_sorted(before, after, le),
    ensures
        sum(after.map_values(measure)) == sum(before.map_values(measure)),
{
    let from = choose|from: Seq<int>| #[trigger] arranges(before, after, le, from);
    lemma_sum_reordered(before.map_values(measure), after.map_values(measure), from);
}

/// What stands in a list stands in it when it has been put in order.
pub proof fn lemma_sorted_holds<T>(
    before: Seq<T>,
    after: Seq<T>,
    le: spec_fn(T, T) -> bool,
    x: int,
)
    requires
        stably_sorted(before, after, le),
        0 <= x < before.len(),
    ensures
        exists|i: int| 0 <= i < after.len() && #[trigger] after[i] == before[x],
{
    let from = choose|from: Seq<int>| #[trigger] arranges(before, after, le, from);
    lemma_onto(from, x);
    let i = choose|i: int| 0 <= i < from.len() && from[i] == x;
    assert(after[i] == before[x]);
}

} // verus!
