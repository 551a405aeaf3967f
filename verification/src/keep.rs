//! Which file of a group is kept, and the order in which groups are presented.

use vstd::prelude::*;
use crate::entry::FileEntry;
use crate::grouping::{contents, splits};
use crate::order::{
    arranges, comparable, law_stable_sort_is_unique, law_stable_sort_sorts, lemma_onto,
    sort_by_order, stable_sort, stably_sorted, Order,
};
use crate::text::{
    is_text_le, lemma_bytes_le_total, lemma_bytes_le_transitive, same_text, text_le,
};
use vstd::utf8::encode_utf8;

verus! {

/// Which file of a group is kept by default.
#[derive(Clone, Copy)]
pub enum Keep {
    /// The largest, which a compressed copy is not.
    Largest,
    /// The most recently changed.
    Newest,
    /// The least recently changed.
    Oldest,
}

/// The file to keep that a word asks for. Any word but `newest` and `oldest` asks for the largest.
pub open spec fn keep_of(strategy: Seq<char>) -> Keep {
    if strategy == "newest"@ {
        Keep::Newest
    } else if strategy == "oldest"@ {
        Keep::Oldest
    } else {
        Keep::Largest
    }
}

/// Whether one file is at least as good to keep as another.
pub open spec fn keep_order(keep: Keep) -> spec_fn(FileEntry, FileEntry) -> bool {
    |a: FileEntry, b: FileEntry|
        match keep {
            Keep::Largest => a.size >= b.size,
            Keep::Newest => a.mtime >= b.mtime,
            Keep::Oldest => a.mtime <= b.mtime,
        }
}

/// Whether the first path of one group comes before that of another, or is the same.
pub open spec fn first_path_order() -> spec_fn(Seq<FileEntry>, Seq<FileEntry>) -> bool {
    |a: Seq<FileEntry>, b: Seq<FileEntry>| text_le(a[0].display_path@, b[0].display_path@)
}

/// The groups as they are presented: in each the file to keep first, and the groups by their first
/// paths.
pub open spec fn presented(groups: Seq<Seq<FileEntry>>, keep: Keep) -> Seq<Seq<FileEntry>> {
    stable_sort(
        groups.map_values(|g: Seq<FileEntry>| stable_sort(g, keep_order(keep))),
        first_path_order(),
    )
}

impl Order<FileEntry> for Keep {
    open spec fn covers(&self, a: FileEntry) -> bool {
        true
    }

    open spec fn le(&self, a: FileEntry, b: FileEntry) -> bool {
        keep_order(*self)(a, b)
    }

    proof fn total(&self, a: FileEntry, b: FileEntry) {
    }

    proof fn transitive(&self, a: FileEntry, b: FileEntry, c: FileEntry) {
    }

    fn is_le(&self, a: &FileEntry, b: &FileEntry) -> (r: bool) {
        match *self {
            Keep::Largest => a.size >= b.size,
            Keep::Newest => a.mtime >= b.mtime,
            Keep::Oldest => a.mtime <= b.mtime,
        }
    }
}

/// The order of groups by their first paths.
pub struct ByFirstPath;

impl Order<Vec<FileEntry>> for ByFirstPath {
    open spec fn covers(&self, a: Vec<FileEntry>) -> bool {
        a@.len() > 0
    }

    open spec fn le(&self, a: Vec<FileEntry>, b: Vec<FileEntry>) -> bool {
        first_path_order()(a@, b@)
    }

    proof fn total(&self, a: Vec<FileEntry>, b: Vec<FileEntry>) {
        lemma_bytes_le_total(
            encode_utf8(a@[0].display_path@),
            encode_utf8(b@[0].display_path@),
        );
    }

    proof fn transitive(&self, a: Vec<FileEntry>, b: Vec<FileEntry>, c: Vec<FileEntry>) {
        lemma_bytes_le_transitive(
            encode_utf8(a@[0].display_path@),
            encode_utf8(b@[0].display_path@),
            encode_utf8(c@[0].display_path@),
        );
    }

    fn is_le(&self, a: &Vec<FileEntry>, b: &Vec<FileEntry>) -> (r: bool) {
        is_text_le(a[0].display_path.as_str(), b[0].display_path.as_str())
    }
}

/// The file to keep that a word asks for.
pub fn parse_keep(strategy: &str) -> (keep: Keep)
    ensures
        keep == keep_of(strategy@),
{
    if same_text(strategy, "newest") {
        Keep::Newest
    } else if same_text(strategy, "oldest") {
        Keep::Oldest
    } else {
        Keep::Largest
    }
}

/// Puts the file to keep first in every group, and the groups in the order of their first paths.
/// Files that are equally good to keep stay in the order in which they were, and so do groups with
/// the same first path.
pub fn sort_dup_groups(groups: &mut Vec<Vec<FileEntry>>, strategy: &str)
    requires
        old(groups)@.len() > 1 ==> forall|g: int|
            0 <= g < old(groups)@.len() ==> (#[trigger] old(groups)@[g])@.len() > 0,
    ensures
        contents(final(groups)@) == presented(contents(old(groups)@), keep_of(strategy@)),
{
    let keep = parse_keep(strategy);
    let ghost before = contents(groups@);
    let ghost sort_one = |g: Seq<FileEntry>| stable_sort(g, keep_order(keep));
    let ghost middle = before.map_values(sort_one);
    let mut taken: Vec<Vec<FileEntry>> = Vec::new();
    std::mem::swap(groups, &mut taken);
    let ghost all = taken@;
    let mut sorted: Vec<Vec<FileEntry>> = Vec::new();
    for group in it: taken
        invariant
            it.seq() == all,
            before == contents(all),
            sort_one == (|g: Seq<FileEntry>| stable_sort(g, keep_order(keep))),
            middle == before.map_values(sort_one),
            sorted@.len() == it.index(),
            forall|g: int| 0 <= g < sorted@.len() ==> (#[trigger] sorted@[g])@ == middle[g],
            forall|g: int|
                0 <= g < sorted@.len() ==> (#[trigger] sorted@[g])@.len() == all[g]@.len(),
    {
        let ghost k = it.index();
        let done = sort_by_order(&keep, group);
        proof {
            assert(before[k] == group@);
            let le = |a: FileEntry, b: FileEntry| keep.le(a, b);
            assert(le =~= keep_order(keep));
            law_stable_sort_is_unique(group@, done@, keep_order(keep));
            assert(middle[k] == done@);
        }
        sorted.push(done);
    }
    assert(contents(sorted@) =~= middle);
    if sorted.len() > 1 {
        assert forall|g: int| 0 <= g < sorted@.len() implies ByFirstPath.covers(
            #[trigger] sorted@[g],
        ) by {
            assert(sorted@[g]@.len() == all[g]@.len());
        }
        let ghost input = sorted@;
        let out = sort_by_order(&ByFirstPath, sorted);
        proof {
            let le = |a: Vec<FileEntry>, b: Vec<FileEntry>| ByFirstPath.le(a, b);
            let from = choose|from: Seq<int>| #[trigger] arranges(input, out@, le, from);
            lemma_contents_arranged(input, out@, from);
            law_stable_sort_is_unique(middle, contents(out@), first_path_order());
        }
        *groups = out;
    } else {
        proof {
            let from = Seq::new(middle.len(), |i: int| i);
            assert(arranges(middle, middle, first_path_order(), from));
            law_stable_sort_is_unique(middle, middle, first_path_order());
        }
        *groups = sorted;
    }
}

proof fn lemma_contents_arranged(
    before: Seq<Vec<FileEntry>>,
    after: Seq<Vec<FileEntry>>,
    from: Seq<int>,
)
    requires
        arranges(
            before,
            after,
            |a: Vec<FileEntry>, b: Vec<FileEntry>| ByFirstPath.le(a, b),
            from,
        ),
    ensures
        stably_sorted(contents(before), contents(after), first_path_order()),
{
    let le = |a: Vec<FileEntry>, b: Vec<FileEntry>| ByFirstPath.le(a, b);
    let b = contents(before);
    let a = contents(after);
    assert forall|i: int, j: int| 0 <= i < j < from.len() implies first_path_order()(
        #[trigger] a[i],
        #[trigger] a[j],
    ) && (first_path_order()(a[j], a[i]) ==> from[i] < from[j]) by {
        assert(le(after[i], after[j]));
    }
    assert(arranges(b, a, first_path_order(), from));
}

/// Every two files can be compared by what is to be kept.
pub proof fn lemma_keep_comparable(group: Seq<FileEntry>, keep: Keep)
    ensures
        comparable(group, keep_order(keep)),
{
}

proof fn lemma_paths_comparable(groups: Seq<Seq<FileEntry>>)
    ensures
        comparable(groups, first_path_order()),
{
    let le = first_path_order();
    assert forall|a: Seq<FileEntry>, b: Seq<FileEntry>|
        groups.contains(a) && groups.contains(b) implies #[trigger] le(a, b) || le(b, a) by {
        lemma_bytes_le_total(encode_utf8(a[0].display_path@), encode_utf8(b[0].display_path@));
    }
    assert forall|a: Seq<FileEntry>, b: Seq<FileEntry>, c: Seq<FileEntry>| #[trigger]
        le(a, b) && #[trigger] le(b, c) implies le(a, c) by {
        lemma_bytes_le_transitive(
            encode_utf8(a[0].display_path@),
            encode_utf8(b[0].display_path@),
            encode_utf8(c[0].display_path@),
        );
    }
}

/// In a group as it is presented the first file is at least as good to keep as every other one:
/// the largest, the newest or the oldest, as was asked.
pub proof fn law_first_file_is_the_one_to_keep(group: Seq<FileEntry>, keep: Keep, i: int)
    requires
        0 <= i < group.len(),
    ensures
        stable_sort(group, keep_order(keep)).len() == group.len(),
        keep_order(keep)(
            stable_sort(group, keep_order(keep))[0],
            stable_sort(group, keep_order(keep))[i],
        ),
{
    lemma_keep_comparable(group, keep);
    law_stable_sort_sorts(group, keep_order(keep));
    let after = stable_sort(group, keep_order(keep));
    let from = choose|from: Seq<int>| #[trigger] arranges(group, after, keep_order(keep), from);
    assert(from.len() == group.len());
}

/// Presenting loses no group and no file: the groups presented are the groups given, each put in
/// order for itself, in the order of their first paths.
pub proof fn law_presenting_keeps_every_file(groups: Seq<Seq<FileEntry>>, keep: Keep)
    ensures
        ({
            let middle = groups.map_values(|g: Seq<FileEntry>| stable_sort(g, keep_order(keep)));
            &&& forall|g: int|
                0 <= g < groups.len() ==> stably_sorted(
                    #[trigger] groups[g],
                    middle[g],
                    keep_order(keep),
                )
            &&& stably_sorted(middle, presented(groups, keep), first_path_order())
        }),
{
    let middle = groups.map_values(|g: Seq<FileEntry>| stable_sort(g, keep_order(keep)));
    assert forall|g: int| 0 <= g < groups.len() implies stably_sorted(
        #[trigger] groups[g],
        middle[g],
        keep_order(keep),
    ) by {
        lemma_keep_comparable(groups[g], keep);
        law_stable_sort_sorts(groups[g], keep_order(keep));
    }
    lemma_paths_comparable(middle);
    law_stable_sort_sorts(middle, first_path_order());
}

/// Whether `after` is `group` put in order by what is to be kept, position `i` taking what was at
/// `from[i]`: the largest, the most or the least recently changed first, and files that are equal in
/// that as they were.
pub open spec fn group_arranged(
    group: Seq<FileEntry>,
    after: Seq<FileEntry>,
    keep: Keep,
    from: Seq<int>,
) -> bool {
    &&& after.len() == group.len()
    &&& from.len() == group.len()
    &&& forall|i: int|
        0 <= i < after.len() ==> 0 <= #[trigger] from[i] < group.len() && after[i] == group[from[i]]
    &&& forall|i: int, j: int| 0 <= i < j < after.len() ==> #[trigger] from[i] != #[trigger] from[j]
    &&& forall|i: int, j: int|
        0 <= i < j < after.len() ==> match keep {
            Keep::Largest => {
                &&& (#[trigger] after[i]).size >= (#[trigger] after[j]).size
                &&& after[i].size == after[j].size ==> from[i] < from[j]
            },
            Keep::Newest => {
                &&& after[i].mtime >= after[j].mtime
                &&& after[i].mtime == after[j].mtime ==> from[i] < from[j]
            },
            Keep::Oldest => {
                &&& after[i].mtime <= after[j].mtime
                &&& after[i].mtime == after[j].mtime ==> from[i] < from[j]
            },
        }
}

spec fn taken_from(group: Seq<FileEntry>, keep: Keep) -> Seq<int> {
    choose|from: Seq<int>| #[trigger]
        arranges(group, stable_sort(group, keep_order(keep)), keep_order(keep), from)
}

/// Presenting only rearranges: the groups presented are the groups given, each once, with each file
/// of each group once. In a group the files stand by what is to be kept, largest, newest or oldest
/// first, and the groups stand by the paths of their first files; ties are left as they were.
pub proof fn law_presenting_rearranges(groups: Seq<Seq<FileEntry>>, keep: Keep) -> (r: (
    Seq<int>,
    Seq<Seq<int>>,
))
    ensures
        presented(groups, keep).len() == groups.len(),
        r.0.len() == groups.len(),
        r.1.len() == groups.len(),
        forall|g: int|
            0 <= g < groups.len() ==> 0 <= #[trigger] r.0[g] < groups.len() && group_arranged(
                groups[r.0[g]],
                presented(groups, keep)[g],
                keep,
                r.1[g],
            ),
        forall|g: int, h: int| 0 <= g < h < groups.len() ==> #[trigger] r.0[g] != #[trigger] r.0[h],
        forall|g: int, h: int|
            0 <= g < h < groups.len() ==> {
                let first = (#[trigger] presented(groups, keep)[g])[0].display_path@;
                let second = (#[trigger] presented(groups, keep)[h])[0].display_path@;
                text_le(first, second) && (text_le(second, first) ==> r.0[g] < r.0[h])
            },
{
    let middle = groups.map_values(|g: Seq<FileEntry>| stable_sort(g, keep_order(keep)));
    let shown = presented(groups, keep);
    law_presenting_keeps_every_file(groups, keep);
    let from = choose|from: Seq<int>| #[trigger] arranges(middle, shown, first_path_order(), from);
    let inner = Seq::new(groups.len(), |g: int| taken_from(groups[from[g]], keep));
    assert forall|g: int| 0 <= g < groups.len() implies 0 <= #[trigger] from[g] < groups.len()
        && group_arranged(groups[from[g]], shown[g], keep, inner[g]) by {
        let group = groups[from[g]];
        assert(stably_sorted(groups[from[g]], middle[from[g]], keep_order(keep)));
        assert(shown[g] == stable_sort(group, keep_order(keep)));
        assert(arranges(group, shown[g], keep_order(keep), inner[g]));
        assert forall|i: int, j: int| 0 <= i < j < shown[g].len() implies keep_order(keep)(
            #[trigger] shown[g][i],
            #[trigger] shown[g][j],
        ) && (keep_order(keep)(shown[g][j], shown[g][i]) ==> inner[g][i] < inner[g][j]) by {
            assert(inner[g].len() == shown[g].len());
        }
    }
    assert forall|g: int, h: int| 0 <= g < h < groups.len() implies {
        let first = (#[trigger] shown[g])[0].display_path@;
        let second = (#[trigger] shown[h])[0].display_path@;
        text_le(first, second) && (text_le(second, first) ==> from[g] < from[h])
    } by {
        assert(first_path_order()(shown[g], shown[h]));
    }
    (from, inner)
}

/// In every group as it is presented the first file is the largest, the newest or the oldest, as was
/// asked.
pub proof fn law_best_file_comes_first(
    groups: Seq<Seq<FileEntry>>,
    strategy: Seq<char>,
    g: int,
    i: int,
)
    requires
        0 <= g < presented(groups, keep_of(strategy)).len(),
        0 <= i < presented(groups, keep_of(strategy))[g].len(),
    ensures
        ({
            let group = presented(groups, keep_of(strategy))[g];
            if strategy == "newest"@ {
                group[0].mtime >= group[i].mtime
            } else if strategy == "oldest"@ {
                group[0].mtime <= group[i].mtime
            } else {
                group[0].size >= group[i].size
            }
        }),
        forall|f: FileEntry| #[trigger]
            presented(groups, Keep::Newest)[g].contains(f) ==> presented(
                groups,
                Keep::Newest,
            )[g][0].mtime >= f.mtime,
        forall|f: FileEntry| #[trigger]
            presented(groups, Keep::Oldest)[g].contains(f) ==> presented(
                groups,
                Keep::Oldest,
            )[g][0].mtime <= f.mtime,
        forall|f: FileEntry| #[trigger]
            presented(groups, Keep::Largest)[g].contains(f) ==> presented(
                groups,
                Keep::Largest,
            )[g][0].size >= f.size,
{
    reveal_strlit("newest");
    reveal_strlit("oldest");
    assert("newest"@[0] != "oldest"@[0]);
    let asked = law_presenting_rearranges(groups, keep_of(strategy));
    let newest = law_presenting_rearranges(groups, Keep::Newest);
    let oldest = law_presenting_rearranges(groups, Keep::Oldest);
    let largest = law_presenting_rearranges(groups, Keep::Largest);
    let n = newest.0[g];
    let o = oldest.0[g];
    let l = largest.0[g];
    let a = asked.0[g];
    assert(group_arranged(groups[n], presented(groups, Keep::Newest)[g], Keep::Newest, newest.1[g]));
    assert(group_arranged(groups[o], presented(groups, Keep::Oldest)[g], Keep::Oldest, oldest.1[g]));
    assert(group_arranged(
        groups[l],
        presented(groups, Keep::Largest)[g],
        Keep::Largest,
        largest.1[g],
    ));
    assert(group_arranged(
        groups[a],
        presented(groups, keep_of(strategy))[g],
        keep_of(strategy),
        asked.1[g],
    ));
    let group = presented(groups, keep_of(strategy))[g];
    if i > 0 {
        assert(asked.1[g][0] != asked.1[g][i]);
        assert(group[0] == group[0] && group[i] == group[i]);
    }
    assert forall|f: FileEntry| #[trigger]
        presented(groups, Keep::Newest)[g].contains(f) implies presented(
        groups,
        Keep::Newest,
    )[g][0].mtime >= f.mtime by {
        let list = presented(groups, Keep::Newest)[g];
        let k = choose|k: int| 0 <= k < list.len() && list[k] == f;
        if k > 0 {
            assert(list[0].mtime >= list[k].mtime);
        }
    }
    assert forall|f: FileEntry| #[trigger]
        presented(groups, Keep::Oldest)[g].contains(f) implies presented(
        groups,
        Keep::Oldest,
    )[g][0].mtime <= f.mtime by {
        let list = presented(groups, Keep::Oldest)[g];
        let k = choose|k: int| 0 <= k < list.len() && list[k] == f;
        if k > 0 {
            assert(list[0].mtime <= list[k].mtime);
        }
    }
    assert forall|f: FileEntry| #[trigger]
        presented(groups, Keep::Largest)[g].contains(f) implies presented(
        groups,
        Keep::Largest,
    )[g][0].size >= f.size by {
        let list = presented(groups, Keep::Largest)[g];
        let k = choose|k: int| 0 <= k < list.len() && list[k] == f;
        if k > 0 {
            assert(list[0].size >= list[k].size);
        }
    }
}

/// Presenting leaves files that belong together together: the groups presented put the same positions
/// together.
pub proof fn law_presenting_keeps_groups_together(
    items: Seq<FileEntry>,
    same: spec_fn(int, int) -> bool,
    groups: Seq<Seq<FileEntry>>,
    places: Seq<Seq<int>>,
    keep: Keep,
)
    requires
        splits(items, same, groups, places),
    ensures
        exists|shown: Seq<Seq<int>>| #[trigger] splits(items, same, presented(groups, keep), shown),
{
    let (from, inner) = law_presenting_rearranges(groups, keep);
    let after = presented(groups, keep);
    let shown = Seq::new(
        groups.len(),
        |g: int| Seq::new(after[g].len(), |i: int| places[from[g]][inner[g][i]]),
    );
    assert forall|g: int| 0 <= g < after.len() implies (#[trigger] after[g]).len()
        == groups[from[g]].len() && 0 <= from[g] < groups.len() by {
        assert(group_arranged(groups[from[g]], after[g], keep, inner[g]));
    }
    assert forall|g: int, a: int|
        0 <= g < after.len() && 0 <= a < after[g].len() implies 0 <= #[trigger] shown[g][a]
        < items.len() && after[g][a] == items[shown[g][a]] by {
        assert(group_arranged(groups[from[g]], after[g], keep, inner[g]));
        let k = inner[g][a];
        assert(0 <= places[from[g]][k] < items.len());
    }
    assert forall|g: int, a: int, h: int, b: int|
        0 <= g < after.len() && 0 <= a < after[g].len() && 0 <= h < after.len() && 0 <= b
            < after[h].len() && (g != h || a != b) implies #[trigger] shown[g][a]
        != #[trigger] shown[h][b] by {
        assert(group_arranged(groups[from[g]], after[g], keep, inner[g]));
        assert(group_arranged(groups[from[h]], after[h], keep, inner[h]));
        if g < h {
            assert(from[g] != from[h]);
        } else if h < g {
            assert(from[h] != from[g]);
        } else if a < b {
            assert(inner[g][a] != inner[g][b]);
        } else {
            assert(inner[g][b] != inner[g][a]);
        }
        assert(places[from[g]][inner[g][a]] != places[from[h]][inner[h][b]]);
    }
    assert forall|g: int, a: int, b: int|
        0 <= g < after.len() && 0 <= a < after[g].len() && 0 <= b < after[g].len() && a
            != b implies same(#[trigger] shown[g][a], #[trigger] shown[g][b]) by {
        assert(group_arranged(groups[from[g]], after[g], keep, inner[g]));
        if a < b {
            assert(inner[g][a] != inner[g][b]);
        } else {
            assert(inner[g][b] != inner[g][a]);
        }
        assert(same(places[from[g]][inner[g][a]], places[from[g]][inner[g][b]]));
    }
    assert forall|p: int, q: int|
        0 <= p < items.len() && 0 <= q < items.len() && p != q && #[trigger] same(
            p,
            q,
        ) implies exists|g: int|
        0 <= g < after.len() && (#[trigger] shown[g]).contains(p) && shown[g].contains(q) by {
        let h = choose|h: int|
            0 <= h < groups.len() && (#[trigger] places[h]).contains(p) && places[h].contains(q);
        assert(groups[h].len() == places[h].len());
        lemma_onto(from, h);
        let g = choose|g: int| 0 <= g < from.len() && from[g] == h;
        assert(group_arranged(groups[from[g]], after[g], keep, inner[g]));
        let a = choose|a: int| 0 <= a < places[h].len() && places[h][a] == p;
        let b = choose|b: int| 0 <= b < places[h].len() && places[h][b] == q;
        lemma_onto(inner[g], a);
        lemma_onto(inner[g], b);
        let x = choose|x: int| 0 <= x < inner[g].len() && inner[g][x] == a;
        let y = choose|y: int| 0 <= y < inner[g].len() && inner[g][y] == b;
        assert(shown[g][x] == p && shown[g][y] == q);
        assert(shown[g].contains(p));
    }
    assert(splits(items, same, after, shown));
}

} // verus!
