//! Groups of files with the same content.

use std::collections::HashMap;
use vstd::hash_map::StringHashMap;
use vstd::prelude::*;
use crate::digest::{hex, law_hex_injective, sha256};
use crate::entry::FileEntry;
use crate::grouping::{
    bucket, contents, law_groups_are_the_repeated_keys, lemma_groups_relabel, pick, repeated_groups, together,
};

verus! {

broadcast use vstd::std_specs::hash::group_hash_axioms;

/// The size of each file, as the key that it is first grouped by.
pub open spec fn size_keys(files: Seq<FileEntry>) -> Seq<Option<u64>> {
    files.map_values(|f: FileEntry| Some(f.size))
}

/// What each digest says; a file that could not be read has none.
pub open spec fn digest_keys(digests: Seq<Option<String>>) -> Seq<Option<Seq<char>>> {
    digests.map_values(
        |d: Option<String>|
            match d {
                Some(text) => Some(text@),
                None => None,
            },
    )
}

/// How many files could not be read.
pub open spec fn unread(digests: Seq<Option<String>>) -> nat
    decreases digests.len(),
{
    if digests.len() == 0 {
        0
    } else {
        unread(digests.drop_last()) + if digests.last() is None {
            1nat
        } else {
            0nat
        }
    }
}

/// Lists put one behind the other.
pub open spec fn concat<T>(lists: Seq<Seq<T>>) -> Seq<T>
    decreases lists.len(),
{
    if lists.len() == 0 {
        Seq::empty()
    } else {
        concat(lists.drop_last()) + lists.last()
    }
}

spec fn labelled(file: FileEntry, label: Option<usize>, seen: Map<u64, usize>) -> bool {
    seen.contains_key(file.size) && label == Some(seen[file.size])
}

/// The groups of two or more files of one size: only those can have the same content.
pub fn same_size_groups(files: Vec<FileEntry>) -> (groups: Vec<Vec<FileEntry>>)
    ensures
        contents(groups@) == pick(files@, repeated_groups(size_keys(files@))),
{
    let n = files.len();
    let mut seen: HashMap<u64, usize> = HashMap::new();
    let mut labels: Vec<Option<usize>> = Vec::new();
    let mut next: usize = 0;
    let mut i: usize = 0;
    while i < n
        invariant
            n == files@.len(),
            i <= n,
            next <= i,
            labels@.len() == i,
            forall|j: int| 0 <= j < i ==> labelled(files@[j], #[trigger] labels@[j], seen@),
            forall|s: u64| #[trigger] seen@.contains_key(s) ==> seen@[s] < next,
            forall|s: u64, t: u64|
                #[trigger] seen@.contains_key(s) && #[trigger] seen@.contains_key(t) && seen@[s]
                    == seen@[t] ==> s == t,
        decreases n - i,
    {
        let size = files[i].size;
        let ghost before = labels@;
        let ghost known = seen@;
        let label = match seen.get(&size) {
            Some(label) => *label,
            None => {
                let label = next;
                seen.insert(size, label);
                next += 1;
                label
            },
        };
        labels.push(Some(label));
        i += 1;
        assert forall|j: int| 0 <= j < i implies labelled(
            files@[j],
            #[trigger] labels@[j],
            seen@,
        ) by {
            if j < i - 1 {
                assert(labelled(files@[j], before[j], known));
            }
        }
    }
    proof {
        lemma_groups_relabel(labels@, size_keys(files@));
    }
    bucket(files, &labels)
}

/// Files put one behind the other.
pub(crate) fn flatten(groups: Vec<Vec<FileEntry>>) -> (files: Vec<FileEntry>)
    ensures
        files@ == concat(contents(groups@)),
{
    let mut files: Vec<FileEntry> = Vec::new();
    let ghost all = groups@;
    assert(contents(all.take(0)) =~= Seq::<Seq<FileEntry>>::empty());
    for group in it: groups
        invariant
            it.seq() == all,
            files@ == concat(contents(all.take(it.index()))),
    {
        let ghost k = it.index();
        proof {
            assert(contents(all.take(k + 1)).drop_last() =~= contents(all.take(k)));
            assert(contents(all.take(k + 1)).last() == group@);
        }
        let mut group = group;
        files.append(&mut group);
    }
    assert(all.take(all.len() as int) =~= all);
    files
}

/// The groups of two or more files with one digest, given the candidates and the digest of each of
/// them, one group of candidates behind the other; and how many of them could not be read.
pub fn find_duplicates(candidates: Vec<Vec<FileEntry>>, digests: &Vec<Option<String>>) -> (r: (
    Vec<Vec<FileEntry>>,
    usize,
))
    requires
        digests@.len() == concat(contents(candidates@)).len(),
    ensures
        contents(r.0@) == pick(
            concat(contents(candidates@)),
            repeated_groups(digest_keys(digests@)),
        ),
        r.1 == unread(digests@),
{
    let files = flatten(candidates);
    let n = digests.len();
    let mut seen: StringHashMap<usize> = StringHashMap::new();
    let mut labels: Vec<Option<usize>> = Vec::new();
    let mut next: usize = 0;
    let mut errors: usize = 0;
    let mut i: usize = 0;
    let ghost keys = digest_keys(digests@);
    assert(digests@.take(0) =~= Seq::<Option<String>>::empty());
    while i < n
        invariant
            n == digests@.len(),
            keys == digest_keys(digests@),
            i <= n,
            next <= i,
            errors <= i,
            errors == unread(digests@.take(i as int)),
            labels@.len() == i,
            forall|j: int| 0 <= j < i ==> (#[trigger] labels@[j] is Some <==> keys[j] is Some),
            forall|j: int|
                0 <= j < i && (#[trigger] labels@[j]) is Some ==> seen@.contains_key(keys[j]->0)
                    && labels@[j] == Some(seen@[keys[j]->0]),
            forall|s: Seq<char>| #[trigger] seen@.contains_key(s) ==> seen@[s] < next,
            forall|s: Seq<char>, t: Seq<char>|
                #[trigger] seen@.contains_key(s) && #[trigger] seen@.contains_key(t) && seen@[s]
                    == seen@[t] ==> s == t,
        decreases n - i,
    {
        assert(digests@.take(i + 1).drop_last() =~= digests@.take(i as int));
        match &digests[i] {
            Some(digest) => {
                let label = match seen.get(digest.as_str()) {
                    Some(label) => *label,
                    None => {
                        let label = next;
                        seen.insert(digest.clone(), label);
                        next += 1;
                        label
                    },
                };
                labels.push(Some(label));
            },
            None => {
                labels.push(None);
                errors += 1;
            },
        }
        i += 1;
    }
    proof {
        assert(digests@.take(n as int) =~= digests@);
        lemma_groups_relabel(labels@, keys);
    }
    (bucket(files, &labels), errors)
}

/// A file is hashed exactly when another file has its size: two files are together before hashing
/// if and only if their sizes are equal.
pub proof fn law_candidates_have_equal_sizes(files: Seq<FileEntry>, i: int, j: int)
    requires
        0 <= i < files.len(),
        0 <= j < files.len(),
        i != j,
    ensures
        together(repeated_groups(size_keys(files)), i, j) <==> files[i].size == files[j].size,
{
    law_groups_are_the_repeated_keys(size_keys(files));
    assert(together(repeated_groups(size_keys(files)), i, j) <==> size_keys(files)[i]
        == size_keys(files)[j]);
}

/// Two files are reported as duplicates of each other exactly when both could be read and their
/// digests are equal.
pub proof fn law_duplicates_have_equal_digests(digests: Seq<Option<String>>, i: int, j: int)
    requires
        0 <= i < digests.len(),
        0 <= j < digests.len(),
        i != j,
    ensures
        together(repeated_groups(digest_keys(digests)), i, j) <==> digests[i] is Some
            && digests[j] is Some && digests[i]->0@ == digests[j]->0@,
{
    law_groups_are_the_repeated_keys(digest_keys(digests));
    assert(together(repeated_groups(digest_keys(digests)), i, j) <==> digest_keys(
        digests,
    )[i] is Some && digest_keys(digests)[i] == digest_keys(digests)[j]);
}

/// Two files that could be read are taken for duplicates just where the SHA-256 digests of their
/// bytes are equal; so files with the same bytes always are.
pub proof fn law_duplicates_are_the_files_with_equal_digests(
    digests: Seq<Option<String>>,
    i: int,
    j: int,
    first: Seq<u8>,
    second: Seq<u8>,
)
    requires
        0 <= i < digests.len(),
        0 <= j < digests.len(),
        i != j,
        digests[i] is Some,
        digests[i]->0@ == hex(sha256(first)),
        digests[j] is Some,
        digests[j]->0@ == hex(sha256(second)),
    ensures
        together(repeated_groups(digest_keys(digests)), i, j) <==> sha256(first) == sha256(second),
        first == second ==> together(repeated_groups(digest_keys(digests)), i, j),
{
    law_duplicates_have_equal_digests(digests, i, j);
    if hex(sha256(first)) == hex(sha256(second)) {
        law_hex_injective(sha256(first), sha256(second));
    }
}

proof fn lemma_concat_at<T>(lists: Seq<Seq<T>>, g: int, a: int)
    requires
        0 <= g < lists.len(),
        0 <= a < lists[g].len(),
    ensures
        concat(lists.take(g)).len() + a < concat(lists).len(),
        concat(lists)[concat(lists.take(g)).len() + a] == lists[g][a],
    decreases lists.len(),
{
    if g == lists.len() - 1 {
        assert(lists.take(g) =~= lists.drop_last());
    } else {
        lemma_concat_at(lists.drop_last(), g, a);
        assert(lists.drop_last().take(g) =~= lists.take(g));
    }
}

/// Two files of the same size and with the same digest come out in a common group, whatever else
/// was scanned.
pub proof fn law_equal_files_share_a_group(
    files: Seq<FileEntry>,
    digests: Seq<Option<String>>,
    i: int,
    j: int,
    digest: Seq<char>,
)
    requires
        0 <= i < files.len(),
        0 <= j < files.len(),
        i != j,
        files[i].size == files[j].size,
        digests.len() == concat(pick(files, repeated_groups(size_keys(files)))).len(),
        forall|p: int|
            #![trigger digests[p]]
            0 <= p < digests.len() && (concat(pick(files, repeated_groups(size_keys(files))))[p]
                == files[i] || concat(pick(files, repeated_groups(size_keys(files))))[p]
                == files[j]) ==> digests[p] is Some && digests[p]->0@ == digest,
    ensures
        exists|g: int|
            0 <= g < repeated_groups(digest_keys(digests)).len() && (#[trigger] pick(
                concat(pick(files, repeated_groups(size_keys(files)))),
                repeated_groups(digest_keys(digests)),
            )[g]).contains(files[i]) && pick(
                concat(pick(files, repeated_groups(size_keys(files)))),
                repeated_groups(digest_keys(digests)),
            )[g].contains(files[j]),
{
    let places = repeated_groups(size_keys(files));
    let candidates = pick(files, places);
    let flat = concat(candidates);
    let groups = repeated_groups(digest_keys(digests));
    law_candidates_have_equal_sizes(files, i, j);
    let c = choose|c: int|
        0 <= c < places.len() && #[trigger] places[c].contains(i) && places[c].contains(j);
    let a = choose|a: int| 0 <= a < places[c].len() && places[c][a] == i;
    let b = choose|b: int| 0 <= b < places[c].len() && places[c][b] == j;
    assert(candidates[c][a] == files[i]);
    assert(candidates[c][b] == files[j]);
    lemma_concat_at(candidates, c, a);
    lemma_concat_at(candidates, c, b);
    let p = concat(candidates.take(c)).len() + a;
    let q = concat(candidates.take(c)).len() + b;
    assert(digests[p] is Some && digests[q] is Some);
    law_duplicates_have_equal_digests(digests, p, q);
    let g = choose|g: int|
        0 <= g < groups.len() && #[trigger] groups[g].contains(p) && groups[g].contains(q);
    let x = choose|x: int| 0 <= x < groups[g].len() && groups[g][x] == p;
    let y = choose|y: int| 0 <= y < groups[g].len() && groups[g][y] == q;
    assert(pick(flat, groups)[g][x] == files[i]);
    assert(pick(flat, groups)[g][y] == files[j]);
}

} // verus!
