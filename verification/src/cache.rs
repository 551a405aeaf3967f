//! The cache of perceptual hashes, which outlives a run.

use std::collections::HashMap;
use vstd::hash_map::StringHashMap;
use vstd::prelude::*;
use crate::entry::{EntryView, FileEntry};
use crate::text::{decimal, lemma_decimal_digits, lemma_decimal_injective, push_decimal};

verus! {

/// `Error` of the crate `serde_json`: why a text is not the JSON that was asked for.
#[verifier::external_type_specification]
#[verifier::external_body]
pub struct ExJsonError(serde_json::Error);

/// What a JSON text says that is an object of unsigned 64-bit numbers; nothing where it is not
/// one. A name given twice has its last number.
pub uninterp spec fn json_numbers(text: Seq<char>) -> Option<Map<Seq<char>, u64>>;

/// The map that a list of names and numbers stands for. A name given twice has its last number.
pub open spec fn pairs_map(pairs: Seq<(String, u64)>) -> Map<Seq<char>, u64>
    decreases pairs.len(),
{
    if pairs.len() == 0 {
        Map::empty()
    } else {
        pairs_map(pairs.drop_last()).insert(pairs.last().0@, pairs.last().1)
    }
}

/// `from_str` of the crate `serde_json`, into a map from strings to numbers, handed out as a list
/// in no particular order. Which texts it takes, and what they say, is left to the crate.
#[verifier::external_body]
fn json_to_pairs(text: &str) -> (r: Result<Vec<(String, u64)>, serde_json::Error>)
    ensures
        match r {
            Ok(pairs) => json_numbers(text@) == Some(pairs_map(pairs@)),
            Err(_) => json_numbers(text@) is None,
        },
{
    let map: HashMap<String, u64> = serde_json::from_str(text)?;
    Ok(map.into_iter().collect())
}

/// `to_string` of the crate `serde_json`, of a map from strings to numbers. A map with string keys
/// and number values can always be written, and `from_str` reads back what was written. The order
/// in which the names are written is left open.
#[verifier::external_body]
fn pairs_to_json(pairs: Vec<(String, u64)>) -> (r: Result<String, serde_json::Error>)
    ensures
        r is Ok,
        json_numbers(r->Ok_0@) == Some(pairs_map(pairs@)),
{
    let map: HashMap<String, u64> = pairs.into_iter().collect();
    serde_json::to_string(&map)
}

/// The name under which the hash of a file is kept: its path, size and time of change.
pub open spec fn cache_key(entry: EntryView) -> Seq<char> {
    entry.display_path + seq![':'] + decimal(entry.size as nat) + seq![':'] + decimal(
        entry.mtime as nat,
    )
}

/// The cache that a saved text stands for: empty where there is none or it cannot be read.
pub open spec fn loaded(saved: Option<Seq<char>>) -> Map<Seq<char>, u64> {
    match saved {
        Some(text) => match json_numbers(text) {
            Some(entries) => entries,
            None => Map::empty(),
        },
        None => Map::empty(),
    }
}

/// The hash that a cache holds for a file.
pub open spec fn cached(entries: Map<Seq<char>, u64>, entry: EntryView) -> Option<u64> {
    if entries.contains_key(cache_key(entry)) {
        Some(entries[cache_key(entry)])
    } else {
        None
    }
}

/// A cache with the hash of one more file.
pub open spec fn with_hash(
    entries: Map<Seq<char>, u64>,
    entry: EntryView,
    hash: u64,
) -> Map<Seq<char>, u64> {
    entries.insert(cache_key(entry), hash)
}

/// Perceptual hashes by file. The view maps the name of a file in the cache to its hash.
pub struct HashCache {
    entries: StringHashMap<u64>,
    keys: Vec<String>,
}

impl View for HashCache {
    type V = Map<Seq<char>, u64>;

    closed spec fn view(&self) -> Map<Seq<char>, u64> {
        self.entries@
    }
}

impl HashCache {
    /// Every name is listed, and listed once.
    pub closed spec fn wf(&self) -> bool {
        &&& forall|i: int, j: int|
            0 <= i < j < self.keys@.len() ==> (#[trigger] self.keys@[i])@ != (
            #[trigger] self.keys@[j])@
        &&& forall|i: int|
            0 <= i < self.keys@.len() ==> self.entries@.contains_key((#[trigger] self.keys@[i])@)
        &&& forall|k: Seq<char>| #[trigger]
            self.entries@.contains_key(k) ==> exists|i: int|
                0 <= i < self.keys@.len() && (#[trigger] self.keys@[i])@ == k
    }

    fn empty() -> (cache: Self)
        ensures
            cache.wf(),
            cache@ == Map::<Seq<char>, u64>::empty(),
    {
        HashCache { entries: StringHashMap::new(), keys: Vec::new() }
    }

    fn put(&mut self, key: String, hash: u64)
        requires
            old(self).wf(),
        ensures
            final(self).wf(),
            final(self)@ == old(self)@.insert(key@, hash),
    {
        if !self.entries.contains_key(key.as_str()) {
            self.keys.push(key.clone());
            assert(self.keys@[self.keys@.len() - 1]@ == key@);
        }
        self.entries.insert(key, hash);
        proof {
            let n = old(self).keys@.len() as int;
            assert forall|k: Seq<char>| #[trigger] self.entries@.contains_key(k) implies exists|i: int|
                0 <= i < self.keys@.len() && (#[trigger] self.keys@[i])@ == k by {
                if k == key@ && !old(self).entries@.contains_key(k) {
                    assert(self.keys@[n]@ == k);
                } else {
                    assert(old(self).entries@.contains_key(k));
                    let i = choose|i: int|
                        0 <= i < old(self).keys@.len() && (#[trigger] old(self).keys@[i])@ == k;
                    assert(self.keys@[i]@ == k);
                }
            }
            assert forall|i: int| 0 <= i < self.keys@.len() implies self.entries@.contains_key(
                (#[trigger] self.keys@[i])@,
            ) by {
                if i < n {
                    assert(self.keys@[i] == old(self).keys@[i]);
                }
            }
            assert forall|i: int, j: int| 0 <= i < j < self.keys@.len() implies (
            #[trigger] self.keys@[i])@ != (#[trigger] self.keys@[j])@ by {
                assert(self.keys@[i] == old(self).keys@[i]);
                if j < n {
                    assert(self.keys@[j] == old(self).keys@[j]);
                } else {
                    assert(old(self).entries@.contains_key(old(self).keys@[i]@));
                }
            }
        }
    }

    /// The cache with the given hashes: empty where there are none to be had. Of a name that
    /// is listed twice the last hash is kept.
    pub fn from_pairs(pairs: Option<Vec<(String, u64)>>) -> (cache: Self)
        ensures
            cache.wf(),
            cache@ == match pairs {
                Some(list) => pairs_map(list@),
                None => Map::empty(),
            },
    {
        let mut cache = HashCache::empty();
        if let Some(list) = pairs {
            let ghost all = list@;
            assert(all.take(0) =~= Seq::<(String, u64)>::empty());
            for pair in it: list
                invariant
                    it.seq() == all,
                    cache.wf(),
                    cache@ == pairs_map(all.take(it.index())),
            {
                let ghost k = it.index();
                assert(all.take(k + 1).drop_last() =~= all.take(k));
                assert(all.take(k + 1).last() == pair);
                cache.put(pair.0, pair.1);
            }
            assert(all.take(all.len() as int) =~= all);
        }
        cache
    }

    /// The cache that was saved as `saved`: empty where nothing was saved or the text cannot be
    /// read.
    pub fn load(saved: Option<&str>) -> (cache: Self)
        ensures
            cache.wf(),
            cache@ == loaded(
                match saved {
                    Some(text) => Some(text@),
                    None => None,
                },
            ),
    {
        let pairs = match saved {
            Some(text) => match json_to_pairs(text) {
                Ok(pairs) => Some(pairs),
                Err(_) => None,
            },
            None => None,
        };
        HashCache::from_pairs(pairs)
    }

    /// The name under which the hash of a file is kept.
    pub fn cache_key(entry: &FileEntry) -> (key: String)
        ensures
            key@ == cache_key(entry@),
    {
        let mut key = entry.display_path.clone();
        key.push(':');
        push_decimal(&mut key, entry.size);
        key.push(':');
        push_decimal(&mut key, entry.mtime);
        assert(key@ =~= cache_key(entry@));
        key
    }

    /// The hash that is kept for a file.
    pub fn get(&self, entry: &FileEntry) -> (r: Option<u64>)
        ensures
            r == cached(self@, entry@),
    {
        let key = HashCache::cache_key(entry);
        match self.entries.get(key.as_str()) {
            Some(hash) => Some(*hash),
            None => None,
        }
    }

    /// Keeps the hash of a file, in place of an older one.
    pub fn insert(&mut self, entry: &FileEntry, hash: u64)
        requires
            old(self).wf(),
        ensures
            final(self).wf(),
            final(self)@ == with_hash(old(self)@, entry@, hash),
    {
        let key = HashCache::cache_key(entry);
        self.put(key, hash);
    }

    /// How many hashes are kept.
    pub fn len(&self) -> (n: usize)
        ensures
            n == self@.len(),
    {
        self.entries.len()
    }

    /// The text to save, from which the cache can be loaded again.
    pub fn save(&self) -> (r: Option<String>)
        requires
            self.wf(),
        ensures
            r matches Some(text) && loaded(Some(text@)) == self@,
    {
        let mut pairs: Vec<(String, u64)> = Vec::new();
        let mut i: usize = 0;
        while i < self.keys.len()
            invariant
                self.wf(),
                i <= self.keys@.len(),
                pairs@.len() == i,
                forall|k: Seq<char>| #[trigger]
                    pairs_map(pairs@).contains_key(k) <==> exists|j: int|
                        0 <= j < i && (#[trigger] self.keys@[j])@ == k,
                forall|k: Seq<char>| #[trigger]
                    pairs_map(pairs@).contains_key(k) ==> self@.contains_key(k) && pairs_map(
                        pairs@,
                    )[k] == self@[k],
            decreases self.keys@.len() - i,
        {
            let key = self.keys[i].clone();
            assert(self.entries@.contains_key(self.keys@[i as int]@));
            let hash = match self.entries.get(key.as_str()) {
                Some(hash) => *hash,
                None => 0,
            };
            let ghost before = pairs@;
            pairs.push((key, hash));
            proof {
                assert(pairs@.drop_last() =~= before);
                let k0 = self.keys@[i as int]@;
                assert(pairs_map(pairs@) == pairs_map(before).insert(k0, hash));
                assert forall|k: Seq<char>| #[trigger]
                    pairs_map(pairs@).contains_key(k) <==> exists|j: int|
                        0 <= j < i + 1 && (#[trigger] self.keys@[j])@ == k by {
                    if k != k0 && pairs_map(before).contains_key(k) {
                        let j = choose|j: int| 0 <= j < i && (#[trigger] self.keys@[j])@ == k;
                        assert(self.keys@[j]@ == k);
                    }
                    if exists|j: int| 0 <= j < i + 1 && (#[trigger] self.keys@[j])@ == k {
                        let j = choose|j: int| 0 <= j < i + 1 && (#[trigger] self.keys@[j])@ == k;
                        if j < i {
                            assert(pairs_map(before).contains_key(k));
                        }
                    }
                }
            }
            i += 1;
        }
        proof {
            assert(pairs_map(pairs@) =~= self@) by {
                assert forall|k: Seq<char>| #[trigger] self@.contains_key(k) implies pairs_map(
                    pairs@,
                ).contains_key(k) by {
                    assert(self.entries@.contains_key(k));
                }
            }
        }
        match pairs_to_json(pairs) {
            Ok(text) => Some(text),
            Err(_) => None,
        }
    }
}

proof fn lemma_split_at_colon(x: Seq<char>, d: Seq<char>, y: Seq<char>, e: Seq<char>)
    requires
        x + seq![':'] + d == y + seq![':'] + e,
        forall|i: int| 0 <= i < d.len() ==> #[trigger] d[i] != ':',
        forall|i: int| 0 <= i < e.len() ==> #[trigger] e[i] != ':',
    ensures
        x == y,
        d == e,
{
    let a = x + seq![':'] + d;
    let b = y + seq![':'] + e;
    assert(a.len() == x.len() + 1 + d.len());
    assert(b.len() == y.len() + 1 + e.len());
    assert(a[x.len() as int] == ':');
    assert(b[y.len() as int] == ':');
    if x.len() < y.len() {
        assert(a[y.len() as int] == d[y.len() - x.len() - 1]);
    } else if y.len() < x.len() {
        assert(b[x.len() as int] == e[x.len() - y.len() - 1]);
    }
    assert(x =~= a.take(x.len() as int));
    assert(y =~= b.take(y.len() as int));
    assert(d =~= a.skip((x.len() + 1) as int));
    assert(e =~= b.skip((y.len() + 1) as int));
}

/// Two files have one name in the cache only if their paths, sizes and times of change are all
/// equal: a file that has been changed is not found under its old hash.
pub proof fn law_cache_key_tells_versions_apart(a: EntryView, b: EntryView)
    ensures
        cache_key(a) == cache_key(b) <==> a.display_path == b.display_path && a.size == b.size
            && a.mtime == b.mtime,
{
    if cache_key(a) == cache_key(b) {
        lemma_decimal_digits(a.size as nat);
        lemma_decimal_digits(b.size as nat);
        lemma_decimal_digits(a.mtime as nat);
        lemma_decimal_digits(b.mtime as nat);
        lemma_split_at_colon(
            a.display_path + seq![':'] + decimal(a.size as nat),
            decimal(a.mtime as nat),
            b.display_path + seq![':'] + decimal(b.size as nat),
            decimal(b.mtime as nat),
        );
        lemma_split_at_colon(
            a.display_path,
            decimal(a.size as nat),
            b.display_path,
            decimal(b.size as nat),
        );
        lemma_decimal_injective(a.size as nat, b.size as nat);
        lemma_decimal_injective(a.mtime as nat, b.mtime as nat);
    }
}

/// A hash that has been kept is found again for its file, and the hashes of all other files are
/// found as before.
pub proof fn law_kept_hash_is_found(
    entries: Map<Seq<char>, u64>,
    kept: EntryView,
    hash: u64,
    asked: EntryView,
)
    ensures
        cached(with_hash(entries, kept, hash), asked) == if kept.display_path == asked.display_path
            && kept.size == asked.size && kept.mtime == asked.mtime {
            Some(hash)
        } else {
            cached(entries, asked)
        },
{
    law_cache_key_tells_versions_apart(kept, asked);
}

} // verus!
