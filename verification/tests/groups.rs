use dedup_pictures::cache::HashCache;
use dedup_pictures::duplicates::{find_duplicates, same_size_groups};
use dedup_pictures::entry::{FileEntry, FileSource};
use dedup_pictures::grouping::bucket;
use dedup_pictures::keep::{parse_keep, sort_dup_groups, Keep};
use dedup_pictures::report::compute_totals;
use dedup_pictures::similar::{find_similar, plan_hashing, record_hashes, DEFAULT_THRESHOLD};
use dedup_pictures::union_find::UnionFind;
use std::path::PathBuf;

fn entry(path: &str, size: u64, mtime: u64) -> FileEntry {
    FileEntry {
        display_path: path.to_string(),
        size,
        mtime,
        ext: "jpg".to_string(),
        source: FileSource::Local(PathBuf::from(path)),
    }
}

fn paths(groups: &[Vec<FileEntry>]) -> Vec<Vec<String>> {
    groups.iter().map(|g| g.iter().map(|e| e.display_path.clone()).collect()).collect()
}

#[test]
fn sets_start_alone() {
    let mut sets = UnionFind::new(3);
    for x in 0..3 {
        assert_eq!(sets.find(x), x);
    }
}

#[test]
fn union_joins_two_sets_and_no_others() {
    let mut sets = UnionFind::new(6);
    sets.union(0, 1);
    sets.union(2, 3);
    assert_eq!(sets.find(0), sets.find(1));
    assert_ne!(sets.find(0), sets.find(2));
    sets.union(1, 3);
    assert_eq!(sets.find(0), sets.find(2));
    assert_eq!(sets.find(4), 4);
    sets.union(0, 2);
    assert_eq!(sets.find(5), 5);
}

#[test]
fn union_keeps_the_first_root_on_a_tie_and_the_higher_one_else() {
    let mut sets = UnionFind::new(4);
    sets.union(2, 1);
    assert_eq!(sets.find(1), 2);
    sets.union(3, 2);
    assert_eq!(sets.find(3), 2);
    sets.union(0, 0);
    assert_eq!(sets.find(0), 0);
}

#[test]
fn bucket_keeps_repeated_labels_in_order() {
    let groups = bucket(vec!['a', 'b', 'c', 'd', 'e'], &vec![Some(1), None, Some(0), Some(1), Some(0)]);
    assert_eq!(groups, vec![vec!['a', 'd'], vec!['c', 'e']]);
}

#[test]
fn similar_pictures_are_chained_into_one_group() {
    let files = vec![entry("a", 1, 1), entry("b", 1, 1), entry("c", 1, 1), entry("d", 1, 1), entry("e", 1, 1)];
    let hashes = vec![Some(0u64), Some(0xFF), Some(0xFFFF), None, Some(u64::MAX)];
    let groups = find_similar(files, &hashes, 8);
    assert_eq!(paths(&groups), vec![vec!["a", "b", "c"]]);
}

#[test]
fn threshold_is_inclusive() {
    let hashes = vec![Some(0u64), Some(0x3FF)];
    assert_eq!(DEFAULT_THRESHOLD, 10);
    assert_eq!(find_similar(vec![entry("a", 1, 1), entry("b", 1, 1)], &hashes, 10).len(), 1);
    assert_eq!(find_similar(vec![entry("a", 1, 1), entry("b", 1, 1)], &hashes, 9).len(), 0);
}

#[test]
fn higher_threshold_keeps_pictures_together() {
    let hashes = vec![Some(0u64), Some(0b111), Some(0xFF00)];
    let files = || vec![entry("a", 1, 1), entry("b", 1, 1), entry("c", 1, 1)];
    assert_eq!(paths(&find_similar(files(), &hashes, 3)), vec![vec!["a", "b"]]);
    assert_eq!(paths(&find_similar(files(), &hashes, 8)), vec![vec!["a", "b", "c"]]);
}

#[test]
fn threshold_of_64_joins_everything() {
    let hashes = vec![Some(0u64), Some(u64::MAX), None];
    let files = vec![entry("a", 1, 1), entry("b", 1, 1), entry("c", 1, 1)];
    assert_eq!(paths(&find_similar(files, &hashes, 64)), vec![vec!["a", "b"]]);
}

#[test]
fn zero_threshold_groups_equal_hashes() {
    let hashes = vec![Some(5u64), Some(4), Some(5), Some(4)];
    let files = vec![entry("a", 1, 1), entry("b", 1, 1), entry("c", 1, 1), entry("d", 1, 1)];
    assert_eq!(paths(&find_similar(files, &hashes, 0)), vec![vec!["a", "c"], vec!["b", "d"]]);
}

#[test]
fn only_files_of_equal_size_are_candidates() {
    let files = vec![entry("a", 10, 1), entry("b", 20, 1), entry("c", 10, 1), entry("d", 30, 1)];
    assert_eq!(paths(&same_size_groups(files)), vec![vec!["a", "c"]]);
}

#[test]
fn duplicates_share_their_digest() {
    let candidates = vec![
        vec![entry("a", 10, 1), entry("b", 10, 1), entry("c", 10, 1)],
        vec![entry("d", 20, 1), entry("e", 20, 1)],
    ];
    let digests = vec![
        Some("x".to_string()),
        Some("y".to_string()),
        Some("x".to_string()),
        None,
        Some("z".to_string()),
    ];
    let (groups, errors) = find_duplicates(candidates, &digests);
    assert_eq!(paths(&groups), vec![vec!["a", "c"]]);
    assert_eq!(errors, 1);
}

#[test]
fn keep_strategy_is_read_from_its_name() {
    assert!(matches!(parse_keep("newest"), Keep::Newest));
    assert!(matches!(parse_keep("oldest"), Keep::Oldest));
    assert!(matches!(parse_keep("largest"), Keep::Largest));
    assert!(matches!(parse_keep("anything"), Keep::Largest));
}

#[test]
fn largest_newest_or_oldest_file_comes_first() {
    let group = || vec![entry("a", 5, 30), entry("b", 9, 10), entry("c", 7, 20)];
    let mut groups = vec![group()];
    sort_dup_groups(&mut groups, "largest");
    assert_eq!(paths(&groups), vec![vec!["b", "c", "a"]]);
    let mut groups = vec![group()];
    sort_dup_groups(&mut groups, "newest");
    assert_eq!(paths(&groups), vec![vec!["a", "c", "b"]]);
    let mut groups = vec![group()];
    sort_dup_groups(&mut groups, "oldest");
    assert_eq!(paths(&groups), vec![vec!["b", "c", "a"]]);
}

#[test]
fn equal_files_keep_their_order() {
    let mut groups = vec![vec![entry("z", 5, 1), entry("a", 5, 1), entry("m", 6, 1)]];
    sort_dup_groups(&mut groups, "largest");
    assert_eq!(paths(&groups), vec![vec!["m", "z", "a"]]);
}

#[test]
fn groups_are_sorted_by_the_path_of_the_kept_file() {
    let mut groups = vec![
        vec![entry("b", 1, 1), entry("y", 2, 1)],
        vec![entry("c", 2, 1), entry("a", 1, 1)],
        vec![entry("Z", 3, 1), entry("q", 1, 1)],
    ];
    sort_dup_groups(&mut groups, "largest");
    assert_eq!(paths(&groups), vec![vec!["Z", "q"], vec!["c", "a"], vec!["y", "b"]]);
}

#[test]
fn no_groups_stay_no_groups() {
    let mut groups: Vec<Vec<FileEntry>> = Vec::new();
    sort_dup_groups(&mut groups, "oldest");
    assert!(groups.is_empty());
}

#[test]
fn cache_key_holds_path_size_and_time() {
    assert_eq!(HashCache::cache_key(&entry("/p/a.jpg", 12, 34)), "/p/a.jpg:12:34");
}

#[test]
fn kept_hash_is_found_for_the_same_version_only() {
    let mut cache = HashCache::load(None);
    assert_eq!(cache.len(), 0);
    cache.insert(&entry("a", 1, 2), 99);
    assert_eq!(cache.get(&entry("a", 1, 2)), Some(99));
    assert_eq!(cache.get(&entry("a", 1, 3)), None);
    assert_eq!(cache.get(&entry("a", 2, 2)), None);
    assert_eq!(cache.get(&entry("b", 1, 2)), None);
    cache.insert(&entry("a", 1, 2), 100);
    assert_eq!(cache.get(&entry("a", 1, 2)), Some(100));
    assert_eq!(cache.len(), 1);
}

#[test]
fn saved_cache_is_loaded_again() {
    let mut cache = HashCache::load(None);
    cache.insert(&entry("a \"quoted\" \u{e9}", 1, 2), u64::MAX);
    cache.insert(&entry("b", 3, 4), 0);
    let text = cache.save().unwrap();
    let again = HashCache::load(Some(&text));
    assert_eq!(again.len(), 2);
    assert_eq!(again.get(&entry("a \"quoted\" \u{e9}", 1, 2)), Some(u64::MAX));
    assert_eq!(again.get(&entry("b", 3, 4)), Some(0));
}

#[test]
fn cache_is_read_from_a_json_object() {
    let cache = HashCache::load(Some("{\"a:1:2\": 5, \"b:3:4\": 6}"));
    assert_eq!(cache.get(&entry("a", 1, 2)), Some(5));
    assert_eq!(cache.get(&entry("b", 3, 4)), Some(6));
    assert_eq!(cache.len(), 2);
}

#[test]
fn unreadable_cache_is_empty() {
    assert_eq!(HashCache::load(Some("not json")).len(), 0);
    assert_eq!(HashCache::load(Some("{\"a:1:2\": -1}")).len(), 0);
    assert_eq!(HashCache::load(Some("[1]")).len(), 0);
}

#[test]
fn last_hash_of_a_name_is_kept() {
    let pairs = vec![("a:1:1".to_string(), 1), ("a:1:1".to_string(), 2)];
    let cache = HashCache::from_pairs(Some(pairs));
    assert_eq!(cache.get(&entry("a", 1, 1)), Some(2));
    assert_eq!(cache.len(), 1);
    assert_eq!(HashCache::from_pairs(None).len(), 0);
}

#[test]
fn plan_asks_for_unknown_hashes_only() {
    let mut cache = HashCache::load(None);
    cache.insert(&entry("b", 1, 1), 42);
    let files = vec![entry("a", 1, 1), entry("b", 1, 1), entry("c", 1, 1)];
    let plan = plan_hashing(&files, &cache);
    assert_eq!(plan.hashes, vec![None, Some(42), None]);
    assert_eq!(plan.to_hash, vec![0, 2]);
    assert_eq!(plan.cached_count, 1);
}

#[test]
fn recorded_hashes_are_kept_and_failures_counted() {
    let mut cache = HashCache::load(None);
    let files = vec![entry("a", 1, 1), entry("b", 1, 1)];
    let mut plan = plan_hashing(&files, &cache);
    let errors = record_hashes(&files, &vec![(0, Some(7)), (1, None)], &mut plan.hashes, &mut cache);
    assert_eq!(errors, 1);
    assert_eq!(plan.hashes, vec![Some(7), None]);
    let again = plan_hashing(&files, &cache);
    assert_eq!(again.hashes, vec![Some(7), None]);
    assert_eq!(again.to_hash, vec![1]);
}

#[test]
fn keeping_the_largest_frees_the_fewest_bytes() {
    let groups = || {
        vec![
            vec![entry("a", 5, 30), entry("b", 9, 10), entry("c", 7, 20)],
            vec![entry("d", 100, 2), entry("e", 1, 3)],
        ]
    };
    let totals = |strategy: &str| {
        let mut sorted = groups();
        sort_dup_groups(&mut sorted, strategy);
        compute_totals(&sorted)
    };
    assert_eq!(totals("largest"), (3, 13));
    assert_eq!(totals("newest"), (3, 116));
    assert_eq!(totals("oldest"), (3, 13));
}

#[test]
fn many_unions_end_in_one_set() {
    let mut sets = UnionFind::new(64);
    let mut step = 1;
    while step < 64 {
        let mut x = 0;
        while x < 64 {
            sets.union(x, x + step);
            x += 2 * step;
        }
        step *= 2;
    }
    for x in 0..64 {
        assert_eq!(sets.find(x), 0);
    }
}

#[test]
fn second_run_finds_the_same_hashes() {
    let files = vec![entry("a", 1, 1), entry("a", 1, 2), entry("b", 1, 1)];
    let mut cache = HashCache::load(Some("{\"b:1:1\": 9}"));
    let mut plan = plan_hashing(&files, &cache);
    record_hashes(&files, &vec![(0, Some(7)), (1, None)], &mut plan.hashes, &mut cache);
    let again = HashCache::load(Some(&cache.save().unwrap()));
    assert_eq!(plan_hashing(&files, &again).hashes, plan.hashes);
    assert_eq!(plan.hashes, vec![Some(7), None, Some(9)]);
}
