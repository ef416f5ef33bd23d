use top_k::shard::{count_frequencies, merge_top_k, promote, shard_top_k, RankedItem};
use top_k::TopKErr;

fn keys(words: &[&str]) -> Vec<String> {
    words.iter().map(|w| String::from(*w)).collect()
}

fn pairs(items: &[RankedItem]) -> Vec<(String, u64)> {
    let mut v: Vec<(String, u64)> = items
        .iter()
        .map(|i| (i.key().clone(), i.frequency()))
        .collect();
    v.sort();
    v
}

fn owned(words: &[(&str, u64)]) -> Vec<(String, u64)> {
    let mut v: Vec<(String, u64)> = words.iter().map(|(w, f)| (String::from(*w), *f)).collect();
    v.sort();
    v
}

#[test]
fn counts_each_distinct_key_once() {
    let shard = keys(&["a", "b", "a", "c", "a", "b"]);
    let table = count_frequencies(&shard);
    assert_eq!(table.len(), 3);
    assert_eq!(pairs(&table), owned(&[("a", 3), ("b", 2), ("c", 1)]));
}

#[test]
fn counts_empty_shard() {
    let shard: Vec<String> = Vec::new();
    assert!(count_frequencies(&shard).is_empty());
    assert!(shard_top_k(&shard, 5).is_empty());
}

#[test]
fn end_to_end_single_shard() {
    for _ in 0..20 {
        let shard = keys(&["a", "b", "a", "c", "a", "b"]);
        let local = shard_top_k(&shard, 2);
        assert_eq!(pairs(&local), owned(&[("a", 3), ("b", 2)]));
    }
}

#[test]
fn shard_with_fewer_keys_than_k() {
    let shard = keys(&["x", "y", "x"]);
    let local = shard_top_k(&shard, 10);
    assert_eq!(pairs(&local), owned(&[("x", 2), ("y", 1)]));
}

#[test]
fn promote_copies_keys() {
    let shard = keys(&["u", "v", "u"]);
    let local = shard_top_k(&shard, 1);
    let promoted = promote(&local);
    drop(local);
    drop(shard);
    assert_eq!(promoted, vec![(String::from("u"), 2)]);
}

#[test]
fn merge_keeps_shard_counts_apart() {
    let shard1 = keys(&["x", "x", "x", "x", "x"]);
    let shard2 = keys(&["x", "x", "x"]);
    let mut pool = promote(&shard_top_k(&shard1, 1));
    pool.extend(promote(&shard_top_k(&shard2, 1)));
    assert_eq!(pool, vec![(String::from("x"), 5), (String::from("x"), 3)]);
    let global = merge_top_k(&pool, 1).unwrap();
    assert_eq!(pairs(&global), owned(&[("x", 5)]));
}

#[test]
fn merge_of_empty_pool_fails() {
    let empty1: Vec<String> = Vec::new();
    let empty2: Vec<String> = Vec::new();
    let mut pool = promote(&shard_top_k(&empty1, 3));
    pool.extend(promote(&shard_top_k(&empty2, 3)));
    assert!(matches!(merge_top_k(&pool, 3), Err(TopKErr::ItemsEmpty)));
}

#[test]
fn merge_with_zero_k_is_empty_success() {
    let pool = vec![(String::from("a"), 1)];
    assert!(merge_top_k(&pool, 0).unwrap().is_empty());
}

#[test]
fn merge_misses_diluted_key() {
    // "g" occurs 4 times overall, more than any other key, but never ranks first
    // within a shard, so the two-level reduction cannot find it.
    let shard1 = keys(&["p", "p", "p", "g", "g"]);
    let shard2 = keys(&["q", "q", "q", "g", "g"]);
    let mut pool = promote(&shard_top_k(&shard1, 1));
    pool.extend(promote(&shard_top_k(&shard2, 1)));
    assert_eq!(pool, vec![(String::from("p"), 3), (String::from("q"), 3)]);
    let global = merge_top_k(&pool, 1).unwrap();
    assert_eq!(global.len(), 1);
    assert_eq!(global[0].frequency(), 3);
    assert_ne!(global[0].key(), "g");
}

#[test]
fn merge_finds_global_winners() {
    let shard1 = keys(&["a", "a", "a", "b", "c", "c"]);
    let shard2 = keys(&["d", "d", "d", "d", "e"]);
    let mut pool = promote(&shard_top_k(&shard1, 2));
    pool.extend(promote(&shard_top_k(&shard2, 2)));
    let global = merge_top_k(&pool, 2).unwrap();
    assert_eq!(pairs(&global), owned(&[("a", 3), ("d", 4)]));
}
