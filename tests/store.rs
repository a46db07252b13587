use ipfs_storage::config::{Duration, StorageConfig};
use ipfs_storage::store::{Block, StorageEvent, StorageService};

fn create_block(cid: &str, data: &str, refs: &[&str]) -> Block {
    Block {
        cid: cid.as_bytes().to_vec(),
        data: data.as_bytes().to_vec(),
        refs: refs.iter().map(|r| r.as_bytes().to_vec()).collect(),
    }
}

fn create_store(cache_size: u64) -> StorageService {
    let config = StorageConfig::new(None, cache_size, Duration::from_secs(100));
    StorageService::open(config)
}

fn pinned(store: &StorageService, block: &Block) -> Option<bool> {
    store.reverse_alias(&block.cid).map(|a| !a.is_empty())
}

#[test]
fn alias_removal_then_evict_deletes_both() {
    let mut store = create_store(0);
    let a = create_block("a", "A", &[]);
    let b = create_block("b", "B", &["a"]);
    store.insert(a.clone(), None);
    store.insert(b.clone(), None);
    store.alias(b"x".to_vec(), Some(b.cid.clone()));
    store.alias(b"y".to_vec(), Some(b.cid.clone()));
    store.evict();
    assert!(store.contains(&a.cid));
    assert!(store.contains(&b.cid));
    store.alias(b"x".to_vec(), None);
    store.evict();
    assert!(store.contains(&a.cid));
    assert!(store.contains(&b.cid));
    store.alias(b"y".to_vec(), None);
    store.evict();
    assert!(!store.contains(&a.cid));
    assert!(!store.contains(&b.cid));
    assert_eq!(store.take_events().len(), 2);
}

#[test]
fn full_sweep_keeps_exactly_the_protected_blocks() {
    let mut store = create_store(0);
    let a = create_block("a", "A", &[]);
    let b = create_block("b", "B", &["a"]);
    let c = create_block("c", "C", &[]);
    let d = create_block("d", "D", &["c"]);
    let e = create_block("e", "E", &[]);
    for blk in [&a, &b, &c, &d, &e] {
        store.insert(blk.clone(), None);
    }
    store.alias(b"root".to_vec(), Some(b.cid.clone()));
    let pin = store.temp_pin();
    store.assign_temp_pin(&pin, &vec![c.cid.clone()]);
    store.evict();
    assert!(store.contains(&a.cid));
    assert!(store.contains(&b.cid));
    assert!(store.contains(&c.cid));
    assert!(!store.contains(&d.cid));
    assert!(!store.contains(&e.cid));
    store.release_temp_pin(pin);
    store.evict();
    assert!(!store.contains(&c.cid));
    assert_eq!(store.iter(), vec![a.cid.clone(), b.cid.clone()]);
}

#[test]
fn transitive_protection_through_two_aliases() {
    let mut store = create_store(0);
    let a = create_block("a", "A", &[]);
    let b = create_block("b", "B", &["a"]);
    let c = create_block("c", "C", &["a"]);
    for blk in [&a, &b, &c] {
        store.insert(blk.clone(), None);
    }
    store.alias(b"x".to_vec(), Some(b.cid.clone()));
    store.alias(b"y".to_vec(), Some(c.cid.clone()));
    let names = store.reverse_alias(&a.cid).unwrap();
    assert_eq!(names.len(), 2);
    assert!(names.contains(&b"x".to_vec()));
    assert!(names.contains(&b"y".to_vec()));
    store.alias(b"x".to_vec(), None);
    store.evict();
    assert!(store.contains(&a.cid));
    assert!(!store.contains(&b.cid));
    assert_eq!(store.reverse_alias(&a.cid), Some(vec![b"y".to_vec()]));
    store.alias(b"y".to_vec(), None);
    store.evict();
    assert!(!store.contains(&a.cid));
    assert!(!store.contains(&c.cid));
}

#[test]
fn lru_order_follows_access() {
    let mut store = create_store(2);
    let a = create_block("a", "A", &[]);
    let b = create_block("b", "B", &[]);
    let c = create_block("c", "C", &[]);
    store.insert(a.clone(), None);
    store.insert(b.clone(), None);
    assert_eq!(store.get(&a.cid), Some(b"A".to_vec()));
    store.insert(c.clone(), None);
    store.evict();
    assert!(store.contains(&a.cid));
    assert!(!store.contains(&b.cid));
    assert!(store.contains(&c.cid));
    assert_eq!(store.take_events(), vec![StorageEvent::Remove(b.cid.clone())]);
}

#[test]
fn byte_budget_is_enforced() {
    let config = StorageConfig {
        path: None,
        cache_size_blocks: 100,
        cache_size_bytes: 5,
        gc_interval: Duration::from_secs(1),
        gc_min_blocks: usize::MAX,
        gc_target_duration: Duration::max_value(),
    };
    let mut store = StorageService::open(config);
    store.insert(create_block("a", "aaa", &[]), None);
    store.insert(create_block("b", "bbb", &[]), None);
    store.insert(create_block("c", "c", &[]), None);
    assert_eq!(store.stats().size, 7);
    store.evict();
    assert!(!store.contains(&b"a".to_vec()));
    assert!(store.contains(&b"b".to_vec()));
    assert!(store.contains(&b"c".to_vec()));
    assert_eq!(store.stats().count, 2);
    assert_eq!(store.stats().size, 4);
}

#[test]
fn incremental_passes_reach_done_then_do_nothing() {
    let mut store = create_store(1);
    for name in ["a", "b", "c", "d"] {
        store.insert(create_block(name, name, &[]), None);
    }
    assert!(!store.incremental_gc(1));
    assert_eq!(store.stats().count, 3);
    assert!(!store.incremental_gc(1));
    assert!(store.incremental_gc(1));
    assert_eq!(store.stats().count, 1);
    assert!(store.incremental_gc(1));
    assert!(store.incremental_gc(5));
    assert_eq!(store.stats().count, 1);
    assert!(store.contains(&b"d".to_vec()));
    assert_eq!(store.take_events().len(), 3);
}

#[test]
fn pass_with_nothing_to_collect_is_done() {
    let mut store = create_store(0);
    let a = create_block("a", "A", &[]);
    store.insert(a.clone(), None);
    store.alias(b"keep".to_vec(), Some(a.cid.clone()));
    assert!(store.incremental_gc(1));
    assert!(store.incremental_gc(1));
    assert!(store.contains(&a.cid));
    assert!(store.take_events().is_empty());
}

#[test]
fn insert_then_get_round_trips() {
    let mut store = create_store(10);
    let a = create_block("a", "hello", &[]);
    assert_eq!(store.get(&a.cid), None);
    store.insert(a.clone(), None);
    assert_eq!(store.get(&a.cid), Some(b"hello".to_vec()));
    store.insert(a.clone(), None);
    assert_eq!(store.get(&a.cid), Some(b"hello".to_vec()));
    assert_eq!(store.iter(), vec![a.cid.clone()]);
    assert_eq!(store.stats().count, 1);
    assert_eq!(store.stats().size, 5);
}

#[test]
fn missing_blocks_reports_absent_references() {
    let mut store = create_store(10);
    let b = create_block("b", "B", &["a", "z"]);
    let c = create_block("c", "C", &["b", "a"]);
    store.insert(b.clone(), None);
    store.insert(c.clone(), None);
    let mut missing = store.missing_blocks(&c.cid);
    missing.sort();
    assert_eq!(missing, vec![b"a".to_vec(), b"z".to_vec()]);
    store.insert(create_block("a", "A", &[]), None);
    assert_eq!(store.missing_blocks(&c.cid), vec![b"z".to_vec()]);
    assert!(store.missing_blocks(&b"nothing".to_vec()).is_empty());
}

#[test]
fn missing_blocks_walks_cycles() {
    let mut store = create_store(10);
    store.insert(create_block("a", "A", &["b"]), None);
    store.insert(create_block("b", "B", &["a", "m"]), None);
    assert_eq!(store.missing_blocks(&b"a".to_vec()), vec![b"m".to_vec()]);
}

#[test]
fn temp_pin_protects_until_released() {
    let mut store = create_store(0);
    let pin = store.temp_pin();
    let a = create_block("a", "A", &[]);
    let b = create_block("b", "B", &["a"]);
    store.insert(a.clone(), None);
    store.insert(b.clone(), Some(&pin));
    store.evict();
    assert!(store.contains(&a.cid));
    assert!(store.contains(&b.cid));
    assert_eq!(pinned(&store, &b), Some(false));
    let other = store.temp_pin();
    assert_ne!(other.handle, pin.handle);
    store.assign_temp_pin(&other, &vec![a.cid.clone()]);
    store.release_temp_pin(pin);
    store.evict();
    assert!(store.contains(&a.cid));
    assert!(!store.contains(&b.cid));
    store.release_temp_pin(other);
    store.evict();
    assert!(!store.contains(&a.cid));
}

#[test]
fn alias_resolves_and_moves() {
    let mut store = create_store(10);
    assert_eq!(store.resolve(&b"x".to_vec()), None);
    store.alias(b"x".to_vec(), Some(b"a".to_vec()));
    assert_eq!(store.resolve(&b"x".to_vec()), Some(b"a".to_vec()));
    store.alias(b"x".to_vec(), Some(b"b".to_vec()));
    assert_eq!(store.resolve(&b"x".to_vec()), Some(b"b".to_vec()));
    store.alias(b"y".to_vec(), Some(b"c".to_vec()));
    store.alias(b"x".to_vec(), None);
    assert_eq!(store.resolve(&b"x".to_vec()), None);
    assert_eq!(store.resolve(&b"y".to_vec()), Some(b"c".to_vec()));
    store.alias(b"zzz".to_vec(), None);
    assert_eq!(store.resolve(&b"y".to_vec()), Some(b"c".to_vec()));
}

#[test]
fn reverse_alias_of_absent_block_is_none() {
    let mut store = create_store(10);
    store.alias(b"x".to_vec(), Some(b"a".to_vec()));
    assert_eq!(store.reverse_alias(&b"a".to_vec()), None);
    store.insert(create_block("a", "A", &[]), None);
    assert_eq!(store.reverse_alias(&b"a".to_vec()), Some(vec![b"x".to_vec()]));
}

#[test]
fn storage_config_new_sets_defaults() {
    let config = StorageConfig::new(Some("/tmp/store".to_string()), 7, Duration::from_secs(3));
    assert_eq!(config.path, Some("/tmp/store".to_string()));
    assert_eq!(config.cache_size_blocks, 7);
    assert_eq!(config.cache_size_bytes, u64::MAX);
    assert_eq!(config.gc_interval, Duration::from_secs(3));
    assert_eq!(config.gc_min_blocks, usize::MAX);
    assert_eq!(config.gc_target_duration, Duration { secs: u64::MAX, nanos: 999_999_999 });
}
