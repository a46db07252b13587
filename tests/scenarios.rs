use ipfs_storage::config::{Duration, StorageConfig};
use ipfs_storage::store::{Block, StorageEvent, StorageService};
use libipld::cbor::DagCborCodec;
use libipld::multihash::Code;
use libipld::store::DefaultParams;
use libipld::{Cid, Ipld};
use std::collections::BTreeMap;

fn create_block(ipld: &Ipld) -> Block {
    let block = libipld::Block::<DefaultParams>::encode(DagCborCodec, Code::Blake3_256, ipld).unwrap();
    let mut refs: Vec<Cid> = Vec::new();
    block.references(&mut refs).unwrap();
    Block {
        cid: block.cid().to_bytes(),
        data: block.data().to_vec(),
        refs: refs.iter().map(|c| c.to_bytes()).collect(),
    }
}

fn map_of(key: &str, links: &[&Block]) -> Ipld {
    let list = links
        .iter()
        .map(|b| Ipld::Link(Cid::try_from(b.cid.as_slice()).unwrap()))
        .collect();
    let mut map = BTreeMap::new();
    map.insert(key.to_string(), Ipld::List(list));
    Ipld::StringMap(map)
}

fn create_store() -> StorageService {
    let config = StorageConfig::new(None, 2, Duration::from_secs(100));
    StorageService::open(config)
}

fn assert_evicted(store: &StorageService, block: &Block) {
    assert_eq!(store.reverse_alias(&block.cid), None);
}

fn assert_pinned(store: &StorageService, block: &Block) {
    assert_eq!(store.reverse_alias(&block.cid).map(|a| !a.is_empty()), Some(true));
}

fn assert_unpinned(store: &StorageService, block: &Block) {
    assert_eq!(store.reverse_alias(&block.cid).map(|a| !a.is_empty()), Some(false));
}

#[test]
fn test_store_evict() {
    let mut store = create_store();
    let blocks = [
        create_block(&Ipld::Integer(0)),
        create_block(&Ipld::Integer(1)),
        create_block(&Ipld::Integer(2)),
        create_block(&Ipld::Integer(3)),
    ];
    store.insert(blocks[0].clone(), None);
    store.insert(blocks[1].clone(), None);
    store.evict();
    assert_unpinned(&store, &blocks[0]);
    assert_unpinned(&store, &blocks[1]);
    store.insert(blocks[2].clone(), None);
    store.evict();
    assert_evicted(&store, &blocks[0]);
    assert_unpinned(&store, &blocks[1]);
    assert_unpinned(&store, &blocks[2]);
    store.get(&blocks[1].cid);
    store.insert(blocks[3].clone(), None);
    store.evict();
    assert_unpinned(&store, &blocks[1]);
    assert_evicted(&store, &blocks[2]);
    assert_unpinned(&store, &blocks[3]);
    let events = store.take_events();
    assert_eq!(events.get(0), Some(&StorageEvent::Remove(blocks[0].cid.clone())));
    assert_eq!(events.get(1), Some(&StorageEvent::Remove(blocks[2].cid.clone())));
}

#[test]
fn test_store_unpin() {
    let mut store = create_store();
    let a = create_block(&map_of("a", &[]));
    let b = create_block(&map_of("b", &[&a]));
    let c = create_block(&map_of("c", &[&a]));
    assert_eq!(b.refs, vec![a.cid.clone()]);
    let x = b"tests::x".to_vec();
    let y = b"tests::y".to_vec();
    store.insert(a.clone(), None);
    store.insert(b.clone(), None);
    store.insert(c.clone(), None);
    store.alias(x.clone(), Some(b.cid.clone()));
    store.alias(y.clone(), Some(c.cid.clone()));
    assert_pinned(&store, &a);
    assert_pinned(&store, &b);
    assert_pinned(&store, &c);
    store.alias(x.clone(), None);
    assert_pinned(&store, &a);
    assert_unpinned(&store, &b);
    assert_pinned(&store, &c);
    store.alias(y.clone(), None);
    assert_unpinned(&store, &a);
    assert_unpinned(&store, &b);
    assert_unpinned(&store, &c);
}

#[test]
fn test_store_unpin2() {
    let mut store = create_store();
    let a = create_block(&map_of("a", &[]));
    let b = create_block(&map_of("b", &[&a]));
    let x = b"tests::x".to_vec();
    let y = b"tests::y".to_vec();
    store.insert(a.clone(), None);
    store.insert(b.clone(), None);
    store.alias(x.clone(), Some(b.cid.clone()));
    store.alias(y.clone(), Some(b.cid.clone()));
    assert_pinned(&store, &a);
    assert_pinned(&store, &b);
    store.alias(x.clone(), None);
    assert_pinned(&store, &a);
    assert_pinned(&store, &b);
    store.alias(y.clone(), None);
    assert_unpinned(&store, &a);
    assert_unpinned(&store, &b);
}
