use lain::dht::routing::{BucketEntry, KBucket, RoutingTable};
use lain::endpoint::SocketAddr;
use lain::peer::PeerId;

fn entry(id: u8) -> BucketEntry {
    let mut bytes = [0u8; 32];
    bytes[0] = id;
    BucketEntry {
        node_id: PeerId(bytes),
        address: SocketAddr::v4(127, 0, 0, 1, id as u16),
        last_seen: 0,
    }
}

fn entry_full(id: usize) -> BucketEntry {
    let mut bytes = [0u8; 32];
    for (i, b) in id.to_be_bytes().iter().enumerate() {
        bytes[32 - 8 + i] = *b;
    }
    BucketEntry {
        node_id: PeerId(bytes),
        address: SocketAddr::v4(127, 0, 0, 1, 1),
        last_seen: 0,
    }
}

#[test]
fn test_kbucket_insert_and_contains() {
    let mut kb = KBucket::new(20);
    let e = entry(1);
    assert!(kb.insert_or_update(e.clone()));
    assert!(kb.contains(&e.node_id));
    assert_eq!(kb.entries().len(), 1);
}

#[test]
fn test_kbucket_move_to_tail_on_update() {
    let mut kb = KBucket::new(20);
    kb.insert_or_update(entry(1));
    kb.insert_or_update(entry(2));
    kb.insert_or_update(entry(1));
    assert_eq!(kb.entries().back().unwrap().node_id.0[0], 1);
}

#[test]
fn test_kbucket_full_rejects() {
    let mut kb = KBucket::new(3);
    assert!(kb.insert_or_update(entry(1)));
    assert!(kb.insert_or_update(entry(2)));
    assert!(kb.insert_or_update(entry(3)));
    assert!(!kb.insert_or_update(entry(4)));
}

#[test]
fn test_routing_table_insert_and_find() {
    let local = PeerId([0u8; 32]);
    let mut rt = RoutingTable::new(local, 20);
    rt.insert_or_update(entry(1));
    rt.insert_or_update(entry(2));
    rt.insert_or_update(entry(3));
    assert_eq!(rt.size(), 3);
}

#[test]
fn test_closest_nodes_ordering() {
    let local = PeerId([0u8; 32]);
    let mut rt = RoutingTable::new(local, 20);
    rt.insert_or_update(entry_full(0x01));
    rt.insert_or_update(entry_full(0xFF));
    rt.insert_or_update(entry_full(0x42));
    let target = PeerId([0u8; 32]);
    let closest = rt.closest_nodes(&target, 3);
    assert_eq!(closest.len(), 3);
    for i in 1..closest.len() {
        let d1 = closest[i - 1].node_id.distance(&target);
        let d2 = closest[i].node_id.distance(&target);
        assert!(d1 <= d2, "closest nodes not ordered by distance");
    }
}

#[test]
fn test_remove_node() {
    let local = PeerId([0u8; 32]);
    let mut rt = RoutingTable::new(local, 20);
    let e = entry(5);
    rt.insert_or_update(e.clone());
    assert_eq!(rt.size(), 1);
    rt.remove_node(&e.node_id);
    assert_eq!(rt.size(), 0);
}

#[test]
fn test_stress_many_nodes() {
    let local = PeerId([0u8; 32]);
    let mut rt = RoutingTable::new(local, 20);
    for i in 0u32..500 {
        let e = entry_full(i as usize * 7919 % 1000007);
        let _ = rt.insert_or_update(e);
    }
    assert!(rt.size() > 20);
    let all = rt.all_nodes();
    assert_eq!(all.len(), rt.size());
}

#[test]
fn closest_nodes_exact() {
    let mut rt = RoutingTable::new(PeerId([0u8; 32]), 20);
    for i in [9usize, 4, 7, 1, 12] {
        rt.insert_or_update(entry_full(i));
    }
    // Distances from 5: 9 -> 12, 4 -> 1, 7 -> 2, 1 -> 4, 12 -> 9.
    let got: Vec<u8> =
        rt.closest_nodes(&entry_full(5).node_id, 4).iter().map(|e| e.node_id.0[31]).collect();
    assert_eq!(got, vec![4, 7, 1, 12]);
    assert_eq!(rt.closest_nodes(&entry_full(5).node_id, 0).len(), 0);
    assert_eq!(rt.closest_nodes(&entry_full(5).node_id, 99).len(), 5);
}

#[test]
fn full_bucket_keeps_what_it_has() {
    let mut rt = RoutingTable::new(PeerId([0u8; 32]), 2);
    assert!(rt.insert_or_update(entry(0x80)));
    assert!(rt.insert_or_update(entry(0x81)));
    assert!(!rt.insert_or_update(entry(0x82)));
    // A node that is known is updated even so.
    let mut again = entry(0x80);
    again.last_seen = 77;
    assert!(rt.insert_or_update(again));
    let all = rt.all_nodes();
    assert_eq!(all.len(), 2);
    assert_eq!(all[1].node_id.0[0], 0x80);
    assert_eq!(all[1].last_seen, 77);
    assert_eq!(rt.bucket_index(&entry(0x82).node_id), 0);
}

#[test]
fn bucket_head_and_replacement() {
    let mut kb = KBucket::new(2);
    assert!(kb.head().is_none());
    kb.insert_or_update(entry(1));
    kb.insert_or_update(entry(2));
    assert!(kb.is_full());
    assert_eq!(kb.head().unwrap().node_id.0[0], 1);
    kb.replace_head(entry(3));
    let ids: Vec<u8> = kb.entries().iter().map(|e| e.node_id.0[0]).collect();
    assert_eq!(ids, vec![2, 3]);
    assert!(kb.remove(&entry(2).node_id));
    assert!(!kb.remove(&entry(2).node_id));
}
