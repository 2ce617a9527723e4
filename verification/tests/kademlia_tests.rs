use my_dex::network::p2p::{KBucket, KademliaMessage, KademliaService, NodeId, RoutingTable, SimpleStorage};

fn id(first: u8) -> NodeId {
    let mut b = [0u8; 32];
    b[0] = first;
    NodeId(b)
}

#[test]
fn node_id_xor_and_distance() {
    let a = id(0b1010_0000);
    let b = id(0b0110_0000);
    let x = a.xor(&b);
    assert_eq!(x.0[0], 0b1100_0000);
    assert_eq!(a.distance_as_u128(&b), (0b1100_0000u128) << 120);
    assert_eq!(a.distance_as_u128(&a), 0);
    assert_eq!(a.distance_as_u128(&b), b.distance_as_u128(&a));
}

#[test]
fn bucket_moves_known_node_to_front() {
    let mut bucket: KBucket<u32> = KBucket::new(3);
    let ping_alive = |_n: NodeId, _a: u32| true;
    bucket.upsert(id(1), 10, &ping_alive);
    bucket.upsert(id(2), 20, &ping_alive);
    bucket.upsert(id(1), 11, &ping_alive);
    assert_eq!(bucket.entries.len(), 2);
    assert!(bucket.entries[0].node_id.same_as(&id(1)));
    assert_eq!(bucket.entries[0].address, 11);
    assert!(bucket.entries[1].node_id.same_as(&id(2)));
}

#[test]
fn full_bucket_keeps_live_oldest_and_evicts_dead_one() {
    let mut bucket: KBucket<u32> = KBucket::new(2);
    let alive = |_n: NodeId, _a: u32| true;
    let dead = |_n: NodeId, _a: u32| false;
    bucket.upsert(id(1), 1, &alive);
    bucket.upsert(id(2), 2, &alive);
    bucket.upsert(id(3), 3, &alive);
    assert_eq!(bucket.entries.len(), 2);
    assert!(bucket.entries.iter().all(|e| !e.node_id.same_as(&id(3))));
    bucket.upsert(id(3), 3, &dead);
    assert_eq!(bucket.entries.len(), 2);
    assert!(bucket.entries[0].node_id.same_as(&id(3)));
    assert!(bucket.entries.iter().all(|e| !e.node_id.same_as(&id(1))));
}

#[test]
fn bucket_remove_and_closest() {
    let mut bucket: KBucket<u32> = KBucket::new(5);
    let alive = |_n: NodeId, _a: u32| true;
    bucket.upsert(id(0x80), 1, &alive);
    bucket.upsert(id(0x01), 2, &alive);
    bucket.upsert(id(0x10), 3, &alive);
    let near = bucket.closest(&id(0x00), 2);
    assert_eq!(near.len(), 2);
    assert!(near[0].node_id.same_as(&id(0x01)));
    assert!(near[1].node_id.same_as(&id(0x10)));
    bucket.remove(&id(0x01));
    assert_eq!(bucket.entries.len(), 2);
}

#[test]
fn routing_table_finds_nearest_first() {
    let local = id(0);
    let mut table: RoutingTable<u32> = RoutingTable::new(local, 20);
    let alive = |_n: NodeId, _a: u32| true;
    table.update_node(id(0x40), 4, &alive);
    table.update_node(id(0x03), 3, &alive);
    table.update_node(id(0xF0), 15, &alive);
    let res = table.find_closest(&id(0x02), 2);
    assert_eq!(res.len(), 2);
    assert!(res[0].0.same_as(&id(0x03)));
    assert_eq!(res[0].1, 3);
    assert!(res[1].0.same_as(&id(0x40)));
    assert_eq!(table.bucket_index(&id(0x80)), 0);
    assert_eq!(table.bucket_index(&id(0x01)), 7);
    table.remove_node(&id(0x03));
    let res = table.find_closest(&id(0x02), 5);
    assert_eq!(res.len(), 2);
}

#[test]
fn storage_store_lookup_and_expire() {
    let mut st = SimpleStorage::new(1000, 10, 100);
    st.store(vec![1], vec![9, 9]);
    assert_eq!(st.lookup(&[1]), Some(&[9u8, 9][..]));
    st.store(vec![1], vec![8]);
    assert_eq!(st.lookup(&[1]), Some(&[8u8][..]));
    assert_eq!(st.lookup(&[2]), None);
    st.cache_value(vec![2], vec![7]);
    assert_eq!(st.lookup(&[2]), Some(&[7u8][..]));
    st.expire_data_at(u64::MAX);
    assert_eq!(st.lookup(&[1]), None);
}

#[test]
fn ping_is_answered_with_pong_and_sender_recorded() {
    let me = id(0x11);
    let mut svc: KademliaService<u32> = KademliaService::new(me, 20, 3, 1000, 1000, 1000);
    let alive = |_n: NodeId, _a: u32| true;
    let replies = svc.handle_message(7, KademliaMessage::Ping(id(0x22)), &alive);
    assert_eq!(replies.len(), 1);
    assert_eq!(replies[0].0, 7);
    match &replies[0].1 {
        KademliaMessage::Pong(n) => assert!(n.same_as(&me)),
        _ => panic!("expected a pong"),
    }
    let near = svc.table.find_closest(&id(0x22), 1);
    assert_eq!(near.len(), 1);
    assert!(near[0].0.same_as(&id(0x22)));
}

#[test]
fn store_then_find_value_returns_data() {
    let me = id(0x11);
    let mut svc: KademliaService<u32> = KademliaService::new(me, 20, 3, 1000, 1000, 1000);
    let alive = |_n: NodeId, _a: u32| true;
    let replies = svc.handle_message(
        5,
        KademliaMessage::Store { source: id(0x33), key: vec![1, 2], data: vec![3, 4] },
        &alive,
    );
    assert_eq!(replies.len(), 1);
    match &replies[0].1 {
        KademliaMessage::StoreResult { stored, .. } => assert!(*stored),
        _ => panic!("expected a store result"),
    }
    let replies = svc.handle_message(6, KademliaMessage::FindValue { source: id(0x44), key: vec![1, 2] }, &alive);
    match &replies[0].1 {
        KademliaMessage::FindValueResult { data, .. } => assert_eq!(data.as_deref(), Some(&[3u8, 4][..])),
        _ => panic!("expected a find-value result"),
    }
}
