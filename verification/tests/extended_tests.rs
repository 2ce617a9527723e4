use my_dex::error::DexError;
use my_dex::network::p2p::{KademliaMessage, KademliaService, NodeId, RoutingTable};
use my_dex::network::p2p_security::{AdvancedP2PSecurity, IpAddress, P2PSecurity, P2PSecurityConfig};
use my_dex::node_logic::{median_offset, ntp_offset};
use my_dex::security::global_security_facade::GlobalSecuritySystem;
use my_dex::shard_logic::{choose_new_replica, ShardReplicaInfo};

fn id(first: u8) -> NodeId {
    let mut b = [0u8; 32];
    b[0] = first;
    NodeId(b)
}

fn msg(e: DexError) -> String {
    match e {
        DexError::Other(m) => m,
    }
}

#[test]
fn refresh_targets_land_in_their_buckets() {
    let mut raw = [0u8; 32];
    for (i, b) in raw.iter_mut().enumerate() {
        *b = (i as u8).wrapping_mul(37);
    }
    let local = NodeId(raw);
    let table: RoutingTable<u32> = RoutingTable::new(local, 20);
    for i in 0..256usize {
        let t = local.refresh_target(i);
        assert_eq!(table.bucket_index(&t), i);
    }
    let t = local.refresh_target(9);
    assert_eq!(t.0[1], raw[1] ^ 0x40);
}

#[test]
fn node_id_from_slice_checks_length() {
    assert!(NodeId::from_slice(&[1u8; 31]).is_none());
    let n = NodeId::from_slice(&[7u8; 32]).unwrap();
    assert!(n.same_as(&NodeId([7u8; 32])));
}

#[test]
fn republish_sends_each_due_value_to_each_close_node() {
    let me = id(0x01);
    let mut svc: KademliaService<u32> = KademliaService::new(me, 20, 3, 1000, 10, 10_000_000_000_000);
    let alive = |_n: NodeId, _a: u32| true;
    svc.table.update_node(id(0x02), 2, &alive);
    svc.table.update_node(id(0x80), 8, &alive);
    svc.storage.store(vec![1], vec![10]);
    svc.storage.store(vec![2], vec![20]);
    let far_future = 4_000_000_000_000u64;
    let msgs = svc.republish_messages_at(far_future);
    assert_eq!(msgs.len(), 4);
    let addrs: Vec<u32> = msgs.iter().map(|m| m.0).collect();
    assert_eq!(addrs, vec![2, 8, 2, 8]);
    match &msgs[2].1 {
        KademliaMessage::Store { source, key, data } => {
            assert!(source.same_as(&me));
            assert_eq!((key.clone(), data.clone()), (vec![2], vec![20]));
        }
        _ => panic!("expected a store"),
    }
    assert!(svc.republish_messages_at(far_future).is_empty());
}

#[test]
fn node_failure_rereplicates_shards_below_factor() {
    let mut info = ShardReplicaInfo::new(2);
    info.add_replica(0, id(1));
    info.add_replica(0, id(2));
    info.add_replica(1, id(2));
    info.add_replica(1, id(3));
    info.add_replica(1, id(4));
    info.add_replica(2, id(5));
    let shards = info.handle_node_failure(&id(2));
    assert_eq!(shards, vec![0]);
    assert_eq!(info.get_replicas(0).len(), 1);
    assert_eq!(info.get_replicas(1).len(), 2);
    assert_eq!(info.get_replicas(2).len(), 1);
    let cands = vec![(id(1), 10u32), (id(9), 90), (id(7), 70)];
    let existing = info.get_replicas(0);
    assert!(choose_new_replica(&cands, &existing, &id(9), &id(2)).unwrap().same_as(&id(7)));
    assert!(choose_new_replica(&cands[..1].to_vec(), &existing, &id(9), &id(2)).is_none());
    let with_dead = vec![(id(2), 20u32), (id(7), 70)];
    assert!(choose_new_replica(&with_dead, &existing, &id(9), &id(2)).unwrap().same_as(&id(7)));
}

#[test]
fn node_failure_hands_held_shards_to_new_nodes() {
    let mut info = ShardReplicaInfo::new(2);
    info.add_replica(0, id(1));
    info.add_replica(0, id(2));
    info.add_replica(1, id(2));
    info.add_replica(1, id(3));
    info.add_replica(3, id(2));
    let cands = vec![(id(2), 0u32), (id(1), 1), (id(9), 9), (id(6), 6), (id(7), 7)];
    let held = vec![0u32, 1];
    let added = info.on_node_failed(&id(2), &held, &cands, &id(9));
    assert_eq!(added.len(), 2);
    assert_eq!(added[0].0, 0);
    assert!(added[0].1.same_as(&id(6)));
    assert_eq!(added[1].0, 1);
    assert!(added[1].1.same_as(&id(1)));
    let r0 = info.get_replicas(0);
    assert_eq!(r0.len(), 2);
    assert!(r0[0].same_as(&id(1)) && r0[1].same_as(&id(6)));
    let r1 = info.get_replicas(1);
    assert!(r1[0].same_as(&id(3)) && r1[1].same_as(&id(1)));
    assert!(info.get_replicas(3).is_empty());
}

#[test]
fn add_then_remove_replica_restores() {
    let mut info = ShardReplicaInfo::new(3);
    info.add_replica(4, id(1));
    info.add_replica(5, id(2));
    info.add_replica(4, id(3));
    info.remove_replica(4, &id(3));
    assert_eq!(info.get_replicas(4).len(), 1);
    assert!(info.get_replicas(4)[0].same_as(&id(1)));
    assert_eq!(info.get_replicas(5).len(), 1);
    info.remove_replica(4, &id(1));
    assert!(info.get_replicas(4).is_empty());
}

fn config() -> P2PSecurityConfig {
    P2PSecurityConfig {
        whitelist: vec![],
        blacklist: vec![IpAddress::V4(0x0a000001)],
        ddos_rate_limit_per_min: 2,
        nat_traversal_enabled: false,
        stun_server: String::new(),
        trusted_client_certs: vec![],
        mdns_enabled: false,
        static_peers: vec![IpAddress::V6(1)],
    }
}

#[test]
fn p2p_access_rules() {
    let mut sec = AdvancedP2PSecurity::new(config());
    assert!(!sec.check_ip_access(&IpAddress::V4(0x0a000001)));
    assert!(sec.check_ip_access(&IpAddress::V4(0x0a000002)));
    assert_eq!(sec.check_tls_authentication(&[1, 2]).unwrap(), true);
    assert_eq!(sec.discover_peers().unwrap(), vec![IpAddress::V6(1)]);
    let ip = IpAddress::V4(7);
    assert!(sec.rate_limit_at(&ip, 0));
    assert!(sec.rate_limit_at(&ip, 0));
    assert!(!sec.rate_limit_at(&ip, 0));
    assert!(sec.rate_limit_at(&ip, 1000));

    let mut cfg = config();
    cfg.whitelist = vec![IpAddress::V4(1)];
    cfg.trusted_client_certs = vec![vec![9, 9]];
    let sec = AdvancedP2PSecurity::new(cfg);
    assert!(!sec.check_ip_access(&IpAddress::V4(2)));
    assert!(sec.check_ip_access(&IpAddress::V4(1)));
    assert_eq!(sec.check_tls_authentication(&[9, 9]).unwrap(), true);
    assert_eq!(sec.check_tls_authentication(&[9]).unwrap(), false);
}

#[test]
fn global_security_limits_and_wallets() {
    let mut g = GlobalSecuritySystem::new();
    for _ in 0..200 {
        assert!(g.check_rate_limit_at("1.2.3.4", 0));
    }
    assert!(!g.check_rate_limit_at("1.2.3.4", 0));
    assert!(g.check_rate_limit_at("5.6.7.8", 0));
    assert_eq!(
        msg(g.create_multisig_wallet(0, vec![]).unwrap_err()),
        "Ungültiges threshold/owners in MultiSig"
    );
    assert!(g.create_multisig_wallet(1, vec![]).is_err());
    assert_eq!(msg(g.combine_multisig_signatures(vec![]).unwrap_err()), "No partial sigs to combine");
    let c = g.combine_multisig_signatures(vec![vec![0xF0, 0x0F, 0xAA], vec![0xFF, 0xFF], vec![0x01]]).unwrap();
    assert_eq!(c, vec![0xF0 ^ 0xFF ^ 0x01, 0x0F ^ 0xFF, 0xAA]);
}

#[test]
fn ntp_offsets_median() {
    assert_eq!(ntp_offset(100, 90), 10);
    assert_eq!(ntp_offset(80, 90), -10);
    assert_eq!(median_offset(&[]), None);
    assert_eq!(median_offset(&[5, -3, 1]), Some(1));
    assert_eq!(median_offset(&[4, 1, 3, 2]), Some(3));
}

#[test]
fn maintenance_tops_up_held_shards() {
    let mut info = ShardReplicaInfo::new(2);
    info.add_replica(0, id(9));
    info.add_replica(1, id(9));
    info.add_replica(1, id(4));
    let cands = vec![(id(9), 0u32), (id(4), 4), (id(5), 5)];
    let added = info.maintain_shards(&vec![0, 1, 2], &cands, &id(9));
    assert_eq!(added.len(), 2);
    assert_eq!(added[0].0, 0);
    assert!(added[0].1.same_as(&id(4)));
    assert_eq!(added[1].0, 2);
    assert!(added[1].1.same_as(&id(4)));
    assert_eq!(info.get_replicas(0).len(), 2);
    assert_eq!(info.get_replicas(1).len(), 2);
    assert_eq!(info.get_replicas(2).len(), 1);
}
