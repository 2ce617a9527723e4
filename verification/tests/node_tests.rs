use my_dex::gossip::GossipMessage;
use my_dex::network::p2p::NodeId;
use my_dex::network::tcp::NetworkManager;
use my_dex::rest_api::ApiResponse;
use my_dex::self_healing::config::{extract_whitelist, print_loaded_services, HealthCheckType, ServiceConfig, WatchdogConfig};
use my_dex::self_healing::watchdog::{authorize_restart, failure_notice, heal_body, restart_failed};
use my_dex::self_healing::{restart_step, service_failure_notice, RestartStep};
use my_dex::shard_logic::{ShardReplicaInfo, ShardSubscription};
use my_dex::text::{decimal_string, is_blank, signed_decimal_string, starts_with};
use my_dex::utils::hlc::{aggregate_time, update_hlc, HlcState};
use my_dex::voting::fullnode_vote::FullnodeVote;
use my_dex::watchtower::Watchtower;

fn id(first: u8) -> NodeId {
    let mut b = [0u8; 32];
    b[0] = first;
    NodeId(b)
}

#[test]
fn median_of_timestamps() {
    assert_eq!(aggregate_time(&[5, 1, 3]), 3);
    assert_eq!(aggregate_time(&[4, 1, 3, 2]), 2);
    assert_eq!(aggregate_time(&[10, 20]), 15);
    assert_eq!(aggregate_time(&[u64::MAX, u64::MAX]), u64::MAX);
    assert_eq!(aggregate_time(&[7]), 7);
    assert_eq!(aggregate_time(&[3, 9, 1, 12]), aggregate_time(&[12, 1, 9, 3]));
    assert_eq!(aggregate_time(&[3, 9, 1, 12]), 6);
    assert!(aggregate_time(&[]) > 0);
}

#[test]
fn hybrid_clock_updates() {
    let st = HlcState::default();
    let (mut logical, mut last) = (st.logical_clock, st.last_physical_ms);
    update_hlc(&mut logical, &mut last, 100, 50);
    assert_eq!((logical, last), (0, 100));
    update_hlc(&mut logical, &mut last, 80, 90);
    assert_eq!((logical, last), (1, 100));
    update_hlc(&mut logical, &mut last, 10, 20);
    assert_eq!((logical, last), (2, 100));
    update_hlc(&mut logical, &mut last, 100, 0);
    assert_eq!((logical, last), (0, 100));
}

#[test]
fn text_helpers() {
    assert_eq!(decimal_string(0), "0");
    assert_eq!(decimal_string(1234), "1234");
    assert_eq!(decimal_string(u64::MAX), u64::MAX.to_string());
    assert_eq!(signed_decimal_string(-42), "-42");
    assert_eq!(signed_decimal_string(i64::MIN), i64::MIN.to_string());
    assert!(is_blank(""));
    assert!(is_blank(" \u{3000}\t"));
    assert!(!is_blank(" a "));
    assert!(starts_with("crdt_snapshot_v1", "crdt_"));
    assert!(!starts_with("crd", "crdt_"));
}

#[test]
fn replicas_and_subscriptions() {
    let mut info = ShardReplicaInfo::new(2);
    assert!(info.needs_new_replica(0));
    info.add_replica(0, id(1));
    info.add_replica(0, id(1));
    assert_eq!(info.get_replicas(0).len(), 1);
    info.add_replica(0, id(2));
    assert!(!info.needs_new_replica(0));
    info.remove_replica(0, &id(1));
    assert_eq!(info.get_replicas(0).len(), 1);
    assert!(info.needs_new_replica(0));
    assert!(info.get_replicas(9).is_empty());

    let mut subs = ShardSubscription::new();
    subs.subscribe("AliceNode", 0);
    subs.subscribe("BobNode", 1);
    subs.subscribe("CarolNode", 0);
    subs.subscribe("AliceNode", 0);
    assert_eq!(subs.get_subscribers(0), vec!["AliceNode".to_string(), "CarolNode".to_string()]);
    subs.unsubscribe("AliceNode", 0);
    subs.unsubscribe("Nobody", 0);
    assert_eq!(subs.get_subscribers(0), vec!["CarolNode".to_string()]);
}

#[test]
fn watchtower_detects_fraud_and_bans() {
    let mut wt = Watchtower::new("wt1");
    wt.register_channel("ch1", vec![1, 2, 3], [0u8; 32]).unwrap();
    assert_eq!(wt.check_for_betrug("ch1", &[1, 2, 3], "wt2").unwrap(), false);
    assert!(!wt.is_banned("ch1"));
    assert_eq!(wt.check_for_betrug("ch1", &[9], "wt2").unwrap(), true);
    assert!(wt.is_banned("ch1"));
    assert!(wt.check_for_betrug("unknown", &[9], "wt2").is_err());
    let notice = GossipMessage::new(
        "wt3".to_string(),
        "ban_notice".to_string(),
        "ch7".to_string(),
        "high".to_string(),
        "fraud".to_string(),
        60,
        None,
    );
    wt.receive_ban_notice(&notice);
    assert!(wt.is_banned("ch7"));
    assert!(wt.punish_cheater("ch7").is_ok());

    let alert = wt.send_gossip_alert("ch9");
    assert_eq!((alert.node_id.as_str(), alert.msg_type.as_str(), alert.target.as_str()), ("wt1", "ban_notice", "ch9"));
    assert_eq!(alert.ttl, 86400);
    let mut other = Watchtower::new("wt2");
    assert!(!other.is_banned("ch9"));
    other.receive_ban_notice(&alert);
    assert!(other.is_banned("ch9"));
    let info = GossipMessage::new("x".to_string(), "info".to_string(), "ch10".to_string(), "low".to_string(), "".to_string(), 1, None);
    other.receive_ban_notice(&info);
    assert!(!other.is_banned("ch10"));
}

#[test]
fn fullnode_votes_once_per_node() {
    let mut v = FullnodeVote::new("upgrade".to_string(), 3);
    assert!(v.cast_vote("A".to_string(), true).is_ok());
    assert_eq!(
        v.cast_vote("A".to_string(), false).unwrap_err(),
        "Fullnode: Dieser Node hat bereits abgestimmt."
    );
    assert!(v.cast_vote("B".to_string(), false).is_ok());
    assert_eq!((v.votes_yes, v.votes_no), (1, 1));
}

#[test]
fn watchdog_rules() {
    assert!(authorize_restart("my_dex_api.service").is_ok());
    assert_eq!(authorize_restart("sshd.service").unwrap_err(), "Dienst nicht autorisiert für Neustart");
    assert_eq!(restart_failed("x.service"), "Restart von 'x.service' fehlgeschlagen nach 3 Versuchen");
    assert_eq!(restart_step(1, 3, false), RestartStep::Retry { delay_secs: 2 });
    assert_eq!(restart_step(3, 3, false), RestartStep::GiveUp { delay_secs: 6 });
    assert_eq!(restart_step(2, 3, true), RestartStep::Done);
    assert_eq!(heal_body("n1", "svc", 1700000000), "n1:svc:1700000000");
    let g = failure_notice("n1", "svc", "body".to_string(), "sig".to_string());
    assert_eq!((g.msg_type.as_str(), g.target.as_str(), g.ttl), ("svc failure", "svc unresponsive", 60));
    let g = service_failure_notice("n1", "svc");
    assert_eq!(g.target, "Service svc is unresponsive");
    assert_eq!(g.signature.as_deref(), Some("signature_placeholder"));
}

#[test]
fn watchdog_config_lists_services() {
    let cfg = WatchdogConfig {
        services: vec![
            ("api".to_string(), ServiceConfig { interval_sec: 30, health: HealthCheckType::Dummy, escalation_webhook: None }),
            (
                "db".to_string(),
                ServiceConfig {
                    interval_sec: 5,
                    health: HealthCheckType::Tcp { host: "localhost".to_string(), port: 5432 },
                    escalation_webhook: None,
                },
            ),
        ],
    };
    assert_eq!(extract_whitelist(&cfg), vec!["api".to_string(), "db".to_string()]);
    assert_eq!(
        print_loaded_services(&cfg),
        vec!["Service 'api' konfiguriert mit 30s-Intervall".to_string(), "Service 'db' konfiguriert mit 5s-Intervall".to_string()]
    );
}

#[test]
fn api_responses_and_network_manager() {
    let ok: ApiResponse<u32> = ApiResponse::success(5);
    assert!(ok.success && ok.message.is_none() && ok.data == Some(5));
    let err: ApiResponse<u32> = ApiResponse::error("nope");
    assert!(!err.success && err.message.as_deref() == Some("nope") && err.data.is_none());
    let nm = NetworkManager::new(8080u16);
    assert_eq!(nm.address, 8080);
}
