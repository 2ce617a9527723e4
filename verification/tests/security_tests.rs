use my_dex::error::DexError;
use my_dex::network::p2p::{P2PSecurity, PeerAddr};
use my_dex::network::security_monitor::SecurityMonitor;
use my_dex::rate_limiting::token_bucket::TokenBucket;
use my_dex::security::privacy::{onion_decrypt, onion_encrypt};
use my_dex::settlement::settlement::{compute_sha256, BaseSettlementEngine};
use my_dex::sybil::pow::validate_pow;
use my_dex::security::privacy::audit_log_path;

fn msg(e: DexError) -> String {
    match e {
        DexError::Other(m) => m,
    }
}

#[test]
fn onion_layers_add_nonce_and_tag_each() {
    let keys = vec![[1u8; 32], [2u8; 32], [3u8; 32]];
    let enc = onion_encrypt(b"hi", &keys).unwrap();
    assert_eq!(enc.len(), 2 + 3 * 28);
    assert_eq!(onion_decrypt(&enc, &keys).unwrap(), b"hi".to_vec());
    assert_eq!(onion_encrypt(b"plain", &[]).unwrap(), b"plain".to_vec());
}

#[test]
fn onion_decrypt_errors() {
    let keys = vec![[1u8; 32]];
    let enc = onion_encrypt(b"data", &keys).unwrap();
    let wrong = vec![[9u8; 32]];
    assert_eq!(msg(onion_decrypt(&enc, &wrong).unwrap_err()), "Decryption failed: Error");
    assert_eq!(msg(onion_decrypt(&[0u8; 5], &keys).unwrap_err()), "Data too short, missing nonce");
}

#[test]
fn replayed_nonce_is_refused_and_logged() {
    let mut m = SecurityMonitor::new();
    assert!(m.is_valid_nonce(42));
    assert!(m.log_lines().is_empty());
    assert!(!m.is_valid_nonce(42));
    assert!(m.is_valid_nonce(43));
    assert_eq!(m.log_lines().len(), 1);
    assert!(m.log_lines()[0].ends_with("] - ?? Replay-Angriff erkannt! Nonce: 42 (2 Versuche)"));
    assert!(m.log_lines()[0].starts_with('['));
    m.record_event(1700000000, "hello");
    assert_eq!(m.log_lines()[1], "[1700000000] - hello");
    m.monitor_noise_handshake(false);
    assert!(m.log_lines()[2].ends_with("? Noise Handshake FEHLGESCHLAGEN."));
}

#[test]
fn token_bucket_spends_and_refills() {
    let mut b = TokenBucket::new_at(2, 1, 0);
    assert!(b.try_consume_at(0));
    assert!(b.try_consume_at(500));
    assert!(!b.try_consume_at(999));
    assert!(b.try_consume_at(1000));
    assert!(!b.try_consume_at(1500));
    assert!(b.try_consume_at(10_000));
    assert!(b.try_consume_at(10_000));
    assert!(!b.try_consume_at(10_000));
}

#[test]
fn peers_are_limited_separately() {
    let mut sec = P2PSecurity::new(false, vec![]);
    let a = PeerAddr { ip: 1, port: 80 };
    let b = PeerAddr { ip: 2, port: 80 };
    for _ in 0..200 {
        assert!(sec.check_rate_limit_at(a, 5));
    }
    assert!(!sec.check_rate_limit_at(a, 5));
    assert!(sec.check_rate_limit_at(b, 5));
    assert!(sec.check_rate_limit_at(a, 1005));
    assert_eq!(sec.ring_sign(&[1, 2]), vec![1, 2]);
}

#[test]
fn compute_sha256_is_lowercase_hex() {
    assert_eq!(compute_sha256(""), "e3b0c44298fc1c149afbf4c8996fb92427ae41e4649b934ca495991b7852b855");
    assert_eq!(compute_sha256("abc"), "ba7816bf8f01cfea414140de5dae2223b00361a396177a9cb410ff61f20015ad");
}

#[test]
fn settlement_validation_rules() {
    let e = BaseSettlementEngine::new();
    assert_eq!(e.propose_settlement("s1"), "s1");
    assert_eq!(msg(e.validate_standard(" \t\n").unwrap_err()), "Settlement data is empty");
    assert_eq!(e.validate_standard(" x ").unwrap(), true);
    assert_eq!(
        msg(e.validate_atomic_swap("bob", " ", "LTC", true, true).unwrap_err()),
        "Atomic swap parameters must be non-empty"
    );
    assert_eq!(
        msg(e.validate_atomic_swap("bob", "BTC", "LTC", true, false).unwrap_err()),
        "Atomic swap amounts must be positive"
    );
    assert!(e.validate_atomic_swap("bob", "BTC", "LTC", true, true).unwrap());
    let lock = compute_sha256("pre");
    assert_eq!(
        msg(e.validate_htlc_at("h1", &lock, 100, None, 50).unwrap_err()),
        "HTLC settlement requires a preimage for id: h1"
    );
    assert_eq!(
        msg(e.validate_htlc_at("h1", &lock, 100, Some("other"), 50).unwrap_err()),
        "HTLC validation failed: preimage hash mismatch for id: h1"
    );
    assert_eq!(
        msg(e.validate_htlc_at("h1", &lock, 100, Some("pre"), 100).unwrap_err()),
        "HTLC settlement => Timeout abgelaufen (id=h1)"
    );
    assert!(e.validate_htlc_at("h1", &lock, 100, Some("pre"), 99).unwrap());
    assert!(e.commit_settlement("h1").is_ok());
}

#[test]
fn proof_of_work_counts_leading_zero_bits() {
    // SHA-256("hello") starts with 0x2c = 0b0010_1100: two leading zero bits.
    assert!(validate_pow("hello", 0));
    assert!(validate_pow("hello", 2));
    assert!(!validate_pow("hello", 3));
    // SHA-256("abc") starts with 0xba.
    assert!(validate_pow("abc", 0));
    assert!(!validate_pow("abc", 1));
}

#[test]
fn test_audit_logging() {
    // The file itself is written by the program; the library fixes where.
    let test_path = "test_privacy_audit.log";
    assert_eq!(audit_log_path(test_path), Some("/var/log/dex/test_privacy_audit.log".to_string()));
}

#[test]
fn audit_paths_keep_only_the_file_name() {
    assert_eq!(audit_log_path("../../etc/passwd"), Some("/var/log/dex/passwd".to_string()));
    assert_eq!(audit_log_path("logs/a.log/"), Some("/var/log/dex/a.log".to_string()));
    assert_eq!(audit_log_path("logs//b.log/./"), Some("/var/log/dex/b.log".to_string()));
    assert_eq!(audit_log_path("./c"), Some("/var/log/dex/c".to_string()));
    assert_eq!(audit_log_path("dir/.."), None);
    assert_eq!(audit_log_path(".."), None);
    assert_eq!(audit_log_path("."), None);
    assert_eq!(audit_log_path("/"), None);
    assert_eq!(audit_log_path(""), None);
    assert_eq!(audit_log_path("ä/ü.log"), Some("/var/log/dex/ü.log".to_string()));
    for p in ["x/y.log", "a/./b", "/tmp/", "..", "q/..", "a/b/.", "./.", "/."] {
        let expected = std::path::Path::new(p)
            .file_name()
            .map(|n| format!("/var/log/dex/{}", n.to_str().unwrap()));
        assert_eq!(audit_log_path(p), expected, "path {}", p);
    }
}
