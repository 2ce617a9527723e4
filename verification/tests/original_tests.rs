use my_dex::security::privacy::{onion_decrypt, onion_encrypt};
use my_dex::security::security_validator::{AdvancedSecurityValidator, SecurityValidator};
use my_dex::storage::replicated_db_layer::{CrdtSnapshot, DexDB, InMemoryDb};

#[test]
fn test_inmemory_db_put_get() {
    let mut db = InMemoryDb::default();
    db.put("key1", vec![1, 2, 3]);
    let value = db.get("key1");
    assert!(value.is_some());
    assert_eq!(value.unwrap(), &[1, 2, 3]);
}

#[test]
fn test_sync_with_remote() {
    let snap = CrdtSnapshot { version: 1, data: vec![1, 2, 3, 4] };
    let mut dex_db = DexDB { fallback_mem: Some(InMemoryDb::default()) };
    let remote_snapshots = vec![snap.clone()];
    assert!(dex_db.sync_with_remote(remote_snapshots).is_ok());
    let loaded = dex_db.load_crdt_snapshot(1).unwrap();
    assert!(loaded.is_some());
}

#[test]
fn test_validate_order() {
    let validator = AdvancedSecurityValidator::new();
    assert!(validator.validate_order("o1", "Alice").is_ok());
}

#[test]
fn test_validate_trade() {
    let validator = AdvancedSecurityValidator::new();
    let trade_info = "Trade: ring-sig test";
    let res = validator.validate_trade(trade_info);
    assert!(res.is_ok());
}

#[test]
fn test_validate_settlement() {
    let validator = AdvancedSecurityValidator::new();
    let settlement_info = "Some complex settlement => also run ZK stub";
    let res = validator.validate_settlement(settlement_info);
    assert!(res.is_err(), "We expect unimplemented stub => should return Err");
}

#[test]
fn test_onion_encryption_decryption() {
    let key1 = [0x11u8; 32];
    let key2 = [0x22u8; 32];
    let keys = vec![key1, key2];

    let message = b"Sensitive off-chain trade data";
    let encrypted = onion_encrypt(message, &keys).unwrap();
    let decrypted = onion_decrypt(&encrypted, &keys).unwrap();
    assert_eq!(message.to_vec(), decrypted);
}

#[test]
fn test_crdt_snapshot_flow() {
    let mut db = DexDB::in_memory();
    let snap = CrdtSnapshot { version: 1, data: vec![1, 2, 3, 4] };
    db.store_crdt_snapshot(&snap).unwrap();
    match db.load_crdt_snapshot(1) {
        Ok(Some(loaded)) => {
            assert_eq!(loaded.version, 1);
            assert_eq!(loaded.data, vec![1, 2, 3, 4]);
        }
        Ok(None) => panic!("Snapshot nicht gefunden"),
        Err(_) => panic!("Fehler beim Laden des Snapshots"),
    }
}
