use my_dex::error::DexError;
use my_dex::storage::dex_db::InMemoryDb;
use my_dex::storage::replicated_db_layer::{decode_snapshot, encode_snapshot, CrdtSnapshot, DexDB};

fn msg(e: DexError) -> String {
    match e {
        DexError::Other(m) => m,
    }
}

#[test]
fn in_memory_db_overwrite_delete_and_prefix() {
    let mut db = InMemoryDb::new();
    db.put("a/1", vec![1]);
    db.put("b/1", vec![2]);
    db.put("a/2", vec![3]);
    db.put("a/1", vec![4]);
    assert_eq!(db.get("a/1"), Some(&[4u8][..]));
    let listed = db.list_prefix("a/");
    assert_eq!(listed, vec![("a/1".to_string(), vec![4]), ("a/2".to_string(), vec![3])]);
    assert_eq!(db.list_keys(), vec!["a/1".to_string(), "b/1".to_string(), "a/2".to_string()]);
    db.delete("a/1");
    assert_eq!(db.get("a/1"), None);
    assert_eq!(db.list_prefix("a/").len(), 1);
    db.delete("missing");
    assert_eq!(db.list_keys().len(), 2);
}

#[test]
fn snapshot_encoding_matches_bincode_layout() {
    let snap = CrdtSnapshot { version: 7, data: vec![1, 2, 3] };
    let ours = encode_snapshot(&snap);
    let theirs = bincode::serialize(&(7u64, vec![1u8, 2, 3])).unwrap();
    assert_eq!(ours, theirs);
    let back = decode_snapshot(&ours).unwrap();
    assert_eq!(back.version, 7);
    assert_eq!(back.data, vec![1, 2, 3]);
}

#[test]
fn snapshot_decoding_rejects_short_input_and_ignores_trailing_bytes() {
    assert!(decode_snapshot(&[0u8; 15]).is_none());
    let mut bytes = encode_snapshot(&CrdtSnapshot { version: 1, data: vec![9, 9] });
    bytes.pop();
    assert!(decode_snapshot(&bytes).is_none());
    let mut bytes = encode_snapshot(&CrdtSnapshot { version: 2, data: vec![5] });
    bytes.push(0xAA);
    let s = decode_snapshot(&bytes).unwrap();
    assert_eq!((s.version, s.data), (2, vec![5]));
}

#[test]
fn snapshot_store_then_load_and_list() {
    let mut db = DexDB::in_memory();
    db.store_crdt_snapshot(&CrdtSnapshot { version: 3, data: vec![30] }).unwrap();
    db.store_crdt_snapshot(&CrdtSnapshot { version: 12, data: vec![120] }).unwrap();
    let s = db.load_crdt_snapshot(12).unwrap().unwrap();
    assert_eq!((s.version, s.data), (12, vec![120]));
    assert!(db.load_crdt_snapshot(4).unwrap().is_none());
    let all = db.list_crdt_snapshots().unwrap();
    assert_eq!(all.len(), 2);
    assert_eq!(all[0].version, 3);
    assert_eq!(all[1].version, 12);
    assert_eq!(db.replicate_state().unwrap().len(), 2);
    let keys = db.fallback_mem.as_ref().unwrap().list_keys();
    assert_eq!(keys, vec!["crdt_snapshot_v3".to_string(), "crdt_snapshot_v12".to_string()]);
}

#[test]
fn sync_keeps_existing_versions() {
    let mut db = DexDB::in_memory();
    db.store_crdt_snapshot(&CrdtSnapshot { version: 1, data: vec![1] }).unwrap();
    let remote = vec![
        CrdtSnapshot { version: 1, data: vec![99] },
        CrdtSnapshot { version: 2, data: vec![2] },
    ];
    db.sync_with_remote(remote).unwrap();
    assert_eq!(db.load_crdt_snapshot(1).unwrap().unwrap().data, vec![1]);
    assert_eq!(db.load_crdt_snapshot(2).unwrap().unwrap().data, vec![2]);
}

#[test]
fn corrupt_snapshot_is_reported() {
    let mut db = DexDB::in_memory();
    db.fallback_mem.as_mut().unwrap().put("crdt_snapshot_v5", vec![1, 2, 3]);
    assert_eq!(msg(db.load_crdt_snapshot(5).unwrap_err()), "snapshot decoding failed");
    assert_eq!(msg(db.list_crdt_snapshots().unwrap_err()), "snapshot decoding failed");
}

#[test]
fn store_without_backing_store_keeps_nothing() {
    let mut db = DexDB { fallback_mem: None };
    assert!(db.store_crdt_snapshot(&CrdtSnapshot { version: 1, data: vec![] }).is_ok());
    assert!(db.load_crdt_snapshot(1).unwrap().is_none());
    assert!(db.list_crdt_snapshots().unwrap().is_empty());
}
