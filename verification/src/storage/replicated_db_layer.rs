use vstd::prelude::*;

use crate::error::DexError;
use crate::kv::{insert_spec, keys_of, lookup_spec};
use crate::network::p2p::pow256;
use crate::storage::dex_db::{entry_view, with_prefix};
use crate::text::{decimal, decimal_string};

pub use crate::storage::dex_db::InMemoryDb;

verus! {

// ─────────────────────────────────────────────────────────
// Snapshot wire format, as bincode 1.3 lays out a (version, data) pair:
// the version as 8 little-endian bytes, the data length as 8 little-endian
// bytes, then the data. Bytes after the data are ignored when reading.
// ─────────────────────────────────────────────────────────

/// The `k` low-order bytes of `n`, least significant first.
pub open spec fn le_bytes(n: nat, k: nat) -> Seq<u8>
    decreases k,
{
    if k == 0 {
        Seq::empty()
    } else {
        seq![(n % 256) as u8] + le_bytes(n / 256, (k - 1) as nat)
    }
}

/// The number whose little-endian bytes are `s`.
pub open spec fn le_value(s: Seq<u8>) -> nat
    decreases s.len(),
{
    if s.len() == 0 {
        0
    } else {
        (s[0] + 256 * le_value(s.drop_first())) as nat
    }
}

/// The encoding of a snapshot with this version and data.
pub open spec fn encode_spec(version: u64, data: Seq<u8>) -> Seq<u8> {
    le_bytes(version as nat, 8) + le_bytes(data.len(), 8) + data
}

/// The version and data read from `b`, or `None` when `b` is too short for
/// the header or for the data length it announces.
pub open spec fn decode_spec(b: Seq<u8>) -> Option<(u64, Seq<u8>)> {
    if b.len() < 16 {
        None
    } else {
        let version = le_value(b.subrange(0, 8));
        let len = le_value(b.subrange(8, 16));
        if len <= b.len() - 16 {
            Some((version as u64, b.subrange(16, 16 + len as int)))
        } else {
            None
        }
    }
}

proof fn lemma_le_bytes_len(n: nat, k: nat)
    ensures
        le_bytes(n, k).len() == k,
    decreases k,
{
    if k > 0 {
        lemma_le_bytes_len(n / 256, (k - 1) as nat);
    }
}

proof fn lemma_le_round_trip(n: nat, k: nat)
    requires
        n < pow256(k),
    ensures
        le_value(le_bytes(n, k)) == n,
    decreases k,
{
    if k > 0 {
        let p = pow256((k - 1) as nat);
        assert(n / 256 < p) by (nonlinear_arith)
            requires
                n < 256 * p,
        ;
        lemma_le_round_trip(n / 256, (k - 1) as nat);
        let s = le_bytes(n, k);
        assert(s.drop_first() =~= le_bytes(n / 256, (k - 1) as nat));
    }
}

proof fn lemma_pow256_8()
    ensures
        pow256(8) == 0x1_0000_0000_0000_0000,
{
    reveal_with_fuel(pow256, 9);
}

/// Reading back an encoded snapshot gives its version and data.
pub proof fn lemma_snapshot_round_trip(version: u64, data: Seq<u8>)
    requires
        data.len() <= u64::MAX,
    ensures
        decode_spec(encode_spec(version, data)) == Some((version, data)),
{
    lemma_pow256_8();
    lemma_le_bytes_len(version as nat, 8);
    lemma_le_bytes_len(data.len(), 8);
    lemma_le_round_trip(version as nat, 8);
    lemma_le_round_trip(data.len(), 8);
    let b = encode_spec(version, data);
    assert(b.subrange(0, 8) =~= le_bytes(version as nat, 8));
    assert(b.subrange(8, 16) =~= le_bytes(data.len(), 8));
    assert(b.subrange(16, 16 + data.len() as int) =~= data);
}

/// `bincode::serialize` of the pair `(version, data)` with bincode 1.3's
/// default options: fixed-width little-endian integers, and a byte vector
/// as its length (a `u64`) followed by its bytes. Serialising into memory
/// with no size limit cannot fail; the error branch maps to an empty vector
/// only to avoid a panic path.
#[verifier::external_body]
fn bincode_encode(version: u64, data: &Vec<u8>) -> (res: Vec<u8>)
    ensures
        res@ == encode_spec(version, data@),
{
    bincode::serialize(&(version, data)).unwrap_or_default()
}

/// `bincode::deserialize::<(u64, Vec<u8>)>` with bincode 1.3's default
/// options, which allow trailing bytes: `None` when the input is shorter
/// than the header or than the data length it announces.
#[verifier::external_body]
fn bincode_decode(bytes: &[u8]) -> (res: Option<(u64, Vec<u8>)>)
    ensures
        match decode_spec(bytes@) {
            Some((v, d)) => res matches Some(p) && p.0 == v && p.1@ == d,
            None => res is None,
        },
{
    bincode::deserialize::<(u64, Vec<u8>)>(bytes).ok()
}

/// The bytes of a snapshot in the wire format.
pub fn encode_snapshot(snapshot: &CrdtSnapshot) -> (res: Vec<u8>)
    ensures
        res@ == encode_spec(snapshot.version, snapshot.data@),
{
    bincode_encode(snapshot.version, &snapshot.data)
}

/// The snapshot read from `bytes`, if they hold one.
pub fn decode_snapshot(bytes: &[u8]) -> (res: Option<CrdtSnapshot>)
    ensures
        match decode_spec(bytes@) {
            Some((v, d)) => res matches Some(s) && s.version == v && s.data@ == d,
            None => res is None,
        },
{
    match bincode_decode(bytes) {
        Some((version, data)) => Some(CrdtSnapshot { version, data }),
        None => None,
    }
}

/// A replicable snapshot of state: a version number and opaque data.
#[derive(Debug, Clone)]
pub struct CrdtSnapshot {
    pub version: u64,
    pub data: Vec<u8>,
}

/// Snapshots seen as (version, data) pairs.
pub open spec fn snapshot_view(v: Seq<CrdtSnapshot>) -> Seq<(u64, Seq<u8>)> {
    v.map_values(|s: CrdtSnapshot| (s.version, s.data@))
}

/// The key prefix under which snapshots are stored.
pub open spec fn snapshot_prefix() -> Seq<char> {
    "crdt_snapshot_v"@
}

/// The key under which the snapshot of `version` is stored.
pub open spec fn snapshot_key(version: u64) -> Seq<char> {
    snapshot_prefix() + decimal(version as nat)
}

/// What loading `version` from these entries gives: `None` when the stored
/// bytes do not decode, `Some(None)` when nothing is stored under its key.
pub open spec fn load_spec(entries: Seq<(Seq<char>, Seq<u8>)>, version: u64) -> Option<Option<(u64, Seq<u8>)>> {
    match lookup_spec(entries, snapshot_key(version)) {
        None => Some(None),
        Some(b) => match decode_spec(b) {
            Some(p) => Some(Some(p)),
            None => None,
        },
    }
}

/// All values of these entries decoded, in order; `None` when one of them
/// does not decode.
pub open spec fn decode_all(entries: Seq<(Seq<char>, Seq<u8>)>) -> Option<Seq<(u64, Seq<u8>)>>
    decreases entries.len(),
{
    if entries.len() == 0 {
        Some(Seq::empty())
    } else {
        match decode_all(entries.drop_last()) {
            None => None,
            Some(s) => match decode_spec(entries.last().1) {
                None => None,
                Some(p) => Some(s.push(p)),
            },
        }
    }
}

/// The entries after merging `snaps` in order: a snapshot whose key is not
/// yet stored is added, one whose key is stored is skipped.
pub open spec fn sync_spec(entries: Seq<(Seq<char>, Seq<u8>)>, snaps: Seq<(u64, Seq<u8>)>) -> Seq<(Seq<char>, Seq<u8>)>
    decreases snaps.len(),
{
    if snaps.len() == 0 {
        entries
    } else {
        let e = sync_spec(entries, snaps.drop_last());
        let (v, d) = snaps.last();
        if lookup_spec(e, snapshot_key(v)) is None {
            insert_spec(e, snapshot_key(v), encode_spec(v, d))
        } else {
            e
        }
    }
}

/// The message of a snapshot that does not decode.
pub open spec fn decode_error_message() -> Seq<char> {
    "snapshot decoding failed"@
}

fn snapshot_key_string(version: u64) -> (res: String)
    ensures
        res@ == snapshot_key(version),
{
    let mut k = String::from_str("crdt_snapshot_v");
    k.append(decimal_string(version).as_str());
    k
}

/// Stores snapshots, encoded, in a key-value store under keys made of a fixed
/// prefix and the version; with no store attached nothing is kept.
pub struct DexDB {
    pub fallback_mem: Option<InMemoryDb>,
}

impl DexDB {
    /// The store, if attached, is well formed.
    pub open spec fn wf(&self) -> bool {
        self.fallback_mem matches Some(m) ==> m.wf()
    }

    /// A snapshot store backed by an empty in-memory store.
    pub fn in_memory() -> (res: Self)
        ensures
            res.wf(),
            res.fallback_mem matches Some(m) && m.entries().len() == 0,
    {
        DexDB { fallback_mem: Some(InMemoryDb::new()) }
    }

    /// Stores `snapshot` under the key of its version, replacing what was
    /// there.
    pub fn store_crdt_snapshot(&mut self, snapshot: &CrdtSnapshot) -> (res: Result<(), DexError>)
        requires
            old(self).wf(),
        ensures
            final(self).wf(),
            res is Ok,
            final(self).fallback_mem is Some == old(self).fallback_mem is Some,
            old(self).fallback_mem matches Some(m) ==> final(self).fallback_mem.unwrap().entries()
                == insert_spec(m.entries(), snapshot_key(snapshot.version), encode_spec(snapshot.version, snapshot.data@)),
    {
        let key = snapshot_key_string(snapshot.version);
        let encoded = encode_snapshot(snapshot);
        match &mut self.fallback_mem {
            Some(m) => {
                m.put(key.as_str(), encoded);
            },
            None => {},
        }
        Ok(())
    }

    /// The snapshot stored for `version`, if any; an error when the stored
    /// bytes do not decode.
    pub fn load_crdt_snapshot(&self, version: u64) -> (res: Result<Option<CrdtSnapshot>, DexError>)
        ensures
            self.fallback_mem is None ==> res matches Ok(None),
            self.fallback_mem matches Some(m) ==> match load_spec(m.entries(), version) {
                None => crate::error::is_error_with(res, decode_error_message()),
                Some(None) => res matches Ok(None),
                Some(Some((v, d))) => res matches Ok(Some(s)) && s.version == v && s.data@ == d,
            },
    {
        let key = snapshot_key_string(version);
        match &self.fallback_mem {
            Some(m) => match m.get(key.as_str()) {
                Some(bytes) => match decode_snapshot(bytes) {
                    Some(snap) => Ok(Some(snap)),
                    None => Err(DexError::Other(String::from_str("snapshot decoding failed"))),
                },
                None => Ok(None),
            },
            None => Ok(None),
        }
    }

    /// All stored snapshots, in store order; an error when one of them does
    /// not decode.
    pub fn list_crdt_snapshots(&self) -> (res: Result<Vec<CrdtSnapshot>, DexError>)
        ensures
            self.fallback_mem is None ==> (res matches Ok(v) && v@.len() == 0),
            self.fallback_mem matches Some(m) ==> match decode_all(with_prefix(m.entries(), snapshot_prefix())) {
                None => crate::error::is_error_with(res, decode_error_message()),
                Some(s) => res matches Ok(v) && snapshot_view(v@) == s,
            },
    {
        let mut out: Vec<CrdtSnapshot> = Vec::new();
        match &self.fallback_mem {
            Some(m) => {
                let items = m.list_prefix("crdt_snapshot_v");
                let ghost view = entry_view(items@);
                let n = items.len();
                let mut i: usize = 0;
                assert(view.take(0) =~= Seq::<(Seq<char>, Seq<u8>)>::empty());
                assert(snapshot_view(out@) =~= Seq::<(u64, Seq<u8>)>::empty());
                while i < n
                    invariant
                        n == items@.len(),
                        view == entry_view(items@),
                        view == with_prefix(m.entries(), snapshot_prefix()),
                        self.fallback_mem == Some(*m),
                        i <= n,
                        decode_all(view.take(i as int)) == Some(snapshot_view(out@)),
                    decreases n - i,
                {
                    proof {
                        assert(view.take(i + 1).drop_last() =~= view.take(i as int));
                        assert(view.take(i + 1).last().1 == items@[i as int].1@);
                    }
                    match decode_snapshot(items[i].1.as_slice()) {
                        Some(snap) => {
                            let ghost before = snapshot_view(out@);
                            out.push(snap);
                            assert(snapshot_view(out@) =~= before.push((snap.version, snap.data@)));
                        },
                        None => {
                            proof {
                                lemma_decode_all_prefix_none(view, (i + 1) as int);
                            }
                            return Err(DexError::Other(String::from_str("snapshot decoding failed")));
                        },
                    }
                    i = i + 1;
                }
                assert(view.take(n as int) =~= view);
                Ok(out)
            },
            None => Ok(out),
        }
    }

    /// The snapshots to hand to other nodes: all stored ones.
    pub fn replicate_state(&self) -> (res: Result<Vec<CrdtSnapshot>, DexError>)
        ensures
            self.fallback_mem is None ==> (res matches Ok(v) && v@.len() == 0),
            self.fallback_mem matches Some(m) ==> match decode_all(with_prefix(m.entries(), snapshot_prefix())) {
                None => crate::error::is_error_with(res, decode_error_message()),
                Some(s) => res matches Ok(v) && snapshot_view(v@) == s,
            },
    {
        self.list_crdt_snapshots()
    }

    /// Adds each remote snapshot whose version is not stored yet; stored
    /// versions are left as they are.
    pub fn sync_with_remote(&mut self, remote_snapshots: Vec<CrdtSnapshot>) -> (res: Result<(), DexError>)
        requires
            old(self).wf(),
        ensures
            final(self).wf(),
            res is Ok,
            final(self).fallback_mem is Some == old(self).fallback_mem is Some,
            old(self).fallback_mem matches Some(m) ==> final(self).fallback_mem.unwrap().entries()
                == sync_spec(m.entries(), snapshot_view(remote_snapshots@)),
    {
        let ghost rv = snapshot_view(remote_snapshots@);
        match &mut self.fallback_mem {
            Some(m) => {
                let ghost start = m.entries();
                let n = remote_snapshots.len();
                let mut i: usize = 0;
                assert(rv.take(0) =~= Seq::<(u64, Seq<u8>)>::empty());
                while i < n
                    invariant
                        n == remote_snapshots@.len(),
                        rv == snapshot_view(remote_snapshots@),
                        i <= n,
                        m.wf(),
                        m.entries() == sync_spec(start, rv.take(i as int)),
                    decreases n - i,
                {
                    let snap = &remote_snapshots[i];
                    proof {
                        assert(rv.take(i + 1).drop_last() =~= rv.take(i as int));
                        assert(rv.take(i + 1).last() == (snap.version, snap.data@));
                    }
                    let key = snapshot_key_string(snap.version);
                    if m.get(key.as_str()).is_none() {
                        let encoded = encode_snapshot(snap);
                        m.put(key.as_str(), encoded);
                    }
                    i = i + 1;
                }
                assert(rv.take(n as int) =~= rv);
            },
            None => {},
        }
        Ok(())
    }
}

proof fn lemma_decode_all_prefix_none(entries: Seq<(Seq<char>, Seq<u8>)>, k: int)
    requires
        0 < k <= entries.len(),
        decode_spec(entries[k - 1].1) is None,
    ensures
        decode_all(entries) is None,
    decreases entries.len(),
{
    if k < entries.len() {
        lemma_decode_all_prefix_none(entries.drop_last(), k);
    }
}

/// A snapshot just stored is what loading its version gives back.
pub proof fn lemma_store_then_load(entries: Seq<(Seq<char>, Seq<u8>)>, version: u64, data: Seq<u8>)
    requires
        data.len() <= u64::MAX,
    ensures
        load_spec(insert_spec(entries, snapshot_key(version), encode_spec(version, data)), version)
            == Some(Some((version, data))),
{
    crate::kv::lemma_lookup_insert_same(entries, snapshot_key(version), encode_spec(version, data));
    lemma_snapshot_round_trip(version, data);
}

/// Syncing never changes a stored value, and afterwards every remote
/// snapshot's version has a stored value.
pub proof fn lemma_sync_keeps_and_covers(entries: Seq<(Seq<char>, Seq<u8>)>, snaps: Seq<(u64, Seq<u8>)>)
    ensures
        forall|k: Seq<char>| #[trigger] lookup_spec(entries, k) is Some
            ==> lookup_spec(sync_spec(entries, snaps), k) == lookup_spec(entries, k),
        forall|i: int| 0 <= i < snaps.len()
            ==> (#[trigger] lookup_spec(sync_spec(entries, snaps), snapshot_key(snaps[i].0))) is Some,
    decreases snaps.len(),
{
    if snaps.len() > 0 {
        let prev = snaps.drop_last();
        lemma_sync_keeps_and_covers(entries, prev);
        let e = sync_spec(entries, prev);
        let (v, d) = snaps.last();
        let key = snapshot_key(v);
        if lookup_spec(e, key) is None {
            crate::kv::lemma_lookup_insert_same(e, key, encode_spec(v, d));
            assert forall|k: Seq<char>| #[trigger] lookup_spec(e, k) is Some
                implies lookup_spec(insert_spec(e, key, encode_spec(v, d)), k) == lookup_spec(e, k) by {
                if k != key {
                    crate::kv::lemma_lookup_insert_other(e, key, encode_spec(v, d), k);
                }
            }
        }
        assert forall|i: int| 0 <= i < snaps.len()
            implies (#[trigger] lookup_spec(sync_spec(entries, snaps), snapshot_key(snaps[i].0))) is Some by {
            if i < snaps.len() - 1 {
                assert(snaps[i] == prev[i]);
                assert(lookup_spec(e, snapshot_key(prev[i].0)) is Some);
            }
        }
    }
}


proof fn lemma_snapshot_key_injective(a: u64, b: u64)
    requires
        snapshot_key(a) == snapshot_key(b),
    ensures
        a == b,
{
    let n = snapshot_prefix().len() as int;
    assert(snapshot_key(a).skip(n) =~= decimal(a as nat));
    assert(snapshot_key(b).skip(n) =~= decimal(b as nat));
    crate::text::lemma_decimal_injective(a as nat, b as nat);
}

proof fn lemma_sync_only_adds(entries: Seq<(Seq<char>, Seq<u8>)>, snaps: Seq<(u64, Seq<u8>)>, k: Seq<char>)
    ensures
        lookup_spec(sync_spec(entries, snaps), k) is Some ==> lookup_spec(entries, k) is Some
            || exists|j: int| 0 <= j < snaps.len() && #[trigger] snapshot_key(snaps[j].0) == k,
    decreases snaps.len(),
{
    if snaps.len() > 0 {
        let prev = snaps.drop_last();
        lemma_sync_only_adds(entries, prev, k);
        let e = sync_spec(entries, prev);
        let (v, d) = snaps.last();
        if lookup_spec(e, snapshot_key(v)) is None && k != snapshot_key(v) {
            crate::kv::lemma_lookup_insert_other(e, snapshot_key(v), encode_spec(v, d), k);
        }
        if lookup_spec(sync_spec(entries, snaps), k) is Some && lookup_spec(entries, k) is None {
            if k == snapshot_key(v) {
                assert(snapshot_key(snaps[snaps.len() - 1].0) == k);
            } else {
                let j = choose|j: int| 0 <= j < prev.len() && #[trigger] snapshot_key(prev[j].0) == k;
                assert(snaps[j] == prev[j]);
                assert(snapshot_key(snaps[j].0) == k);
            }
        }
    }
}

/// Syncing stores each remote snapshot whose version was not stored yet as
/// it was sent: afterwards loading that version gives back exactly that
/// snapshot's version and data (the first one sent, when several share a
/// version).
pub proof fn lemma_sync_adds_remote(entries: Seq<(Seq<char>, Seq<u8>)>, snaps: Seq<(u64, Seq<u8>)>, i: int)
    requires
        0 <= i < snaps.len(),
        lookup_spec(entries, snapshot_key(snaps[i].0)) is None,
        forall|j: int| 0 <= j < i ==> (#[trigger] snaps[j]).0 != snaps[i].0,
        snaps[i].1.len() <= u64::MAX,
    ensures
        load_spec(sync_spec(entries, snaps), snaps[i].0) == Some(Some(snaps[i])),
    decreases snaps.len(),
{
    let n = snaps.len() as int;
    let prev = snaps.drop_last();
    let e = sync_spec(entries, prev);
    let (v, d) = snaps[i];
    let key = snapshot_key(v);
    if i == n - 1 {
        lemma_sync_only_adds(entries, prev, key);
        if lookup_spec(e, key) is Some {
            let j = choose|j: int| 0 <= j < prev.len() && #[trigger] snapshot_key(prev[j].0) == key;
            assert(prev[j] == snaps[j]);
            lemma_snapshot_key_injective(prev[j].0, v);
        }
        assert(sync_spec(entries, snaps) == insert_spec(e, key, encode_spec(v, d)));
        lemma_store_then_load(e, v, d);
    } else {
        assert forall|j: int| 0 <= j < i implies (#[trigger] prev[j]).0 != prev[i].0 by {
            assert(prev[j] == snaps[j]);
        }
        assert(prev[i] == snaps[i]);
        lemma_sync_adds_remote(entries, prev, i);
        let (lv, ld) = snaps.last();
        let lkey = snapshot_key(lv);
        if lookup_spec(e, lkey) is None {
            if lkey == key {
                assert(lookup_spec(e, key) is Some);
            }
            crate::kv::lemma_lookup_insert_other(e, lkey, encode_spec(lv, ld), key);
        }
    }
}

} // verus!
