use vstd::prelude::*;
use std::collections::VecDeque;

use crate::clock::current_time_ms;
use crate::kv::{byte_pairs, copy_bytes, find_byte_key, insert_spec, keys_of, lookup_spec, put_bytes, remove_bytes, remove_spec};

pub use crate::network::peer_security::{P2PSecurity, PeerAddr};
pub use crate::rate_limiting::token_bucket::TokenBucket;

verus! {

broadcast use vstd::std_specs::bits::axiom_u8_leading_zeros;

/// Length of a node identifier in bytes (256 bits).
pub const ID_LENGTH: usize = 32;

/// A 256-bit Kademlia node identifier.
#[derive(Clone, Copy, PartialEq, Eq, Hash, Debug)]
pub struct NodeId(pub [u8; 32]);

// ─────────────────────────────────────────────────────────
// Distances
// ─────────────────────────────────────────────────────────

/// Byte-wise exclusive or of two 32-byte identifiers.
pub open spec fn xor_bytes(a: Seq<u8>, b: Seq<u8>) -> Seq<u8> {
    Seq::new(32, |i: int| a[i] ^ b[i])
}

/// The unsigned big-endian number that a byte sequence spells.
pub open spec fn be_value(s: Seq<u8>) -> nat
    decreases s.len(),
{
    if s.len() == 0 {
        0
    } else {
        (be_value(s.drop_last()) * 256 + s.last()) as nat
    }
}

/// 256 to the power `n`.
pub open spec fn pow256(n: nat) -> nat
    decreases n,
{
    if n == 0 {
        1
    } else {
        256 * pow256((n - 1) as nat)
    }
}

/// The sorting distance between two identifiers: the first 16 bytes of
/// their XOR read as a big-endian number.
pub open spec fn distance(a: NodeId, b: NodeId) -> nat {
    be_value(xor_bytes(a.0@, b.0@).take(16))
}

proof fn lemma_be_value_bound(s: Seq<u8>)
    ensures
        be_value(s) < pow256(s.len()),
    decreases s.len(),
{
    if s.len() > 0 {
        lemma_be_value_bound(s.drop_last());
        let p = pow256((s.len() - 1) as nat);
        let v = be_value(s.drop_last());
        let b = s.last();
        assert(v * 256 + b < 256 * p) by (nonlinear_arith)
            requires
                v < p,
                b < 256,
        ;
    }
}

impl NodeId {
    /// A fresh identifier drawn from `rand::thread_rng()`. Nothing is
    /// promised of the bytes: they are random.
    #[verifier::external_body]
    pub fn random() -> NodeId {
        let mut id = [0u8; 32];
        rand::Rng::fill(&mut rand::thread_rng(), &mut id);
        NodeId(id)
    }

    /// Whether two identifiers hold the same bytes.
    pub fn same_as(&self, other: &NodeId) -> (res: bool)
        ensures
            res == (self.0@ == other.0@),
    {
        let mut i: usize = 0;
        while i < ID_LENGTH
            invariant
                i <= 32,
                forall|j: int| 0 <= j < i ==> self.0@[j] == other.0@[j],
            decreases 32 - i,
        {
            if self.0[i] != other.0[i] {
                return false;
            }
            i = i + 1;
        }
        assert(self.0@ =~= other.0@);
        true
    }

    /// The identifier whose bytes are the XOR of the two identifiers.
    pub fn xor(&self, other: &NodeId) -> (res: NodeId)
        ensures
            res.0@ == xor_bytes(self.0@, other.0@),
    {
        let mut result = [0u8; 32];
        let mut i: usize = 0;
        while i < ID_LENGTH
            invariant
                i <= 32,
                result@.len() == 32,
                forall|j: int| 0 <= j < i ==> result@[j] == self.0@[j] ^ other.0@[j],
            decreases 32 - i,
        {
            result[i] = self.0[i] ^ other.0[i];
            i = i + 1;
        }
        assert(result@ =~= xor_bytes(self.0@, other.0@));
        NodeId(result)
    }

    /// The identifier with these bytes, if there are exactly 32 of them.
    pub fn from_slice(bytes: &[u8]) -> (res: Option<NodeId>)
        ensures
            res is Some <==> bytes@.len() == 32,
            res matches Some(n) ==> n.0@ == bytes@,
    {
        if bytes.len() != ID_LENGTH {
            return None;
        }
        let mut arr = [0u8; 32];
        let mut i: usize = 0;
        while i < ID_LENGTH
            invariant
                bytes@.len() == 32,
                i <= 32,
                arr@.len() == 32,
                forall|j: int| 0 <= j < i ==> arr@[j] == bytes@[j],
            decreases 32 - i,
        {
            arr[i] = bytes[i];
            i = i + 1;
        }
        assert(arr@ =~= bytes@);
        Some(NodeId(arr))
    }

    /// The identifier that refreshes bucket `i`: this identifier with bit `i`
    /// (counted from the most significant bit) flipped. Looking it up visits
    /// exactly bucket `i`.
    pub fn refresh_target(&self, i: usize) -> (res: NodeId)
        requires
            i < 256,
        ensures
            res.0@ == self.0@.update((i / 8) as int, self.0@[(i / 8) as int] ^ (128u8 >> ((i % 8) as u8))),
            bucket_index_of(*self, res) == i,
    {
        let mut arr = self.0;
        let byte_index = i / 8;
        let bit_index = (i % 8) as u8;
        arr[byte_index] = arr[byte_index] ^ (128u8 >> bit_index);
        let res = NodeId(arr);
        proof {
            assert(res.0@ =~= self.0@.update(byte_index as int, self.0@[byte_index as int] ^ (128u8 >> bit_index)));
            lemma_refresh_bucket(*self, res, byte_index as int, bit_index);
        }
        res
    }

    /// The first 16 bytes of the XOR distance, as a big-endian `u128`.
    pub fn distance_as_u128(&self, other: &NodeId) -> (res: u128)
        ensures
            res == distance(*self, *other),
    {
        let x = self.xor(other);
        let mut acc: u128 = 0;
        let mut i: usize = 0;
        proof {
            assert(x.0@.take(0) =~= Seq::<u8>::empty());
            assert(pow256(16) == 0x1_0000_0000_0000_0000_0000_0000_0000_0000) by {
                reveal_with_fuel(pow256, 17);
            }
        }
        while i < 16
            invariant
                i <= 16,
                x.0@.len() == 32,
                acc == be_value(x.0@.take(i as int)),
                pow256(16) == 0x1_0000_0000_0000_0000_0000_0000_0000_0000,
            decreases 16 - i,
        {
            proof {
                assert(x.0@.take(i + 1).drop_last() =~= x.0@.take(i as int));
                lemma_be_value_bound(x.0@.take(i + 1));
                lemma_pow256_mono((i + 1) as nat, 16);
            }
            acc = acc * 256 + x.0[i] as u128;
            i = i + 1;
        }
        acc
    }
}

proof fn lemma_pow256_mono(a: nat, b: nat)
    requires
        a <= b,
    ensures
        pow256(a) <= pow256(b),
    decreases b - a,
{
    if a < b {
        lemma_pow256_mono(a, (b - 1) as nat);
        assert(pow256(b) == 256 * pow256((b - 1) as nat));
    }
}

// ─────────────────────────────────────────────────────────
// K-buckets
// ─────────────────────────────────────────────────────────

/// One routing-table entry: a node, where it can be reached, and when it was
/// last seen (milliseconds since the Unix epoch).
#[derive(Clone, Copy, Debug)]
pub struct BucketEntry<A> {
    pub node_id: NodeId,
    pub address: A,
    pub last_seen: u64,
}

/// The identifiers (as byte sequences) of a run of entries, in order.
pub open spec fn entry_ids<A>(s: Seq<BucketEntry<A>>) -> Seq<Seq<u8>> {
    s.map_values(|e: BucketEntry<A>| e.node_id.0@)
}

/// The entry at the front is the given node at the given address.
pub open spec fn fronted<A>(s: Seq<BucketEntry<A>>, node_id: NodeId, address: A) -> bool {
    &&& s.len() > 0
    &&& s[0].node_id.0@ == node_id.0@
    &&& s[0].address == address
}

/// What an upsert of `node_id` at `address` does to a bucket whose entries
/// were `old_s` and now are `new_s`: a known node moves to the front with its
/// new address; a new node goes to the front while there is room; in a full
/// bucket the least recently seen entry (the back) is pinged, and replaced by
/// the new node only if the ping reports it dead.
pub open spec fn upsert_post<A, F: Fn(NodeId, A) -> bool>(
    old_s: Seq<BucketEntry<A>>,
    new_s: Seq<BucketEntry<A>>,
    capacity: nat,
    node_id: NodeId,
    address: A,
    do_ping: F,
) -> bool {
    match entry_ids(old_s).index_of_first(node_id.0@) {
        Some(pos) => fronted(new_s, node_id, address) && new_s.drop_first() == old_s.remove(pos),
        None => if old_s.len() < capacity {
            fronted(new_s, node_id, address) && new_s.drop_first() == old_s
        } else if old_s.len() == 0 {
            new_s == old_s
        } else {
            exists|alive: bool|
                #[trigger] do_ping.ensures((old_s.last().node_id, old_s.last().address), alive) && (
                if alive {
                    new_s == old_s
                } else {
                    fronted(new_s, node_id, address) && new_s.drop_first() == old_s.drop_last()
                })
        },
    }
}

/// A bounded, most-recently-seen-first list of routing entries.
#[derive(Debug)]
pub struct KBucket<A> {
    pub entries: VecDeque<BucketEntry<A>>,
    pub capacity: usize,
}

impl<A: Copy> KBucket<A> {
    /// The bucket holds at most `capacity` entries, no node twice.
    pub open spec fn wf(&self) -> bool {
        &&& self.entries@.len() <= self.capacity
        &&& entry_ids(self.entries@).no_duplicates()
    }

    /// An empty bucket for up to `capacity` nodes.
    pub fn new(capacity: usize) -> (res: Self)
        ensures
            res.entries@ == Seq::<BucketEntry<A>>::empty(),
            res.capacity == capacity,
            res.wf(),
    {
        let res = KBucket { entries: VecDeque::with_capacity(capacity), capacity };
        assert(entry_ids(res.entries@) =~= Seq::<Seq<u8>>::empty());
        res
    }

    /// The position of `node_id` in the bucket, if it is there.
    fn position_of(&self, node_id: &NodeId) -> (res: Option<usize>)
        ensures
            res == (match entry_ids(self.entries@).index_of_first(node_id.0@) {
                Some(p) => Some(p as usize),
                None => None,
            }),
            res is Some ==> res.unwrap() < self.entries@.len()
                && entry_ids(self.entries@)[res.unwrap() as int] == node_id.0@,
            res is None ==> !entry_ids(self.entries@).contains(node_id.0@),
    {
        let n = self.entries.len();
        let mut i: usize = 0;
        proof {
            entry_ids(self.entries@).index_of_first_ensures(node_id.0@);
        }
        while i < n
            invariant
                n == self.entries@.len(),
                i <= n,
                forall|j: int| 0 <= j < i ==> entry_ids(self.entries@)[j] != node_id.0@,
                match entry_ids(self.entries@).index_of_first(node_id.0@) {
                    Some(index) => {
                        &&& 0 <= index < n
                        &&& entry_ids(self.entries@)[index] == node_id.0@
                        &&& forall|j: int| 0 <= j < index ==> entry_ids(self.entries@)[j] != node_id.0@
                    },
                    None => !entry_ids(self.entries@).contains(node_id.0@),
                },
            decreases n - i,
        {
            if self.entries[i].node_id.same_as(node_id) {
                proof {
                    let idx = entry_ids(self.entries@).index_of_first(node_id.0@);
                    if idx is None {
                        assert(entry_ids(self.entries@)[i as int] == node_id.0@);
                    } else {
                        let k = idx.unwrap();
                        if k < i {
                            assert(entry_ids(self.entries@)[k] != node_id.0@);
                        }
                        if k > i {
                            assert(entry_ids(self.entries@)[i as int] == node_id.0@);
                        }
                    }
                }
                return Some(i);
            }
            i = i + 1;
        }
        proof {
            let idx = entry_ids(self.entries@).index_of_first(node_id.0@);
            if idx is Some {
                let k = idx.unwrap();
                assert(entry_ids(self.entries@)[k] != node_id.0@);
            }
        }
        None
    }

    /// Upsert: a known node moves to the front (its address refreshed); a new
    /// node is put at the front while there is room; when the bucket is full
    /// its least recently seen node is pinged, and only if that ping fails is
    /// it dropped for the new node.
    pub fn upsert<F: Fn(NodeId, A) -> bool>(&mut self, node_id: NodeId, address: A, do_ping: &F)
        requires
            old(self).wf(),
            forall|n: NodeId, a: A| do_ping.requires((n, a)),
        ensures
            final(self).wf(),
            final(self).capacity == old(self).capacity,
            upsert_post(
                old(self).entries@,
                final(self).entries@,
                old(self).capacity as nat,
                node_id,
                address,
                *do_ping,
            ),
    {
        let ghost old_s = self.entries@;
        proof {
            entry_ids(old_s).index_of_first_ensures(node_id.0@);
        }
        match self.position_of(&node_id) {
            Some(pos) => {
                let removed = self.entries.remove(pos);
                let mut entry = removed.unwrap();
                entry.last_seen = current_time_ms();
                entry.address = address;
                self.entries.push_front(entry);
                proof {
                    assert(self.entries@.drop_first() =~= old_s.remove(pos as int));
                    self.lemma_front_insert_keeps_distinct(old_s.remove(pos as int), old_s, pos as int);
                }
            },
            None => {
                if self.entries.len() >= self.capacity {
                    if self.entries.len() > 0 {
                        let lru = self.entries[self.entries.len() - 1];
                        let ok = do_ping(lru.node_id, lru.address);
                        proof {
                            assert(lru == old_s.last());
                            assert((*do_ping).ensures((old_s.last().node_id, old_s.last().address), ok));
                        }
                        if !ok {
                            self.entries.pop_back();
                            let entry = BucketEntry { node_id, address, last_seen: current_time_ms() };
                            self.entries.push_front(entry);
                            proof {
                                assert(self.entries@.drop_first() =~= old_s.drop_last());
                                assert(entry_ids(old_s.drop_last()) =~= entry_ids(old_s).drop_last());
                                assert(entry_ids(self.entries@) =~= seq![node_id.0@] + entry_ids(old_s.drop_last()));
                                assert(!entry_ids(old_s).contains(node_id.0@)) by {
                                    entry_ids(old_s).index_of_first_ensures(node_id.0@);
                                }
                                assert forall|i: int, j: int|
                                    0 <= i < entry_ids(self.entries@).len() && 0 <= j < entry_ids(self.entries@).len() && i != j
                                    implies entry_ids(self.entries@)[i] != entry_ids(self.entries@)[j] by {
                                    if i > 0 && j > 0 {
                                        assert(entry_ids(self.entries@)[i] == entry_ids(old_s)[i - 1]);
                                        assert(entry_ids(self.entries@)[j] == entry_ids(old_s)[j - 1]);
                                    } else if i == 0 {
                                        assert(entry_ids(self.entries@)[j] == entry_ids(old_s)[j - 1]);
                                    } else {
                                        assert(entry_ids(self.entries@)[i] == entry_ids(old_s)[i - 1]);
                                    }
                                }
                            }
                            return;
                        }
                    }
                } else {
                    let entry = BucketEntry { node_id, address, last_seen: current_time_ms() };
                    self.entries.push_front(entry);
                    proof {
                        assert(self.entries@.drop_first() =~= old_s);
                        assert(entry_ids(self.entries@) =~= seq![node_id.0@] + entry_ids(old_s));
                        assert(!entry_ids(old_s).contains(node_id.0@)) by {
                            entry_ids(old_s).index_of_first_ensures(node_id.0@);
                        }
                        assert forall|i: int, j: int|
                            0 <= i < entry_ids(self.entries@).len() && 0 <= j < entry_ids(self.entries@).len() && i != j
                            implies entry_ids(self.entries@)[i] != entry_ids(self.entries@)[j] by {
                            if i > 0 && j > 0 {
                                assert(entry_ids(self.entries@)[i] == entry_ids(old_s)[i - 1]);
                                assert(entry_ids(self.entries@)[j] == entry_ids(old_s)[j - 1]);
                            } else if i == 0 {
                                assert(entry_ids(self.entries@)[j] == entry_ids(old_s)[j - 1]);
                            } else {
                                assert(entry_ids(self.entries@)[i] == entry_ids(old_s)[i - 1]);
                            }
                        }
                    }
                }
            },
        }
    }

    /// Drops `node_id` from the bucket if it is there.
    pub fn remove(&mut self, node_id: &NodeId)
        requires
            old(self).wf(),
        ensures
            final(self).wf(),
            final(self).capacity == old(self).capacity,
            final(self).entries@ == (match entry_ids(old(self).entries@).index_of_first(node_id.0@) {
                Some(pos) => old(self).entries@.remove(pos),
                None => old(self).entries@,
            }),
    {
        let ghost old_s = self.entries@;
        proof {
            entry_ids(old_s).index_of_first_ensures(node_id.0@);
        }
        if let Some(pos) = self.position_of(node_id) {
            self.entries.remove(pos);
            proof {
                let ids = entry_ids(self.entries@);
                let oids = entry_ids(old_s);
                assert forall|i: int| 0 <= i < ids.len() implies ids[i] == oids[if i < pos { i } else { i + 1 }] by {}
                assert forall|i: int, j: int| 0 <= i < ids.len() && 0 <= j < ids.len() && i != j implies ids[i] != ids[j] by {
                    let oi = if i < pos { i } else { i + 1 };
                    let oj = if j < pos { j } else { j + 1 };
                    assert(ids[i] == oids[oi]);
                    assert(ids[j] == oids[oj]);
                }
            }
        }
    }

    /// The `k` entries closest to `target`, nearest first (ties keep bucket order).
    pub fn closest(&self, target: &NodeId, k: usize) -> (res: Vec<BucketEntry<A>>)
        ensures
            res@ == take_at_most(sort_by_distance(self.entries@, *target), k as nat),
    {
        let mut items: Vec<BucketEntry<A>> = Vec::new();
        let n = self.entries.len();
        let mut i: usize = 0;
        while i < n
            invariant
                n == self.entries@.len(),
                i <= n,
                items@ == self.entries@.take(i as int),
            decreases n - i,
        {
            items.push(self.entries[i]);
            i = i + 1;
            assert(items@ =~= self.entries@.take(i as int));
        }
        assert(self.entries@.take(n as int) =~= self.entries@);
        let mut sorted = sort_entries_by_distance(&items, target);
        sorted.truncate(k);
        sorted
    }

    proof fn lemma_front_insert_keeps_distinct(&self, rest: Seq<BucketEntry<A>>, old_s: Seq<BucketEntry<A>>, pos: int)
        requires
            entry_ids(old_s).no_duplicates(),
            0 <= pos < old_s.len(),
            rest == old_s.remove(pos),
            self.entries@.len() == rest.len() + 1,
            self.entries@.drop_first() == rest,
            self.entries@[0].node_id.0@ == old_s[pos].node_id.0@,
        ensures
            entry_ids(self.entries@).no_duplicates(),
    {
        let ids = entry_ids(self.entries@);
        let oids = entry_ids(old_s);
        assert forall|i: int| 0 < i < ids.len() implies ids[i] == oids[if i - 1 < pos { i - 1 } else { i }] by {
            assert(ids[i] == rest[i - 1].node_id.0@);
        }
        assert forall|i: int, j: int| 0 <= i < ids.len() && 0 <= j < ids.len() && i != j implies ids[i] != ids[j] by {
            let oi = if i == 0 { pos } else if i - 1 < pos { i - 1 } else { i };
            let oj = if j == 0 { pos } else if j - 1 < pos { j - 1 } else { j };
            assert(ids[i] == oids[oi]);
            assert(ids[j] == oids[oj]);
        }
    }
}

// ─────────────────────────────────────────────────────────
// Ordering entries by distance
// ─────────────────────────────────────────────────────────

/// The first `k` elements of `s`, or all of `s` when it is shorter.
pub open spec fn take_at_most<T>(s: Seq<T>, k: nat) -> Seq<T> {
    if k < s.len() {
        s.take(k as int)
    } else {
        s
    }
}

/// Inserts `e` into `sorted` after every entry that is no farther from
/// `target` than `e` is.
pub open spec fn insert_by_distance<A>(sorted: Seq<BucketEntry<A>>, e: BucketEntry<A>, target: NodeId) -> Seq<BucketEntry<A>>
    decreases sorted.len(),
{
    if sorted.len() == 0 {
        seq![e]
    } else if distance(sorted.last().node_id, target) <= distance(e.node_id, target) {
        sorted.push(e)
    } else {
        insert_by_distance(sorted.drop_last(), e, target).push(sorted.last())
    }
}

/// The entries of `s` ordered by distance to `target`, nearest first; entries
/// at equal distance keep their order in `s` (a stable sort).
pub open spec fn sort_by_distance<A>(s: Seq<BucketEntry<A>>, target: NodeId) -> Seq<BucketEntry<A>>
    decreases s.len(),
{
    if s.len() == 0 {
        Seq::empty()
    } else {
        insert_by_distance(sort_by_distance(s.drop_last(), target), s.last(), target)
    }
}

proof fn lemma_insert_at<A>(s: Seq<BucketEntry<A>>, e: BucketEntry<A>, target: NodeId, p: int)
    requires
        0 <= p <= s.len(),
        forall|j: int| p <= j < s.len() ==> distance(#[trigger] s[j].node_id, target) > distance(e.node_id, target),
        p > 0 ==> distance(s[p - 1].node_id, target) <= distance(e.node_id, target),
    ensures
        insert_by_distance(s, e, target) == s.insert(p, e),
    decreases s.len(),
{
    if s.len() == 0 {
        assert(s.insert(p, e) =~= seq![e]);
    } else if p == s.len() {
        assert(s.insert(p, e) =~= s.push(e));
    } else {
        lemma_insert_at(s.drop_last(), e, target, p);
        assert(s.insert(p, e) =~= s.drop_last().insert(p, e).push(s.last()));
    }
}

/// The entries ordered by distance to `target` (stable insertion sort).
fn sort_entries_by_distance<A: Copy>(items: &Vec<BucketEntry<A>>, target: &NodeId) -> (res: Vec<BucketEntry<A>>)
    ensures
        res@ == sort_by_distance(items@, *target),
{
    let mut sorted: Vec<BucketEntry<A>> = Vec::new();
    let mut dists: Vec<u128> = Vec::new();
    let n = items.len();
    let mut i: usize = 0;
    assert(items@.take(0) =~= Seq::<BucketEntry<A>>::empty());
    while i < n
        invariant
            n == items@.len(),
            i <= n,
            sorted@ == sort_by_distance(items@.take(i as int), *target),
            dists@.len() == sorted@.len(),
            forall|j: int| 0 <= j < sorted@.len() ==> dists@[j] == distance(#[trigger] sorted@[j].node_id, *target),
        decreases n - i,
    {
        let e = items[i];
        let d = e.node_id.distance_as_u128(target);
        let mut pos = sorted.len();
        while pos > 0 && dists[pos - 1] > d
            invariant
                pos <= sorted@.len(),
                dists@.len() == sorted@.len(),
                forall|j: int| 0 <= j < sorted@.len() ==> dists@[j] == distance(#[trigger] sorted@[j].node_id, *target),
                forall|j: int| pos <= j < sorted@.len() ==> distance(#[trigger] sorted@[j].node_id, *target) > d,
            decreases pos,
        {
            pos = pos - 1;
        }
        proof {
            lemma_insert_at(sorted@, e, *target, pos as int);
            assert(items@.take(i + 1).drop_last() =~= items@.take(i as int));
            assert(items@.take(i + 1).last() == e);
        }
        sorted.insert(pos, e);
        dists.insert(pos, d);
        i = i + 1;
        proof {
            assert forall|j: int| 0 <= j < sorted@.len() implies dists@[j] == distance(#[trigger] sorted@[j].node_id, *target) by {
                if j < pos {
                } else if j == pos {
                } else {
                    assert(sorted@[j] == sorted@.remove(pos as int)[j - 1]);
                }
            }
        }
    }
    assert(items@.take(n as int) =~= items@);
    sorted
}

// ─────────────────────────────────────────────────────────
// Routing table
// ─────────────────────────────────────────────────────────

/// The bucket a node belongs in, seen from `local`: the position (counted
/// from the most significant bit, starting at 0) of the first bit in which
/// the two identifiers differ, or 255 when they are equal.
pub open spec fn bucket_index_of(local: NodeId, node: NodeId) -> int {
    first_set_bit(xor_bytes(local.0@, node.0@), 0)
}

/// The position of the first set bit of `x` at or after byte `i`, or 255.
pub open spec fn first_set_bit(x: Seq<u8>, i: int) -> int
    decreases 32 - i,
{
    if i < 0 || i >= 32 {
        255
    } else if x[i] != 0 {
        i * 8 + vstd::std_specs::bits::u8_leading_zeros(x[i]) as int
    } else {
        first_set_bit(x, i + 1)
    }
}

/// The leading zeros of the one-bit mask for bit `b` (from the left) are `b`.
proof fn lemma_leading_zeros_of_mask(b: u8)
    requires
        b < 8,
    ensures
        vstd::std_specs::bits::u8_leading_zeros(128u8 >> b) == b,
{
    let v: u8 = 128u8 >> b;
    let l = vstd::std_specs::bits::u8_leading_zeros(v);
    vstd::std_specs::bits::axiom_u8_leading_zeros(v);
    let l8 = l as u8;
    assert(v != 0) by (bit_vector)
        requires
            b < 8,
            v == 128u8 >> b,
    ;
    assert(l8 == b) by (bit_vector)
        requires
            b < 8,
            v == 128u8 >> b,
            l8 < 8,
            (v >> ((7 - l8) as u8)) & 1u8 != 0u8,
            v >> ((8 - l8) as u8) == 0,
    ;
}

/// Bytes below `b` are zero, so the first set bit is found from byte `b` on.
proof fn lemma_first_set_bit_skip(x: Seq<u8>, j: int, b: int)
    requires
        0 <= j <= b < 32,
        x.len() == 32,
        forall|k: int| 0 <= k < b ==> x[k] == 0,
    ensures
        first_set_bit(x, j) == first_set_bit(x, b),
    decreases b - j,
{
    if j < b {
        lemma_first_set_bit_skip(x, j + 1, b);
    }
}

/// Flipping bit `8 * b + bit` of `local` gives an identifier in bucket
/// `8 * b + bit`.
proof fn lemma_refresh_bucket(local: NodeId, target: NodeId, b: int, bit: u8)
    requires
        0 <= b < 32,
        bit < 8,
        target.0@ == local.0@.update(b, local.0@[b] ^ (128u8 >> bit)),
    ensures
        bucket_index_of(local, target) == 8 * b + bit,
{
    let x = xor_bytes(local.0@, target.0@);
    assert forall|k: int| 0 <= k < 32 implies #[trigger] x[k] == if k == b { 128u8 >> bit } else { 0u8 } by {
        let l = local.0@[k];
        if k == b {
            let m: u8 = 128u8 >> bit;
            assert(l ^ (l ^ m) == m) by (bit_vector);
        } else {
            assert(l ^ l == 0) by (bit_vector);
        }
    }
    lemma_first_set_bit_skip(x, 0, b);
    lemma_leading_zeros_of_mask(bit);
    assert(x[b] != 0) by {
        let m: u8 = 128u8 >> bit;
        assert(m != 0) by (bit_vector)
            requires
                bit < 8,
                m == 128u8 >> bit,
        ;
    }
}

proof fn lemma_first_set_bit_range(x: Seq<u8>, i: int)
    requires
        0 <= i,
        x.len() == 32,
    ensures
        0 <= first_set_bit(x, i) < 256,
    decreases 32 - i,
{
    if i < 32 {
        if x[i] == 0 {
            lemma_first_set_bit_range(x, i + 1);
        }
    }
}

/// All entries of a run of buckets, bucket by bucket.
pub open spec fn flatten_buckets<A>(bs: Seq<KBucket<A>>) -> Seq<BucketEntry<A>>
    decreases bs.len(),
{
    if bs.len() == 0 {
        Seq::empty()
    } else {
        flatten_buckets(bs.drop_last()) + bs.last().entries@
    }
}

/// The Kademlia routing table: 256 buckets around the local identifier.
#[derive(Debug)]
pub struct RoutingTable<A> {
    pub local_id: NodeId,
    pub buckets: Vec<KBucket<A>>,
    pub bucket_size: usize,
}

impl<A: Copy> RoutingTable<A> {
    /// 256 well-formed buckets, each of capacity `bucket_size`.
    pub open spec fn wf(&self) -> bool {
        &&& self.buckets@.len() == 256
        &&& forall|i: int| 0 <= i < 256 ==> (#[trigger] self.buckets@[i]).wf()
        &&& forall|i: int| 0 <= i < 256 ==> (#[trigger] self.buckets@[i]).capacity == self.bucket_size
    }

    /// Every entry the table holds, bucket by bucket.
    pub open spec fn all_entries(&self) -> Seq<BucketEntry<A>> {
        flatten_buckets(self.buckets@)
    }

    /// An empty table of 256 buckets of `bucket_size` entries each.
    pub fn new(local_id: NodeId, bucket_size: usize) -> (res: Self)
        ensures
            res.wf(),
            res.local_id == local_id,
            res.bucket_size == bucket_size,
            forall|i: int| 0 <= i < 256 ==> (#[trigger] res.buckets@[i]).entries@.len() == 0,
    {
        let mut buckets: Vec<KBucket<A>> = Vec::with_capacity(ID_LENGTH * 8);
        let mut i: usize = 0;
        while i < ID_LENGTH * 8
            invariant
                i <= 256,
                buckets@.len() == i,
                forall|j: int| 0 <= j < i ==> (#[trigger] buckets@[j]).wf(),
                forall|j: int| 0 <= j < i ==> (#[trigger] buckets@[j]).capacity == bucket_size,
                forall|j: int| 0 <= j < i ==> (#[trigger] buckets@[j]).entries@.len() == 0,
            decreases 256 - i,
        {
            buckets.push(KBucket::new(bucket_size));
            i = i + 1;
        }
        RoutingTable { local_id, buckets, bucket_size }
    }

    /// The index of the bucket that `node_id` belongs in.
    pub fn bucket_index(&self, node_id: &NodeId) -> (res: usize)
        ensures
            res == bucket_index_of(self.local_id, *node_id),
            res < 256,
    {
        let x = self.local_id.xor(node_id);
        proof {
            lemma_first_set_bit_range(x.0@, 0);
        }
        let mut i: usize = 0;
        while i < ID_LENGTH
            invariant
                i <= 32,
                x.0@ == xor_bytes(self.local_id.0@, node_id.0@),
                first_set_bit(x.0@, 0) == first_set_bit(x.0@, i as int),
            decreases 32 - i,
        {
            let byte = x.0[i];
            if byte != 0 {
                let leading = byte.leading_zeros() as usize;
                return i * 8 + leading;
            }
            i = i + 1;
        }
        ID_LENGTH * 8 - 1
    }

    /// What recording `node_id` at `address` does to the table: nothing for
    /// the local identifier; otherwise only the bucket the node belongs in
    /// changes, as `KBucket::upsert` says.
    pub open spec fn update_node_post<F: Fn(NodeId, A) -> bool>(
        pre: Self,
        post: Self,
        node_id: NodeId,
        address: A,
        do_ping: F,
    ) -> bool {
        &&& post.local_id == pre.local_id
        &&& post.bucket_size == pre.bucket_size
        &&& node_id.0@ == pre.local_id.0@ ==> post.buckets@ == pre.buckets@
        &&& node_id.0@ != pre.local_id.0@ ==> {
            let idx = bucket_index_of(pre.local_id, node_id);
            &&& post.buckets@ == pre.buckets@.update(idx, post.buckets@[idx])
            &&& post.buckets@[idx].capacity == pre.buckets@[idx].capacity
            &&& upsert_post(
                pre.buckets@[idx].entries@,
                post.buckets@[idx].entries@,
                pre.bucket_size as nat,
                node_id,
                address,
                do_ping,
            )
        }
    }

    /// Records that `node_id` was seen at `address` (see `KBucket::upsert`);
    /// the local node itself is never recorded.
    pub fn update_node<F: Fn(NodeId, A) -> bool>(&mut self, node_id: NodeId, address: A, do_ping: &F)
        requires
            old(self).wf(),
            forall|n: NodeId, a: A| do_ping.requires((n, a)),
        ensures
            final(self).wf(),
            Self::update_node_post(*old(self), *final(self), node_id, address, *do_ping),
    {
        if node_id.same_as(&self.local_id) {
            return;
        }
        let idx = self.bucket_index(&node_id);
        let ghost old_b = self.buckets@;
        let mut bucket = self.buckets.remove(idx);
        bucket.upsert(node_id, address, do_ping);
        self.buckets.insert(idx, bucket);
        proof {
            assert(self.buckets@ =~= old_b.update(idx as int, bucket));
            assert forall|i: int| 0 <= i < 256 implies (#[trigger] self.buckets@[i]).wf() by {
                if i != idx {
                    assert(self.buckets@[i] == old_b[i]);
                }
            }
            assert forall|i: int| 0 <= i < 256 implies (#[trigger] self.buckets@[i]).capacity == self.bucket_size by {
                if i != idx {
                    assert(self.buckets@[i] == old_b[i]);
                }
            }
        }
    }

    /// Drops `node_id` from the bucket it belongs in.
    pub fn remove_node(&mut self, node_id: &NodeId)
        requires
            old(self).wf(),
        ensures
            final(self).wf(),
            final(self).local_id == old(self).local_id,
            final(self).bucket_size == old(self).bucket_size,
            ({
                let idx = bucket_index_of(old(self).local_id, *node_id);
                &&& final(self).buckets@ == old(self).buckets@.update(idx, final(self).buckets@[idx])
                &&& final(self).buckets@[idx].capacity == old(self).buckets@[idx].capacity
                &&& final(self).buckets@[idx].entries@ == (match entry_ids(old(self).buckets@[idx].entries@).index_of_first(node_id.0@) {
                    Some(pos) => old(self).buckets@[idx].entries@.remove(pos),
                    None => old(self).buckets@[idx].entries@,
                })
            }),
    {
        let idx = self.bucket_index(node_id);
        let ghost old_b = self.buckets@;
        let mut bucket = self.buckets.remove(idx);
        bucket.remove(node_id);
        self.buckets.insert(idx, bucket);
        proof {
            assert(self.buckets@ =~= old_b.update(idx as int, bucket));
            assert forall|i: int| 0 <= i < 256 implies (#[trigger] self.buckets@[i]).wf() by {
                if i != idx {
                    assert(self.buckets@[i] == old_b[i]);
                }
            }
            assert forall|i: int| 0 <= i < 256 implies (#[trigger] self.buckets@[i]).capacity == self.bucket_size by {
                if i != idx {
                    assert(self.buckets@[i] == old_b[i]);
                }
            }
        }
    }

    /// Every entry of the table, bucket by bucket, front to back.
    pub fn entries(&self) -> (res: Vec<BucketEntry<A>>)
        ensures
            res@ == self.all_entries(),
    {
        let mut candidates: Vec<BucketEntry<A>> = Vec::new();
        let nb = self.buckets.len();
        let mut b: usize = 0;
        assert(self.buckets@.take(0) =~= Seq::<KBucket<A>>::empty());
        while b < nb
            invariant
                nb == self.buckets@.len(),
                b <= nb,
                candidates@ == flatten_buckets(self.buckets@.take(b as int)),
            decreases nb - b,
        {
            let bucket = &self.buckets[b];
            let ne = bucket.entries.len();
            let ghost base = candidates@;
            let mut j: usize = 0;
            while j < ne
                invariant
                    ne == bucket.entries@.len(),
                    j <= ne,
                    candidates@ == base + bucket.entries@.take(j as int),
                decreases ne - j,
            {
                candidates.push(bucket.entries[j]);
                j = j + 1;
                assert(candidates@ =~= base + bucket.entries@.take(j as int));
            }
            proof {
                assert(bucket.entries@.take(ne as int) =~= bucket.entries@);
                assert(self.buckets@.take(b + 1).drop_last() =~= self.buckets@.take(b as int));
            }
            b = b + 1;
        }
        assert(self.buckets@.take(nb as int) =~= self.buckets@);
        candidates
    }

    /// The `k` known nodes closest to `target`, nearest first, with their
    /// addresses (ties keep table order: bucket by bucket, front to back).
    pub fn find_closest(&self, target: &NodeId, k: usize) -> (res: Vec<(NodeId, A)>)
        ensures
            res@ == take_at_most(sort_by_distance(self.all_entries(), *target), k as nat).map_values(
                |e: BucketEntry<A>| (e.node_id, e.address),
            ),
    {
        let candidates = self.entries();
        let mut sorted = sort_entries_by_distance(&candidates, target);
        sorted.truncate(k);
        let ghost chosen = sorted@;
        let mut out: Vec<(NodeId, A)> = Vec::new();
        let m = sorted.len();
        let mut i: usize = 0;
        while i < m
            invariant
                m == sorted@.len(),
                i <= m,
                out@ == sorted@.take(i as int).map_values(|e: BucketEntry<A>| (e.node_id, e.address)),
            decreases m - i,
        {
            let e = sorted[i];
            out.push((e.node_id, e.address));
            i = i + 1;
            assert(out@ =~= sorted@.take(i as int).map_values(|e: BucketEntry<A>| (e.node_id, e.address)));
        }
        assert(sorted@.take(m as int) =~= sorted@);
        out
    }
}

// ─────────────────────────────────────────────────────────
// Persisted routing entries
// ─────────────────────────────────────────────────────────

/// The on-disk form of a routing entry: raw identifier bytes, the address as
/// text, and how long ago (milliseconds) the node was last seen.
#[derive(Debug)]
pub struct SerializableBucketEntry {
    pub node_id: Vec<u8>,
    pub address: String,
    pub last_seen_ms: u128,
}

// ─────────────────────────────────────────────────────────
// Key/value storage with re-publishing and expiry
// ─────────────────────────────────────────────────────────

/// A stored value together with when it was first stored and last
/// re-published (milliseconds since the Unix epoch).
#[derive(Debug)]
pub struct RepublishEntry {
    pub key: Vec<u8>,
    pub data: Vec<u8>,
    pub original_time: u64,
    pub last_republish: u64,
}

/// An entry is expired at `now` when more than `max_age` milliseconds have
/// passed since it was first stored.
pub open spec fn is_expired(e: RepublishEntry, now: u64, max_age: u64) -> bool {
    e.original_time < now && now - e.original_time > max_age
}

/// An entry is due for re-publishing at `now` when more than `interval`
/// milliseconds have passed since it was last published.
pub open spec fn is_due(e: RepublishEntry, now: u64, interval: u64) -> bool {
    e.last_republish < now && now - e.last_republish > interval
}

/// The entries that survive expiry, in order.
pub open spec fn kept_entries(s: Seq<RepublishEntry>, now: u64, max_age: u64) -> Seq<RepublishEntry>
    decreases s.len(),
{
    if s.len() == 0 {
        Seq::empty()
    } else if is_expired(s.last(), now, max_age) {
        kept_entries(s.drop_last(), now, max_age)
    } else {
        kept_entries(s.drop_last(), now, max_age).push(s.last())
    }
}

/// The store after removing, in list order, the key of every expired entry.
pub open spec fn expire_pairs(
    pairs: Seq<(Seq<u8>, Seq<u8>)>,
    s: Seq<RepublishEntry>,
    now: u64,
    max_age: u64,
) -> Seq<(Seq<u8>, Seq<u8>)>
    decreases s.len(),
{
    if s.len() == 0 {
        pairs
    } else {
        let before = expire_pairs(pairs, s.drop_last(), now, max_age);
        if is_expired(s.last(), now, max_age) {
            remove_spec(before, s.last().key@)
        } else {
            before
        }
    }
}

/// The (key, value) pairs due for re-publishing, in list order.
pub open spec fn due_items(s: Seq<RepublishEntry>, now: u64, interval: u64) -> Seq<(Seq<u8>, Seq<u8>)>
    decreases s.len(),
{
    if s.len() == 0 {
        Seq::empty()
    } else if is_due(s.last(), now, interval) {
        due_items(s.drop_last(), now, interval).push((s.last().key@, s.last().data@))
    } else {
        due_items(s.drop_last(), now, interval)
    }
}

/// The entry after a re-publishing pass at `now`.
pub open spec fn after_republish(e: RepublishEntry, now: u64, interval: u64) -> RepublishEntry {
    if is_due(e, now, interval) {
        RepublishEntry { last_republish: now, ..e }
    } else {
        e
    }
}

/// A local key/value store: values stored through STORE are re-published
/// periodically and expire after `max_data_age` milliseconds; values learnt
/// through FIND_VALUE are only cached.
#[derive(Debug)]
pub struct SimpleStorage {
    pub data: Vec<(Vec<u8>, Vec<u8>)>,
    pub republish_list: Vec<RepublishEntry>,
    pub cache_lifetime: u64,
    pub republish_interval: u64,
    pub max_data_age: u64,
}

impl SimpleStorage {
    /// The stored pairs, as byte sequences.
    pub open spec fn pairs(&self) -> Seq<(Seq<u8>, Seq<u8>)> {
        byte_pairs(self.data@)
    }

    /// No key is stored twice.
    pub open spec fn wf(&self) -> bool {
        keys_of(self.pairs()).no_duplicates()
    }

    /// An empty store with the given lifetimes (milliseconds).
    pub fn new(cache_lifetime: u64, republish_interval: u64, max_data_age: u64) -> (res: Self)
        ensures
            res.wf(),
            res.pairs().len() == 0,
            res.republish_list@.len() == 0,
            res.cache_lifetime == cache_lifetime,
            res.republish_interval == republish_interval,
            res.max_data_age == max_data_age,
    {
        let res = SimpleStorage {
            data: Vec::new(),
            republish_list: Vec::new(),
            cache_lifetime,
            republish_interval,
            max_data_age,
        };
        assert(keys_of(res.pairs()) =~= Seq::<Seq<u8>>::empty());
        res
    }

    /// Stores `val` under `key` and schedules it for re-publishing, stamped
    /// with the current time.
    pub fn store(&mut self, key: Vec<u8>, val: Vec<u8>)
        requires
            old(self).wf(),
        ensures
            final(self).wf(),
            final(self).pairs() == insert_spec(old(self).pairs(), key@, val@),
            final(self).republish_list@.len() == old(self).republish_list@.len() + 1,
            final(self).republish_list@.drop_last() == old(self).republish_list@,
            final(self).republish_list@.last().key@ == key@,
            final(self).republish_list@.last().data@ == val@,
            final(self).republish_list@.last().original_time == final(self).republish_list@.last().last_republish,
            final(self).cache_lifetime == old(self).cache_lifetime,
            final(self).republish_interval == old(self).republish_interval,
            final(self).max_data_age == old(self).max_data_age,
    {
        let key_copy = copy_bytes(key.as_slice());
        let val_copy = copy_bytes(val.as_slice());
        proof {
            crate::kv::lemma_insert_distinct(self.pairs(), key@, val@);
        }
        put_bytes(&mut self.data, key, val);
        let now = current_time_ms();
        let ghost old_list = self.republish_list@;
        self.republish_list.push(RepublishEntry {
            key: key_copy,
            data: val_copy,
            original_time: now,
            last_republish: now,
        });
        assert(self.republish_list@.drop_last() =~= old_list);
    }

    /// The value stored under `key`, if any.
    pub fn lookup(&self, key: &[u8]) -> (res: Option<&[u8]>)
        ensures
            match res {
                Some(v) => lookup_spec(self.pairs(), key@) == Some(v@),
                None => lookup_spec(self.pairs(), key@) is None,
            },
    {
        match find_byte_key(&self.data, key) {
            Some(i) => Some(self.data[i].1.as_slice()),
            None => None,
        }
    }

    /// Caches a value learnt from the network (not re-published).
    pub fn cache_value(&mut self, key: Vec<u8>, val: Vec<u8>)
        requires
            old(self).wf(),
        ensures
            final(self).wf(),
            final(self).pairs() == insert_spec(old(self).pairs(), key@, val@),
            final(self).republish_list@ == old(self).republish_list@,
            final(self).cache_lifetime == old(self).cache_lifetime,
            final(self).republish_interval == old(self).republish_interval,
            final(self).max_data_age == old(self).max_data_age,
    {
        proof {
            crate::kv::lemma_insert_distinct(self.pairs(), key@, val@);
        }
        put_bytes(&mut self.data, key, val);
    }

    /// What an expiry pass at time `now` does.
    pub open spec fn expire_post(pre: Self, post: Self, now: u64) -> bool {
        &&& post.republish_list@ == kept_entries(pre.republish_list@, now, pre.max_data_age)
        &&& post.pairs() == expire_pairs(pre.pairs(), pre.republish_list@, now, pre.max_data_age)
        &&& post.cache_lifetime == pre.cache_lifetime
        &&& post.republish_interval == pre.republish_interval
        &&& post.max_data_age == pre.max_data_age
    }

    /// Drops every stored value older than `max_data_age`, reading the clock.
    pub fn expire_data(&mut self)
        requires
            old(self).wf(),
        ensures
            final(self).wf(),
            exists|now: u64| Self::expire_post(*old(self), *final(self), now),
    {
        let now = current_time_ms();
        self.expire_data_at(now);
    }

    /// Expiry at time `now`: every schedule entry first stored more than
    /// `max_data_age` milliseconds ago leaves the schedule, and its key leaves
    /// the store.
    pub fn expire_data_at(&mut self, now: u64)
        requires
            old(self).wf(),
        ensures
            final(self).wf(),
            Self::expire_post(*old(self), *final(self), now),
    {
        let ghost orig = self.republish_list@;
        let ghost orig_pairs = self.pairs();
        let max_age = self.max_data_age;
        let mut i: usize = 0;
        let ghost mut j: int = 0;
        assert(orig.take(0) =~= Seq::<RepublishEntry>::empty());
        assert(orig.skip(0) =~= orig);
        assert(kept_entries(orig.take(0), now, max_age) + orig.skip(0) =~= orig);
        while i < self.republish_list.len()
            invariant
                0 <= j <= orig.len(),
                max_age == self.max_data_age,
                self.max_data_age == old(self).max_data_age,
                self.cache_lifetime == old(self).cache_lifetime,
                self.republish_interval == old(self).republish_interval,
                orig == old(self).republish_list@,
                orig_pairs == old(self).pairs(),
                self.republish_list@ == kept_entries(orig.take(j), now, max_age) + orig.skip(j),
                i == kept_entries(orig.take(j), now, max_age).len(),
                self.pairs() == expire_pairs(orig_pairs, orig.take(j), now, max_age),
                self.wf(),
            decreases self.republish_list@.len() - i,
        {
            proof {
                assert(self.republish_list@[i as int] == orig[j]);
                assert(orig.take(j + 1).drop_last() =~= orig.take(j));
                assert(orig.take(j + 1).last() == orig[j]);
            }
            let e = &self.republish_list[i];
            let expired = e.original_time < now && now - e.original_time > max_age;
            if expired {
                proof {
                    crate::kv::lemma_remove_distinct(self.pairs(), e.key@);
                }
                remove_bytes(&mut self.data, e.key.as_slice());
                self.republish_list.remove(i);
                proof {
                    assert(self.republish_list@ =~= kept_entries(orig.take(j + 1), now, max_age) + orig.skip(j + 1));
                }
            } else {
                i = i + 1;
                proof {
                    assert(self.republish_list@ =~= kept_entries(orig.take(j + 1), now, max_age) + orig.skip(j + 1));
                }
            }
            proof {
                j = j + 1;
            }
        }
        proof {
            assert(j == orig.len());
            assert(orig.take(j) =~= orig);
            assert(self.republish_list@ =~= kept_entries(orig, now, max_age));
        }
    }

    /// What a re-publishing pass at time `now` does and returns.
    pub open spec fn republish_post(pre: Self, post: Self, now: u64, res: Seq<(Vec<u8>, Vec<u8>)>) -> bool {
        &&& byte_pairs(res) == due_items(pre.republish_list@, now, pre.republish_interval)
        &&& post.republish_list@ == pre.republish_list@.map_values(
            |e: RepublishEntry| after_republish(e, now, pre.republish_interval),
        )
        &&& post.data@ == pre.data@
        &&& post.cache_lifetime == pre.cache_lifetime
        &&& post.republish_interval == pre.republish_interval
        &&& post.max_data_age == pre.max_data_age
    }

    /// Re-publishing pass, reading the clock: returns the (key, value) pairs
    /// to send again, in schedule order, and marks them published now.
    pub fn republish(&mut self) -> (res: Vec<(Vec<u8>, Vec<u8>)>)
        ensures
            exists|now: u64| Self::republish_post(*old(self), *final(self), now, res@),
    {
        let now = current_time_ms();
        self.republish_at(now)
    }

    /// Re-publishing at time `now`: every schedule entry last published more
    /// than `republish_interval` milliseconds ago is returned and stamped `now`.
    pub fn republish_at(&mut self, now: u64) -> (res: Vec<(Vec<u8>, Vec<u8>)>)
        ensures
            Self::republish_post(*old(self), *final(self), now, res@),
    {
        let ghost orig = self.republish_list@;
        let interval = self.republish_interval;
        let mut out: Vec<(Vec<u8>, Vec<u8>)> = Vec::new();
        let n = self.republish_list.len();
        let mut i: usize = 0;
        assert(orig.take(0) =~= Seq::<RepublishEntry>::empty());
        while i < n
            invariant
                n == orig.len(),
                i <= n,
                interval == self.republish_interval,
                self.republish_list@.len() == n,
                forall|k: int| 0 <= k < i ==> self.republish_list@[k] == after_republish(#[trigger] orig[k], now, interval),
                forall|k: int| i <= k < n ==> self.republish_list@[k] == orig[k],
                byte_pairs(out@) == due_items(orig.take(i as int), now, interval),
                self.data@ == old(self).data@,
                self.cache_lifetime == old(self).cache_lifetime,
                self.max_data_age == old(self).max_data_age,
                self.republish_interval == old(self).republish_interval,
            decreases n - i,
        {
            proof {
                assert(orig.take(i + 1).drop_last() =~= orig.take(i as int));
                assert(orig.take(i + 1).last() == orig[i as int]);
            }
            let last = self.republish_list[i].last_republish;
            if last < now && now - last > interval {
                let k = copy_bytes(self.republish_list[i].key.as_slice());
                let d = copy_bytes(self.republish_list[i].data.as_slice());
                let ghost before = byte_pairs(out@);
                out.push((k, d));
                assert(byte_pairs(out@) =~= before.push((orig[i as int].key@, orig[i as int].data@)));
                let mut entry = self.republish_list.remove(i);
                entry.last_republish = now;
                self.republish_list.insert(i, entry);
            }
            i = i + 1;
        }
        proof {
            assert(orig.take(n as int) =~= orig);
            assert(self.republish_list@ =~= orig.map_values(|e: RepublishEntry| after_republish(e, now, interval)));
        }
        out
    }
}

// ─────────────────────────────────────────────────────────
// Kademlia messages and their handling
// ─────────────────────────────────────────────────────────

/// The Kademlia RPCs exchanged between nodes; `A` is the transport address.
#[derive(Debug)]
pub enum KademliaMessage<A> {
    Ping(NodeId),
    Pong(NodeId),
    FindNode { source: NodeId, target: NodeId },
    FindNodeResult { source: NodeId, closer_nodes: Vec<(NodeId, A)> },
    Store { source: NodeId, key: Vec<u8>, data: Vec<u8> },
    StoreResult { source: NodeId, stored: bool },
    FindValue { source: NodeId, key: Vec<u8> },
    FindValueResult { source: NodeId, key: Vec<u8>, data: Option<Vec<u8>>, closer_nodes: Vec<(NodeId, A)> },
}

/// The node that sent a message (the pinged node for PING and PONG).
pub open spec fn message_source<A>(msg: KademliaMessage<A>) -> NodeId {
    match msg {
        KademliaMessage::Ping(n) => n,
        KademliaMessage::Pong(n) => n,
        KademliaMessage::FindNode { source, .. } => source,
        KademliaMessage::FindNodeResult { source, .. } => source,
        KademliaMessage::Store { source, .. } => source,
        KademliaMessage::StoreResult { source, .. } => source,
        KademliaMessage::FindValue { source, .. } => source,
        KademliaMessage::FindValueResult { source, .. } => source,
    }
}

/// The closest-nodes answer the table gives for `target`.
pub open spec fn closest_view<A: Copy>(table: RoutingTable<A>, target: NodeId, k: nat) -> Seq<(NodeId, A)> {
    take_at_most(sort_by_distance(table.all_entries(), target), k).map_values(
        |e: BucketEntry<A>| (e.node_id, e.address),
    )
}

/// Each table of `tables` is its predecessor after recording the matching
/// node of `nodes`.
pub open spec fn update_chain<A: Copy, F: Fn(NodeId, A) -> bool>(
    tables: Seq<RoutingTable<A>>,
    nodes: Seq<(NodeId, A)>,
    do_ping: F,
) -> bool {
    &&& tables.len() == nodes.len() + 1
    &&& forall|i: int|
        0 <= i < nodes.len() ==> RoutingTable::update_node_post(
            tables[i],
            tables[i + 1],
            (#[trigger] nodes[i]).0,
            nodes[i].1,
            do_ping,
        )
}

/// The table after recording, in order, each of `nodes`.
pub open spec fn updates_post<A: Copy, F: Fn(NodeId, A) -> bool>(
    pre: RoutingTable<A>,
    post: RoutingTable<A>,
    nodes: Seq<(NodeId, A)>,
    do_ping: F,
) -> bool {
    exists|tables: Seq<RoutingTable<A>>|
        #[trigger] update_chain(tables, nodes, do_ping) && tables[0] == pre && tables.last() == post
}

/// The state of one Kademlia node that its message handling reads and
/// changes: identifier, routing table, local store and bucket size `k`.
#[derive(Debug)]
pub struct KademliaService<A> {
    pub local_id: NodeId,
    pub table: RoutingTable<A>,
    pub storage: SimpleStorage,
    pub alpha: usize,
    pub k: usize,
}

impl<A: Copy> KademliaService<A> {
    /// Table and store are well formed, and the table belongs to this node.
    pub open spec fn wf(&self) -> bool {
        &&& self.table.wf()
        &&& self.storage.wf()
        &&& self.table.local_id == self.local_id
    }

    /// A node with an empty table of buckets of `bucket_size` and an empty
    /// store with the given lifetimes (milliseconds).
    pub fn new(
        local_id: NodeId,
        bucket_size: usize,
        alpha: usize,
        cache_lifetime: u64,
        republish_interval: u64,
        max_data_age: u64,
    ) -> (res: Self)
        ensures
            res.wf(),
            res.local_id == local_id,
            res.k == bucket_size,
            res.alpha == alpha,
            res.table.bucket_size == bucket_size,
            res.table.all_entries().len() == 0,
            res.storage.pairs().len() == 0,
            res.storage.max_data_age == max_data_age,
            res.storage.republish_interval == republish_interval,
            res.storage.cache_lifetime == cache_lifetime,
    {
        let table = RoutingTable::new(local_id, bucket_size);
        let storage = SimpleStorage::new(cache_lifetime, republish_interval, max_data_age);
        proof {
            lemma_flatten_empty(table.buckets@);
        }
        KademliaService { local_id, table, storage, alpha, k: bucket_size }
    }

    /// Handles one incoming message from `sender_addr`: records the sender in
    /// the routing table, serves the request, and returns the replies to
    /// send as (address, message) pairs. `do_ping` pings a node and reports
    /// whether it may be considered alive.
    pub fn handle_message<F: Fn(NodeId, A) -> bool>(
        &mut self,
        sender_addr: A,
        msg: KademliaMessage<A>,
        do_ping: &F,
    ) -> (replies: Vec<(A, KademliaMessage<A>)>)
        requires
            old(self).wf(),
            forall|n: NodeId, a: A| do_ping.requires((n, a)),
        ensures
            final(self).wf(),
            final(self).local_id == old(self).local_id,
            final(self).k == old(self).k,
            final(self).alpha == old(self).alpha,
            final(self).storage.republish_interval == old(self).storage.republish_interval,
            final(self).storage.max_data_age == old(self).storage.max_data_age,
            final(self).storage.cache_lifetime == old(self).storage.cache_lifetime,
            match msg {
                KademliaMessage::FindNodeResult { source, closer_nodes } => updates_post(
                    old(self).table,
                    final(self).table,
                    seq![(source, sender_addr)] + closer_nodes@,
                    *do_ping,
                ),
                _ => RoutingTable::update_node_post(old(self).table, final(self).table, message_source(msg), sender_addr, *do_ping),
            },
            match msg {
                KademliaMessage::Ping(node_id) => {
                    &&& final(self).storage == old(self).storage
                    &&& exists|alive: bool| #[trigger] (*do_ping).ensures((node_id, sender_addr), alive) && if alive {
                        &&& replies@.len() == 1
                        &&& replies@[0].0 == sender_addr
                        &&& replies@[0].1 == KademliaMessage::<A>::Pong(old(self).local_id)
                    } else {
                        replies@.len() == 0
                    }
                },
                KademliaMessage::FindNode { source, target } => {
                    &&& final(self).storage == old(self).storage
                    &&& replies@.len() == 1
                    &&& replies@[0].0 == sender_addr
                    &&& replies@[0].1 matches KademliaMessage::FindNodeResult { source: s, closer_nodes: c }
                        && s == old(self).local_id
                        && c@ == closest_view(final(self).table, target, old(self).k as nat)
                },
                KademliaMessage::Store { source, key, data } => {
                    &&& final(self).storage.pairs() == insert_spec(old(self).storage.pairs(), key@, data@)
                    &&& final(self).storage.republish_list@.drop_last() == old(self).storage.republish_list@
                    &&& final(self).storage.republish_list@.len() == old(self).storage.republish_list@.len() + 1
                    &&& final(self).storage.republish_list@.last().key@ == key@
                    &&& final(self).storage.republish_list@.last().data@ == data@
                    &&& replies@.len() == 1
                    &&& replies@[0].0 == sender_addr
                    &&& replies@[0].1 == KademliaMessage::<A>::StoreResult { source: old(self).local_id, stored: true }
                },
                KademliaMessage::FindValue { source, key } => {
                    &&& final(self).storage == old(self).storage
                    &&& replies@.len() == 1
                    &&& replies@[0].0 == sender_addr
                    &&& replies@[0].1 matches KademliaMessage::FindValueResult { source: s, key: k2, data: d, closer_nodes: c }
                        && s == old(self).local_id
                        && k2@ == key@
                        && (match d {
                            Some(v) => lookup_spec(old(self).storage.pairs(), key@) == Some(v@),
                            None => lookup_spec(old(self).storage.pairs(), key@) is None,
                        })
                        && (d is Some ==> c@.len() == 0)
                        && (d is None ==> exists|t: NodeId| c@ == closest_view(final(self).table, t, old(self).k as nat))
                },
                KademliaMessage::FindValueResult { source, key, data, closer_nodes } => {
                    &&& replies@.len() == 0
                    &&& match data {
                        Some(d) => {
                            &&& final(self).storage.pairs() == insert_spec(old(self).storage.pairs(), key@, d@)
                            &&& final(self).storage.republish_list@ == old(self).storage.republish_list@
                        },
                        None => final(self).storage == old(self).storage,
                    }
                },
                _ => {
                    &&& final(self).storage == old(self).storage
                    &&& replies@.len() == 0
                },
            },
    {
        let mut replies: Vec<(A, KademliaMessage<A>)> = Vec::new();
        match msg {
            KademliaMessage::Ping(node_id) => {
                let ok = do_ping(node_id, sender_addr);
                assert((*do_ping).ensures((node_id, sender_addr), ok));
                if ok {
                    replies.push((sender_addr, KademliaMessage::Pong(self.local_id)));
                }
                assert(if ok {
                    &&& replies@.len() == 1
                    &&& replies@[0].0 == sender_addr
                    &&& replies@[0].1 == KademliaMessage::<A>::Pong(old(self).local_id)
                } else {
                    replies@.len() == 0
                });
                self.table.update_node(node_id, sender_addr, do_ping);
            },
            KademliaMessage::Pong(node_id) => {
                self.table.update_node(node_id, sender_addr, do_ping);
            },
            KademliaMessage::FindNode { source, target } => {
                self.table.update_node(source, sender_addr, do_ping);
                let closer = self.table.find_closest(&target, self.k);
                replies.push((sender_addr, KademliaMessage::FindNodeResult { source: self.local_id, closer_nodes: closer }));
            },
            KademliaMessage::FindNodeResult { source, closer_nodes } => {
                let ghost t0 = self.table;
                self.table.update_node(source, sender_addr, do_ping);
                let ghost nodes = seq![(source, sender_addr)] + closer_nodes@;
                let ghost mut tables = seq![t0, self.table];
                proof {
                    assert(nodes.take(1)[0] == (source, sender_addr));
                    assert(update_chain(tables, nodes.take(1), *do_ping));
                }
                let m = closer_nodes.len();
                let mut i: usize = 0;
                while i < m
                    invariant
                        m == closer_nodes@.len(),
                        i <= m,
                        nodes == seq![(source, sender_addr)] + closer_nodes@,
                        self.table.wf(),
                        self.table.local_id == self.local_id,
                        self.storage == old(self).storage,
                        self.storage.wf(),
                        self.local_id == old(self).local_id,
                        self.k == old(self).k,
                        self.alpha == old(self).alpha,
                        update_chain(tables, nodes.take(i + 1), *do_ping),
                        tables[0] == t0,
                        tables.last() == self.table,
                        forall|n: NodeId, a: A| do_ping.requires((n, a)),
                    decreases m - i,
                {
                    let (nid, addr) = closer_nodes[i];
                    self.table.update_node(nid, addr, do_ping);
                    proof {
                        let old_tables = tables;
                        tables = tables.push(self.table);
                        assert(nodes.take(i + 2)[i + 1] == closer_nodes@[i as int]);
                        assert forall|j: int| 0 <= j < i + 2 implies RoutingTable::update_node_post(
                            tables[j],
                            tables[j + 1],
                            (#[trigger] nodes.take(i + 2)[j]).0,
                            nodes.take(i + 2)[j].1,
                            *do_ping,
                        ) by {
                            if j < i + 1 {
                                assert(nodes.take(i + 2)[j] == nodes.take(i + 1)[j]);
                                assert(tables[j] == old_tables[j]);
                                assert(tables[j + 1] == old_tables[j + 1]);
                            }
                        }
                    }
                    i = i + 1;
                }
                proof {
                    assert(nodes.take(m + 1) =~= nodes);
                }
            },
            KademliaMessage::Store { source, key, data } => {
                self.table.update_node(source, sender_addr, do_ping);
                self.storage.store(key, data);
                replies.push((sender_addr, KademliaMessage::StoreResult { source: self.local_id, stored: true }));
            },
            KademliaMessage::StoreResult { source, stored } => {
                self.table.update_node(source, sender_addr, do_ping);
            },
            KademliaMessage::FindValue { source, key } => {
                self.table.update_node(source, sender_addr, do_ping);
                let data_opt: Option<Vec<u8>> = match self.storage.lookup(key.as_slice()) {
                    Some(v) => Some(copy_bytes(v)),
                    None => None,
                };
                let closer_nodes = if data_opt.is_none() {
                    let target = NodeId::random();
                    let c = self.table.find_closest(&target, self.k);
                    assert(c@ == closest_view(self.table, target, self.k as nat));
                    c
                } else {
                    Vec::new()
                };
                replies.push((sender_addr, KademliaMessage::FindValueResult {
                    source: self.local_id,
                    key,
                    data: data_opt,
                    closer_nodes,
                }));
            },
            KademliaMessage::FindValueResult { source, key, data, closer_nodes } => {
                self.table.update_node(source, sender_addr, do_ping);
                if let Some(d) = data {
                    self.storage.cache_value(key, d);
                }
            },
        }
        replies
    }

    /// One maintenance pass at `now` (milliseconds): expired values are
    /// dropped, and every value due for re-publishing is sent, as a STORE
    /// from this node, to each of the `bucket_size` nodes closest to it.
    /// Returns the (address, message) pairs to send.
    pub fn republish_messages_at(&mut self, now: u64) -> (msgs: Vec<(A, KademliaMessage<A>)>)
        requires
            old(self).wf(),
        ensures
            final(self).wf(),
            final(self).local_id == old(self).local_id,
            final(self).table == old(self).table,
            final(self).k == old(self).k,
            final(self).alpha == old(self).alpha,
            final(self).storage.pairs() == expire_pairs(
                old(self).storage.pairs(),
                old(self).storage.republish_list@,
                now,
                old(self).storage.max_data_age,
            ),
            final(self).storage.republish_list@ == kept_entries(old(self).storage.republish_list@, now, old(self).storage.max_data_age)
                .map_values(|e: RepublishEntry| after_republish(e, now, old(self).storage.republish_interval)),
            final(self).storage.cache_lifetime == old(self).storage.cache_lifetime,
            final(self).storage.republish_interval == old(self).storage.republish_interval,
            final(self).storage.max_data_age == old(self).storage.max_data_age,
            ({
                let f = store_fanout(
                    due_items(
                        kept_entries(old(self).storage.republish_list@, now, old(self).storage.max_data_age),
                        now,
                        old(self).storage.republish_interval,
                    ),
                    closest_view(old(self).table, old(self).local_id, old(self).table.bucket_size as nat),
                );
                &&& msgs@.len() == f.len()
                &&& forall|i: int| 0 <= i < f.len() ==> is_store_to(#[trigger] msgs@[i], f[i], old(self).local_id)
            }),
    {
        self.storage.expire_data_at(now);
        let items = self.storage.republish_at(now);
        let nodes = self.table.find_closest(&self.local_id, self.table.bucket_size);
        let ghost iv = byte_pairs(items@);
        let ghost nv = nodes@;
        let mut msgs: Vec<(A, KademliaMessage<A>)> = Vec::new();
        let mut i: usize = 0;
        assert(iv.take(0) =~= Seq::<(Seq<u8>, Seq<u8>)>::empty());
        while i < items.len()
            invariant
                iv == byte_pairs(items@),
                nv == nodes@,
                i <= items@.len(),
                msgs@.len() == store_fanout(iv.take(i as int), nv).len(),
                forall|k: int| 0 <= k < msgs@.len() ==> is_store_to(#[trigger] msgs@[k], store_fanout(iv.take(i as int), nv)[k], self.local_id),
            decreases items@.len() - i,
        {
            let ghost before = store_fanout(iv.take(i as int), nv);
            let ghost item = iv[i as int];
            assert(iv.take(i + 1).drop_last() =~= iv.take(i as int));
            assert(iv.take(i + 1).last() == item);
            let mut j: usize = 0;
            while j < nodes.len()
                invariant
                    iv == byte_pairs(items@),
                    nv == nodes@,
                    i < items@.len(),
                    item == iv[i as int],
                    j <= nodes@.len(),
                    msgs@.len() == before.len() + j,
                    forall|k: int| 0 <= k < before.len() ==> is_store_to(#[trigger] msgs@[k], before[k], self.local_id),
                    forall|k: int| 0 <= k < j ==> is_store_to(#[trigger] msgs@[before.len() + k], (nv[k].1, item.0, item.1), self.local_id),
                decreases nodes@.len() - j,
            {
                let key = copy_bytes(items[i].0.as_slice());
                let data = copy_bytes(items[i].1.as_slice());
                let m = KademliaMessage::Store { source: self.local_id, key, data };
                msgs.push((nodes[j].1, m));
                proof {
                    assert(is_store_to(msgs@[before.len() + j], (nv[j as int].1, item.0, item.1), self.local_id));
                }
                j = j + 1;
            }
            proof {
                let after = store_fanout(iv.take(i + 1), nv);
                let tail = nv.map_values(|n: (NodeId, A)| (n.1, item.0, item.1));
                assert(after == before + tail);
                assert forall|k: int| 0 <= k < msgs@.len() implies is_store_to(#[trigger] msgs@[k], after[k], self.local_id) by {
                    if k >= before.len() {
                        assert(after[k] == tail[k - before.len()]);
                        assert(msgs@[k] == msgs@[before.len() + (k - before.len())]);
                    }
                }
            }
            i = i + 1;
        }
        proof {
            assert(iv.take(items@.len() as int) =~= iv);
        }
        msgs
    }
}

/// Each due item, in order, addressed to each node in turn: (address, key,
/// value).
pub open spec fn store_fanout<A>(items: Seq<(Seq<u8>, Seq<u8>)>, nodes: Seq<(NodeId, A)>) -> Seq<(A, Seq<u8>, Seq<u8>)>
    decreases items.len(),
{
    if items.len() == 0 {
        Seq::empty()
    } else {
        let last = items.last();
        store_fanout(items.drop_last(), nodes) + nodes.map_values(|n: (NodeId, A)| (n.1, last.0, last.1))
    }
}

/// `m` is a STORE from `local` of key `t.1` and value `t.2`, sent to `t.0`.
pub open spec fn is_store_to<A>(m: (A, KademliaMessage<A>), t: (A, Seq<u8>, Seq<u8>), local: NodeId) -> bool {
    &&& m.0 == t.0
    &&& m.1 matches KademliaMessage::Store { source, key, data } && source == local && key@ == t.1 && data@ == t.2
}

proof fn lemma_flatten_empty<A>(bs: Seq<KBucket<A>>)
    requires
        forall|i: int| 0 <= i < bs.len() ==> (#[trigger] bs[i]).entries@.len() == 0,
    ensures
        flatten_buckets(bs).len() == 0,
    decreases bs.len(),
{
    if bs.len() > 0 {
        lemma_flatten_empty(bs.drop_last());
    }
}

// ─────────────────────────────────────────────────────────
// Laws
// ─────────────────────────────────────────────────────────

/// Entries are in non-decreasing distance from `target`.
pub open spec fn sorted_by_distance<A>(s: Seq<BucketEntry<A>>, target: NodeId) -> bool {
    forall|i: int, j: int| 0 <= i < j < s.len() ==> distance(#[trigger] s[i].node_id, target) <= distance(#[trigger] s[j].node_id, target)
}

proof fn lemma_insert_by_distance_props<A>(s: Seq<BucketEntry<A>>, e: BucketEntry<A>, target: NodeId)
    requires
        sorted_by_distance(s, target),
    ensures
        sorted_by_distance(insert_by_distance(s, e, target), target),
        insert_by_distance(s, e, target).to_multiset() == s.to_multiset().insert(e),
    decreases s.len(),
{
    broadcast use vstd::seq_lib::group_to_multiset_ensures;
    if s.len() == 0 {
        assert(seq![e] =~= Seq::<BucketEntry<A>>::empty().push(e));
    } else if distance(s.last().node_id, target) <= distance(e.node_id, target) {
    } else {
        let r = insert_by_distance(s.drop_last(), e, target);
        lemma_insert_by_distance_props(s.drop_last(), e, target);
        assert(s.drop_last().push(s.last()) =~= s);
        let res = r.push(s.last());
        assert forall|i: int, j: int| 0 <= i < j < res.len() implies distance(#[trigger] res[i].node_id, target) <= distance(#[trigger] res[j].node_id, target) by {
            if j == res.len() - 1 {
                assert(r.to_multiset().contains(r[i]));
                assert(s.drop_last().to_multiset().insert(e).contains(r[i]));
                if r[i] == e {
                } else {
                    assert(s.drop_last().to_multiset().contains(r[i]));
                    assert(s.drop_last().contains(r[i]));
                    let k = choose|k: int| 0 <= k < s.drop_last().len() && s.drop_last()[k] == r[i];
                    assert(s[k] == r[i]);
                }
            }
        }
    }
}

/// Ordering by distance keeps exactly the same entries and puts them in
/// non-decreasing distance from the target.
pub proof fn lemma_sort_by_distance<A>(s: Seq<BucketEntry<A>>, target: NodeId)
    ensures
        sorted_by_distance(sort_by_distance(s, target), target),
        sort_by_distance(s, target).to_multiset() == s.to_multiset(),
    decreases s.len(),
{
    broadcast use vstd::seq_lib::group_to_multiset_ensures;
    if s.len() > 0 {
        lemma_sort_by_distance(s.drop_last(), target);
        lemma_insert_by_distance_props(sort_by_distance(s.drop_last(), target), s.last(), target);
        assert(s.drop_last().push(s.last()) =~= s);
    }
}

/// `find_closest` answers with table entries only, nearest first, and with
/// no nearer entry left out: every known node missing from a full answer is
/// at least as far from the target as every node in it.
pub proof fn lemma_find_closest_nearest_first<A: Copy>(table: RoutingTable<A>, target: NodeId, k: nat)
    ensures
        ({
            let sorted = sort_by_distance(table.all_entries(), target);
            let chosen = take_at_most(sorted, k);
            &&& sorted_by_distance(chosen, target)
            &&& forall|i: int| 0 <= i < chosen.len() ==> table.all_entries().contains(#[trigger] chosen[i])
            &&& forall|i: int, j: int| 0 <= i < chosen.len() <= j < sorted.len()
                ==> distance(#[trigger] chosen[i].node_id, target) <= distance(#[trigger] sorted[j].node_id, target)
        }),
{
    broadcast use vstd::seq_lib::group_to_multiset_ensures;
    let all = table.all_entries();
    let sorted = sort_by_distance(all, target);
    lemma_sort_by_distance(all, target);
    let chosen = take_at_most(sorted, k);
    assert forall|i: int| 0 <= i < chosen.len() implies all.contains(#[trigger] chosen[i]) by {
        assert(chosen[i] == sorted[i]);
        assert(sorted.to_multiset().contains(sorted[i]));
    }
    assert forall|i: int, j: int| 0 <= i < chosen.len() <= j < sorted.len()
        implies distance(#[trigger] chosen[i].node_id, target) <= distance(#[trigger] sorted[j].node_id, target) by {
        assert(chosen[i] == sorted[i]);
    }
    assert forall|i: int, j: int| 0 <= i < j < chosen.len()
        implies distance(#[trigger] chosen[i].node_id, target) <= distance(#[trigger] chosen[j].node_id, target) by {
        assert(chosen[i] == sorted[i]);
        assert(chosen[j] == sorted[j]);
    }
}

/// The XOR metric is symmetric and a node is at distance 0 from itself.
pub proof fn lemma_distance_symmetric(a: NodeId, b: NodeId)
    ensures
        distance(a, b) == distance(b, a),
        distance(a, a) == 0,
{
    assert forall|i: int| 0 <= i < 32 implies #[trigger] xor_bytes(a.0@, b.0@)[i] == xor_bytes(b.0@, a.0@)[i] by {
        let x = a.0@[i];
        let y = b.0@[i];
        assert(x ^ y == y ^ x) by (bit_vector);
    }
    assert(xor_bytes(a.0@, b.0@) =~= xor_bytes(b.0@, a.0@));
    assert forall|i: int| 0 <= i < 32 implies #[trigger] xor_bytes(a.0@, a.0@)[i] == 0 by {
        let x = a.0@[i];
        assert(x ^ x == 0) by (bit_vector);
    }
    lemma_be_value_zero(xor_bytes(a.0@, a.0@).take(16));
}

proof fn lemma_be_value_zero(s: Seq<u8>)
    requires
        forall|i: int| 0 <= i < s.len() ==> s[i] == 0,
    ensures
        be_value(s) == 0,
    decreases s.len(),
{
    if s.len() > 0 {
        lemma_be_value_zero(s.drop_last());
    }
}

/// A value just stored is what a lookup of its key returns, and storing one
/// key leaves every other key's value as it was.
pub proof fn lemma_store_then_lookup(pairs: Seq<(Seq<u8>, Seq<u8>)>, key: Seq<u8>, val: Seq<u8>, other: Seq<u8>)
    ensures
        lookup_spec(insert_spec(pairs, key, val), key) == Some(val),
        other != key ==> lookup_spec(insert_spec(pairs, key, val), other) == lookup_spec(pairs, other),
{
    crate::kv::lemma_lookup_insert_same(pairs, key, val);
    if other != key {
        crate::kv::lemma_lookup_insert_other(pairs, key, val, other);
    }
}


proof fn lemma_kept_entries(s: Seq<RepublishEntry>, now: u64, max_age: u64, e: RepublishEntry)
    ensures
        kept_entries(s, now, max_age).contains(e) <==> (s.contains(e)
            && !(e.original_time < now && now - e.original_time > max_age)),
    decreases s.len(),
{
    if s.len() > 0 {
        let d = s.drop_last();
        lemma_kept_entries(d, now, max_age, e);
        let k = kept_entries(d, now, max_age);
        if s.contains(e) && !(e.original_time < now && now - e.original_time > max_age) {
            let i = choose|i: int| 0 <= i < s.len() && s[i] == e;
            if i < s.len() - 1 {
                assert(d[i] == e);
                let j = choose|j: int| 0 <= j < k.len() && k[j] == e;
                if !is_expired(s.last(), now, max_age) {
                    assert(k.push(s.last())[j] == e);
                }
            } else {
                let r = kept_entries(s, now, max_age);
                assert(r[r.len() - 1] == e);
            }
        }
        if kept_entries(s, now, max_age).contains(e) {
            let r = kept_entries(s, now, max_age);
            let j = choose|j: int| 0 <= j < r.len() && r[j] == e;
            if is_expired(s.last(), now, max_age) || j < k.len() {
                if !is_expired(s.last(), now, max_age) {
                    assert(r[j] == k[j]);
                }
                assert(k.contains(e));
                let i = choose|i: int| 0 <= i < d.len() && d[i] == e;
                assert(s[i] == e);
            } else {
                assert(e == s.last());
                assert(s[s.len() - 1] == e);
            }
        }
    }
}

proof fn lemma_remove_keeps_absent<K, V>(pairs: Seq<(K, V)>, r: K, k: K)
    requires
        lookup_spec(pairs, k) is None,
    ensures
        lookup_spec(remove_spec(pairs, r), k) is None,
{
    keys_of(pairs).index_of_first_ensures(r);
    keys_of(pairs).index_of_first_ensures(k);
    let q = remove_spec(pairs, r);
    keys_of(q).index_of_first_ensures(k);
    if let Some(j) = keys_of(q).index_of_first(k) {
        match keys_of(pairs).index_of_first(r) {
            Some(p) => {
                let oj = if j < p { j } else { j + 1 };
                assert(keys_of(pairs)[oj] == k);
            },
            None => {
                assert(keys_of(pairs)[j] == k);
            },
        }
    }
}

proof fn lemma_expire_pairs_removes(
    pairs: Seq<(Seq<u8>, Seq<u8>)>,
    s: Seq<RepublishEntry>,
    now: u64,
    max_age: u64,
    k: Seq<u8>,
)
    requires
        keys_of(pairs).no_duplicates(),
    ensures
        keys_of(expire_pairs(pairs, s, now, max_age)).no_duplicates(),
        (exists|i: int| 0 <= i < s.len() && (#[trigger] s[i]).key@ == k
            && s[i].original_time < now && now - s[i].original_time > max_age)
            ==> lookup_spec(expire_pairs(pairs, s, now, max_age), k) is None,
    decreases s.len(),
{
    if s.len() > 0 {
        let d = s.drop_last();
        lemma_expire_pairs_removes(pairs, d, now, max_age, k);
        let before = expire_pairs(pairs, d, now, max_age);
        if is_expired(s.last(), now, max_age) {
            crate::kv::lemma_remove_distinct(before, s.last().key@);
        }
        if exists|i: int| 0 <= i < s.len() && (#[trigger] s[i]).key@ == k
            && s[i].original_time < now && now - s[i].original_time > max_age {
            let i = choose|i: int| 0 <= i < s.len() && (#[trigger] s[i]).key@ == k
                && s[i].original_time < now && now - s[i].original_time > max_age;
            if i == s.len() - 1 {
                crate::kv::lemma_lookup_remove_same(before, k);
            } else {
                assert(d[i] == s[i]);
                if is_expired(s.last(), now, max_age) {
                    lemma_remove_keeps_absent(before, s.last().key@, k);
                }
            }
        }
    }
}

/// Expiry is measured from when a value was first stored, whatever its last
/// re-publishing: after an expiry pass at `now`, no schedule entry is older
/// than the maximum age, every entry older than it is gone from the schedule
/// and its key from the store, and every younger entry is kept.
pub proof fn lemma_expiry_from_first_store(pre: SimpleStorage, post: SimpleStorage, now: u64)
    requires
        pre.wf(),
        SimpleStorage::expire_post(pre, post, now),
    ensures
        forall|e: RepublishEntry| #[trigger] post.republish_list@.contains(e)
            ==> !(e.original_time < now && now - e.original_time > pre.max_data_age),
        forall|i: int| 0 <= i < pre.republish_list@.len()
            && (#[trigger] pre.republish_list@[i]).original_time < now
            && now - pre.republish_list@[i].original_time > pre.max_data_age ==> {
                &&& !post.republish_list@.contains(pre.republish_list@[i])
                &&& lookup_spec(post.pairs(), pre.republish_list@[i].key@) is None
            },
        forall|i: int| 0 <= i < pre.republish_list@.len()
            && !((#[trigger] pre.republish_list@[i]).original_time < now
            && now - pre.republish_list@[i].original_time > pre.max_data_age)
            ==> post.republish_list@.contains(pre.republish_list@[i]),
{
    let s = pre.republish_list@;
    let max = pre.max_data_age;
    assert forall|e: RepublishEntry| #[trigger] post.republish_list@.contains(e)
        implies !(e.original_time < now && now - e.original_time > max) by {
        lemma_kept_entries(s, now, max, e);
    }
    assert forall|i: int| 0 <= i < s.len() && (#[trigger] s[i]).original_time < now && now - s[i].original_time > max implies {
        &&& !post.republish_list@.contains(s[i])
        &&& lookup_spec(post.pairs(), s[i].key@) is None
    } by {
        lemma_kept_entries(s, now, max, s[i]);
        lemma_expire_pairs_removes(pre.pairs(), s, now, max, s[i].key@);
    }
    assert forall|i: int| 0 <= i < s.len() && !((#[trigger] s[i]).original_time < now && now - s[i].original_time > max)
        implies post.republish_list@.contains(s[i]) by {
        lemma_kept_entries(s, now, max, s[i]);
        assert(s.contains(s[i]));
    }
}

/// Re-publishing never changes when a value was first stored: the schedule
/// keeps its entries in order with the same keys, data and first-store
/// times; only the re-publishing time of the due ones moves to `now`.
pub proof fn lemma_republish_keeps_first_store(pre: SimpleStorage, post: SimpleStorage, now: u64, res: Seq<(Vec<u8>, Vec<u8>)>)
    requires
        SimpleStorage::republish_post(pre, post, now, res),
    ensures
        post.republish_list@.len() == pre.republish_list@.len(),
        forall|i: int| 0 <= i < pre.republish_list@.len() ==> {
            &&& (#[trigger] post.republish_list@[i]).original_time == pre.republish_list@[i].original_time
            &&& post.republish_list@[i].key == pre.republish_list@[i].key
            &&& post.republish_list@[i].data == pre.republish_list@[i].data
            &&& post.republish_list@[i].last_republish == if pre.republish_list@[i].last_republish < now
                && now - pre.republish_list@[i].last_republish > pre.republish_interval { now } else { pre.republish_list@[i].last_republish }
        },
        post.max_data_age == pre.max_data_age,
{
}


/// Re-publishing does not postpone expiry: a value re-published at `t1` and
/// older than the maximum age at `t2`, counted from when it was first
/// stored, is gone after an expiry pass at `t2`.
pub proof fn lemma_republish_does_not_postpone_expiry(
    s0: SimpleStorage,
    s1: SimpleStorage,
    s2: SimpleStorage,
    t1: u64,
    t2: u64,
    res: Seq<(Vec<u8>, Vec<u8>)>,
)
    requires
        s0.wf(),
        SimpleStorage::republish_post(s0, s1, t1, res),
        SimpleStorage::expire_post(s1, s2, t2),
    ensures
        forall|i: int| 0 <= i < s0.republish_list@.len()
            && (#[trigger] s0.republish_list@[i]).original_time < t2
            && t2 - s0.republish_list@[i].original_time > s0.max_data_age
            ==> lookup_spec(s2.pairs(), s0.republish_list@[i].key@) is None
                && !s2.republish_list@.contains(s1.republish_list@[i]),
{
    lemma_republish_keeps_first_store(s0, s1, t1, res);
    assert(s1.pairs() == s0.pairs());
    lemma_expiry_from_first_store(s1, s2, t2);
    assert forall|i: int| 0 <= i < s0.republish_list@.len()
        && (#[trigger] s0.republish_list@[i]).original_time < t2
        && t2 - s0.republish_list@[i].original_time > s0.max_data_age
        implies lookup_spec(s2.pairs(), s0.republish_list@[i].key@) is None
            && !s2.republish_list@.contains(s1.republish_list@[i]) by {
        assert(s1.republish_list@[i].original_time == s0.republish_list@[i].original_time);
        assert(s1.republish_list@[i].key == s0.republish_list@[i].key);
    }
}

} // verus!
