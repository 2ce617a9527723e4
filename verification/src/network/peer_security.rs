use vstd::prelude::*;

use crate::clock::current_time_ms;
use crate::kv::{insert_spec, keys_of, lookup_spec};
use crate::rate_limiting::token_bucket::{refill_due, refilled_tokens, TokenBucket};

verus! {

/// A peer's network address: IP (IPv4 addresses mapped into IPv6) and port.
#[derive(Clone, Copy, Debug, PartialEq, Eq, Hash, Structural)]
pub struct PeerAddr {
    pub ip: u128,
    pub port: u16,
}

/// Tokens a peer may spend at once.
pub const PEER_BUCKET_CAPACITY: u64 = 200;

/// Tokens a peer regains per second.
pub const PEER_BUCKET_REFILL: u64 = 50;

/// Per-peer rate limiting, plus the anonymity settings of the node.
#[derive(Debug)]
pub struct P2PSecurity {
    pub rate_limiters: Vec<(PeerAddr, TokenBucket)>,
    pub use_tor: bool,
    pub stun_servers: Vec<String>,
}

/// The result of a peer's first request at `now`: a fresh bucket made at
/// `now` admits it and keeps one token less.
pub open spec fn fresh_bucket_post(b: TokenBucket, now: u64, admitted: bool) -> bool {
    &&& admitted
    &&& b.capacity() == PEER_BUCKET_CAPACITY
    &&& b.tokens() == PEER_BUCKET_CAPACITY - 1
    &&& b.refill_rate() == PEER_BUCKET_REFILL
    &&& b.last_refill() == now
}

/// What one request at `now` does to a peer's bucket: the existing bucket
/// `pre` refills and spends, or a fresh one is made.
pub open spec fn bucket_step(pre: Option<TokenBucket>, post: TokenBucket, now: u64, admitted: bool) -> bool {
    match pre {
        Some(b) => TokenBucket::consume_post(b, post, now, admitted),
        None => fresh_bucket_post(post, now, admitted),
    }
}

/// The position of `addr`'s bucket.
fn find_peer(v: &Vec<(PeerAddr, TokenBucket)>, addr: PeerAddr) -> (res: Option<usize>)
    ensures
        res is None ==> keys_of(v@).index_of_first(addr) is None,
        res matches Some(i) ==> i < v@.len() && keys_of(v@).index_of_first(addr) == Some(i as int),
{
    let ghost ks = keys_of(v@);
    proof {
        ks.index_of_first_ensures(addr);
    }
    let mut i: usize = 0;
    while i < v.len()
        invariant
            ks == keys_of(v@),
            i <= v@.len(),
            forall|j: int| 0 <= j < i ==> ks[j] != addr,
        decreases v@.len() - i,
    {
        if v[i].0 == addr {
            proof {
                ks.index_of_first_ensures(addr);
                assert(ks[i as int] == addr);
                assert(ks.contains(addr));
                let k = ks.index_of_first(addr).unwrap();
                if k < i {
                    assert(ks[k] != addr);
                }
                if k > i {
                    assert(ks[i as int] == addr);
                }
            }
            return Some(i);
        }
        i = i + 1;
    }
    proof {
        if ks.index_of_first(addr) is Some {
            let k = ks.index_of_first(addr).unwrap();
            assert(ks[k] == addr);
        }
    }
    None
}

impl P2PSecurity {
    /// Each peer's bucket.
    pub open spec fn buckets(&self) -> Seq<(PeerAddr, TokenBucket)> {
        self.rate_limiters@
    }

    /// One bucket per peer, none above its capacity.
    pub open spec fn wf(&self) -> bool {
        &&& keys_of(self.buckets()).no_duplicates()
        &&& forall|i: int| 0 <= i < self.buckets().len() ==> (#[trigger] self.buckets()[i]).1.tokens() <= self.buckets()[i].1.capacity()
    }

    /// No peer seen yet.
    pub fn new(use_tor: bool, stun_servers: Vec<String>) -> (res: Self)
        ensures
            res.wf(),
            res.buckets().len() == 0,
            res.use_tor == use_tor,
            res.stun_servers == stun_servers,
    {
        let res = P2PSecurity { rate_limiters: Vec::new(), use_tor, stun_servers };
        assert(keys_of(res.buckets()) =~= Seq::<PeerAddr>::empty());
        res
    }

    /// A request from `addr` at time `now` (milliseconds): the peer's bucket,
    /// made on its first request, decides whether it is admitted.
    pub fn check_rate_limit_at(&mut self, addr: PeerAddr, now: u64) -> (admitted: bool)
        requires
            old(self).wf(),
        ensures
            final(self).wf(),
            final(self).use_tor == old(self).use_tor,
            final(self).stun_servers == old(self).stun_servers,
            exists|nb: TokenBucket|
                final(self).buckets() == insert_spec(old(self).buckets(), addr, nb)
                && #[trigger] bucket_step(lookup_spec(old(self).buckets(), addr), nb, now, admitted),
    {
        let ghost old_b = self.rate_limiters@;
        proof {
            keys_of(old_b).index_of_first_ensures(addr);
        }
        let found = find_peer(&self.rate_limiters, addr);
        match found {
            Some(k) => {
                let mut bucket = self.rate_limiters[k].1;
                assert(self.rate_limiters@[k as int].1.tokens() <= self.rate_limiters@[k as int].1.capacity());
                let admitted = bucket.try_consume_at(now);
                self.rate_limiters.set(k, (addr, bucket));
                proof {
                    assert(self.rate_limiters@ =~= old_b.update(k as int, (addr, bucket)));
                    crate::kv::lemma_insert_distinct(old_b, addr, bucket);
                    assert forall|j: int| 0 <= j < self.buckets().len() implies (#[trigger] self.buckets()[j]).1.tokens() <= self.buckets()[j].1.capacity() by {
                        if j != k {
                            assert(self.buckets()[j] == old_b[j]);
                        }
                    }
                    assert(bucket_step(lookup_spec(old_b, addr), bucket, now, admitted));
                }
                admitted
            },
            None => {
                let mut bucket = TokenBucket::new_at(PEER_BUCKET_CAPACITY, PEER_BUCKET_REFILL, now);
                let ghost fresh = bucket;
                let admitted = bucket.try_consume_at(now);
                assert(!refill_due(fresh.last_refill(), now));
                assert(refilled_tokens(fresh.tokens(), fresh.capacity(), fresh.refill_rate(), fresh.last_refill(), now) == 200);
                self.rate_limiters.push((addr, bucket));
                proof {
                    assert(self.rate_limiters@ =~= old_b.push((addr, bucket)));
                    crate::kv::lemma_insert_distinct(old_b, addr, bucket);
                    assert forall|j: int| 0 <= j < self.buckets().len() implies (#[trigger] self.buckets()[j]).1.tokens() <= self.buckets()[j].1.capacity() by {
                        if j < old_b.len() {
                            assert(self.buckets()[j] == old_b[j]);
                        }
                    }
                    assert(bucket_step(lookup_spec(old_b, addr), bucket, now, admitted));
                }
                admitted
            },
        }
    }

    /// A request from `addr`, timed with the local clock (whose reading is
    /// not promised).
    pub fn check_rate_limit(&mut self, addr: PeerAddr) -> (admitted: bool)
        requires
            old(self).wf(),
        ensures
            final(self).wf(),
            exists|now: u64, nb: TokenBucket|
                final(self).buckets() == insert_spec(old(self).buckets(), addr, nb)
                && #[trigger] bucket_step(lookup_spec(old(self).buckets(), addr), nb, now, admitted),
    {
        let now = current_time_ms();
        self.check_rate_limit_at(addr, now)
    }

    /// The ring signature of `data`: no scheme is implemented, so the data
    /// itself is returned.
    pub fn ring_sign(&self, data: &[u8]) -> (res: Vec<u8>)
        ensures
            res@ == data@,
    {
        crate::kv::copy_bytes(data)
    }
}

} // verus!
