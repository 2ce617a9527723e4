use vstd::prelude::*;

use crate::clock::current_time_ms;
use crate::error::DexError;
use crate::kv::{insert_spec, keys_of, lookup_spec};
use crate::rate_limiting::token_bucket::{refill_due, refilled_tokens, TokenBucket};

verus! {

/// An IP address, version 4 or 6, by its numeric value.
#[derive(Clone, Copy, Debug, PartialEq, Eq, Hash, Structural)]
pub enum IpAddress {
    V4(u32),
    V6(u128),
}

/// Access rules and discovery settings of the peer-to-peer layer.
#[derive(Clone, Debug)]
pub struct P2PSecurityConfig {
    pub whitelist: Vec<IpAddress>,
    pub blacklist: Vec<IpAddress>,
    pub ddos_rate_limit_per_min: u32,
    pub nat_traversal_enabled: bool,
    pub stun_server: String,
    pub trusted_client_certs: Vec<Vec<u8>>,
    pub mdns_enabled: bool,
    pub static_peers: Vec<IpAddress>,
}

/// Whether `ip` may connect: it is not blacklisted, and it is whitelisted
/// unless the whitelist is empty.
pub open spec fn ip_allowed(cfg: P2PSecurityConfig, ip: IpAddress) -> bool {
    &&& !cfg.blacklist@.contains(ip)
    &&& (cfg.whitelist@.len() == 0 || cfg.whitelist@.contains(ip))
}

/// The certificates, as byte sequences.
pub open spec fn cert_view(v: Seq<Vec<u8>>) -> Seq<Seq<u8>> {
    v.map_values(|c: Vec<u8>| c@)
}

/// Whether a peer certificate is accepted: every certificate is while no
/// trusted one is configured; otherwise it must be one of them.
pub open spec fn cert_trusted(cfg: P2PSecurityConfig, cert: Seq<u8>) -> bool {
    cfg.trusted_client_certs@.len() == 0 || cert_view(cfg.trusted_client_certs@).contains(cert)
}

/// The refill rate of an address's bucket: the per-minute limit spread over
/// a minute, plus one token per second.
pub open spec fn bucket_rate(per_min: u32) -> u64 {
    (per_min / 60 + 1) as u64
}

/// The checks the peer-to-peer layer applies to peers.
pub trait P2PSecurity {
    /// The layer's own consistency condition, kept by every check.
    spec fn security_wf(&self) -> bool;

    /// The peers known without discovery.
    fn discover_peers(&self) -> Result<Vec<IpAddress>, DexError>;

    /// Whether a peer's TLS client certificate is accepted.
    fn check_tls_authentication(&self, peer_cert: &[u8]) -> Result<bool, DexError>;

    /// Whether `ip` may connect at all.
    fn check_ip_access(&self, ip: &IpAddress) -> bool;

    /// Whether a request from `ip` is within its rate limit.
    fn rate_limit(&mut self, ip: &IpAddress) -> (admitted: bool)
        requires
            old(self).security_wf(),
        ensures
            final(self).security_wf(),
    ;
}

/// The peer-to-peer security layer: access lists, certificate pinning and a
/// token bucket per address.
pub struct AdvancedP2PSecurity {
    pub config: P2PSecurityConfig,
    pub buckets: Vec<(IpAddress, TokenBucket)>,
}

/// What one request at `now` does to an address's bucket: the existing one
/// refills and spends; a new one starts full (`capacity` tokens) and spends.
pub open spec fn ip_bucket_step(pre: Option<TokenBucket>, post: TokenBucket, capacity: u64, rate: u64, now: u64, admitted: bool) -> bool {
    match pre {
        Some(b) => TokenBucket::consume_post(b, post, now, admitted),
        None => {
            &&& admitted == (capacity > 0)
            &&& post.capacity() == capacity
            &&& post.tokens() == if capacity > 0 { capacity - 1 } else { 0 }
            &&& post.refill_rate() == rate
            &&& post.last_refill() == now
        },
    }
}

fn contains_ip(v: &Vec<IpAddress>, ip: &IpAddress) -> (res: bool)
    ensures
        res == v@.contains(*ip),
{
    let mut i: usize = 0;
    while i < v.len()
        invariant
            i <= v@.len(),
            forall|j: int| 0 <= j < i ==> v@[j] != *ip,
        decreases v@.len() - i,
    {
        if v[i] == *ip {
            return true;
        }
        i = i + 1;
    }
    false
}

fn find_ip(v: &Vec<(IpAddress, TokenBucket)>, ip: IpAddress) -> (res: Option<usize>)
    ensures
        res is None ==> keys_of(v@).index_of_first(ip) is None,
        res matches Some(i) ==> i < v@.len() && keys_of(v@).index_of_first(ip) == Some(i as int),
{
    let ghost ks = keys_of(v@);
    proof {
        ks.index_of_first_ensures(ip);
    }
    let mut i: usize = 0;
    while i < v.len()
        invariant
            ks == keys_of(v@),
            i <= v@.len(),
            forall|j: int| 0 <= j < i ==> ks[j] != ip,
        decreases v@.len() - i,
    {
        if v[i].0 == ip {
            proof {
                ks.index_of_first_ensures(ip);
                assert(ks[i as int] == ip);
                assert(ks.contains(ip));
                let k = ks.index_of_first(ip).unwrap();
                if k < i {
                    assert(ks[k] != ip);
                }
                if k > i {
                    assert(ks[i as int] == ip);
                }
            }
            return Some(i);
        }
        i = i + 1;
    }
    proof {
        if ks.index_of_first(ip) is Some {
            let k = ks.index_of_first(ip).unwrap();
            assert(ks[k] == ip);
        }
    }
    None
}

impl AdvancedP2PSecurity {
    /// One bucket per address, none above its capacity.
    pub open spec fn wf(&self) -> bool {
        &&& keys_of(self.buckets@).no_duplicates()
        &&& forall|i: int| 0 <= i < self.buckets@.len() ==> (#[trigger] self.buckets@[i]).1.tokens() <= self.buckets@[i].1.capacity()
    }

    /// The layer with these settings, no address seen yet.
    pub fn new(config: P2PSecurityConfig) -> (res: Self)
        ensures
            res.wf(),
            res.config == config,
            res.buckets@.len() == 0,
    {
        let res = AdvancedP2PSecurity { config, buckets: Vec::new() };
        assert(keys_of(res.buckets@) =~= Seq::<IpAddress>::empty());
        res
    }

    /// A request from `ip` at `now` (milliseconds): the address's bucket,
    /// made on its first request with the configured per-minute capacity,
    /// decides whether it is admitted.
    pub fn rate_limit_at(&mut self, ip: &IpAddress, now: u64) -> (admitted: bool)
        requires
            old(self).wf(),
        ensures
            final(self).wf(),
            final(self).config == old(self).config,
            exists|nb: TokenBucket|
                final(self).buckets@ == insert_spec(old(self).buckets@, *ip, nb)
                && #[trigger] ip_bucket_step(
                    lookup_spec(old(self).buckets@, *ip),
                    nb,
                    old(self).config.ddos_rate_limit_per_min as u64,
                    bucket_rate(old(self).config.ddos_rate_limit_per_min),
                    now,
                    admitted,
                ),
    {
        let ghost old_b = self.buckets@;
        let capacity = self.config.ddos_rate_limit_per_min;
        let rate = capacity / 60 + 1;
        proof {
            keys_of(old_b).index_of_first_ensures(*ip);
        }
        match find_ip(&self.buckets, *ip) {
            Some(k) => {
                let mut bucket = self.buckets[k].1;
                assert(self.buckets@[k as int].1.tokens() <= self.buckets@[k as int].1.capacity());
                let admitted = bucket.try_consume_at(now);
                self.buckets.set(k, (*ip, bucket));
                proof {
                    assert(self.buckets@ =~= old_b.update(k as int, (*ip, bucket)));
                    crate::kv::lemma_insert_distinct(old_b, *ip, bucket);
                    assert forall|j: int| 0 <= j < self.buckets@.len() implies (#[trigger] self.buckets@[j]).1.tokens() <= self.buckets@[j].1.capacity() by {
                        if j != k {
                            assert(self.buckets@[j] == old_b[j]);
                        }
                    }
                    assert(ip_bucket_step(lookup_spec(old_b, *ip), bucket, old(self).config.ddos_rate_limit_per_min as u64, bucket_rate(old(self).config.ddos_rate_limit_per_min), now, admitted));
                }
                admitted
            },
            None => {
                let mut bucket = TokenBucket::new_at(capacity as u64, rate as u64, now);
                let ghost fresh = bucket;
                let admitted = bucket.try_consume_at(now);
                assert(!refill_due(fresh.last_refill(), now));
                self.buckets.push((*ip, bucket));
                proof {
                    assert(self.buckets@ =~= old_b.push((*ip, bucket)));
                    crate::kv::lemma_insert_distinct(old_b, *ip, bucket);
                    assert forall|j: int| 0 <= j < self.buckets@.len() implies (#[trigger] self.buckets@[j]).1.tokens() <= self.buckets@[j].1.capacity() by {
                        if j < old_b.len() {
                            assert(self.buckets@[j] == old_b[j]);
                        }
                    }
                    assert(ip_bucket_step(lookup_spec(old_b, *ip), bucket, old(self).config.ddos_rate_limit_per_min as u64, bucket_rate(old(self).config.ddos_rate_limit_per_min), now, admitted));
                }
                admitted
            },
        }
    }
}

impl P2PSecurity for AdvancedP2PSecurity {
    open spec fn security_wf(&self) -> bool {
        self.wf()
    }

    /// The configured static peers (no other discovery is implemented).
    fn discover_peers(&self) -> (res: Result<Vec<IpAddress>, DexError>)
        ensures
            res matches Ok(v) && v@ == self.config.static_peers@,
    {
        let mut out: Vec<IpAddress> = Vec::new();
        let mut i: usize = 0;
        while i < self.config.static_peers.len()
            invariant
                i <= self.config.static_peers@.len(),
                out@ == self.config.static_peers@.take(i as int),
            decreases self.config.static_peers@.len() - i,
        {
            out.push(self.config.static_peers[i]);
            i = i + 1;
            assert(out@ =~= self.config.static_peers@.take(i as int));
        }
        assert(self.config.static_peers@.take(i as int) =~= self.config.static_peers@);
        Ok(out)
    }

    fn check_tls_authentication(&self, peer_cert: &[u8]) -> (res: Result<bool, DexError>)
        ensures
            res == Ok::<bool, DexError>(cert_trusted(self.config, peer_cert@)),
    {
        let n = self.config.trusted_client_certs.len();
        if n == 0 {
            return Ok(true);
        }
        let mut i: usize = 0;
        while i < n
            invariant
                n == self.config.trusted_client_certs@.len(),
                i <= n,
                forall|j: int| 0 <= j < i ==> cert_view(self.config.trusted_client_certs@)[j] != peer_cert@,
            decreases n - i,
        {
            if crate::kv::bytes_eq(self.config.trusted_client_certs[i].as_slice(), peer_cert) {
                assert(cert_view(self.config.trusted_client_certs@)[i as int] == peer_cert@);
                return Ok(true);
            }
            i = i + 1;
        }
        Ok(false)
    }

    fn check_ip_access(&self, ip: &IpAddress) -> (res: bool)
        ensures
            res == ip_allowed(self.config, *ip),
    {
        if contains_ip(&self.config.blacklist, ip) {
            return false;
        }
        if self.config.whitelist.len() > 0 && !contains_ip(&self.config.whitelist, ip) {
            return false;
        }
        true
    }

    /// A request from `ip`, timed with the local clock (whose reading is not
    /// promised).
    fn rate_limit(&mut self, ip: &IpAddress) -> (admitted: bool)
        ensures
            final(self).config == old(self).config,
            exists|now: u64, nb: TokenBucket|
                final(self).buckets@ == insert_spec(old(self).buckets@, *ip, nb)
                && #[trigger] ip_bucket_step(
                    lookup_spec(old(self).buckets@, *ip),
                    nb,
                    old(self).config.ddos_rate_limit_per_min as u64,
                    bucket_rate(old(self).config.ddos_rate_limit_per_min),
                    now,
                    admitted,
                ),
    {
        let now = current_time_ms();
        self.rate_limit_at(ip, now)
    }
}

} // verus!
