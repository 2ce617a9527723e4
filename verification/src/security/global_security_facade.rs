use vstd::prelude::*;

use crate::clock::current_time_ms;
use crate::error::{is_error_with, DexError};
use crate::kv::{find_string_key, insert_spec, keys_of, lookup_spec, string_keyed};
use crate::rate_limiting::token_bucket::{refill_due, TokenBucket};
use crate::security::security_validator::AdvancedSecurityValidator;
use crate::watchtower::Watchtower;

verus! {

/// An Ed25519 public key of the `ed25519-dalek` crate, carried as is.
#[verifier::external_type_specification]
#[verifier::external_body]
pub struct ExPublicKey(ed25519_dalek::PublicKey);

/// A multi-signature wallet: `threshold` of the owners' keys must sign.
pub struct MultiSigWallet {
    pub threshold: u8,
    pub pubkeys: Vec<ed25519_dalek::PublicKey>,
}

/// Tokens an IP may spend at once, and regains per second.
pub const IP_BUCKET_CAPACITY: u64 = 200;
pub const IP_BUCKET_REFILL: u64 = 50;

/// The byte-wise XOR of the partial signatures: the first one, with each
/// later one XORed into its leading bytes.
pub open spec fn xor_combine(sigs: Seq<Seq<u8>>) -> Seq<u8>
    decreases sigs.len(),
{
    if sigs.len() <= 1 {
        if sigs.len() == 0 { Seq::empty() } else { sigs[0] }
    } else {
        xor_into(xor_combine(sigs.drop_last()), sigs.last())
    }
}

/// `acc` with `next` XORed into its first `next.len()` bytes.
pub open spec fn xor_into(acc: Seq<u8>, next: Seq<u8>) -> Seq<u8> {
    Seq::new(acc.len(), |i: int| if i < next.len() { acc[i] ^ next[i] } else { acc[i] })
}

/// The signatures, as byte sequences.
pub open spec fn sig_view(v: Seq<Vec<u8>>) -> Seq<Seq<u8>> {
    v.map_values(|s: Vec<u8>| s@)
}

/// The node-wide security state: per-IP rate limits, multi-signature
/// wallets, and the validator and watchtower in use.
pub struct GlobalSecuritySystem {
    pub rate_limiters: Vec<(String, TokenBucket)>,
    pub multi_sig_wallets: Vec<MultiSigWallet>,
    pub ring_sign_enabled: bool,
    pub anonymity_enabled: bool,
    pub watchtower: Option<Watchtower>,
    pub validator: AdvancedSecurityValidator,
}

impl GlobalSecuritySystem {
    /// Each IP's bucket, by the IP's text.
    pub open spec fn buckets(&self) -> Seq<(Seq<char>, TokenBucket)> {
        string_keyed(self.rate_limiters@)
    }

    /// The wallets' thresholds and owners' keys, in creation order.
    pub open spec fn wallets(&self) -> Seq<(u8, Seq<ed25519_dalek::PublicKey>)> {
        self.multi_sig_wallets@.map_values(|w: MultiSigWallet| (w.threshold, w.pubkeys@))
    }

    /// The flags, the watchtower and the validator are the same in both.
    pub open spec fn same_settings(pre: Self, post: Self) -> bool {
        &&& post.ring_sign_enabled == pre.ring_sign_enabled
        &&& post.anonymity_enabled == pre.anonymity_enabled
        &&& post.watchtower == pre.watchtower
        &&& post.validator == pre.validator
    }

    /// One bucket per IP, none above its capacity.
    pub open spec fn wf(&self) -> bool {
        &&& keys_of(self.buckets()).no_duplicates()
        &&& forall|i: int| 0 <= i < self.buckets().len() ==> (#[trigger] self.buckets()[i]).1.tokens() <= self.buckets()[i].1.capacity()
    }

    /// No limits, no wallets, ring signatures enabled, anonymity off.
    pub fn new() -> (res: Self)
        ensures
            res.wf(),
            res.buckets().len() == 0,
            res.wallets().len() == 0,
            res.ring_sign_enabled,
            !res.anonymity_enabled,
            res.watchtower is None,
    {
        let res = GlobalSecuritySystem {
            rate_limiters: Vec::new(),
            multi_sig_wallets: Vec::new(),
            ring_sign_enabled: true,
            anonymity_enabled: false,
            watchtower: None,
            validator: AdvancedSecurityValidator::new(),
        };
        assert(keys_of(res.buckets()) =~= Seq::<Seq<char>>::empty());
        res
    }

    /// A request from `ip` at `now` (milliseconds), limited by the IP's
    /// bucket (made full on its first request).
    pub fn check_rate_limit_at(&mut self, ip: &str, now: u64) -> (admitted: bool)
        requires
            old(self).wf(),
        ensures
            final(self).wf(),
            final(self).wallets() == old(self).wallets(),
            Self::same_settings(*old(self), *final(self)),
            exists|nb: TokenBucket|
                final(self).buckets() == insert_spec(old(self).buckets(), ip@, nb)
                && #[trigger] crate::network::peer_security::bucket_step(lookup_spec(old(self).buckets(), ip@), nb, now, admitted),
    {
        let ghost old_b = self.buckets();
        let key = String::from_str(ip);
        proof {
            keys_of(old_b).index_of_first_ensures(ip@);
        }
        match find_string_key(&self.rate_limiters, &key) {
            Some(k) => {
                let mut bucket = self.rate_limiters[k].1;
                assert(self.buckets()[k as int].1.tokens() <= self.buckets()[k as int].1.capacity());
                let admitted = bucket.try_consume_at(now);
                self.rate_limiters.set(k, (key, bucket));
                proof {
                    assert(self.buckets() =~= old_b.update(k as int, (ip@, bucket)));
                    crate::kv::lemma_insert_distinct(old_b, ip@, bucket);
                    assert forall|j: int| 0 <= j < self.buckets().len() implies (#[trigger] self.buckets()[j]).1.tokens() <= self.buckets()[j].1.capacity() by {
                        if j != k {
                            assert(self.buckets()[j] == old_b[j]);
                        }
                    }
                    assert(crate::network::peer_security::bucket_step(lookup_spec(old_b, ip@), bucket, now, admitted));
                }
                admitted
            },
            None => {
                let mut bucket = TokenBucket::new_at(IP_BUCKET_CAPACITY, IP_BUCKET_REFILL, now);
                let ghost fresh = bucket;
                let admitted = bucket.try_consume_at(now);
                assert(!refill_due(fresh.last_refill(), now));
                self.rate_limiters.push((key, bucket));
                proof {
                    assert(self.buckets() =~= old_b.push((ip@, bucket)));
                    crate::kv::lemma_insert_distinct(old_b, ip@, bucket);
                    assert forall|j: int| 0 <= j < self.buckets().len() implies (#[trigger] self.buckets()[j]).1.tokens() <= self.buckets()[j].1.capacity() by {
                        if j < old_b.len() {
                            assert(self.buckets()[j] == old_b[j]);
                        }
                    }
                    assert(crate::network::peer_security::bucket_step(lookup_spec(old_b, ip@), bucket, now, admitted));
                }
                admitted
            },
        }
    }

    /// A request from `ip`, timed with the local clock (whose reading is not
    /// promised).
    pub fn check_rate_limit(&mut self, ip: &str) -> (admitted: bool)
        requires
            old(self).wf(),
        ensures
            final(self).wf(),
            final(self).wallets() == old(self).wallets(),
            Self::same_settings(*old(self), *final(self)),
            exists|now: u64, nb: TokenBucket|
                final(self).buckets() == insert_spec(old(self).buckets(), ip@, nb)
                && #[trigger] crate::network::peer_security::bucket_step(lookup_spec(old(self).buckets(), ip@), nb, now, admitted),
    {
        let now = current_time_ms();
        self.check_rate_limit_at(ip, now)
    }

    /// Adds a wallet needing `threshold` of the `owners`' signatures; a
    /// threshold of 0 or above the number of owners is refused.
    pub fn create_multisig_wallet(&mut self, threshold: u8, owners: Vec<ed25519_dalek::PublicKey>) -> (res: Result<(), DexError>)
        ensures
            final(self).buckets() == old(self).buckets(),
            Self::same_settings(*old(self), *final(self)),
            (threshold == 0 || threshold > owners@.len()) ==> {
                &&& is_error_with(res, "Ungültiges threshold/owners in MultiSig"@)
                &&& final(self).wallets() == old(self).wallets()
            },
            !(threshold == 0 || threshold > owners@.len()) ==> {
                &&& res is Ok
                &&& final(self).wallets() == old(self).wallets().push((threshold, owners@))
            },
    {
        if threshold as usize > owners.len() || threshold == 0 {
            return Err(DexError::Other(String::from_str("Ungültiges threshold/owners in MultiSig")));
        }
        let ghost keys = owners@;
        let ghost before = self.wallets();
        self.multi_sig_wallets.push(MultiSigWallet { threshold, pubkeys: owners });
        assert(self.wallets() =~= before.push((threshold, keys)));
        Ok(())
    }

    /// Combines partial signatures by XOR; there must be at least one, and
    /// none may be longer than the first.
    pub fn combine_multisig_signatures(&self, sigs: Vec<Vec<u8>>) -> (res: Result<Vec<u8>, DexError>)
        requires
            forall|i: int| 0 <= i < sigs@.len() ==> (#[trigger] sigs@[i])@.len() <= sigs@[0]@.len(),
        ensures
            sigs@.len() == 0 ==> is_error_with(res, "No partial sigs to combine"@),
            sigs@.len() > 0 ==> (res matches Ok(c) && c@ == xor_combine(sig_view(sigs@))),
    {
        if sigs.len() == 0 {
            return Err(DexError::Other(String::from_str("No partial sigs to combine")));
        }
        let ghost sv = sig_view(sigs@);
        let mut combined = crate::kv::copy_bytes(sigs[0].as_slice());
        let mut i: usize = 1;
        assert(sv.take(1) =~= seq![sv[0]]);
        while i < sigs.len()
            invariant
                sv == sig_view(sigs@),
                1 <= i <= sigs@.len(),
                combined@ == xor_combine(sv.take(i as int)),
                combined@.len() == sigs@[0]@.len(),
                forall|k: int| 0 <= k < sigs@.len() ==> (#[trigger] sigs@[k])@.len() <= sigs@[0]@.len(),
            decreases sigs@.len() - i,
        {
            let next = &sigs[i];
            let ghost acc = combined@;
            let mut idx: usize = 0;
            while idx < next.len()
                invariant
                    next@.len() <= combined@.len(),
                    combined@.len() == acc.len(),
                    idx <= next@.len(),
                    forall|j: int| 0 <= j < idx ==> combined@[j] == acc[j] ^ next@[j],
                    forall|j: int| idx <= j < acc.len() ==> combined@[j] == acc[j],
                decreases next@.len() - idx,
            {
                let b = combined[idx] ^ next[idx];
                combined.set(idx, b);
                idx = idx + 1;
            }
            proof {
                assert(sv.take(i + 1).drop_last() =~= sv.take(i as int));
                assert(sv.take(i + 1).last() == next@);
                assert(combined@ =~= xor_into(acc, next@));
            }
            i = i + 1;
        }
        assert(sv.take(sigs@.len() as int) =~= sv);
        Ok(combined)
    }
}

} // verus!
