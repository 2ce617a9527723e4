use vstd::prelude::*;

use crate::crypto::{sha256_digest, spec_sha256};
use crate::error::{is_error_with, DexError};
use crate::kv::copy_bytes;
use crate::security::security_validator::AdvancedSecurityValidator;

verus! {

/// Buy or sell.
#[derive(Clone, Copy, Debug, PartialEq, Eq, Structural)]
pub enum OrderSide {
    Buy,
    Sell,
}

/// The life cycle of an order.
#[derive(Clone, Copy, Debug, PartialEq, Eq, Structural)]
pub enum OrderStatus {
    Open,
    PartiallyFilled,
    Filled,
    Cancelled,
}

// ─────────────────────────────────────────────────────────
// Hashed time-locked contracts and atomic swaps
// ─────────────────────────────────────────────────────────

/// The stages of an atomic swap.
#[derive(Clone, Copy, Debug, PartialEq, Eq, Structural)]
pub enum SwapState {
    Init,
    SellerRedeemed,
    BuyerRedeemed,
    Refunded,
    Cancelled,
}

/// A hashed time-locked contract on one chain: `amount` (of whatever type
/// the chain counts in) can be redeemed by whoever shows a preimage of
/// `hashlock`, or refunded once `timelock` has passed.
#[derive(Debug)]
pub struct HTLC<A> {
    pub chain: String,
    pub amount: A,
    pub hashlock: [u8; 32],
    pub timelock: u64,
    pub redeemed: bool,
    pub refunded: bool,
}

impl<A> HTLC<A> {
    /// A fresh contract, neither redeemed nor refunded.
    pub fn new(chain: &str, amount: A, hashlock: [u8; 32], timelock: u64) -> (res: Self)
        ensures
            res.chain@ == chain@,
            res.amount == amount,
            res.hashlock == hashlock,
            res.timelock == timelock,
            !res.redeemed,
            !res.refunded,
    {
        HTLC { chain: chain.to_owned(), amount, hashlock, timelock, redeemed: false, refunded: false }
    }

    /// What redeeming with `preimage` does: it fails with "Hashlock mismatch"
    /// unless the preimage hashes to the hashlock, then with "HTLC bereits
    /// eingelöst" if already redeemed; otherwise it marks the contract redeemed.
    pub open spec fn redeem_post(pre: Self, post: Self, preimage: Seq<u8>, res: Result<(), DexError>) -> bool {
        &&& post.chain == pre.chain
        &&& post.amount == pre.amount
        &&& post.hashlock == pre.hashlock
        &&& post.timelock == pre.timelock
        &&& post.refunded == pre.refunded
        &&& if spec_sha256(preimage) != pre.hashlock@ {
            is_error_with(res, "Hashlock mismatch"@) && post.redeemed == pre.redeemed
        } else if pre.redeemed {
            is_error_with(res, "HTLC bereits eingelöst"@) && post.redeemed == pre.redeemed
        } else {
            res is Ok && post.redeemed
        }
    }

    /// Redeems the contract with `preimage`.
    pub fn redeem(&mut self, preimage: &[u8]) -> (res: Result<(), DexError>)
        ensures
            Self::redeem_post(*old(self), *final(self), preimage@, res),
    {
        let result = sha256_digest(preimage);
        let mut i: usize = 0;
        let mut same = true;
        assert(result@.take(0) =~= self.hashlock@.take(0));
        while i < 32
            invariant
                i <= 32,
                same == (result@.take(i as int) == self.hashlock@.take(i as int)),
            decreases 32 - i,
        {
            proof {
                assert(result@.take(i + 1) =~= result@.take(i as int).push(result@[i as int]));
                assert(self.hashlock@.take(i + 1) =~= self.hashlock@.take(i as int).push(self.hashlock@[i as int]));
                if result@.take(i + 1) == self.hashlock@.take(i + 1) {
                    assert(result@.take(i + 1)[i as int] == self.hashlock@.take(i + 1)[i as int]);
                    assert(result@.take(i as int) =~= result@.take(i + 1).drop_last());
                    assert(self.hashlock@.take(i as int) =~= self.hashlock@.take(i + 1).drop_last());
                }
            }
            if result[i] != self.hashlock[i] {
                same = false;
            }
            i = i + 1;
        }
        assert(result@.take(32) =~= result@);
        assert(self.hashlock@.take(32) =~= self.hashlock@);
        if !same {
            return Err(DexError::Other("Hashlock mismatch".to_owned()));
        }
        if self.redeemed {
            return Err(DexError::Other("HTLC bereits eingelöst".to_owned()));
        }
        self.redeemed = true;
        Ok(())
    }

    /// What a refund at `current_time` does: it fails with "HTLC noch nicht
    /// abgelaufen" before the timelock, then with "HTLC bereits
    /// zurückerstattet" if already refunded; otherwise it marks the contract
    /// refunded.
    pub open spec fn refund_post(pre: Self, post: Self, current_time: u64, res: Result<(), DexError>) -> bool {
        &&& post.chain == pre.chain
        &&& post.amount == pre.amount
        &&& post.hashlock == pre.hashlock
        &&& post.timelock == pre.timelock
        &&& post.redeemed == pre.redeemed
        &&& if current_time < pre.timelock {
            is_error_with(res, "HTLC noch nicht abgelaufen"@) && post.refunded == pre.refunded
        } else if pre.refunded {
            is_error_with(res, "HTLC bereits zurückerstattet"@) && post.refunded == pre.refunded
        } else {
            res is Ok && post.refunded
        }
    }

    /// Refunds the contract at `current_time` (seconds).
    pub fn refund(&mut self, current_time: u64) -> (res: Result<(), DexError>)
        ensures
            Self::refund_post(*old(self), *final(self), current_time, res),
    {
        if current_time < self.timelock {
            return Err(DexError::Other("HTLC noch nicht abgelaufen".to_owned()));
        }
        if self.refunded {
            return Err(DexError::Other("HTLC bereits zurückerstattet".to_owned()));
        }
        self.refunded = true;
        Ok(())
    }
}

/// A cross-chain swap of two contracts locked under the same hash: the seller
/// redeems the buyer's contract (revealing the preimage), then the buyer
/// redeems the seller's with it; before completion both can be refunded.
#[derive(Debug)]
pub struct AtomicSwap<A> {
    pub buyer_htlc: HTLC<A>,
    pub seller_htlc: HTLC<A>,
    pub state: SwapState,
    pub preimage: Option<Vec<u8>>,
}

impl<A> AtomicSwap<A> {
    /// A swap in its initial state, no preimage known yet.
    pub fn new(buyer_htlc: HTLC<A>, seller_htlc: HTLC<A>) -> (res: Self)
        ensures
            res.buyer_htlc == buyer_htlc,
            res.seller_htlc == seller_htlc,
            res.state == SwapState::Init,
            res.preimage is None,
    {
        AtomicSwap { buyer_htlc, seller_htlc, state: SwapState::Init, preimage: None }
    }

    /// What the seller's redeem with `preimage` does: outside the initial
    /// state it fails with "Swap nicht im Init-Status" and changes nothing;
    /// otherwise it redeems the buyer's contract, and if that succeeds keeps
    /// the preimage and moves to `SellerRedeemed`.
    pub open spec fn seller_redeem_post(pre: Self, post: Self, preimage: Seq<u8>, res: Result<(), DexError>) -> bool {
        if pre.state != SwapState::Init {
            is_error_with(res, "Swap nicht im Init-Status"@) && post == pre
        } else {
            &&& post.seller_htlc == pre.seller_htlc
            &&& exists|r: Result<(), DexError>| #[trigger] HTLC::redeem_post(pre.buyer_htlc, post.buyer_htlc, preimage, r) && if r is Ok {
                &&& res is Ok
                &&& post.state == SwapState::SellerRedeemed
                &&& post.preimage matches Some(p) && p@ == preimage
            } else {
                &&& res == r
                &&& post.state == pre.state
                &&& post.preimage == pre.preimage
            }
        }
    }

    /// The seller redeems the buyer's contract with `preimage`.
    pub fn seller_redeem(&mut self, preimage: &[u8]) -> (res: Result<(), DexError>)
        ensures
            Self::seller_redeem_post(*old(self), *final(self), preimage@, res),
    {
        if self.state != SwapState::Init {
            return Err(DexError::Other("Swap nicht im Init-Status".to_owned()));
        }
        let ghost pre_htlc = old(self).buyer_htlc;
        let r = self.buyer_htlc.redeem(preimage);
        let ghost rr = r;
        assert(HTLC::redeem_post(pre_htlc, self.buyer_htlc, preimage@, rr));
        match r {
            Ok(()) => {
                self.preimage = Some(copy_bytes(preimage));
                self.state = SwapState::SellerRedeemed;
                assert(HTLC::redeem_post(old(self).buyer_htlc, self.buyer_htlc, preimage@, rr));
                Ok(())
            },
            Err(e) => Err(e),
        }
    }

    /// What the buyer's redeem does: before the seller has redeemed it fails
    /// with "Seller hat noch nicht eingelöst"; without a kept preimage with
    /// "Kein Preimage vorhanden"; otherwise it redeems the seller's contract
    /// with the kept preimage and, if that succeeds, completes the swap.
    pub open spec fn buyer_redeem_post(pre: Self, post: Self, res: Result<(), DexError>) -> bool {
        if pre.state != SwapState::SellerRedeemed {
            is_error_with(res, "Seller hat noch nicht eingelöst"@) && post == pre
        } else {
            match pre.preimage {
                None => is_error_with(res, "Kein Preimage vorhanden"@) && post == pre,
                Some(p) => {
                    &&& post.buyer_htlc == pre.buyer_htlc
                    &&& post.preimage == pre.preimage
                    &&& exists|r: Result<(), DexError>| #[trigger] HTLC::redeem_post(pre.seller_htlc, post.seller_htlc, p@, r) && if r is Ok {
                        res is Ok && post.state == SwapState::BuyerRedeemed
                    } else {
                        res == r && post.state == pre.state
                    }
                },
            }
        }
    }

    /// The buyer redeems the seller's contract with the preimage the seller revealed.
    pub fn buyer_redeem(&mut self) -> (res: Result<(), DexError>)
        ensures
            Self::buyer_redeem_post(*old(self), *final(self), res),
    {
        if self.state != SwapState::SellerRedeemed {
            return Err(DexError::Other("Seller hat noch nicht eingelöst".to_owned()));
        }
        match &self.preimage {
            Some(pre) => {
                let ghost pre_htlc = self.seller_htlc;
                let r = self.seller_htlc.redeem(pre.as_slice());
                let ghost rr = r;
                assert(HTLC::redeem_post(pre_htlc, self.seller_htlc, pre@, rr));
                match r {
                    Ok(()) => {
                        self.state = SwapState::BuyerRedeemed;
                        assert(HTLC::redeem_post(old(self).seller_htlc, self.seller_htlc, pre@, rr));
                        Ok(())
                    },
                    Err(e) => Err(e),
                }
            },
            None => Err(DexError::Other("Kein Preimage vorhanden".to_owned())),
        }
    }

    /// What a refund at `current_time` does: a completed swap fails with
    /// "Swap bereits abgeschlossen"; otherwise the buyer's contract is
    /// refunded, then the seller's, and only if both succeed the swap is
    /// `Refunded` (a failure stops there, keeping what was already done).
    pub open spec fn refund_post(pre: Self, post: Self, current_time: u64, res: Result<(), DexError>) -> bool {
        if pre.state == SwapState::BuyerRedeemed {
            is_error_with(res, "Swap bereits abgeschlossen"@) && post == pre
        } else {
            &&& post.preimage == pre.preimage
            &&& exists|r1: Result<(), DexError>| #[trigger] HTLC::refund_post(pre.buyer_htlc, post.buyer_htlc, current_time, r1) && if r1 is Err {
                res == r1 && post.seller_htlc == pre.seller_htlc && post.state == pre.state
            } else {
                exists|r2: Result<(), DexError>| #[trigger] HTLC::refund_post(pre.seller_htlc, post.seller_htlc, current_time, r2) && if r2 is Err {
                    res == r2 && post.state == pre.state
                } else {
                    res is Ok && post.state == SwapState::Refunded
                }
            }
        }
    }

    /// Refunds both contracts at `current_time` (seconds).
    pub fn refund(&mut self, current_time: u64) -> (res: Result<(), DexError>)
        ensures
            Self::refund_post(*old(self), *final(self), current_time, res),
    {
        if self.state == SwapState::BuyerRedeemed {
            return Err(DexError::Other("Swap bereits abgeschlossen".to_owned()));
        }
        let ghost b0 = self.buyer_htlc;
        let r1 = self.buyer_htlc.refund(current_time);
        let ghost rr1 = r1;
        assert(HTLC::refund_post(b0, self.buyer_htlc, current_time, rr1));
        match r1 {
            Ok(()) => {},
            Err(e) => {
                return Err(e);
            },
        }
        let ghost s0 = self.seller_htlc;
        let r2 = self.seller_htlc.refund(current_time);
        let ghost rr2 = r2;
        assert(HTLC::refund_post(s0, self.seller_htlc, current_time, rr2));
        match r2 {
            Ok(()) => {},
            Err(e) => {
                return Err(e);
            },
        }
        self.state = SwapState::Refunded;
        assert(HTLC::refund_post(old(self).buyer_htlc, self.buyer_htlc, current_time, rr1));
        assert(HTLC::refund_post(old(self).seller_htlc, self.seller_htlc, current_time, rr2));
        Ok(())
    }
}

impl AdvancedSecurityValidator {
    /// Trade check used by the matching engine: accepts every trade.
    pub fn validate_trade(&self, trade_info: &str) -> (res: Result<(), DexError>)
        ensures
            res is Ok,
    {
        Ok(())
    }
}

// ─────────────────────────────────────────────────────────
// Laws
// ─────────────────────────────────────────────────────────

/// An HTLC pays out at most once: after a successful redemption every
/// further redemption fails, whatever preimage it shows.
pub proof fn lemma_htlc_redeems_once<A>(
    pre: HTLC<A>,
    mid: HTLC<A>,
    post: HTLC<A>,
    p1: Seq<u8>,
    p2: Seq<u8>,
    r1: Result<(), DexError>,
    r2: Result<(), DexError>,
)
    requires
        HTLC::redeem_post(pre, mid, p1, r1),
        r1 is Ok,
        HTLC::redeem_post(mid, post, p2, r2),
    ensures
        r2 is Err,
        post.redeemed,
{
}

/// Both sides of a swap receive their part: when the two contracts are
/// locked under the hash of `p` and neither is redeemed yet, the seller
/// redeems the buyer's contract with `p`, then the buyer redeems the
/// seller's contract with the revealed preimage; both contracts end up paid
/// out, for the amounts and on the chains they were set up with, and
/// neither is refunded.
pub proof fn lemma_swap_completes<A>(
    s0: AtomicSwap<A>,
    s1: AtomicSwap<A>,
    s2: AtomicSwap<A>,
    p: Seq<u8>,
    r1: Result<(), DexError>,
    r2: Result<(), DexError>,
)
    requires
        s0.state == SwapState::Init,
        !s0.buyer_htlc.redeemed,
        !s0.seller_htlc.redeemed,
        spec_sha256(p) == s0.buyer_htlc.hashlock@,
        s0.seller_htlc.hashlock == s0.buyer_htlc.hashlock,
        AtomicSwap::seller_redeem_post(s0, s1, p, r1),
        AtomicSwap::buyer_redeem_post(s1, s2, r2),
    ensures
        r1 is Ok,
        r2 is Ok,
        s2.state == SwapState::BuyerRedeemed,
        s2.buyer_htlc.redeemed,
        s2.seller_htlc.redeemed,
        s2.buyer_htlc.amount == s0.buyer_htlc.amount,
        s2.seller_htlc.amount == s0.seller_htlc.amount,
        s2.buyer_htlc.chain == s0.buyer_htlc.chain,
        s2.seller_htlc.chain == s0.seller_htlc.chain,
        s2.buyer_htlc.refunded == s0.buyer_htlc.refunded,
        s2.seller_htlc.refunded == s0.seller_htlc.refunded,
{
    let r = choose|r: Result<(), DexError>| #[trigger] HTLC::redeem_post(s0.buyer_htlc, s1.buyer_htlc, p, r) && if r is Ok {
        &&& r1 is Ok
        &&& s1.state == SwapState::SellerRedeemed
        &&& s1.preimage matches Some(q) && q@ == p
    } else {
        &&& r1 == r
        &&& s1.state == s0.state
        &&& s1.preimage == s0.preimage
    };
    assert(r is Ok);
}

/// A completed swap cannot be refunded, and the attempt changes nothing.
pub proof fn lemma_completed_swap_not_refundable<A>(
    s: AtomicSwap<A>,
    s2: AtomicSwap<A>,
    current_time: u64,
    r: Result<(), DexError>,
)
    requires
        s.state == SwapState::BuyerRedeemed,
        AtomicSwap::refund_post(s, s2, current_time, r),
    ensures
        r is Err,
        s2 == s,
{
}


/// A contract is refunded exactly when its timelock has passed and it was
/// not refunded before; a refund leaves it refunded and its redemption as it
/// was.
pub proof fn lemma_htlc_refund<A>(pre: HTLC<A>, post: HTLC<A>, current_time: u64, r: Result<(), DexError>)
    requires
        HTLC::refund_post(pre, post, current_time, r),
    ensures
        r is Ok <==> (current_time >= pre.timelock && !pre.refunded),
        r is Ok ==> post.refunded,
        post.redeemed == pre.redeemed,
        post.amount == pre.amount,
{
}

/// A swap refund that succeeds refunds both contracts: it happens only
/// before the swap completed, once both timelocks have passed and neither
/// contract was refunded, and it leaves both contracts refunded and the swap
/// in the Refunded state. Conversely, under those conditions it succeeds.
pub proof fn lemma_swap_refund_refunds_both<A>(
    pre: AtomicSwap<A>,
    post: AtomicSwap<A>,
    current_time: u64,
    r: Result<(), DexError>,
)
    requires
        AtomicSwap::refund_post(pre, post, current_time, r),
    ensures
        r is Ok ==> {
            &&& pre.state != SwapState::BuyerRedeemed
            &&& current_time >= pre.buyer_htlc.timelock
            &&& current_time >= pre.seller_htlc.timelock
            &&& !pre.buyer_htlc.refunded
            &&& !pre.seller_htlc.refunded
            &&& post.buyer_htlc.refunded
            &&& post.seller_htlc.refunded
            &&& post.state == SwapState::Refunded
            &&& post.buyer_htlc.amount == pre.buyer_htlc.amount
            &&& post.seller_htlc.amount == pre.seller_htlc.amount
        },
        (pre.state != SwapState::BuyerRedeemed
            && current_time >= pre.buyer_htlc.timelock
            && current_time >= pre.seller_htlc.timelock
            && !pre.buyer_htlc.refunded
            && !pre.seller_htlc.refunded) ==> r is Ok,
{
    if pre.state != SwapState::BuyerRedeemed {
        let r1 = choose|r1: Result<(), DexError>| #[trigger] HTLC::refund_post(pre.buyer_htlc, post.buyer_htlc, current_time, r1) && if r1 is Err {
            r == r1 && post.seller_htlc == pre.seller_htlc && post.state == pre.state
        } else {
            exists|r2: Result<(), DexError>| #[trigger] HTLC::refund_post(pre.seller_htlc, post.seller_htlc, current_time, r2) && if r2 is Err {
                r == r2 && post.state == pre.state
            } else {
                r is Ok && post.state == SwapState::Refunded
            }
        };
        if r1 is Ok {
            let r2 = choose|r2: Result<(), DexError>| #[trigger] HTLC::refund_post(pre.seller_htlc, post.seller_htlc, current_time, r2) && if r2 is Err {
                r == r2 && post.state == pre.state
            } else {
                r is Ok && post.state == SwapState::Refunded
            };
            assert(HTLC::refund_post(pre.seller_htlc, post.seller_htlc, current_time, r2));
        }
    }
}


/// A contract is redeemed exactly when the preimage hashes to its hashlock
/// and it was not redeemed before; redemption leaves it redeemed and never
/// touches its refund.
pub proof fn lemma_htlc_redeem<A>(pre: HTLC<A>, post: HTLC<A>, preimage: Seq<u8>, r: Result<(), DexError>)
    requires
        HTLC::redeem_post(pre, post, preimage, r),
    ensures
        r is Ok <==> (spec_sha256(preimage) == pre.hashlock@ && !pre.redeemed),
        r is Ok ==> post.redeemed,
        r is Err ==> post.redeemed == pre.redeemed,
        post.refunded == pre.refunded,
        post.amount == pre.amount,
{
}

} // verus!
