use my_dex::settlement::settlement::compute_sha256;
use my_dex::error::DexError;
use my_dex::matching_engine::{AtomicSwap, SwapState, HTLC};
use sha2::{Digest, Sha256};

fn lock_of(preimage: &[u8]) -> [u8; 32] {
    let d = Sha256::digest(preimage);
    let mut out = [0u8; 32];
    out.copy_from_slice(&d);
    out
}

fn msg(e: DexError) -> String {
    match e {
        DexError::Other(m) => m,
    }
}

#[test]
fn sha256_digest_matches_known_vector() {
    assert_eq!(
        compute_sha256("The quick brown fox jumps over the lazy dog"),
        "d7a8fbb307d7809469ca9abcb0082e4f8d5651e46d3cdb762d02d0bf37c9e592"
    );
    let lock = lock_of(b"abc");
    assert_eq!(lock[0], 0xba);
    assert_eq!(lock[31], 0xad);
}

#[test]
fn htlc_redeems_once_with_the_right_preimage() {
    let mut h = HTLC::new("BTC", 10u64, lock_of(b"secret"), 100);
    assert_eq!(msg(h.redeem(b"wrong").unwrap_err()), "Hashlock mismatch");
    assert!(!h.redeemed);
    assert!(h.redeem(b"secret").is_ok());
    assert!(h.redeemed);
    assert_eq!(msg(h.redeem(b"secret").unwrap_err()), "HTLC bereits eingelöst");
}

#[test]
fn htlc_refund_only_after_timelock_and_once() {
    let mut h = HTLC::new("LTC", 5u64, [0u8; 32], 100);
    assert_eq!(msg(h.refund(99).unwrap_err()), "HTLC noch nicht abgelaufen");
    assert!(h.refund(100).is_ok());
    assert!(h.refunded);
    assert_eq!(msg(h.refund(200).unwrap_err()), "HTLC bereits zurückerstattet");
}

#[test]
fn atomic_swap_completes_and_then_cannot_be_refunded() {
    let lock = lock_of(b"secret");
    let mut swap = AtomicSwap::new(HTLC::new("BTC", 1u64, lock, 3600), HTLC::new("LTC", 10u64, lock, 1800));
    assert_eq!(msg(swap.buyer_redeem().unwrap_err()), "Seller hat noch nicht eingelöst");
    assert!(swap.seller_redeem(b"secret").is_ok());
    assert_eq!(swap.state, SwapState::SellerRedeemed);
    assert_eq!(swap.preimage.as_deref(), Some(&b"secret"[..]));
    assert_eq!(msg(swap.seller_redeem(b"secret").unwrap_err()), "Swap nicht im Init-Status");
    assert!(swap.buyer_redeem().is_ok());
    assert_eq!(swap.state, SwapState::BuyerRedeemed);
    assert!(swap.buyer_htlc.redeemed && swap.seller_htlc.redeemed);
    assert_eq!(msg(swap.refund(10_000).unwrap_err()), "Swap bereits abgeschlossen");
}

#[test]
fn atomic_swap_with_wrong_preimage_stays_in_init() {
    let lock = lock_of(b"secret");
    let mut swap = AtomicSwap::new(HTLC::new("BTC", 1u64, lock, 3600), HTLC::new("LTC", 10u64, lock, 1800));
    assert_eq!(msg(swap.seller_redeem(b"nope").unwrap_err()), "Hashlock mismatch");
    assert_eq!(swap.state, SwapState::Init);
    assert!(swap.preimage.is_none());
}

#[test]
fn atomic_swap_refund_after_both_timelocks() {
    let lock = lock_of(b"secret");
    let mut swap = AtomicSwap::new(HTLC::new("BTC", 1u64, lock, 3600), HTLC::new("LTC", 10u64, lock, 1800));
    assert_eq!(msg(swap.refund(1000).unwrap_err()), "HTLC noch nicht abgelaufen");
    assert!(swap.refund(3600).is_ok());
    assert_eq!(swap.state, SwapState::Refunded);
}
