use vstd::prelude::*;

use crate::error::{is_error_with, DexError};

verus! {

/// The message with which settlements are refused while the zero-knowledge
/// setup is not available.
pub open spec fn zk_setup_message() -> Seq<char> {
    "ZK: Setup not done"@
}

/// Security checks applied to orders, trades and settlements.
pub trait SecurityValidator {
    /// Checks an order, identified by its id and its owner.
    fn validate_order(&self, order_id: &str, user_id: &str) -> Result<(), DexError>;

    /// Checks a trade, described in text.
    fn validate_trade(&self, trade_info: &str) -> Result<(), DexError>;

    /// Checks a settlement, described in text.
    fn validate_settlement(&self, settlement_info: &str) -> Result<(), DexError>;
}

/// The validator with multi-signature, ring-signature and zero-knowledge
/// checks; the first two accept everything, and the zero-knowledge proof
/// system has no setup, so every settlement is refused.
pub struct AdvancedSecurityValidator;

/// The message with which the zero-knowledge key generation fails.
pub open spec fn zk_unavailable_message() -> Seq<char> {
    "zero-knowledge setup unavailable"@
}

/// The zero-knowledge key generation; no proving system is set up, so it
/// always fails.
fn zk_setup() -> (res: Result<(), DexError>)
    ensures
        is_error_with(res, zk_unavailable_message()),
{
    Err(DexError::Other(String::from_str("zero-knowledge setup unavailable")))
}

impl AdvancedSecurityValidator {
    /// A validator.
    pub fn new() -> Self {
        AdvancedSecurityValidator
    }

    /// Multi-signature check of an order: accepts every order.
    fn validate_multisig(&self, order_id: &str, user_id: &str) -> (res: Result<(), DexError>)
        ensures
            res is Ok,
    {
        Ok(())
    }

    /// Ring-signature check of a trade: accepts every trade.
    fn validate_ring_signature(&self, trade_info: &str) -> (res: Result<(), DexError>)
        ensures
            res is Ok,
    {
        Ok(())
    }

    /// Zero-knowledge check of a settlement: refused with "ZK: Setup not
    /// done", since the setup step always fails.
    fn validate_zksnark(&self, settlement_info: &str) -> (res: Result<(), DexError>)
        ensures
            is_error_with(res, zk_setup_message()),
    {
        match zk_setup() {
            Err(_) => Err(DexError::Other(String::from_str("ZK: Setup not done"))),
            Ok(()) => Err(DexError::Other(String::from_str("ZK: Setup not done"))),
        }
    }
}

impl SecurityValidator for AdvancedSecurityValidator {
    fn validate_order(&self, order_id: &str, user_id: &str) -> (res: Result<(), DexError>)
        ensures
            res is Ok,
    {
        self.validate_multisig(order_id, user_id)
    }

    fn validate_trade(&self, trade_info: &str) -> (res: Result<(), DexError>)
        ensures
            res is Ok,
    {
        self.validate_ring_signature(trade_info)
    }

    fn validate_settlement(&self, settlement_info: &str) -> (res: Result<(), DexError>)
        ensures
            is_error_with(res, zk_setup_message()),
    {
        self.validate_zksnark(settlement_info)
    }
}

} // verus!
