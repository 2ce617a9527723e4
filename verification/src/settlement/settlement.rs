use vstd::prelude::*;

use crate::clock::current_time_secs;
use crate::crypto::{hex_encode, hex_lower, sha256_digest, spec_sha256};
use crate::error::{is_error_with, DexError};
use crate::text::{is_blank, is_blank_spec};
use vstd::string::StringSliceAdditionalSpecFns;

verus! {

/// SHA-256 of the text's UTF-8 bytes, as lowercase hexadecimal.
pub open spec fn sha256_hex(input: Seq<u8>) -> Seq<char> {
    hex_lower(spec_sha256(input))
}

/// SHA-256 of `input`'s bytes, written as lowercase hexadecimal.
pub fn compute_sha256(input: &str) -> (res: String)
    ensures
        res@ == sha256_hex(input.spec_bytes()),
{
    let digest = sha256_digest(input.as_bytes());
    hex_encode(digest.as_slice())
}

/// `prefix`, then the text `id`, then `suffix`.
pub open spec fn with_id(prefix: Seq<char>, id: Seq<char>, suffix: Seq<char>) -> Seq<char> {
    prefix + id + suffix
}

fn message_with_id(prefix: &str, id: &str, suffix: &str) -> (res: String)
    ensures
        res@ == with_id(prefix@, id@, suffix@),
{
    let mut m = String::from_str(prefix);
    m.append(id);
    m.append(suffix);
    m
}

/// The outcome of validating an HTLC settlement at time `now_sec`: which
/// message it is refused with, checked in this order, or `None` when it is
/// valid.
pub open spec fn htlc_refusal(id: Seq<char>, hash_lock: Seq<char>, timeout: u64, preimage: Option<Seq<u8>>, now_sec: u64) -> Option<Seq<char>> {
    match preimage {
        None => Some(with_id("HTLC settlement requires a preimage for id: "@, id, ""@)),
        Some(p) => if sha256_hex(p) != hash_lock {
            Some(with_id("HTLC validation failed: preimage hash mismatch for id: "@, id, ""@))
        } else if now_sec >= timeout {
            Some(with_id("HTLC settlement => Timeout abgelaufen (id="@, id, ")"@))
        } else if timeout == 0 {
            Some(with_id("HTLC timeout must be > 0 for id: "@, id, ""@))
        } else {
            None
        },
    }
}

/// The UTF-8 bytes of an optional text.
pub open spec fn opt_bytes(p: Option<&str>) -> Option<Seq<u8>> {
    match p {
        Some(t) => Some(t.spec_bytes()),
        None => None,
    }
}

/// Validates settlement proposals and commits them.
pub struct BaseSettlementEngine;

impl BaseSettlementEngine {
    /// An engine.
    pub fn new() -> Self {
        BaseSettlementEngine
    }

    /// Accepting a proposal hands back its id.
    pub fn propose_settlement(&self, id: &str) -> (res: String)
        ensures
            res@ == id@,
    {
        String::from_str(id)
    }

    /// A standard settlement is valid when its data is not blank.
    pub fn validate_standard(&self, data: &str) -> (res: Result<bool, DexError>)
        ensures
            !is_blank_spec(data@) <==> res matches Ok(true),
            is_blank_spec(data@) ==> is_error_with(res, "Settlement data is empty"@),
    {
        if is_blank(data) {
            return Err(DexError::Other(String::from_str("Settlement data is empty")));
        }
        Ok(true)
    }

    /// An atomic swap settlement is valid when its counterparty and assets
    /// are not blank and both amounts are positive.
    pub fn validate_atomic_swap(
        &self,
        counterparty: &str,
        asset_from: &str,
        asset_to: &str,
        amount_from_positive: bool,
        amount_to_positive: bool,
    ) -> (res: Result<bool, DexError>)
        ensures
            (is_blank_spec(counterparty@) || is_blank_spec(asset_from@) || is_blank_spec(asset_to@))
                ==> is_error_with(res, "Atomic swap parameters must be non-empty"@),
            !(is_blank_spec(counterparty@) || is_blank_spec(asset_from@) || is_blank_spec(asset_to@))
                && !(amount_from_positive && amount_to_positive)
                ==> is_error_with(res, "Atomic swap amounts must be positive"@),
            res matches Ok(b) ==> b,
            res is Ok <==> !(is_blank_spec(counterparty@) || is_blank_spec(asset_from@) || is_blank_spec(asset_to@))
                && amount_from_positive && amount_to_positive,
    {
        if is_blank(counterparty) || is_blank(asset_from) || is_blank(asset_to) {
            return Err(DexError::Other(String::from_str("Atomic swap parameters must be non-empty")));
        }
        if !amount_from_positive || !amount_to_positive {
            return Err(DexError::Other(String::from_str("Atomic swap amounts must be positive")));
        }
        Ok(true)
    }

    /// An HTLC settlement is valid when its preimage hashes to the hash lock
    /// and `now_sec` lies before the timeout.
    pub fn validate_htlc_at(
        &self,
        id: &str,
        hash_lock: &str,
        timeout: u64,
        preimage: Option<&str>,
        now_sec: u64,
    ) -> (res: Result<bool, DexError>)
        ensures
            match htlc_refusal(id@, hash_lock@, timeout, opt_bytes(preimage), now_sec) {
                Some(m) => is_error_with(res, m),
                None => res matches Ok(true),
            },
    {
        let pre = match preimage {
            Some(p) => p,
            None => {
                return Err(DexError::Other(message_with_id("HTLC settlement requires a preimage for id: ", id, "")));
            },
        };
        let computed_hash = compute_sha256(pre);
        let expected = hash_lock.to_owned();
        if !(computed_hash == expected) {
            return Err(DexError::Other(message_with_id("HTLC validation failed: preimage hash mismatch for id: ", id, "")));
        }
        if now_sec >= timeout {
            return Err(DexError::Other(message_with_id("HTLC settlement => Timeout abgelaufen (id=", id, ")")));
        }
        if timeout == 0 {
            return Err(DexError::Other(message_with_id("HTLC timeout must be > 0 for id: ", id, "")));
        }
        Ok(true)
    }

    /// Validates an HTLC settlement against the local clock (whose reading
    /// is not promised): a missing or wrong preimage is refused whatever the
    /// time.
    pub fn validate_htlc(&self, id: &str, hash_lock: &str, timeout: u64, preimage: Option<&str>) -> (res: Result<bool, DexError>)
        ensures
            preimage is None ==> is_error_with(res, with_id("HTLC settlement requires a preimage for id: "@, id@, ""@)),
            preimage matches Some(p) && sha256_hex(p.spec_bytes()) != hash_lock@
                ==> is_error_with(res, with_id("HTLC validation failed: preimage hash mismatch for id: "@, id@, ""@)),
            exists|now: u64| match #[trigger] htlc_refusal(id@, hash_lock@, timeout, opt_bytes(preimage), now) {
                Some(m) => is_error_with(res, m),
                None => res matches Ok(true),
            },
    {
        let now = current_time_secs();
        self.validate_htlc_at(id, hash_lock, timeout, preimage, now)
    }

    /// Commits a settlement: nothing can fail here.
    pub fn commit_settlement(&self, id: &str) -> (res: Result<(), DexError>)
        ensures
            res is Ok,
    {
        Ok(())
    }
}

} // verus!
