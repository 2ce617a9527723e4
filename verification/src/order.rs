use vstd::prelude::*;

use crate::clock::current_time_secs;
use crate::error::{is_error_with, DexError};
use crate::text::{decimal, decimal_string, signed_decimal, signed_decimal_string};
use vstd::string::StringSliceAdditionalSpecFns;
use vstd::utf8::encode_utf8;

verus! {

/// The Ed25519 public key (32 bytes) that `ed25519-dalek` derives from the
/// 32-byte secret key `secret`.
pub uninterp spec fn spec_ed25519_public(secret: Seq<u8>) -> Seq<u8>;

/// The Ed25519 signature (64 bytes) that `ed25519-dalek` makes of `message`
/// with the key pair of the secret key `secret`; Ed25519 signing is
/// deterministic.
pub uninterp spec fn spec_ed25519_sign(secret: Seq<u8>, message: Seq<u8>) -> Seq<u8>;

/// Whether `ed25519-dalek` accepts `signature` on `message` under the
/// public key `public`: both decode, and the signature equation holds.
pub uninterp spec fn spec_ed25519_verify(public: Seq<u8>, message: Seq<u8>, signature: Seq<u8>) -> bool;

/// `PublicKey::from(&SecretKey)` of `ed25519-dalek`, as bytes. The secret
/// key is parsed with `SecretKey::from_bytes`, which only checks the length
/// (32 here), so the parse cannot fail. The key depends on the secret alone.
#[verifier::external_body]
fn ed25519_public_key(secret: &[u8; 32]) -> (res: [u8; 32])
    ensures
        res@ == spec_ed25519_public(secret@),
{
    let sk = ed25519_dalek::SecretKey::from_bytes(secret).unwrap();
    ed25519_dalek::PublicKey::from(&sk).to_bytes()
}

/// `Signer::sign` of the `ed25519_dalek::Keypair` made of `secret` and its
/// derived public key, as bytes. Signing cannot fail and is deterministic;
/// as the crate documents for `Verifier::verify`, a signature made with a
/// key pair is valid under that key pair's public key.
#[verifier::external_body]
fn ed25519_sign(secret: &[u8; 32], message: &[u8]) -> (res: [u8; 64])
    ensures
        res@ == spec_ed25519_sign(secret@, message@),
        spec_ed25519_verify(spec_ed25519_public(secret@), message@, res@),
{
    let sk = ed25519_dalek::SecretKey::from_bytes(secret).unwrap();
    let public = ed25519_dalek::PublicKey::from(&sk);
    let keypair = ed25519_dalek::Keypair { secret: sk, public };
    ed25519_dalek::Signer::sign(&keypair, message).to_bytes()
}

/// `Verifier::verify` of `ed25519_dalek::PublicKey` after decoding the key
/// (`PublicKey::from_bytes`) and the signature (`Signature::from_bytes`):
/// `Ok` exactly when the signature is valid; otherwise the crate's error,
/// written with `{:?}` (which error text comes is not claimed).
#[verifier::external_body]
fn ed25519_verify(public: &[u8; 32], message: &[u8], signature: &[u8; 64]) -> (res: Result<(), String>)
    ensures
        res is Ok <==> spec_ed25519_verify(public@, message@, signature@),
{
    let key = ed25519_dalek::PublicKey::from_bytes(public).map_err(|e| format!("{:?}", e))?;
    let sig = ed25519_dalek::Signature::from_bytes(signature).map_err(|e| format!("{:?}", e))?;
    ed25519_dalek::Verifier::verify(&key, message, &sig).map_err(|e| format!("{:?}", e))
}

/// An Ed25519 key pair, held as its 32-byte secret key; the public half is
/// derived from it.
pub struct Keypair {
    secret: [u8; 32],
}

impl Keypair {
    /// The secret key's bytes.
    pub closed spec fn secret_bytes(&self) -> Seq<u8> {
        self.secret@
    }

    /// The public key's bytes.
    pub open spec fn public_bytes(&self) -> Seq<u8> {
        spec_ed25519_public(self.secret_bytes())
    }

    /// The key pair of the secret key `secret`.
    pub fn from_secret(secret: [u8; 32]) -> (res: Self)
        ensures
            res.secret_bytes() == secret@,
    {
        Keypair { secret }
    }

    /// The public key.
    pub fn public_key(&self) -> (res: [u8; 32])
        ensures
            res@ == self.public_bytes(),
    {
        ed25519_public_key(&self.secret)
    }
}

/// Buy or sell.
#[derive(Clone, Copy, Debug, PartialEq, Eq, Structural)]
pub enum OrderType {
    Buy,
    Sell,
}

/// The text a cancellation is signed over: id, user and time (seconds),
/// separated by `|`.
pub open spec fn cancel_message(order_id: u64, user_id: Seq<char>, timestamp: i64) -> Seq<char> {
    decimal(order_id as nat) + seq!['|'] + user_id + seq!['|'] + signed_decimal(timestamp as int)
}

/// A signed request to cancel an order.
pub struct CancelOrder {
    pub order_id: u64,
    pub user_id: String,
    /// Seconds since the Unix epoch.
    pub timestamp: i64,
    /// The 64-byte Ed25519 signature, once signed.
    pub signature: Option<[u8; 64]>,
}

impl CancelOrder {
    /// An unsigned cancellation stamped `timestamp`.
    pub fn new_at(order_id: u64, user_id: String, timestamp: i64) -> (res: Self)
        ensures
            res.order_id == order_id,
            res.user_id == user_id,
            res.timestamp == timestamp,
            res.signature is None,
    {
        CancelOrder { order_id, user_id, timestamp, signature: None }
    }

    /// An unsigned cancellation stamped with the local clock (whose reading
    /// is not promised).
    pub fn new(order_id: u64, user_id: String) -> (res: Self)
        ensures
            res.order_id == order_id,
            res.user_id == user_id,
            res.signature is None,
    {
        let now = current_time_secs();
        let ts: i64 = if now <= i64::MAX as u64 { now as i64 } else { i64::MAX };
        Self::new_at(order_id, user_id, ts)
    }

    /// The text the signature covers.
    pub fn message_to_sign(&self) -> (res: String)
        ensures
            res@ == cancel_message(self.order_id, self.user_id@, self.timestamp),
    {
        let mut m = decimal_string(self.order_id);
        m.append("|");
        m.append(self.user_id.as_str());
        m.append("|");
        m.append(signed_decimal_string(self.timestamp).as_str());
        proof {
            reveal_strlit("|");
        }
        assert(m@ =~= cancel_message(self.order_id, self.user_id@, self.timestamp));
        m
    }

    /// The bytes the signature covers: the UTF-8 text of
    /// [`cancel_message`].
    pub open spec fn signed_bytes(&self) -> Seq<u8> {
        encode_utf8(cancel_message(self.order_id, self.user_id@, self.timestamp))
    }

    /// Whether the cancellation carries a signature that is valid under
    /// `public_key` for its own text.
    pub open spec fn verifies_under(&self, public_key: Seq<u8>) -> bool {
        &&& self.signature is Some
        &&& spec_ed25519_verify(public_key, self.signed_bytes(), self.signature.unwrap()@)
    }

    /// Signs the cancellation's text with `keypair`; signing does not fail,
    /// and the signed cancellation verifies under the key pair's public key.
    pub fn sign(&mut self, keypair: &Keypair) -> (res: Result<(), DexError>)
        ensures
            res is Ok,
            final(self).order_id == old(self).order_id,
            final(self).user_id == old(self).user_id,
            final(self).timestamp == old(self).timestamp,
            final(self).signature is Some,
            final(self).signature.unwrap()@ == spec_ed25519_sign(keypair.secret_bytes(), old(self).signed_bytes()),
            final(self).verifies_under(keypair.public_bytes()),
    {
        let message = self.message_to_sign();
        let signature = ed25519_sign(&keypair.secret, message.as_str().as_bytes());
        self.signature = Some(signature);
        Ok(())
    }

    /// Checks the signature against `public_key`: `Ok` exactly when a
    /// signature is present and valid for the cancellation's text; an
    /// unsigned cancellation is refused with its own message, a failed check
    /// with the crate's error behind a fixed prefix.
    pub fn verify(&self, public_key: &[u8; 32]) -> (res: Result<(), DexError>)
        ensures
            res is Ok <==> self.verifies_under(public_key@),
            self.signature is None ==> is_error_with(res, "CancelOrder besitzt keine Signatur"@),
            self.signature is Some ==> (res matches Err(DexError::Other(m)) ==> "CancelOrder-Signatur-Überprüfung fehlgeschlagen: "@.is_prefix_of(m@)),
    {
        match &self.signature {
            Some(signature) => {
                let message = self.message_to_sign();
                match ed25519_verify(public_key, message.as_str().as_bytes(), signature) {
                    Ok(()) => Ok(()),
                    Err(e) => {
                        let mut m = String::from_str("CancelOrder-Signatur-Überprüfung fehlgeschlagen: ");
                        let ghost prefix = m@;
                        m.append(e.as_str());
                        assert(prefix.is_prefix_of(m@)) by {
                            assert(m@.subrange(0, prefix.len() as int) =~= prefix);
                        }
                        Err(DexError::Other(m))
                    },
                }
            },
            None => Err(DexError::Other(String::from_str("CancelOrder besitzt keine Signatur"))),
        }
    }
}

} // verus!
