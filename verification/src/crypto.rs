use vstd::prelude::*;

verus! {

/// The SHA-256 digest of a byte sequence, as computed by the `sha2` crate.
pub uninterp spec fn spec_sha256(data: Seq<u8>) -> Seq<u8>;

/// SHA-256 of `data` through `sha2::Sha256` (`Digest::digest`).
/// Claimed: the 32 bytes returned are `spec_sha256` of the input bytes.
#[verifier::external_body]
pub(crate) fn sha256_digest(data: &[u8]) -> (res: [u8; 32])
    ensures
        res@ == spec_sha256(data@),
{
    <sha2::Sha256 as sha2::Digest>::digest(data).into()
}

/// The lowercase hexadecimal digit for a value below 16.
pub open spec fn hex_digit(v: u8) -> char {
    if v < 10 {
        (('0' as u8) + v) as char
    } else {
        (('a' as u8) + (v - 10)) as char
    }
}

/// Lowercase hexadecimal text of a byte sequence: two digits per byte, high
/// nibble first.
pub open spec fn hex_lower(data: Seq<u8>) -> Seq<char>
    decreases data.len(),
{
    if data.len() == 0 {
        Seq::empty()
    } else {
        hex_lower(data.drop_last()) + seq![hex_digit(data.last() / 16), hex_digit(data.last() % 16)]
    }
}

/// `hex::encode`: the bytes as lowercase hexadecimal text.
/// Claimed: the text is `hex_lower` of the bytes (the crate maps each byte to
/// the characters `0123456789abcdef` at its high and low nibble, in order).
#[verifier::external_body]
pub(crate) fn hex_encode(data: &[u8]) -> (res: String)
    ensures
        res@ == hex_lower(data@),
{
    hex::encode(data)
}

} // verus!

