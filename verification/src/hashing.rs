//! Content hashing: SHA-256 digests rendered as lowercase hex.
use vstd::prelude::*;

verus! {

/// What `sha2::Sha256::digest` returns for `data`.
pub uninterp spec fn spec_sha256(data: Seq<u8>) -> Seq<u8>;

/// Calls `sha2::Sha256::digest`. The digest is named; its documented size is
/// 32 bytes.
#[verifier::external_body]
pub(crate) fn sha256(data: &[u8]) -> (d: Vec<u8>)
    ensures
        d@ == spec_sha256(data@),
        d@.len() == 32,
{
    <sha2::Sha256 as sha2::Digest>::digest(data).to_vec()
}

/// The lowercase hex digit for a value below 16.
pub open spec fn hex_digit(v: u8) -> char {
    if v < 10 {
        (('0' as u8) + v) as char
    } else {
        (('a' as u8) + (v - 10)) as char
    }
}

/// Each byte as two lowercase hex digits, high nibble first.
pub open spec fn hex_of(data: Seq<u8>) -> Seq<char>
    decreases data.len(),
{
    if data.len() == 0 {
        Seq::empty()
    } else {
        hex_of(data.drop_last()) + seq![hex_digit(data.last() / 16), hex_digit(data.last() % 16)]
    }
}

/// Calls `hex::encode`, which writes each byte as two lowercase hex digits.
#[verifier::external_body]
pub(crate) fn hex_encode(data: &[u8]) -> (h: String)
    ensures
        h@ == hex_of(data@),
{
    hex::encode(data)
}

/// The hex SHA-256 of `data`.
pub open spec fn spec_sha256_hex(data: Seq<u8>) -> Seq<char> {
    hex_of(spec_sha256(data))
}

pub fn sha256_hex(data: &[u8]) -> (h: String)
    ensures
        h@ == spec_sha256_hex(data@),
{
    let d = sha256(data);
    hex_encode(d.as_slice())
}

} // verus!
