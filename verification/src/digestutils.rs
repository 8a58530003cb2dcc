use vstd::prelude::*;

verus! {

/// Number of bytes in a SHA-256 digest.
pub const DIGEST_LEN: usize = 32;

/// The SHA-256 digest of a byte sequence: a pure function of the bytes
/// alone, computed by the digest provider.  Identical content always has
/// an identical digest; nothing more is assumed of its value.
pub uninterp spec fn sha256_of(bytes: Seq<u8>) -> Seq<u8>;

/// The lowercase hexadecimal digit for a value below sixteen.
pub open spec fn hex_digit(n: int) -> char {
    if n == 0 {
        '0'
    } else if n == 1 {
        '1'
    } else if n == 2 {
        '2'
    } else if n == 3 {
        '3'
    } else if n == 4 {
        '4'
    } else if n == 5 {
        '5'
    } else if n == 6 {
        '6'
    } else if n == 7 {
        '7'
    } else if n == 8 {
        '8'
    } else if n == 9 {
        '9'
    } else if n == 10 {
        'a'
    } else if n == 11 {
        'b'
    } else if n == 12 {
        'c'
    } else if n == 13 {
        'd'
    } else if n == 14 {
        'e'
    } else {
        'f'
    }
}

/// Lowercase-hex encoding of a byte sequence: two digits per byte, most
/// significant digit first.
pub open spec fn hex_lower_of(bytes: Seq<u8>) -> Seq<char> {
    Seq::new(
        bytes.len() * 2,
        |i: int|
            if i % 2 == 0 {
                hex_digit((bytes[i / 2] as int) / 16)
            } else {
                hex_digit((bytes[i / 2] as int) % 16)
            },
    )
}

/// Relies on `ring::digest::digest` with `ring::digest::SHA256`: a pure,
/// deterministic digest of the buffer, 32 bytes long.
#[verifier::external_body]
pub fn calculate_digest(buffer: &[u8]) -> (r: Vec<u8>)
    ensures
        r@ == sha256_of(buffer@),
        r@.len() == DIGEST_LEN,
{
    ring::digest::digest(&ring::digest::SHA256, buffer).as_ref().to_vec()
}

/// Relies on `data_encoding::HEXLOWER.encode`: the lowercase-hex string of
/// the bytes, two digits per byte, most significant digit first.
#[verifier::external_body]
pub(crate) fn hex_encode(bytes: &[u8]) -> (r: String)
    ensures
        r@ == hex_lower_of(bytes@),
{
    data_encoding::HEXLOWER.encode(bytes)
}

} // verus!
