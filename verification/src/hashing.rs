//! Trusted boundary to the outside digest and hex crates, and the one
//! UTF-8 conversion of std that the metainfo model needs.
use vstd::prelude::*;
use sha1::{Digest, Sha1};

verus! {

/// The SHA-1 digest of a byte sequence, as the sha1 crate computes it:
/// a function of the bytes alone, named rather than restated.
pub uninterp spec fn sha1_of(data: Seq<u8>) -> Seq<u8>;

/// Relies on sha1::Sha1 through digest::Digest: feeding `data` once and
/// finalizing yields the 20-byte SHA-1 digest of `data`, which depends
/// on `data` alone.
#[verifier::external_body]
pub fn sha1_digest(data: &[u8]) -> (r: [u8; 20])
    ensures
        r@ == sha1_of(data@),
{
    let mut hasher = <Sha1 as Digest>::new();
    hasher.update(data);
    let out = hasher.finalize();
    let mut r = [0u8; 20];
    r.copy_from_slice(&out);
    r
}

/// The lowercase hex digit for a value below sixteen.
pub open spec fn hex_digit(n: u8) -> char {
    if n < 10 {
        (48 + n) as char
    } else {
        (87 + n) as char
    }
}

/// The lowercase hex rendering of a byte sequence: two digits per byte,
/// high digit first, in byte order.
pub open spec fn hex_of(data: Seq<u8>) -> Seq<char>
    decreases data.len(),
{
    if data.len() == 0 {
        Seq::empty()
    } else {
        hex_of(data.drop_last()) + seq![
            hex_digit(data.last() / 16),
            hex_digit(data.last() % 16),
        ]
    }
}

/// Relies on hex::encode: for each input byte, in order, the two
/// lowercase hex digits of its high and low nibble.
#[verifier::external_body]
pub fn hex_encode(data: &[u8]) -> (r: String)
    ensures
        r@ == hex_of(data@),
{
    hex::encode(data)
}

/// Relies on String::from_utf8: `Some` exactly on valid UTF-8, and the
/// returned string re-encodes to the input bytes.
#[verifier::external_body]
pub fn string_from_utf8(bytes: Vec<u8>) -> (r: Option<String>)
    ensures
        match r {
            Some(s) => vstd::utf8::valid_utf8(bytes@) && vstd::utf8::encode_utf8(s@) == bytes@,
            None => !vstd::utf8::valid_utf8(bytes@),
        },
{
    String::from_utf8(bytes).ok()
}

} // verus!
