//! Fingerprints of files.

use sha2::{Digest, Sha256};
use vstd::prelude::*;

verus! {

/// What SHA-256 makes of bytes.
pub uninterp spec fn sha256_of(bytes: Seq<u8>) -> Seq<u8>;

/// The SHA-256 digest of bytes, from `sha2::Sha256::digest`: 32 bytes that depend
/// on the given bytes alone.
#[verifier::external_body]
fn sha256(bytes: &[u8]) -> (digest: [u8; 32])
    ensures
        digest@ == sha256_of(bytes@),
{
    Sha256::digest(bytes).into()
}

/// A hexadecimal digit, in lower case.
pub open spec fn hex_digit(value: int) -> char {
    if value < 10 {
        ((0x30 + value) as u8) as char
    } else {
        ((0x57 + value) as u8) as char
    }
}

/// Bytes in hexadecimal, two digits each.
pub open spec fn hex(bytes: Seq<u8>) -> Seq<char> {
    Seq::new(
        2 * bytes.len(),
        |i: int|
            if i % 2 == 0 {
                hex_digit(bytes[i / 2] as int / 16)
            } else {
                hex_digit(bytes[i / 2] as int % 16)
            },
    )
}

fn digit(value: u8) -> (text: char)
    requires
        value < 16,
    ensures
        text == hex_digit(value as int),
{
    if value < 10 {
        (0x30 + value) as char
    } else {
        (0x57 + value) as char
    }
}

/// Bytes in hexadecimal.
pub fn to_hex(bytes: &[u8]) -> (text: String)
    requires
        bytes.len() <= 0x7fff_ffff,
    ensures
        text@ == hex(bytes@),
{
    let mut text: String = String::new();
    let mut index: usize = 0;
    while index < bytes.len()
        invariant
            index <= bytes.len(),
            text@ == hex(bytes@).take(2 * index),
        decreases bytes.len() - index,
    {
        text.push(digit(bytes[index] / 16));
        text.push(digit(bytes[index] % 16));
        index += 1;
        assert(text@ =~= hex(bytes@).take(2 * index));
    }
    assert(hex(bytes@).take(2 * bytes.len() as int) =~= hex(bytes@));
    text
}

/// The SHA-256 fingerprint of bytes, in hexadecimal.
pub fn fingerprint(bytes: &[u8]) -> (text: String)
    ensures
        text@ == hex(sha256_of(bytes@)),
{
    let digest: [u8; 32] = sha256(bytes);
    to_hex(digest.as_slice())
}

/// Two digits tell all bytes apart.
pub proof fn hex_is_injective(left: Seq<u8>, right: Seq<u8>)
    requires
        hex(left) == hex(right),
    ensures
        left == right,
{
    assert(hex(left).len() == 2 * left.len());
    assert(hex(right).len() == 2 * right.len());
    assert forall|i: int| 0 <= i < left.len() implies left[i] == right[i] by {
        let high = 2 * i;
        let low = 2 * i + 1;
        assert(high / 2 == i && high % 2 == 0 && low / 2 == i && low % 2 == 1);
        assert(hex(left)[high] == hex_digit(left[i] as int / 16));
        assert(hex(right)[high] == hex_digit(right[i] as int / 16));
        assert(hex(left)[low] == hex_digit(left[i] as int % 16));
        assert(hex(right)[low] == hex_digit(right[i] as int % 16));
        lemma_digits_differ(left[i] as int / 16, right[i] as int / 16);
        lemma_digits_differ(left[i] as int % 16, right[i] as int % 16);
    }
    assert(left =~= right);
}

proof fn lemma_digits_differ(left: int, right: int)
    requires
        0 <= left < 16,
        0 <= right < 16,
        hex_digit(left) == hex_digit(right),
    ensures
        left == right,
{
}

} // verus!
