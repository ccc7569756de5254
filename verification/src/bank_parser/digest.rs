//! The fingerprint digest: SHA-1 over the payload's UTF-8 bytes, rendered
//! as uppercase hexadecimal.

use vstd::prelude::*;
use sha1::Digest;
use sha1::Sha1;

verus! {

/// The SHA-1 digest of the UTF-8 encoding of a character sequence.
pub uninterp spec fn sha1_of(text: Seq<char>) -> Seq<u8>;

/// Relies on `sha1::Sha1` through the `Digest` trait: the digest is a
/// 160-bit (20-byte) value determined by the input bytes alone.
#[verifier::external_body]
pub(crate) fn sha1_utf8(text: &str) -> (r: Vec<u8>)
    ensures
        r@ == sha1_of(text@),
        r@.len() == 20,
{
    Sha1::digest(text.as_bytes()).to_vec()
}

/// The uppercase hexadecimal digit for a value in `0 ..= 15`.
pub open spec fn hex_digit_upper(d: int) -> char {
    if d == 0 {
        '0'
    } else if d == 1 {
        '1'
    } else if d == 2 {
        '2'
    } else if d == 3 {
        '3'
    } else if d == 4 {
        '4'
    } else if d == 5 {
        '5'
    } else if d == 6 {
        '6'
    } else if d == 7 {
        '7'
    } else if d == 8 {
        '8'
    } else if d == 9 {
        '9'
    } else if d == 10 {
        'A'
    } else if d == 11 {
        'B'
    } else if d == 12 {
        'C'
    } else if d == 13 {
        'D'
    } else if d == 14 {
        'E'
    } else {
        'F'
    }
}

/// Uppercase hexadecimal rendering of a byte sequence: two digits per
/// byte, high nibble first.
pub open spec fn hex_upper_of(b: Seq<u8>) -> Seq<char> {
    Seq::new(
        b.len() * 2,
        |i: int|
            if i % 2 == 0 {
                hex_digit_upper(b[i / 2] as int / 16)
            } else {
                hex_digit_upper(b[i / 2] as int % 16)
            },
    )
}

/// An uppercase hexadecimal digit: `0` to `9` or `A` to `F`.
pub open spec fn is_upper_hex_digit(c: char) -> bool {
    (48 <= c as u32 && c as u32 <= 57) || (65 <= c as u32 && c as u32 <= 70)
}

/// Every character of a hexadecimal rendering is an uppercase hex digit.
pub proof fn lemma_hex_upper_chars(b: Seq<u8>)
    ensures
        forall|k: int|
            0 <= k < hex_upper_of(b).len() ==> is_upper_hex_digit(#[trigger] hex_upper_of(b)[k]),
{
    assert forall|k: int| 0 <= k < hex_upper_of(b).len() implies is_upper_hex_digit(
        hex_upper_of(b)[k],
    ) by {
        let d = if k % 2 == 0 {
            b[k / 2] as int / 16
        } else {
            b[k / 2] as int % 16
        };
        assert(0 <= d < 16);
        assert(hex_upper_of(b)[k] == hex_digit_upper(d));
    }
}

/// Relies on `hex::encode_upper`: each input byte becomes two uppercase
/// hexadecimal digits, high nibble first.
#[verifier::external_body]
pub(crate) fn hex_upper(b: &[u8]) -> (r: String)
    ensures
        r@ == hex_upper_of(b@),
{
    hex::encode_upper(b)
}

} // verus!
