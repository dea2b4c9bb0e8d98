//! Hexadecimal blob identifiers.
//!
//! Blob ids and externally supplied digest overrides travel as hex text.
//! [`hex_of`] and [`hex_decoded`] give the exact meaning of both directions;
//! the executable conversions call the `hex` crate through trusted wrappers
//! whose contracts state that meaning.

use vstd::prelude::*;

verus! {

/// The lowercase hex digit (as an ASCII byte) for a value below 16.
pub open spec fn hex_digit(v: u8) -> u8 {
    if v < 10 {
        (v + 48) as u8
    } else {
        (v + 87) as u8
    }
}

/// Whether `c` is an ASCII hex digit (`0-9`, `a-f`, or `A-F`).
pub open spec fn is_hex_digit(c: u8) -> bool {
    (48 <= c <= 57) || (97 <= c <= 102) || (65 <= c <= 70)
}

/// The value of an ASCII hex digit.
pub open spec fn hex_val(c: u8) -> u8 {
    if 48 <= c <= 57 {
        (c - 48) as u8
    } else if 97 <= c <= 102 {
        (c - 87) as u8
    } else {
        (c - 55) as u8
    }
}

/// Lowercase hex encoding of a byte sequence: two digits per byte.
pub open spec fn hex_of(b: Seq<u8>) -> Seq<u8> {
    Seq::new(
        b.len() * 2,
        |i: int|
            if i % 2 == 0 {
                hex_digit(b[i / 2] / 16)
            } else {
                hex_digit(b[i / 2] % 16)
            },
    )
}

/// Whether a byte sequence is well-formed hex text: even length, hex digits only.
pub open spec fn is_hex(s: Seq<u8>) -> bool {
    s.len() % 2 == 0 && forall|i: int| 0 <= i < s.len() ==> is_hex_digit(#[trigger] s[i])
}

/// The bytes denoted by well-formed hex text.
pub open spec fn hex_decoded(s: Seq<u8>) -> Seq<u8> {
    Seq::new(s.len() / 2, |i: int| (hex_val(s[2 * i]) * 16 + hex_val(s[2 * i + 1])) as u8)
}

/// Relies on `hex::encode`: each input byte becomes two lowercase hex
/// digits, in order.
#[verifier::external_body]
pub fn hex_encode(data: &Vec<u8>) -> (r: Vec<u8>)
    ensures
        r@ == hex_of(data@),
{
    hex::encode(data).into_bytes()
}

/// Relies on `hex::decode`: accepts exactly the even-length strings of hex
/// digits (either case) and turns each digit pair back into one byte.
#[verifier::external_body]
pub fn hex_decode(data: &Vec<u8>) -> (r: Option<Vec<u8>>)
    ensures
        match r {
            Option::Some(b) => is_hex(data@) && b@ == hex_decoded(data@),
            Option::None => !is_hex(data@),
        },
{
    hex::decode(data).ok()
}

/// Decoding inverts encoding: hex text produced by `hex_of` is well formed
/// and denotes the bytes it was produced from.
pub proof fn lemma_hex_round_trip(b: Seq<u8>)
    ensures
        is_hex(hex_of(b)),
        hex_decoded(hex_of(b)) == b,
{
    let s = hex_of(b);
    assert forall|i: int| 0 <= i < s.len() implies is_hex_digit(#[trigger] s[i]) by {
        assert(b[i / 2] / 16 < 16);
        assert(b[i / 2] % 16 < 16);
    }
    assert forall|i: int| 0 <= i < b.len() implies hex_decoded(s)[i] == b[i] by {
        assert(s[2 * i] == hex_digit(b[i] / 16));
        assert(s[2 * i + 1] == hex_digit(b[i] % 16));
        assert(hex_val(hex_digit(b[i] / 16)) == b[i] / 16);
        assert(hex_val(hex_digit(b[i] % 16)) == b[i] % 16);
    }
    assert(hex_decoded(s) =~= b);
}

} // verus!
