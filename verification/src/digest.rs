//! Hashing and hex rendering: the SHA-1 digest behind piece and info-hash
//! integrity, and byte-to-hex conversion for display and magnet parsing.

use vstd::prelude::*;

verus! {

/// The SHA-1 digest of a byte sequence. Named, not spelled out: the digest is
/// a function of the input bytes alone.
pub uninterp spec fn sha1_of(data: Seq<u8>) -> Seq<u8>;

/// Relies on sha1::Sha1 through its Digest impl: the digest depends on the
/// input bytes alone and is always 20 bytes.
#[verifier::external_body]
pub fn sha1_digest(data: &[u8]) -> (r: Vec<u8>)
    ensures
        r@ == sha1_of(data@),
        r@.len() == 20,
{
    <sha1::Sha1 as sha1::Digest>::digest(data).to_vec()
}

/// The sixteen lowercase hex digits in value order.
pub open spec fn hex_chars() -> Seq<char> {
    seq!['0', '1', '2', '3', '4', '5', '6', '7', '8', '9', 'a', 'b', 'c', 'd', 'e', 'f']
}

/// Lowercase hex rendering of a byte sequence: two digits per byte, most
/// significant first.
pub open spec fn hex_of(data: Seq<u8>) -> Seq<char>
    decreases data.len(),
{
    if data.len() == 0 {
        Seq::empty()
    } else {
        seq![
            hex_chars()[(data.first() / 16) as int],
            hex_chars()[(data.first() % 16) as int],
        ] + hex_of(data.drop_first())
    }
}

/// Relies on hex::encode: it renders each byte as two lowercase hex digits,
/// most significant nibble first.
#[verifier::external_body]
pub fn hex_encode(data: &[u8]) -> (r: String)
    ensures
        r@ == hex_of(data@),
{
    hex::encode(data)
}

/// Value of one ASCII hex digit, 255 for any other byte.
pub open spec fn hex_val(b: u8) -> u8 {
    if 48 <= b <= 57 {
        (b - 48) as u8
    } else if 97 <= b <= 102 {
        (b - 87) as u8
    } else if 65 <= b <= 70 {
        (b - 55) as u8
    } else {
        255
    }
}

/// Whether a byte is an ASCII hex digit, upper or lower case.
pub open spec fn is_hex_digit(b: u8) -> bool {
    hex_val(b) < 16
}

/// Decodes ASCII hex digits (either case) into bytes: two digits per byte.
/// Returns `None` exactly when the length is odd or a byte is not a digit.
pub fn hex_decode(data: &[u8]) -> (r: Option<Vec<u8>>)
    ensures
        r is Some <==> data@.len() % 2 == 0 && (forall|i: int|
            0 <= i < data@.len() ==> is_hex_digit(#[trigger] data@[i])),
        r matches Some(v) ==> {
            &&& v@.len() == data@.len() / 2
            &&& forall|i: int|
                0 <= i < v@.len() ==> #[trigger] v@[i] == hex_val(data@[2 * i]) * 16 + hex_val(
                    data@[2 * i + 1],
                )
        },
{
    if data.len() % 2 != 0 {
        return None;
    }
    let mut out: Vec<u8> = Vec::new();
    let mut i: usize = 0;
    while i < data.len()
        invariant
            data@.len() % 2 == 0,
            2 * out@.len() == i,
            i <= data@.len(),
            i % 2 == 0,
            forall|j: int| 0 <= j < i ==> is_hex_digit(#[trigger] data@[j]),
            forall|j: int|
                0 <= j < out@.len() ==> #[trigger] out@[j] == hex_val(data@[2 * j]) * 16 + hex_val(
                    data@[2 * j + 1],
                ),
        decreases data@.len() - i,
    {
        let hi = hex_digit_value(*vstd::slice::slice_index_get(data, i));
        let lo = hex_digit_value(*vstd::slice::slice_index_get(data, i + 1));
        if hi >= 16 || lo >= 16 {
            return None;
        }
        out.push(hi * 16 + lo);
        i = i + 2;
    }
    Some(out)
}

/// Value of one ASCII hex digit, 255 for any other byte.
pub fn hex_digit_value(b: u8) -> (r: u8)
    ensures
        r == hex_val(b),
{
    if 48 <= b && b <= 57 {
        b - 48
    } else if 97 <= b && b <= 102 {
        b - 87
    } else if 65 <= b && b <= 70 {
        b - 55
    } else {
        255
    }
}

} // verus!
