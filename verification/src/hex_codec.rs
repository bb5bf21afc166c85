//! Lowercase hexadecimal encoding and (case-insensitive) decoding of bytes,
//! as done by the `hex` crate, with the contracts its documentation states.
use vstd::prelude::*;
use vstd::string::*;

verus! {

/// Why a text could not be read as hexadecimal bytes.
#[derive(Clone, Copy, Debug, PartialEq, Eq, Structural)]
pub enum HexError {
    /// A byte that is not a hexadecimal digit, with its position.
    InvalidHexCharacter { c: char, index: usize },
    /// The text has an odd number of bytes.
    OddLength,
    /// The bytes decode fine but are not the expected number.
    InvalidStringLength,
}

/// The lowercase hexadecimal digit for a nibble `n` (below 16).
pub open spec fn nibble_char(n: nat) -> char {
    if n == 0 { '0' } else if n == 1 { '1' } else if n == 2 { '2' } else if n == 3 { '3' }
    else if n == 4 { '4' } else if n == 5 { '5' } else if n == 6 { '6' } else if n == 7 { '7' }
    else if n == 8 { '8' } else if n == 9 { '9' } else if n == 10 { 'a' } else if n == 11 { 'b' }
    else if n == 12 { 'c' } else if n == 13 { 'd' } else if n == 14 { 'e' } else { 'f' }
}

/// Two lowercase hexadecimal digits per byte, high nibble first.
pub open spec fn hex_lower(bytes: Seq<u8>) -> Seq<char> {
    Seq::new(
        bytes.len() * 2,
        |i: int|
            if i % 2 == 0 {
                nibble_char((bytes[i / 2] / 16) as nat)
            } else {
                nibble_char((bytes[i / 2] % 16) as nat)
            },
    )
}

/// The value of a hexadecimal digit byte (either case), if it is one.
pub open spec fn hex_value(b: u8) -> Option<u8> {
    if 48 <= b && b <= 57 {
        Some((b - 48) as u8)
    } else if 97 <= b && b <= 102 {
        Some((b - 87) as u8)
    } else if 65 <= b && b <= 70 {
        Some((b - 55) as u8)
    } else {
        None
    }
}

/// Whether every byte is a hexadecimal digit.
pub open spec fn all_hex(b: Seq<u8>) -> bool {
    forall|i: int| 0 <= i < b.len() ==> (#[trigger] hex_value(b[i])) is Some
}

/// The position of the first byte that is not a hexadecimal digit.
pub open spec fn first_non_hex(b: Seq<u8>) -> int {
    choose|i: int|
        0 <= i < b.len() && hex_value(b[i]) is None && forall|j: int|
            0 <= j < i ==> (#[trigger] hex_value(b[j])) is Some
}

/// The bytes that consecutive pairs of hexadecimal digits stand for.
pub open spec fn hex_pairs(b: Seq<u8>) -> Seq<u8> {
    Seq::new(
        b.len() / 2,
        |k: int| (hex_value(b[2 * k])->0 * 16 + hex_value(b[2 * k + 1])->0) as u8,
    )
}

/// Decoding a byte text as hexadecimal: an odd length is refused first, then
/// the first byte that is not a digit; otherwise each pair gives one byte.
pub open spec fn hex_decode_spec(b: Seq<u8>) -> Result<Seq<u8>, HexError> {
    if b.len() % 2 != 0 {
        Err(HexError::OddLength)
    } else if !all_hex(b) {
        Err(
            HexError::InvalidHexCharacter {
                c: b[first_non_hex(b)] as char,
                index: first_non_hex(b) as usize,
            },
        )
    } else {
        Ok(hex_pairs(b))
    }
}

/// The bytes of the lowercase hexadecimal text of `bytes`.
pub open spec fn hex_lower_bytes(bytes: Seq<u8>) -> Seq<u8> {
    Seq::new(hex_lower(bytes).len(), |i: int| hex_lower(bytes)[i] as u8)
}

/// Encodes bytes as lowercase hexadecimal, by `hex::encode`.
#[verifier::external_body]
pub(crate) fn hex_encode(data: &[u8]) -> (r: String)
    ensures
        r@ == hex_lower(data@),
{
    hex::encode(data)
}

/// Decodes a hexadecimal text, by `hex::decode`.
#[verifier::external_body]
pub(crate) fn hex_decode(data: &str) -> (r: Result<Vec<u8>, HexError>)
    ensures
        match r {
            Ok(v) => hex_decode_spec(data.spec_bytes()) == Ok::<Seq<u8>, HexError>(v@),
            Err(e) => hex_decode_spec(data.spec_bytes()) == Err::<Seq<u8>, HexError>(e),
        },
{
    match hex::decode(data) {
        Ok(v) => Ok(v),
        Err(hex::FromHexError::InvalidHexCharacter { c, index }) => Err(
            HexError::InvalidHexCharacter { c, index },
        ),
        Err(hex::FromHexError::OddLength) => Err(HexError::OddLength),
        Err(hex::FromHexError::InvalidStringLength) => Err(HexError::InvalidStringLength),
    }
}

proof fn lemma_nibble(n: nat)
    requires
        n < 16,
    ensures
        hex_value(nibble_char(n) as u8) == Some(n as u8),
        '\0' <= nibble_char(n) <= '\u{7f}',
{
}

/// The hexadecimal text is plain ASCII, so its UTF-8 bytes are its characters.
pub proof fn lemma_hex_lower_ascii(bytes: Seq<u8>)
    ensures
        vstd::utf8::is_ascii_chars(hex_lower(bytes)),
        vstd::utf8::encode_utf8(hex_lower(bytes)) == hex_lower_bytes(bytes),
{
    let h = hex_lower(bytes);
    assert forall|i: int| 0 <= i < h.len() implies '\0' <= #[trigger] h[i] <= '\u{7f}' by {
        if i % 2 == 0 {
            lemma_nibble((bytes[i / 2] / 16) as nat);
        } else {
            lemma_nibble((bytes[i / 2] % 16) as nat);
        }
    }
    vstd::utf8::is_ascii_chars_encode_utf8(h);
    assert(vstd::utf8::encode_utf8(h) == hex_lower_bytes(bytes));
}

/// Decoding the lowercase hexadecimal text of some bytes gives them back.
pub proof fn law_hex_roundtrip(bytes: Seq<u8>)
    ensures
        hex_decode_spec(hex_lower_bytes(bytes)) == Ok::<Seq<u8>, HexError>(bytes),
{
    let b = hex_lower_bytes(bytes);
    assert forall|i: int| 0 <= i < b.len() implies (#[trigger] hex_value(b[i])) is Some by {
        if i % 2 == 0 {
            lemma_nibble((bytes[i / 2] / 16) as nat);
        } else {
            lemma_nibble((bytes[i / 2] % 16) as nat);
        }
    }
    assert(b.len() % 2 == 0);
    assert forall|k: int| 0 <= k < bytes.len() implies #[trigger] hex_pairs(b)[k] == bytes[k] by {
        assert((2 * k) / 2 == k);
        assert((2 * k + 1) / 2 == k);
        assert((2 * k) % 2 == 0);
        assert((2 * k + 1) % 2 == 1);
        lemma_nibble((bytes[k] / 16) as nat);
        lemma_nibble((bytes[k] % 16) as nat);
        assert(bytes[k] / 16 * 16 + bytes[k] % 16 == bytes[k]);
    }
    assert(hex_pairs(b) == bytes);
}

} // verus!
