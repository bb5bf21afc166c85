//! Content hashing (SHA-256, rendered as lowercase hexadecimal) and the
//! text operations that the library offers on string types.
use vstd::prelude::*;
use vstd::string::*;
use sha2::Digest;

use crate::hex_codec::{hex_encode, hex_lower};
use crate::text::{wrap_text, wrap_text_spec};

verus! {

/// The SHA-256 digest of a byte sequence.
pub uninterp spec fn sha256_digest(data: Seq<u8>) -> Seq<u8>;

/// The SHA-256 digest of `data`, by the `sha2` crate.
#[verifier::external_body]
pub(crate) fn sha256(data: &[u8]) -> (r: [u8; 32])
    ensures
        r@ == sha256_digest(data@),
{
    let mut hasher = sha2::Sha256::new();
    hasher.update(data);
    hasher.finalize().into()
}

/// The lowercase hexadecimal SHA-256 digest of the UTF-8 bytes of a text.
pub open spec fn hash_hex(s: Seq<char>) -> Seq<char> {
    hex_lower(sha256_digest(vstd::utf8::encode_utf8(s)))
}

/// Operations that every text type of the library offers.
pub trait Hashable {
    /// The lowercase hexadecimal SHA-256 digest of the text's UTF-8 bytes.
    fn hash(&self) -> String;

    /// The text wrapped into lines of at most `max_width` characters.
    fn wrap(&self, max_width: usize) -> String;
}

impl Hashable for str {
    fn hash(&self) -> (r: String)
        ensures
            r@ == hash_hex(self@),
            sha256_digest(vstd::utf8::encode_utf8(self@)).len() == 32,
    {
        let digest = sha256(self.as_bytes());
        hex_encode(digest.as_slice())
    }

    fn wrap(&self, max_width: usize) -> (r: String)
        ensures
            r@ == wrap_text_spec(self@, max_width as nat),
    {
        wrap_text(self, max_width)
    }
}

impl Hashable for String {
    fn hash(&self) -> (r: String)
        ensures
            r@ == hash_hex(self@),
            sha256_digest(vstd::utf8::encode_utf8(self@)).len() == 32,
    {
        self.as_str().hash()
    }

    fn wrap(&self, max_width: usize) -> (r: String)
        ensures
            r@ == wrap_text_spec(self@, max_width as nat),
    {
        self.as_str().wrap(max_width)
    }
}

} // verus!
