//! The errors that the library reports.
use vstd::prelude::*;

use crate::hex_codec::HexError;

verus! {

/// What went wrong in an operation of the library.
#[derive(Debug)]
pub enum Error {
    /// A text that should be an identifier is not 64 hexadecimal digits.
    InvalidHash(HexError),
    /// A domain name that is empty or only whitespace.
    EmptyDomainName,
    /// A domain name longer than 255 bytes.
    DomainNameTooLong { len: usize },
    /// A node hostname that is empty or only whitespace.
    EmptyHostname,
    /// A node hostname longer than 255 bytes.
    HostnameTooLong { len: usize },
    /// An IP address that is empty or only whitespace.
    EmptyIpAddress,
    /// A text that is not an IP address.
    InvalidIpAddress { address: String },
    /// A URL that is empty or only whitespace.
    EmptyUrl,
    /// A text that is not a URL, with the parser's reason.
    InvalidUrl { url: String, reason: String },
    /// An entity of another kind than the one asked for.
    WrongEntityKind { expected: String },
    /// An entity that still has children cannot be deleted.
    HasChildren,
    /// A partial hash that matches more than one entity.
    DuplicateEntity { pattern: String },
}

} // verus!
