//! Entities and their identifiers.
use vstd::prelude::*;

pub mod attributes;
pub mod domain;
pub mod interface;
pub mod ip;
pub mod node;
pub mod pool;
pub mod url;
use vstd::string::*;

use crate::entity::attributes::{keys_sorted, lemma_lookup_at, lookup, Attributes};
use crate::entity::domain::Domain;
use crate::entity::ip::Ip;
use crate::entity::node::{Node, OsInfo};
use crate::entity::url::Url;
use crate::error::Error;
use crate::hashing::{sha256_digest, Hashable};
use crate::index::{Index, ItemView, BASE_PATH};
use crate::Indexable;
use crate::text::{chars_lt, decimal, decimal_string, display_or_dash, dash, is_blank,
    lemma_chars_lt_irreflexive, lemma_chars_lt_transitive, str_less};
use crate::hex_codec::{all_hex, hex_decode, hex_decode_spec, hex_encode, hex_lower, hex_pairs,
    hex_value, nibble_char, HexError, law_hex_roundtrip, lemma_hex_lower_ascii};
use crate::address::is_hex_digit;
use crate::text::{append_chars, chars_of, string_from_chars};

verus! {

broadcast use vstd::array::group_array_axioms;

/// A 32-byte content identifier (a SHA-256 digest).
#[derive(Clone, Copy, Debug, Eq, PartialOrd, Ord, Hash)]
pub struct HashID([u8; 32]);

impl PartialEq for HashID {
    fn eq(&self, other: &Self) -> (r: bool) {
        self.same_as(other)
    }
}

impl vstd::std_specs::cmp::PartialEqSpecImpl for HashID {
    open spec fn obeys_eq_spec() -> bool {
        true
    }

    open spec fn eq_spec(&self, other: &HashID) -> bool {
        self@ == other@
    }
}

/// Two identifiers with the same bytes are the same identifier.
pub broadcast proof fn lemma_hash_id_ext(a: HashID, b: HashID)
    requires
        #[trigger] a@ == #[trigger] b@,
    ensures
        a == b,
{
    assert(a.0 =~= b.0);
}

/// An identifier has exactly 32 bytes.
pub broadcast proof fn lemma_hash_id_len(h: HashID)
    ensures
        #[trigger] h@.len() == 32,
{
}

impl View for HashID {
    type V = Seq<u8>;

    closed spec fn view(&self) -> Seq<u8> {
        self.0@
    }
}

/// Byte sequences in lexicographic order (a proper prefix comes first).
pub open spec fn lex_lt(a: Seq<u8>, b: Seq<u8>) -> bool
    decreases a.len(),
{
    if a.len() == 0 || b.len() == 0 {
        a.len() == 0 && b.len() > 0
    } else if a[0] != b[0] {
        a[0] < b[0]
    } else {
        lex_lt(a.drop_first(), b.drop_first())
    }
}

/// The lexicographic order is irreflexive.
pub proof fn lemma_lex_irreflexive(a: Seq<u8>)
    ensures
        !lex_lt(a, a),
    decreases a.len(),
{
    if a.len() > 0 {
        lemma_lex_irreflexive(a.drop_first());
    }
}

/// The lexicographic order is transitive.
pub proof fn lemma_lex_transitive(a: Seq<u8>, b: Seq<u8>, c: Seq<u8>)
    requires
        lex_lt(a, b),
        lex_lt(b, c),
    ensures
        lex_lt(a, c),
    decreases a.len(),
{
    if a.len() > 0 && b.len() > 0 && c.len() > 0 {
        if a[0] == b[0] && b[0] == c[0] {
            lemma_lex_transitive(a.drop_first(), b.drop_first(), c.drop_first());
        }
    }
}

/// Two different byte sequences are ordered one way or the other.
pub proof fn lemma_lex_total(a: Seq<u8>, b: Seq<u8>)
    requires
        a != b,
    ensures
        lex_lt(a, b) || lex_lt(b, a),
    decreases a.len(),
{
    if a.len() == 0 {
        assert(b.len() > 0) by {
            if b.len() == 0 {
                assert(a =~= b);
            }
        }
    } else if b.len() == 0 {
    } else if a[0] == b[0] {
        if a.drop_first() == b.drop_first() {
            assert(a =~= seq![a[0]] + a.drop_first());
            assert(b =~= seq![b[0]] + b.drop_first());
        }
        lemma_lex_total(a.drop_first(), b.drop_first());
    }
}

/// The lexicographic order is asymmetric.
pub proof fn lemma_lex_asymmetric(a: Seq<u8>, b: Seq<u8>)
    requires
        lex_lt(a, b),
    ensures
        !lex_lt(b, a),
{
    if lex_lt(b, a) {
        lemma_lex_transitive(a, b, a);
        lemma_lex_irreflexive(a);
    }
}

/// The lowercase hexadecimal text of an identifier.
pub open spec fn hex_of(h: HashID) -> Seq<char> {
    hex_lower(h@)
}

impl Default for HashID {
    fn default() -> (r: Self)
        ensures
            r@ == Seq::new(32, |i: int| 0u8),
    {
        HashID([0u8; 32])
    }
}

impl HashID {
    /// The identifier as 64 lowercase hexadecimal digits.
    pub fn as_hex(&self) -> (r: String)
        ensures
            r@ == hex_of(*self),
    {
        hex_encode(self.0.as_slice())
    }

    /// The first 8 hexadecimal digits of the identifier.
    pub fn short_hash(&self) -> (r: String)
        ensures
            r@ == hex_of(*self).take(8),
    {
        let full = chars_of(self.as_hex().as_str());
        let mut v: Vec<char> = Vec::new();
        let mut i: usize = 0;
        while i < 8
            invariant
                i <= 8,
                full@ == hex_of(*self),
                full@.len() == 64,
                v@ == full@.take(i as int),
            decreases 8 - i,
        {
            v.push(full[i]);
            i += 1;
            assert(full@.take(i as int) == full@.take(i - 1).push(full@[i - 1]));
        }
        string_from_chars(&v)
    }

    /// The short hash in square brackets.
    pub fn short_hash_decorated(&self) -> (r: String)
        ensures
            r@ == seq!['['] + hex_of(*self).take(8) + seq![']'],
    {
        let short = chars_of(self.short_hash().as_str());
        let mut v: Vec<char> = Vec::new();
        v.push('[');
        append_chars(&mut v, &short);
        v.push(']');
        string_from_chars(&v)
    }

    /// An identifier holding exactly these bytes.
    pub fn from_bytes(bytes: [u8; 32]) -> (r: Self)
        ensures
            r@ == bytes@,
    {
        HashID(bytes)
    }

    /// The bytes of the identifier.
    pub fn as_bytes(&self) -> (r: &[u8; 32])
        ensures
            r@ == self@,
    {
        &self.0
    }

    /// Reads an identifier from hexadecimal text (either case): the text must
    /// decode, and to exactly 32 bytes.
    pub fn from_hex(s: &str) -> (r: Result<HashID, HexError>)
        ensures
            match hex_decode_spec(s.spec_bytes()) {
                Ok(b) => if b.len() == 32 {
                    r matches Ok(h) && h@ == b
                } else {
                    r == Err::<HashID, HexError>(HexError::InvalidStringLength)
                },
                Err(e) => r == Err::<HashID, HexError>(e),
            },
    {
        let bytes = match hex_decode(s) {
            Ok(b) => b,
            Err(e) => return Err(e),
        };
        if bytes.len() != 32 {
            return Err(HexError::InvalidStringLength);
        }
        let mut arr = [0u8; 32];
        let mut i: usize = 0;
        while i < 32
            invariant
                i <= 32,
                bytes@.len() == 32,
                forall|j: int| 0 <= j < i ==> arr@[j] == bytes@[j],
            decreases 32 - i,
        {
            arr[i] = bytes[i];
            i += 1;
        }
        assert(arr@ == bytes@);
        Ok(HashID(arr))
    }

    /// Whether two identifiers are the same.
    pub fn same_as(&self, other: &HashID) -> (r: bool)
        ensures
            r == (self@ == other@),
            r == (*self == *other),
    {
        let mut i: usize = 0;
        while i < 32
            invariant
                i <= 32,
                self@.len() == 32,
                other@.len() == 32,
                forall|j: int| 0 <= j < i ==> self@[j] == other@[j],
            decreases 32 - i,
        {
            if self.0[i] != other.0[i] {
                return false;
            }
            i += 1;
        }
        assert(self@ == other@);
        proof {
            lemma_hash_id_ext(*self, *other);
        }
        true
    }

    /// Whether this identifier sorts before `other` (byte-wise).
    pub fn less_than(&self, other: &HashID) -> (r: bool)
        ensures
            r == lex_lt(self@, other@),
    {
        let mut i: usize = 0;
        assert(self@.skip(0) == self@);
        assert(other@.skip(0) == other@);
        while i < 32
            invariant
                i <= 32,
                self@.len() == 32,
                other@.len() == 32,
                lex_lt(self@, other@) == lex_lt(self@.skip(i as int), other@.skip(i as int)),
            decreases 32 - i,
        {
            let a = self.0[i];
            let b = other.0[i];
            assert(self@.skip(i as int)[0] == a);
            assert(other@.skip(i as int)[0] == b);
            if a != b {
                return a < b;
            }
            assert(self@.skip(i as int).drop_first() == self@.skip(i + 1));
            assert(other@.skip(i as int).drop_first() == other@.skip(i + 1));
            i += 1;
        }
        false
    }
}


impl std::str::FromStr for HashID {
    type Err = HexError;

    fn from_str(s: &str) -> (r: Result<Self, Self::Err>)
        ensures
            match hex_decode_spec(s.spec_bytes()) {
                Ok(b) => if b.len() == 32 {
                    r matches Ok(h) && h@ == b
                } else {
                    r == Err::<HashID, HexError>(HexError::InvalidStringLength)
                },
                Err(e) => r == Err::<HashID, HexError>(e),
            },
    {
        HashID::from_hex(s)
    }
}

/// The identifier of a text: the SHA-256 digest of its UTF-8 bytes.
pub open spec fn text_id(s: Seq<char>) -> Seq<u8> {
    sha256_digest(vstd::utf8::encode_utf8(s))
}

/// Decoding the hexadecimal text of an identifier gives the identifier back.
pub proof fn law_hash_id_hex_roundtrip(h: HashID)
    ensures
        hex_decode_spec(vstd::utf8::encode_utf8(hex_of(h))) == Ok::<Seq<u8>, HexError>(h@),
{
    lemma_hex_lower_ascii(h@);
    law_hex_roundtrip(h@);
}

/// The lowercase form of an ASCII capital letter; other characters stay.
pub open spec fn ascii_lower(c: char) -> char {
    if 'A' <= c && c <= 'Z' {
        ((c as u32) + 32) as char
    } else {
        c
    }
}

/// A text with its ASCII capital letters made lowercase.
pub open spec fn ascii_lowercase(s: Seq<char>) -> Seq<char> {
    s.map_values(|c: char| ascii_lower(c))
}

/// Exactly 64 hexadecimal digits, in either case.
pub open spec fn is_id_text(s: Seq<char>) -> bool {
    &&& s.len() == 64
    &&& forall|i: int| 0 <= i < 64 ==> is_hex_digit(#[trigger] s[i])
}

proof fn lemma_leading_bytes(c: u32)
    ensures
        vstd::utf8::leading_byte_width_2(c) >= 0xC0,
        vstd::utf8::leading_byte_width_3(c) >= 0xC0,
        vstd::utf8::leading_byte_width_4(c) >= 0xC0,
{
    assert(vstd::utf8::leading_byte_width_2(c) >= 0xC0) by (bit_vector);
    assert(vstd::utf8::leading_byte_width_3(c) >= 0xC0) by (bit_vector);
    assert(vstd::utf8::leading_byte_width_4(c) >= 0xC0) by (bit_vector);
}

/// A text whose UTF-8 bytes are all hexadecimal digits is plain ASCII.
proof fn lemma_hex_bytes_ascii(s: Seq<char>)
    requires
        all_hex(vstd::utf8::encode_utf8(s)),
    ensures
        vstd::utf8::is_ascii_chars(s),
    decreases s.len(),
{
    if s.len() > 0 {
        let c = s[0] as u32;
        let e = vstd::utf8::encode_scalar(c);
        let rest = vstd::utf8::encode_utf8(s.drop_first());
        let all = vstd::utf8::encode_utf8(s);
        assert(all == e + rest);
        assert(e.len() > 0);
        assert forall|i: int| 0 <= i < rest.len() implies (#[trigger] hex_value(rest[i])) is Some by {
            assert(all[e.len() + i] == rest[i]);
        }
        lemma_hex_bytes_ascii(s.drop_first());
        assert(hex_value(all[0]) is Some);
        assert(all[0] == e[0]);
        lemma_leading_bytes(c);
        assert(vstd::utf8::has_width_1_encoding(c));
        assert('\0' <= s[0] <= '\u{7f}') by {
            vstd::utf8::char_u32_cast(s[0], c);
        }
        assert forall|i: int| 0 <= i < s.len() implies '\0' <= #[trigger] s[i] <= '\u{7f}' by {
            if i > 0 {
                assert(s[i] == s.drop_first()[i - 1]);
                assert('\0' <= s.drop_first()[i - 1] <= '\u{7f}');
            }
        }
    }
}

proof fn lemma_digit_nibble(c: char)
    requires
        is_hex_digit(c),
    ensures
        hex_value(c as u8) is Some,
        nibble_char(hex_value(c as u8)->0 as nat) == ascii_lower(c),
{
}

/// The texts that read as identifiers are exactly those of 64 hexadecimal
/// digits, in either case (any other text is refused), and the identifier
/// read from such a text prints as the text in lowercase.
pub proof fn law_hash_id_text(s: Seq<char>)
    ensures
        parsed_id(vstd::utf8::encode_utf8(s)) is Some <==> is_id_text(s),
        parsed_id(vstd::utf8::encode_utf8(s)) matches Some(b) ==> hex_lower(b) == ascii_lowercase(s),
{
    let bytes = vstd::utf8::encode_utf8(s);
    if is_id_text(s) {
        assert(vstd::utf8::is_ascii_chars(s)) by {
            assert forall|i: int| 0 <= i < s.len() implies '\0' <= #[trigger] s[i] <= '\u{7f}' by {
                assert(is_hex_digit(s[i]));
            }
        }
        vstd::utf8::is_ascii_chars_encode_utf8(s);
        assert forall|i: int| 0 <= i < bytes.len() implies (#[trigger] hex_value(bytes[i])) is Some by {
            lemma_digit_nibble(s[i]);
        }
    }
    if parsed_id(bytes) is Some {
        assert(bytes.len() % 2 == 0 && all_hex(bytes));
        lemma_hex_bytes_ascii(s);
        vstd::utf8::is_ascii_chars_encode_utf8(s);
        assert(hex_pairs(bytes).len() == 32);
        assert(s.len() == 64);
        assert forall|i: int| 0 <= i < 64 implies is_hex_digit(#[trigger] s[i]) by {
            assert(hex_value(bytes[i]) is Some);
            assert(bytes[i] == s[i] as u8);
        }
        let b = hex_pairs(bytes);
        assert forall|i: int| 0 <= i < 64 implies #[trigger] hex_lower(b)[i] == ascii_lowercase(s)[i] by {
            let k = i / 2;
            assert(0 <= k < 32);
            assert(bytes[2 * k] == s[2 * k] as u8);
            assert(bytes[2 * k + 1] == s[2 * k + 1] as u8);
            lemma_digit_nibble(s[2 * k]);
            lemma_digit_nibble(s[2 * k + 1]);
            let hi = hex_value(bytes[2 * k])->0;
            let lo = hex_value(bytes[2 * k + 1])->0;
            assert(b[k] == (hi * 16 + lo) as u8);
            assert((hi * 16 + lo) / 16 == hi && (hi * 16 + lo) % 16 == lo) by (nonlinear_arith)
                requires
                    hi < 16,
                    lo < 16,
            ;
            if i % 2 == 0 {
                assert(i == 2 * k);
            } else {
                assert(i == 2 * k + 1);
            }
        }
        assert(hex_lower(b) =~= ascii_lowercase(s));
    }
}

/// The identifier of a text, computed as its hexadecimal hash read back.
pub fn id_of_text(s: &str) -> (r: HashID)
    ensures
        r@ == text_id(s@),
{
    let hex = s.hash();
    let hs = hex.as_str();
    proof {
        let d = text_id(s@);
        lemma_hex_lower_ascii(d);
        law_hex_roundtrip(d);
        assert(hs.spec_bytes() == crate::hex_codec::hex_lower_bytes(d));
    }
    match HashID::from_hex(hs) {
        Ok(h) => h,
        Err(_) => {
            proof {
                assert(false);
            }
            HashID([0u8; 32])
        },
    }
}


#[verifier::external_type_specification]
#[verifier::external_body]
pub struct ExNaiveDateTime(chrono::NaiveDateTime);

/// The current local date and time: the system clock read by
/// `std::time::SystemTime::now`, converted by chrono's
/// `From<SystemTime> for DateTime<Utc>` (which takes times before 1970 as
/// negative timestamps) and shown in the local time zone. Nothing is stated of
/// the value, which depends on the clock. chrono still panics when the clock
/// lies outside the years it represents (about 262,000 years either side of
/// 1970) or when the system's time-zone data gives no offset for the instant.
#[verifier::external_body]
pub(crate) fn local_now() -> (r: chrono::NaiveDateTime) {
    chrono::DateTime::<chrono::Utc>::from(std::time::SystemTime::now())
        .with_timezone(&chrono::Local)
        .naive_local()
}

/// Bookkeeping common to all entities.
pub struct Metadata {
    pub created_at: chrono::NaiveDateTime,
    pub updated_at: Option<chrono::NaiveDateTime>,
    pub children: Option<Vec<HashID>>,
    pub attributes: Option<Attributes>,
}

/// The value of attribute `key`, if there is one.
pub open spec fn attr_of(attrs: Option<Attributes>, key: Seq<char>) -> Option<serde_json::Value> {
    match attrs {
        Some(a) => lookup(a@, key),
        None => None,
    }
}

/// The children whose hexadecimal identifier is not `hex`, in order.
pub open spec fn children_without(c: Seq<HashID>, hex: Seq<char>) -> Seq<HashID>
    decreases c.len(),
{
    if c.len() == 0 {
        Seq::empty()
    } else {
        let rest = children_without(c.drop_last(), hex);
        if hex_of(c.last()) == hex {
            rest
        } else {
            rest.push(c.last())
        }
    }
}

/// The children, or nothing when there is no list.
pub open spec fn children_seq(c: Option<Vec<HashID>>) -> Seq<HashID> {
    match c {
        Some(v) => v@,
        None => Seq::empty(),
    }
}

/// The identifier that a hexadecimal text stands for, when it stands for one.
pub open spec fn parsed_id(text: Seq<u8>) -> Option<Seq<u8>> {
    match hex_decode_spec(text) {
        Ok(b) => if b.len() == 32 {
            Some(b)
        } else {
            None
        },
        Err(_) => None,
    }
}

impl Metadata {
    /// Fresh bookkeeping, created now, with no children and no attributes.
    pub fn new() -> (r: Self)
        ensures
            r.updated_at is None,
            r.children is None,
            r.attributes is None,
    {
        Metadata { created_at: local_now(), updated_at: None, children: None, attributes: None }
    }

    /// Records that the entity was updated now.
    pub fn update(&mut self)
        ensures
            final(self).updated_at is Some,
            final(self).created_at == old(self).created_at,
            final(self).children == old(self).children,
            final(self).attributes == old(self).attributes,
    {
        self.updated_at = Some(local_now());
    }

    /// The value of attribute `key`, if any.
    pub fn get_attr(&self, key: &str) -> (r: Option<&serde_json::Value>)
        ensures
            match r {
                Some(v) => attr_of(self.attributes, key@) == Some(*v),
                None => attr_of(self.attributes, key@) is None,
            },
    {
        match &self.attributes {
            Some(a) => a.get(key),
            None => None,
        }
    }

    /// Sets attribute `key` to `value`, creating the attribute map if needed.
    pub fn set_attr(&mut self, key: String, value: serde_json::Value)
        ensures
            final(self).attributes matches Some(a) && keys_sorted(a@),
            attr_of(final(self).attributes, key@) == Some(value),
            forall|k: Seq<char>| k != key@ ==> #[trigger] attr_of(final(self).attributes, k)
                == attr_of(old(self).attributes, k),
            final(self).created_at == old(self).created_at,
            final(self).updated_at == old(self).updated_at,
            final(self).children == old(self).children,
    {
        let mut attrs = match self.attributes.take() {
            Some(a) => a,
            None => Attributes::new(),
        };
        proof {
            assert forall|k: Seq<char>| #[trigger] lookup(attrs@, k) == attr_of(
                old(self).attributes,
                k,
            ) by {
                if old(self).attributes is None {
                    assert(attrs@.len() == 0);
                }
            }
        }
        attrs.insert(key, value);
        self.attributes = Some(attrs);
    }

    /// Removes attribute `key` and returns its value; the attribute map is
    /// dropped when it becomes empty.
    pub fn remove_attr(&mut self, key: &str) -> (r: Option<serde_json::Value>)
        ensures
            r == attr_of(old(self).attributes, key@),
            attr_of(final(self).attributes, key@) is None,
            forall|k: Seq<char>| k != key@ ==> #[trigger] attr_of(final(self).attributes, k)
                == attr_of(old(self).attributes, k),
            old(self).attributes is None ==> final(self).attributes is None,
            old(self).attributes is Some ==> (final(self).attributes is None || (final(self).attributes matches Some(a) && a@.len() > 0 && keys_sorted(a@))),
            final(self).created_at == old(self).created_at,
            final(self).updated_at == old(self).updated_at,
            final(self).children == old(self).children,
    {
        let mut attrs = match self.attributes.take() {
            Some(a) => a,
            None => return None,
        };
        let val = attrs.remove(key);
        if !attrs.is_empty() {
            self.attributes = Some(attrs);
        } else {
            proof {
                assert forall|k: Seq<char>| #[trigger] attr_of(None::<Attributes>, k) == lookup(
                    attrs@,
                    k,
                ) by {
                    assert(attrs@.len() == 0);
                }
            }
        }
        val
    }
}

/// What an entity is.
pub enum EntityKind {
    Node { inner: Box<Node> },
    Domain { inner: Box<Domain> },
    Ip { inner: Box<Ip> },
    Url { inner: Box<Url> },
}

/// How an entity is deleted.
pub enum DeletePlan {
    /// A node, which also leaves its domain's children.
    Node,
    /// Any other entity, removed with its index entries.
    Plain,
}

/// A stored thing of any kind, with its bookkeeping.
pub struct Entity {
    pub metadata: Metadata,
    pub kind: EntityKind,
}

/// The identifier of an entity of any kind.
pub open spec fn entity_hash(k: EntityKind) -> HashID {
    match k {
        EntityKind::Node { inner } => inner.hash,
        EntityKind::Domain { inner } => inner.hash,
        EntityKind::Ip { inner } => inner.hash,
        EntityKind::Url { inner } => inner.hash,
    }
}

/// The storage path of the entity with identifier `h`.
pub open spec fn entity_path(h: HashID) -> Seq<char> {
    BASE_PATH@ + "/entity/"@ + hex_of(h)
}

/// The name of an entity's kind.
pub open spec fn kind_label(k: EntityKind) -> Seq<char> {
    match k {
        EntityKind::Node { .. } => "Node"@,
        EntityKind::Domain { .. } => "Domain"@,
        EntityKind::Ip { .. } => "Ip"@,
        EntityKind::Url { .. } => "Url"@,
    }
}

impl Entity {
    /// Adds a child, given as hexadecimal text; fails when the text is not an
    /// identifier. The list of children is created first, so an entity
    /// without children has an empty list after a failed addition.
    pub fn add_child(&mut self, hash: &str) -> (r: Result<(), Error>)
        ensures
            parsed_id(hash.spec_bytes()) is None ==> {
                &&& r matches Err(Error::InvalidHash(e)) && e == match hex_decode_spec(
                    hash.spec_bytes(),
                ) {
                    Err(d) => d,
                    Ok(_) => HexError::InvalidStringLength,
                }
                &&& final(self).metadata.children is Some
                &&& children_seq(final(self).metadata.children) == children_seq(
                    old(self).metadata.children,
                )
                &&& final(self).metadata.created_at == old(self).metadata.created_at
                &&& final(self).metadata.updated_at == old(self).metadata.updated_at
                &&& final(self).metadata.attributes == old(self).metadata.attributes
                &&& final(self).kind == old(self).kind
            },
            parsed_id(hash.spec_bytes()) is Some ==> {
                &&& r is Ok
                &&& final(self).metadata.children is Some
                &&& children_seq(final(self).metadata.children).len() == children_seq(
                    old(self).metadata.children,
                ).len() + 1
                &&& children_seq(final(self).metadata.children).drop_last() == children_seq(
                    old(self).metadata.children,
                )
                &&& children_seq(final(self).metadata.children).last()@ == parsed_id(
                    hash.spec_bytes(),
                )->0
                &&& final(self).metadata.attributes == old(self).metadata.attributes
                &&& final(self).metadata.created_at == old(self).metadata.created_at
                &&& final(self).metadata.updated_at == old(self).metadata.updated_at
                &&& final(self).kind == old(self).kind
            },
    {
        let mut children = match self.metadata.children.take() {
            Some(c) => c,
            None => Vec::new(),
        };
        let h = match HashID::from_hex(hash) {
            Ok(h) => h,
            Err(e) => {
                self.metadata.children = Some(children);
                return Err(Error::InvalidHash(e));
            },
        };
        let ghost before = children@;
        children.push(h);
        assert(children@.drop_last() == before);
        self.metadata.children = Some(children);
        Ok(())
    }

    /// Removes every child whose hexadecimal identifier is `hash`; the list is
    /// dropped when it becomes empty.
    pub fn remove_child(&mut self, hash: &str)
        ensures
            old(self).metadata.children is None ==> final(self).metadata.children is None,
            old(self).metadata.children is Some && children_without(
                old(self).metadata.children->0@,
                hash@,
            ).len() == 0 ==> final(self).metadata.children is None,
            old(self).metadata.children is Some && children_without(
                old(self).metadata.children->0@,
                hash@,
            ).len() > 0 ==> final(self).metadata.children is Some && final(self).metadata.children->0@ == children_without(old(self).metadata.children->0@, hash@),
            final(self).metadata.attributes == old(self).metadata.attributes,
            final(self).metadata.created_at == old(self).metadata.created_at,
            final(self).metadata.updated_at == old(self).metadata.updated_at,
            final(self).kind == old(self).kind,
    {
        let children = match self.metadata.children.take() {
            Some(c) => c,
            None => return,
        };
        let mut kept: Vec<HashID> = Vec::new();
        let mut i: usize = 0;
        while i < children.len()
            invariant
                i <= children@.len(),
                kept@ == children_without(children@.take(i as int), hash@),
            decreases children@.len() - i,
        {
            let ghost t = children@.take(i + 1);
            assert(t.drop_last() == children@.take(i as int));
            assert(t.last() == children@[i as int]);
            let hex = children[i].as_hex();
            if !crate::text::str_eq(hex.as_str(), hash) {
                kept.push(children[i]);
            }
            i += 1;
        }
        assert(children@.take(children@.len() as int) == children@);
        if kept.len() > 0 {
            self.metadata.children = Some(kept);
        }
    }

    /// Whether the entity has children.
    pub fn has_children(&self) -> (r: bool)
        ensures
            r == self.metadata.children is Some,
    {
        self.metadata.children.is_some()
    }

    /// How the entity is to be deleted: refused while it has a list of
    /// children; a node also leaves its domain's children.
    pub fn delete_plan(&self) -> (r: Result<DeletePlan, Error>)
        ensures
            self.metadata.children is Some ==> r matches Err(Error::HasChildren),
            self.metadata.children is None ==> (r matches Ok(p) && (p is Node <==> self.kind is Node)),
    {
        if self.has_children() {
            return Err(Error::HasChildren);
        }
        match &self.kind {
            EntityKind::Node { .. } => Ok(DeletePlan::Node),
            _ => Ok(DeletePlan::Plain),
        }
    }

    /// The value of attribute `key`, if any.
    pub fn attr(&self, key: &str) -> (r: Option<&serde_json::Value>)
        ensures
            match r {
                Some(v) => attr_of(self.metadata.attributes, key@) == Some(*v),
                None => attr_of(self.metadata.attributes, key@) is None,
            },
    {
        self.metadata.get_attr(key)
    }

    /// Sets attribute `key` to `value` and records the update.
    pub fn set_attr(&mut self, key: String, value: serde_json::Value)
        ensures
            final(self).metadata.attributes matches Some(a) && keys_sorted(a@),
            attr_of(final(self).metadata.attributes, key@) == Some(value),
            forall|k: Seq<char>| k != key@ ==> #[trigger] attr_of(
                final(self).metadata.attributes,
                k,
            ) == attr_of(old(self).metadata.attributes, k),
            final(self).metadata.updated_at is Some,
            final(self).metadata.created_at == old(self).metadata.created_at,
            final(self).metadata.children == old(self).metadata.children,
            final(self).kind == old(self).kind,
    {
        self.metadata.set_attr(key, value);
        self.metadata.update();
    }

    /// Removes attribute `key`, records the update and returns the value.
    pub fn remove_attr(&mut self, key: &str) -> (r: Option<serde_json::Value>)
        ensures
            r == attr_of(old(self).metadata.attributes, key@),
            attr_of(final(self).metadata.attributes, key@) is None,
            forall|k: Seq<char>| k != key@ ==> #[trigger] attr_of(
                final(self).metadata.attributes,
                k,
            ) == attr_of(old(self).metadata.attributes, k),
            old(self).metadata.attributes is None ==> final(self).metadata.attributes is None,
            old(self).metadata.attributes is Some ==> (final(self).metadata.attributes is None
                || (final(self).metadata.attributes matches Some(a) && a@.len() > 0
                && keys_sorted(a@))),
            final(self).metadata.updated_at is Some,
            final(self).metadata.created_at == old(self).metadata.created_at,
            final(self).metadata.children == old(self).metadata.children,
            final(self).kind == old(self).kind,
    {
        let val = self.metadata.remove_attr(key);
        self.metadata.update();
        val
    }

    /// The attribute map, if there is one.
    pub fn attributes(&self) -> (r: Option<&Attributes>)
        ensures
            r == match self.metadata.attributes {
                Some(a) => Some(&a),
                None => None::<&Attributes>,
            },
    {
        match &self.metadata.attributes {
            Some(a) => Some(a),
            None => None,
        }
    }

    /// The identifier of the entity.
    pub fn hash(&self) -> (r: &HashID)
        ensures
            *r == entity_hash(self.kind),
    {
        match &self.kind {
            EntityKind::Node { inner } => &inner.hash,
            EntityKind::Domain { inner } => &inner.hash,
            EntityKind::Ip { inner } => &inner.hash,
            EntityKind::Url { inner } => &inner.hash,
        }
    }

    /// The storage path of the entity.
    pub fn path(&self) -> (r: String)
        ensures
            r@ == entity_path(entity_hash(self.kind)),
    {
        let mut p = BASE_PATH.to_string();
        p.append("/entity/");
        p.append(self.hash().as_hex().as_str());
        p
    }

    /// The name of the entity's kind.
    pub fn kind_name(&self) -> (r: &'static str)
        ensures
            r@ == kind_label(self.kind),
    {
        match self.kind {
            EntityKind::Node { .. } => "Node",
            EntityKind::Domain { .. } => "Domain",
            EntityKind::Ip { .. } => "Ip",
            EntityKind::Url { .. } => "Url",
        }
    }

    /// A node as a fresh entity.
    pub fn from_node(value: Node) -> (r: Self)
        ensures
            r.kind == (EntityKind::Node { inner: Box::new(value) }),
            r.metadata.children is None,
            r.metadata.attributes is None,
    {
        Entity { metadata: Metadata::new(), kind: EntityKind::Node { inner: Box::new(value) } }
    }

    /// A domain as a fresh entity.
    pub fn from_domain(value: Domain) -> (r: Self)
        ensures
            r.kind == (EntityKind::Domain { inner: Box::new(value) }),
            r.metadata.children is None,
            r.metadata.attributes is None,
    {
        Entity { metadata: Metadata::new(), kind: EntityKind::Domain { inner: Box::new(value) } }
    }

    /// An IP address as a fresh entity.
    pub fn from_ip(value: Ip) -> (r: Self)
        ensures
            r.kind == (EntityKind::Ip { inner: Box::new(value) }),
            r.metadata.children is None,
            r.metadata.attributes is None,
    {
        Entity { metadata: Metadata::new(), kind: EntityKind::Ip { inner: Box::new(value) } }
    }

    /// A URL as a fresh entity.
    pub fn from_url(value: Url) -> (r: Self)
        ensures
            r.kind == (EntityKind::Url { inner: Box::new(value) }),
            r.metadata.children is None,
            r.metadata.attributes is None,
    {
        Entity { metadata: Metadata::new(), kind: EntityKind::Url { inner: Box::new(value) } }
    }

    /// The node inside, or an error naming the expected kind.
    pub fn into_node(self) -> (r: Result<Node, Error>)
        ensures
            match self.kind {
                EntityKind::Node { inner } => r == Ok::<Node, Error>(*inner),
                _ => r matches Err(Error::WrongEntityKind { expected }) && expected@ == "Node"@,
            },
    {
        match self.kind {
            EntityKind::Node { inner } => Ok(*inner),
            _ => Err(Error::WrongEntityKind { expected: "Node".to_string() }),
        }
    }

    /// The domain inside, or an error naming the expected kind.
    pub fn into_domain(self) -> (r: Result<Domain, Error>)
        ensures
            match self.kind {
                EntityKind::Domain { inner } => r == Ok::<Domain, Error>(*inner),
                _ => r matches Err(Error::WrongEntityKind { expected }) && expected@ == "Domain"@,
            },
    {
        match self.kind {
            EntityKind::Domain { inner } => Ok(*inner),
            _ => Err(Error::WrongEntityKind { expected: "Domain".to_string() }),
        }
    }

    /// The IP address inside, or an error naming the expected kind.
    pub fn into_ip(self) -> (r: Result<Ip, Error>)
        ensures
            match self.kind {
                EntityKind::Ip { inner } => r == Ok::<Ip, Error>(*inner),
                _ => r matches Err(Error::WrongEntityKind { expected }) && expected@ == "Ip"@,
            },
    {
        match self.kind {
            EntityKind::Ip { inner } => Ok(*inner),
            _ => Err(Error::WrongEntityKind { expected: "Ip".to_string() }),
        }
    }

    /// The URL inside, or an error naming the expected kind.
    pub fn into_url(self) -> (r: Result<Url, Error>)
        ensures
            match self.kind {
                EntityKind::Url { inner } => r == Ok::<Url, Error>(*inner),
                _ => r matches Err(Error::WrongEntityKind { expected }) && expected@ == "Url"@,
            },
    {
        match self.kind {
            EntityKind::Url { inner } => Ok(*inner),
            _ => Err(Error::WrongEntityKind { expected: "Url".to_string() }),
        }
    }
}


/// The index items of an entity of any kind: nodes by hostname, domains by
/// name, IP addresses by address, URLs by slug.
pub open spec fn entity_index(k: EntityKind) -> Seq<ItemView> {
    match k {
        EntityKind::Node { inner } => seq![
            ItemView { kind: "hostname"@, key: inner.hostname@, values: seq![inner.hash] },
        ],
        EntityKind::Domain { inner } => seq![
            ItemView { kind: "name"@, key: inner.name@, values: seq![inner.hash] },
        ],
        EntityKind::Ip { inner } => seq![
            ItemView { kind: "address"@, key: inner.address@, values: seq![inner.hash] },
        ],
        EntityKind::Url { inner } => seq![
            ItemView { kind: "slug"@, key: inner.slug@, values: seq![inner.hash] },
        ],
    }
}

impl Index {
    /// The index items of an entity, by its kind.
    pub fn from_entity(entity: &Entity) -> (r: Result<Index, Error>)
        ensures
            r matches Ok(ix) && ix@ == entity_index(entity.kind),
    {
        match &entity.kind {
            EntityKind::Node { inner } => inner.index(),
            EntityKind::Domain { inner } => inner.index(),
            EntityKind::Ip { inner } => inner.index(),
            EntityKind::Url { inner } => inner.index(),
        }
    }
}

/// Two identifiers with the same hexadecimal text are the same identifier.
pub proof fn lemma_hex_of_injective(a: HashID, b: HashID)
    requires
        hex_of(a) == hex_of(b),
    ensures
        a == b,
{
    law_hash_id_hex_roundtrip(a);
    law_hash_id_hex_roundtrip(b);
    lemma_hash_id_ext(a, b);
}

/// Removing a child by its hexadecimal text undoes adding it: the children
/// left are those that removing would leave had it never been added.
pub proof fn law_remove_child_undoes_add(before: Seq<HashID>, h: HashID)
    ensures
        parsed_id(vstd::utf8::encode_utf8(hex_of(h))) == Some(h@),
        children_without(before.push(h), hex_of(h)) == children_without(before, hex_of(h)),
        children_without(seq![h], hex_of(h)).len() == 0,
{
    law_hash_id_hex_roundtrip(h);
    lemma_hash_id_len(h);
    assert(before.push(h).drop_last() == before);
    assert(seq![h].drop_last() == Seq::<HashID>::empty());
    assert(seq![h].last() == h);
    assert(children_without(Seq::<HashID>::empty(), hex_of(h)).len() == 0);
}

/// Removing a child keeps exactly the other children, in order.
pub proof fn law_children_without(c: Seq<HashID>, h: HashID)
    ensures
        forall|x: HashID| #[trigger]
            children_without(c, hex_of(h)).contains(x) <==> (c.contains(x) && x != h),
    decreases c.len(),
{
    if c.len() > 0 {
        let init = c.drop_last();
        law_children_without(init, h);
        let rest = children_without(init, hex_of(h));
        assert forall|x: HashID| #[trigger]
            children_without(c, hex_of(h)).contains(x) <==> (c.contains(x) && x != h) by {
            if hex_of(c.last()) == hex_of(h) {
                lemma_hex_of_injective(c.last(), h);
            }
            if c.contains(x) && x != c.last() {
                let k = choose|k: int| 0 <= k < c.len() && c[k] == x;
                assert(init[k] == x);
            }
            if init.contains(x) {
                let k = choose|k: int| 0 <= k < init.len() && init[k] == x;
                assert(c[k] == x);
            }
            assert(c[c.len() - 1] == c.last());
            let pushed = rest.push(c.last());
            assert(pushed[rest.len() as int] == c.last());
            if pushed.contains(x) {
                let k = choose|k: int| 0 <= k < pushed.len() && pushed[k] == x;
                if k < rest.len() {
                    assert(rest[k] == x);
                }
            }
            if rest.contains(x) {
                let k = choose|k: int| 0 <= k < rest.len() && rest[k] == x;
                assert(pushed[k] == x);
            }
        }
    }
}

/// An attribute map that is never left empty and holds no value for any
/// key is absent: removing every attribute drops the map.
pub proof fn law_no_attributes_left(attrs: Option<Attributes>)
    requires
        attrs matches Some(a) ==> a@.len() > 0 && keys_sorted(a@),
        forall|k: Seq<char>| #[trigger] attr_of(attrs, k) is None,
    ensures
        attrs is None,
{
    if let Some(a) = attrs {
        lemma_lookup_at(a@, 0);
        assert(attr_of(attrs, a@[0].0) is Some);
    }
}

/// One line of the entity listing.
pub struct EntityRow {
    pub hash: String,
    pub kind: String,
    pub name: String,
    pub details: String,
}

/// An optional text, empty when absent.
pub open spec fn or_empty(s: Option<String>) -> Seq<char> {
    match s {
        Some(v) => v@,
        None => Seq::empty(),
    }
}

/// The OS of a node as `"<type> (<arch>)"`, empty when unknown.
pub open spec fn os_label(os: Option<OsInfo>) -> Seq<char> {
    match os {
        Some(o) => o.os_type@ + " ("@ + o.arch@ + ")"@,
        None => Seq::empty(),
    }
}

/// Environment and OS: both as `"<env> / <os>"`, else whichever is known.
pub open spec fn node_details(env: Seq<char>, os: Seq<char>) -> Seq<char> {
    if env.len() > 0 && os.len() > 0 {
        env + " / "@ + os
    } else if env.len() > 0 {
        env
    } else {
        os
    }
}

/// The name and the raw details of an entity's row; `os` is the node's OS.
pub open spec fn row_parts(k: EntityKind, os: Option<OsInfo>) -> (Seq<char>, Seq<char>) {
    match k {
        EntityKind::Node { inner } => (
            inner.hostname@,
            node_details(or_empty(inner.environment), os_label(os)),
        ),
        EntityKind::Domain { inner } => (inner.name@, or_empty(inner.description)),
        EntityKind::Ip { inner } => (
            inner.address@ + "/"@ + decimal(inner.prefix as nat),
            Seq::empty(),
        ),
        EntityKind::Url { inner } => (inner.slug@, inner.url@),
    }
}

/// The row of an entity: hash, kind, name, and details (a dash when blank).
pub open spec fn row_of(e: Entity, os: Option<OsInfo>) -> (Seq<char>, Seq<char>, Seq<char>, Seq<char>) {
    let parts = row_parts(e.kind, os);
    (
        hex_of(entity_hash(e.kind)),
        kind_label(e.kind),
        parts.0,
        if is_blank(parts.1) {
            dash()
        } else {
            parts.1
        },
    )
}

/// A row as four views.
pub open spec fn row_view(r: EntityRow) -> (Seq<char>, Seq<char>, Seq<char>, Seq<char>) {
    (r.hash@, r.kind@, r.name@, r.details@)
}

/// Rows order by kind, then by name.
pub open spec fn row_lt(
    a: (Seq<char>, Seq<char>, Seq<char>, Seq<char>),
    b: (Seq<char>, Seq<char>, Seq<char>, Seq<char>),
) -> bool {
    chars_lt(a.1, b.1) || (a.1 == b.1 && chars_lt(a.2, b.2))
}

proof fn lemma_row_lt_transitive(
    a: (Seq<char>, Seq<char>, Seq<char>, Seq<char>),
    b: (Seq<char>, Seq<char>, Seq<char>, Seq<char>),
    c: (Seq<char>, Seq<char>, Seq<char>, Seq<char>),
)
    requires
        row_lt(a, b),
        row_lt(b, c),
    ensures
        row_lt(a, c),
{
    if chars_lt(a.1, b.1) && chars_lt(b.1, c.1) {
        lemma_chars_lt_transitive(a.1, b.1, c.1);
    } else if chars_lt(a.1, b.1) {
    } else if chars_lt(b.1, c.1) {
    } else {
        lemma_chars_lt_transitive(a.2, b.2, c.2);
    }
}

proof fn lemma_row_lt_irreflexive(a: (Seq<char>, Seq<char>, Seq<char>, Seq<char>))
    ensures
        !row_lt(a, a),
{
    lemma_chars_lt_irreflexive(a.1);
    lemma_chars_lt_irreflexive(a.2);
}

/// Rows in non-decreasing (kind, name) order.
pub open spec fn rows_sorted(s: Seq<(Seq<char>, Seq<char>, Seq<char>, Seq<char>)>) -> bool {
    forall|i: int, j: int| 0 <= i < j < s.len() ==> !row_lt(#[trigger] s[j], #[trigger] s[i])
}

/// The views of a list of rows.
pub open spec fn row_views(v: Seq<EntityRow>) -> Seq<(Seq<char>, Seq<char>, Seq<char>, Seq<char>)> {
    v.map_values(|r: EntityRow| row_view(r))
}

/// The rows of the entities, each with the OS the caller read for it.
pub open spec fn rows_of(es: Seq<Entity>, os: Seq<Option<OsInfo>>) -> Seq<
    (Seq<char>, Seq<char>, Seq<char>, Seq<char>),
> {
    Seq::new(es.len(), |i: int| row_of(es[i], os[i]))
}

impl EntityRow {
    /// The listing row of an entity; `os` is the node's OS when known.
    pub fn of(e: &Entity, os: &Option<OsInfo>) -> (r: Self)
        ensures
            row_view(r) == row_of(*e, *os),
    {
        let hash = e.hash().as_hex();
        let kind = e.kind_name().to_string();
        let (name, details) = match &e.kind {
            EntityKind::Node { inner } => {
                let os_text = match os {
                    Some(o) => {
                        let mut t = o.os_type.clone();
                        t.append(" (");
                        t.append(o.arch.as_str());
                        t.append(")");
                        t
                    },
                    None => String::new(),
                };
                let env = match &inner.environment {
                    Some(v) => v.clone(),
                    None => String::new(),
                };
                let details = if !env.as_str().is_empty() && !os_text.as_str().is_empty() {
                    let mut t = env;
                    t.append(" / ");
                    t.append(os_text.as_str());
                    t
                } else if !env.as_str().is_empty() {
                    env
                } else {
                    os_text
                };
                (inner.hostname.clone(), details)
            },
            EntityKind::Domain { inner } => {
                let d = match &inner.description {
                    Some(v) => v.clone(),
                    None => String::new(),
                };
                (inner.name.clone(), d)
            },
            EntityKind::Ip { inner } => {
                let mut a = inner.address.clone();
                a.append("/");
                a.append(decimal_string(inner.prefix as u64).as_str());
                (a, String::new())
            },
            EntityKind::Url { inner } => (inner.slug.clone(), inner.url.clone()),
        };
        EntityRow { hash, kind, name, details: display_or_dash(details) }
    }

    fn before(&self, other: &EntityRow) -> (r: bool)
        ensures
            r == row_lt(row_view(*self), row_view(*other)),
    {
        if str_less(self.kind.as_str(), other.kind.as_str()) {
            return true;
        }
        if crate::text::str_eq(self.kind.as_str(), other.kind.as_str()) {
            return str_less(self.name.as_str(), other.name.as_str());
        }
        false
    }
}

/// In the listing, the row of a URL entry shows its identifier, the kind
/// `Url`, its slug as the name and its target URL as the details (a dash
/// only when the URL is blank); the row of a domain shows its name and its
/// description; the row of an IP address shows `<address>/<prefix>`.
pub proof fn law_listing_rows_show_entities(es: Seq<Entity>, os: Seq<Option<OsInfo>>, k: int)
    requires
        os.len() == es.len(),
        0 <= k < es.len(),
    ensures
        es[k].kind matches EntityKind::Url { inner } ==> rows_of(es, os)[k] == (
            hex_of(inner.hash),
            "Url"@,
            inner.slug@,
            if is_blank(inner.url@) {
                dash()
            } else {
                inner.url@
            },
        ),
        es[k].kind matches EntityKind::Domain { inner } ==> rows_of(es, os)[k].2 == inner.name@
            && rows_of(es, os)[k].3 == if is_blank(or_empty(inner.description)) {
            dash()
        } else {
            or_empty(inner.description)
        },
        es[k].kind matches EntityKind::Ip { inner } ==> rows_of(es, os)[k].2 == inner.address@
            + "/"@ + decimal(inner.prefix as nat),
{
}

/// The position at which `x` enters the sorted rows `s`: before the first
/// row that `x` precedes, so that rows that compare equal keep their order.
pub open spec fn row_slot(
    s: Seq<(Seq<char>, Seq<char>, Seq<char>, Seq<char>)>,
    x: (Seq<char>, Seq<char>, Seq<char>, Seq<char>),
) -> int
    decreases s.len(),
{
    if s.len() == 0 {
        0
    } else if row_lt(x, s[0]) {
        0
    } else {
        1 + row_slot(s.drop_first(), x)
    }
}

/// The rows sorted by kind and name, each inserted in turn at its slot.
pub open spec fn sort_rows(s: Seq<(Seq<char>, Seq<char>, Seq<char>, Seq<char>)>) -> Seq<
    (Seq<char>, Seq<char>, Seq<char>, Seq<char>),
>
    decreases s.len(),
{
    if s.len() == 0 {
        s
    } else {
        let t = sort_rows(s.drop_last());
        t.insert(row_slot(t, s.last()), s.last())
    }
}

proof fn lemma_row_slot(
    s: Seq<(Seq<char>, Seq<char>, Seq<char>, Seq<char>)>,
    x: (Seq<char>, Seq<char>, Seq<char>, Seq<char>),
    j: int,
)
    requires
        0 <= j <= s.len(),
        forall|k: int| 0 <= k < j ==> !row_lt(x, #[trigger] s[k]),
        j < s.len() ==> row_lt(x, s[j]),
    ensures
        row_slot(s, x) == j,
    decreases j,
{
    if j > 0 {
        assert(!row_lt(x, s[0]));
        let t = s.drop_first();
        assert forall|k: int| 0 <= k < j - 1 implies !row_lt(x, #[trigger] t[k]) by {
            assert(t[k] == s[k + 1]);
        }
        if j < s.len() {
            assert(t[j - 1] == s[j]);
        }
        lemma_row_slot(t, x, j - 1);
    }
}

/// The listing rows of the entities, ordered by kind and then name (rows
/// that compare equal keep their order); `os[i]` is the OS of entity `i`.
pub fn entity_rows(entities: &Vec<Entity>, os: &Vec<Option<OsInfo>>) -> (r: Vec<EntityRow>)
    requires
        os@.len() == entities@.len(),
    ensures
        row_views(r@) == sort_rows(rows_of(entities@, os@)),
        rows_sorted(row_views(r@)),
        row_views(r@).to_multiset() == rows_of(entities@, os@).to_multiset(),
{
    let ghost all = rows_of(entities@, os@);
    let mut out: Vec<EntityRow> = Vec::new();
    let mut i: usize = 0;
    assert(all.take(0) =~= Seq::<(Seq<char>, Seq<char>, Seq<char>, Seq<char>)>::empty());
    assert(row_views(out@) =~= Seq::<(Seq<char>, Seq<char>, Seq<char>, Seq<char>)>::empty());
    while i < entities.len()
        invariant
            i <= entities@.len(),
            os@.len() == entities@.len(),
            all == rows_of(entities@, os@),
            rows_sorted(row_views(out@)),
            row_views(out@) == sort_rows(all.take(i as int)),
            row_views(out@).to_multiset() == all.take(i as int).to_multiset(),
        decreases entities@.len() - i,
    {
        let x = EntityRow::of(&entities[i], &os[i]);
        let mut j: usize = 0;
        while j < out.len() && !x.before(&out[j])
            invariant
                j <= out@.len(),
                forall|k: int| 0 <= k < j ==> !row_lt(row_view(x), #[trigger] row_views(out@)[k]),
            decreases out@.len() - j,
        {
            j += 1;
        }
        let ghost old_out = row_views(out@);
        let ghost xv = row_view(x);
        out.insert(j, x);
        proof {
            let n = row_views(out@);
            assert(n == old_out.insert(j as int, xv));
            assert(j < old_out.len() ==> row_lt(xv, old_out[j as int]));
            lemma_row_slot(old_out, xv, j as int);
            assert(all.take(i + 1).drop_last() == all.take(i as int));
            assert(all.take(i + 1).last() == xv);
            assert forall|a: int, b: int| 0 <= a < b < n.len() implies !row_lt(
                #[trigger] n[b],
                #[trigger] n[a],
            ) by {
                if b < j {
                    assert(n[a] == old_out[a] && n[b] == old_out[b]);
                } else if b == j {
                    assert(n[a] == old_out[a]);
                } else if a == j {
                    assert(n[b] == old_out[b - 1]);
                    if row_lt(old_out[b - 1], xv) {
                        lemma_row_lt_transitive(old_out[b - 1], xv, old_out[j as int]);
                        if b - 1 == j {
                            lemma_row_lt_irreflexive(old_out[j as int]);
                        } else {
                            assert(!row_lt(old_out[b - 1], old_out[j as int]));
                        }
                    }
                } else if a < j {
                    assert(n[a] == old_out[a] && n[b] == old_out[b - 1]);
                } else {
                    assert(n[a] == old_out[a - 1] && n[b] == old_out[b - 1]);
                }
            }
            assert(all.take(i + 1) == all.take(i as int).push(xv));
            vstd::seq_lib::to_multiset_insert(old_out, j as int, xv);
            vstd::seq_lib::to_multiset_build(all.take(i as int), xv);
        }
        i += 1;
    }
    assert(all.take(entities@.len() as int) == all);
    out
}

} // verus!
