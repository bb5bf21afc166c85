//! IP addresses seen on nodes.
use vstd::prelude::*;
use vstd::string::*;

use crate::address::{is_ip_address, is_ip_text};
use crate::entity::attributes::Attributes;
use crate::entity::{hex_of, id_of_text, lemma_hex_of_injective, text_id, HashID};
use crate::error::Error;
use crate::index::{Index, Item, ItemView};
use crate::text::{decimal, decimal_string, is_blank, is_blank_str};
use crate::Indexable;

verus! {

/// An IP address with its prefix length, identified by the hash of the
/// address and the node it belongs to.
pub struct Ip {
    pub hash: HashID,
    pub address: String,
    pub prefix: u8,
    pub attributes: Option<Attributes>,
}

/// An IP address as shown to users.
pub struct IpView {
    pub hash: String,
    pub address: String,
}

/// The text whose hash identifies `address` under the parent `parent`.
pub open spec fn ip_key(address: Seq<char>, parent: HashID) -> Seq<char> {
    address + "|"@ + hex_of(parent)
}

/// The text an IP entity's identifier is hashed from names the entity it
/// belongs to: the same address under two different parents gives two
/// different texts, so two nodes never share an IP entity by address alone.
pub proof fn law_ip_key_names_parent(address: Seq<char>, p1: HashID, p2: HashID)
    ensures
        ip_key(address, p1) == ip_key(address, p2) <==> p1 == p2,
{
    reveal_strlit("|");
    if ip_key(address, p1) == ip_key(address, p2) {
        let n = address.len() as int + 1;
        assert(ip_key(address, p1).skip(n) =~= hex_of(p1));
        assert(ip_key(address, p2).skip(n) =~= hex_of(p2));
        lemma_hex_of_injective(p1, p2);
    }
}

/// For addresses without `|` (every valid IP address), the identifier text
/// determines both the address and the parent.
pub proof fn law_ip_key_injective(a1: Seq<char>, p1: HashID, a2: Seq<char>, p2: HashID)
    requires
        !a1.contains('|'),
        !a2.contains('|'),
    ensures
        ip_key(a1, p1) == ip_key(a2, p2) <==> (a1 == a2 && p1 == p2),
{
    reveal_strlit("|");
    let k1 = ip_key(a1, p1);
    let k2 = ip_key(a2, p2);
    if k1 == k2 {
        if a1.len() < a2.len() {
            assert(k1[a1.len() as int] == '|');
            assert(k2[a1.len() as int] == a2[a1.len() as int]);
            assert(a2.contains(a2[a1.len() as int]));
        } else if a2.len() < a1.len() {
            assert(k2[a2.len() as int] == '|');
            assert(k1[a2.len() as int] == a1[a2.len() as int]);
            assert(a1.contains(a1[a2.len() as int]));
        }
        assert(a1.len() == a2.len());
        assert(k1.take(a1.len() as int) =~= a1);
        assert(k2.take(a2.len() as int) =~= a2);
        law_ip_key_names_parent(a1, p1, p2);
    }
}

impl Ip {
    /// An IP address of the entity `parent_hash`. The address must not be
    /// blank and must be a valid IPv4 or IPv6 address; the identifier is the
    /// hash of the address, `|` and the parent's hexadecimal identifier.
    pub fn new(address: &str, prefix: u8, parent_hash: &HashID) -> (r: Result<Self, Error>)
        ensures
            is_blank(address@) ==> r matches Err(Error::EmptyIpAddress),
            !is_blank(address@) && !is_ip_text(address@) ==> (r matches Err(
                Error::InvalidIpAddress { address: a },
            ) && a@ == address@),
            !is_blank(address@) && is_ip_text(address@) ==> (r matches Ok(ip) && ip.address@ == address@
                && ip.prefix == prefix && ip.attributes is None && ip.hash@ == text_id(
                ip_key(address@, *parent_hash),
            )),
    {
        if is_blank_str(address) {
            return Err(Error::EmptyIpAddress);
        }
        if !is_ip_address(address) {
            return Err(Error::InvalidIpAddress { address: address.to_string() });
        }
        let mut key = address.to_string();
        key.append("|");
        key.append(parent_hash.as_hex().as_str());
        let hash = id_of_text(key.as_str());
        Ok(Ip { hash, address: address.to_string(), prefix, attributes: None })
    }
}

impl Indexable for Ip {
    fn index(&self) -> (r: Result<Index, Error>)
        ensures
            r matches Ok(ix) && ix@ == seq![
                ItemView { kind: "address"@, key: self.address@, values: seq![self.hash] },
            ],
    {
        let mut index = Index::new();
        match Item::new("address", self.address.as_str(), &self.hash) {
            Ok(item) => index.push(item),
            Err(e) => return Err(e),
        }
        Ok(index)
    }
}

impl IpView {
    /// The text form of an address: `<address>/<prefix>`.
    pub fn from_ip(ip: &Ip) -> (r: Self)
        ensures
            r.hash@ == hex_of(ip.hash),
            r.address@ == ip.address@ + "/"@ + decimal(ip.prefix as nat),
    {
        let mut address = ip.address.clone();
        address.append("/");
        address.append(decimal_string(ip.prefix as u64).as_str());
        IpView { hash: ip.hash.as_hex(), address }
    }
}

} // verus!
