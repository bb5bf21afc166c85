//! Domains: named groups of nodes.
use vstd::prelude::*;
use vstd::string::*;

use crate::entity::{id_of_text, text_id, HashID};
use crate::error::Error;
use crate::hex_codec::hex_lower;
use crate::index::{Index, Item, ItemView};
use crate::text::{is_blank, is_blank_str};
use crate::Indexable;

verus! {

/// A domain, identified by the hash of its name.
pub struct Domain {
    pub hash: HashID,
    pub name: String,
    pub description: Option<String>,
}

/// A domain as shown to users: all fields as text.
pub struct DomainView {
    pub hash: String,
    pub name: String,
    pub description: String,
}

/// The text whose hash identifies the domain called `name`.
pub open spec fn domain_key(name: Seq<char>) -> Seq<char> {
    name + "|"@
}

/// The views of an optional string.
pub open spec fn opt_view(s: Option<String>) -> Option<Seq<char>> {
    match s {
        Some(v) => Some(v@),
        None => None,
    }
}

impl Domain {
    /// A domain called `name`. The name must not be blank and must fit in
    /// 255 bytes; the identifier is the hash of the name followed by `|`.
    pub fn new(name: &str) -> (r: Result<Self, Error>)
        ensures
            is_blank(name@) ==> r matches Err(Error::EmptyDomainName),
            !is_blank(name@) && name.len() > 255 ==> (r matches Err(
                Error::DomainNameTooLong { len },
            ) && len == name.len()),
            !is_blank(name@) && name.len() <= 255 ==> (r matches Ok(d) && d.name@
                == name@ && d.description is None && d.hash@ == text_id(domain_key(name@))),
    {
        if is_blank_str(name) {
            return Err(Error::EmptyDomainName);
        }
        if name.len() > 255 {
            return Err(Error::DomainNameTooLong { len: name.len() });
        }
        let mut key = name.to_string();
        key.append("|");
        let hash = id_of_text(key.as_str());
        Ok(Self { hash, name: name.to_string(), description: None })
    }
}

impl Indexable for Domain {
    fn index(&self) -> (r: Result<Index, Error>)
        ensures
            r matches Ok(ix) && ix@ == seq![
                ItemView { kind: "name"@, key: self.name@, values: seq![self.hash] },
            ],
    {
        let mut index = Index::new();
        let item = Item::new("name", self.name.as_str(), &self.hash);
        match item {
            Ok(item) => index.push(item),
            Err(e) => return Err(e),
        }
        Ok(index)
    }
}

impl DomainView {
    /// The text form of a domain; a missing description shows as empty.
    pub fn from_domain(d: &Domain) -> (r: Self)
        ensures
            r.hash@ == hex_lower(d.hash@),
            r.name@ == d.name@,
            r.description@ == match d.description {
                Some(s) => s@,
                None => Seq::<char>::empty(),
            },
    {
        let description = match &d.description {
            Some(s) => s.clone(),
            None => String::new(),
        };
        DomainView { hash: d.hash.as_hex(), name: d.name.clone(), description }
    }
}

} // verus!
