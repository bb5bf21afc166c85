//! Network interfaces as entities.
use vstd::prelude::*;
use vstd::string::*;

use crate::entity::{hex_of, id_of_text, text_id, HashID};
use crate::error::Error;
use crate::index::Index;
use crate::Indexable;

verus! {

/// A network interface of an entity, with the identifiers of its addresses.
pub struct Interface {
    pub hash: HashID,
    pub name: String,
    pub ips: Vec<HashID>,
}

impl Interface {
    /// The interface `name` of the entity `parent_hash`; the identifier is the
    /// hash of the name, `|` and the parent's hexadecimal identifier.
    pub fn new(name: &str, parent_hash: &HashID) -> (r: Result<Self, Error>)
        ensures
            r matches Ok(i) && i.name@ == name@ && i.ips@.len() == 0 && i.hash@ == text_id(
                name@ + "|"@ + hex_of(*parent_hash),
            ),
    {
        let mut key = name.to_string();
        key.append("|");
        key.append(parent_hash.as_hex().as_str());
        let hash = id_of_text(key.as_str());
        Ok(Interface { hash, name: name.to_string(), ips: Vec::new() })
    }

    /// Appends address identifiers.
    pub fn add_ips(&mut self, ips: Vec<HashID>)
        ensures
            final(self).ips@ == old(self).ips@ + ips@,
            final(self).hash == old(self).hash,
            final(self).name == old(self).name,
    {
        let mut more = ips;
        self.ips.append(&mut more);
    }
}

impl Indexable for Interface {
    fn index(&self) -> (r: Result<Index, Error>)
        ensures
            r matches Ok(ix) && ix@ == Seq::<crate::index::ItemView>::empty(),
    {
        Ok(Index::new())
    }
}

} // verus!
