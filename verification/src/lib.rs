use vstd::prelude::*;

pub use hashing::Hashable;

pub mod address;
pub mod entity;
pub mod error;
pub mod hashing;
pub mod hex_codec;
pub mod index;
pub mod storage;
pub mod text;
pub mod ui;

verus! {

/// Types whose values are filed in secondary indexes.
pub trait Indexable {
    /// The index items under which a value is filed.
    fn index(&self) -> Result<index::Index, error::Error>;
}

} // verus!
