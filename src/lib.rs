//! Snapshots of an entity-component store.
//!
//! Saving encodes the components of the marked entities, one type at a time,
//! into a document keyed by the registered type names. Loading decodes such a
//! document into a store, again one type at a time, and gives each identity
//! the document names, whether as a row's owner or as an entity reference
//! inside a component, one fresh live entity through a remap table, so that
//! references between entities survive whatever order the types come in.
use vstd::prelude::*;

pub mod document;
pub mod laws;
pub mod load;
pub mod registry;
pub mod remap;
pub mod save;
pub mod store;
pub mod value;

verus! {

} // verus!
