//! An entity/component store: typed records grouped by concrete type, with
//! reference-counted views of any component nested inside a record.
//!
//! Values live in the records of a `Heap`, addressed by slot and generation.
//! A handle (`Acquirable`, or the weak `WeakAcquirable`) designates a record
//! and the component it views, with that component's offset from the root of
//! the value, found through the offset table that the record's concrete type
//! registered (`ExtractionMetadata`, flattened into an `Extractor`). A
//! handle's `get` reads the stored value; its `component` and `offset` say
//! which part of it the handle views. Counts live in the record: the value
//! is dropped with its last strong handle, and the slot is reused once no
//! weak handle remains either.
//!
//! A `World` keeps one `Archetype` per concrete type, an index from entity
//! to concrete type, and an index from component type to the concrete types
//! that provide it. Every change takes `&mut`; sharing a world between
//! threads is a matter of putting it behind a lock. A query takes a snapshot:
//! it hands out a strong handle per matching entity, taken when it is made.

use vstd::prelude::*;

pub mod acquirable;
pub mod archetype;
pub mod entity;
pub mod index;
pub mod laws;
pub mod metadata;
pub mod query;
pub mod samples;
pub mod world;

pub use acquirable::{Acquirable, HandleView, Heap, Record, WeakAcquirable};
pub use archetype::Archetype;
pub use entity::EntityId;
pub use metadata::{offsets_fit_from, ExtractionMetadata, Extractable, Extractor, TypeKey};
pub use query::QueryIter;
pub use samples::{Buff, Entity, Monster, Player};
pub use world::{World, WorldError};

verus! {

} // verus!
