//! Archetype-based entity storage with one dense column per component type.

pub mod key;

pub use key::ArchetypeKey;
pub mod archetype;

pub use archetype::{Archetype, ColumnData};
pub mod archetypes;

pub use archetypes::Archetypes;
