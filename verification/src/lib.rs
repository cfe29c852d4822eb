//! An archetype-based store of entities and their components.
pub mod archetype;
pub mod bundle;
pub mod column_batch;
pub mod entities;
pub mod entity_ref;
pub mod error;
pub mod laws;
pub mod links;
pub mod model;
pub mod query;
pub mod terms;
pub mod type_index;
pub mod types;
pub mod world;
