//! Storage core of an entity-component system: entities are indices, each
//! component type has one dense storage of optional values aligned with the
//! entity indices, and queries intersect storages by presence.
pub mod component_set;
pub mod history;
pub mod world;
