//! An entity-component-system runtime: a data store for simulation state
//! organized as entities tagged with typed components, a query engine that
//! selects entities by component-presence predicates, and a scheduler that
//! runs registered systems in a deterministic, dependency-respecting order
//! across discrete simulation phases.

pub mod component;
pub mod entity;
pub mod error;
pub mod query;
pub mod serialization;
pub mod system;
pub mod value;
pub mod world;

pub use entity::EntityId;
pub use error::TX2Error;
pub use world::World;
