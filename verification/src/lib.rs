//! Observer index and lifecycle subsystem for an entity/component world.
//!
//! The library keeps a bidirectional relationship between watched entities
//! (subjects of events) and observer entities (standing registrations that
//! react to events on one or more subjects), and keeps that relationship
//! correct across the two structural mutations that would otherwise corrupt
//! it: removal of a watched entity and duplication (cloning) of a watched
//! entity. Structural reactions to structural mutations are never performed
//! inline; they are enqueued as deferred commands and run at a flush point.

pub mod entity;
pub mod observed_by;
pub mod observer;
pub mod index;
pub mod world;
pub mod cloning;
pub mod laws;

pub use entity::{ComponentId, Entity, EventKey};
pub use observed_by::ObservedBy;
pub use observer::Observer;
pub use world::World;
pub use cloning::{component_clone_observed_by, CloneBehavior, EntityClonerBuilder};
