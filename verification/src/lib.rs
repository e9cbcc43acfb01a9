//! An in-process entity-component-system runtime.
//!
//! Components are typed values attached to entities and stored in per-type
//! columns owned by a [`World`].  A system declares the set of component
//! types it needs; the world resolves that set into the entities owning all
//! of them, memoizes the result per system, and hands the system body
//! conflict-free access to the matching components through a claim guard.

pub mod bitset;
pub mod component;
pub mod entity;
pub mod error;
pub mod errors;
pub mod intersect;
pub mod keyed;
pub mod store;
pub mod system;
pub mod world;

pub use bitset::BitSet;
pub use component::Component;
pub use component::ComponentId;
pub use component::ComponentSet;
pub use component::component_id;
pub use entity::Entity;
pub use entity::EntityId;
pub use error::EcsError;
pub use errors::EcrusError;
pub use store::ComponentStore;
pub use system::System;
pub use system::SystemFault;
pub use system::SystemId;
pub use world::World;
