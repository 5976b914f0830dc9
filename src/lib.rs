//! An entity-component data store: entity handles, dense per-kind component
//! storage with swap-remove, a registry of component kinds, and a facade that
//! keeps entity membership and component rows in step.

pub mod entity;
pub mod error;
pub mod hash;
pub mod component;
pub mod hierarchy_component;
pub mod name_component;
pub mod entity_manager;
pub mod any_component;
pub mod component_manager;
pub mod ecs;
pub mod rsc_manager;
pub mod resources;
pub mod config;
pub mod random;
