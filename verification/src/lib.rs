//! An entity-component-system core: entity handles, component and resource
//! storage, declared data accesses of systems, and their ordering into
//! execution stages; with the configuration checks and the wire formats of
//! the simulation built on it.

pub mod access;
pub mod scheduler;
pub mod entity;
pub mod storage;
pub mod config;
pub mod transport;
pub mod settings;
pub mod wire;
pub mod registry;
pub mod params;
pub mod colony;
pub mod clock;
pub mod text;
