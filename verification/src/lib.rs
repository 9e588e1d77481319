//! Storage core of an archetype-based entity component system.
//!
//! Entities are opaque generational handles; components are plain values of a
//! caller-chosen cell type, registered under integer type keys; entities with
//! the same exact component set share an archetype, whose rows live in a
//! column-oriented table.  The archetype graph caches bundle transitions, and
//! the tables move whole rows between column sets under a swap-remove
//! discipline that names the one displaced row.

pub mod archetype;
pub mod bundle;
pub mod component;
pub mod entity;
pub mod resources;
pub mod storage;
pub mod util;
pub mod world;
