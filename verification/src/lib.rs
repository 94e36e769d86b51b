//! Deterministic state core of an entity/attribute simulation.
//!
//! The crate tracks entities, a hierarchical category-tag taxonomy
//! ("aspects"), attribute values derived from multiple overlapping sources,
//! and transient timed effects, emitting a canonical change log each tick.
//! Everything is deterministic and bit-reproducible across independently-run
//! instances given an identical operation sequence.

pub mod attr;
pub mod canon;
pub mod diff;
pub mod effect;
pub mod effect_ops;
pub mod entity;
pub mod error;
pub mod hash;
pub mod ids;
pub mod index;
pub mod model;
pub mod num;
pub mod path;
pub mod query;
pub mod registry;
pub mod relations;
pub mod rng;
pub mod set;
pub mod time;

pub use error::{AspectError, AspectResult, WMMSCoreError};
