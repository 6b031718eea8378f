//! A minimal entity-component-system core.
//!
//! A [`world::World`] owns densely allocated entity ids, one sparse storage
//! per component kind, and a store of singleton resources. Component kinds and
//! resource kinds are named by caller-chosen `u64` keys over a single value
//! type, so the whole engine is statically typed and its storage, borrow
//! discipline and query join are verified.
//!
//! Queries ([`query::Query`]) join one or more component storages into the
//! rows of entities that carry every requested component, in ascending entity
//! order. Systems ([`system::System`]) run against the world in registration
//! order, bucketed into startup and per-frame stages by [`system::Schedule`].
//!
//! Violations of the runtime borrow discipline are reported as explicit
//! [`world::BorrowError`] results rather than panics, so callers must check
//! them; the library's own functions never panic.

pub mod component;
pub mod query;
pub mod resource;
pub mod system;
pub mod world;
