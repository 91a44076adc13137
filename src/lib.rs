//! Dependency graph of a package registry: a bi-keyed index, the ingestion of
//! the registry's bulk export, a cycle-safe traversal into a result tree and a
//! byte-level snapshot of the whole graph.

pub mod bikey;
pub mod cache;
pub mod carriage;
pub mod conditions;
pub mod ingest;
pub mod joystick;
pub mod lookup;
pub mod order;
pub mod snapshot;
pub mod store;
pub mod tables;
pub mod traverse;
