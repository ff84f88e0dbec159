//! A distributed dependency graph for built packages, kept in a key-value
//! store of per-package records, together with the protocol that updates it:
//! when a package's manifest changes, the protocol links the package as a
//! consumer of every dependency that the store already tracks, commits the
//! package's own record, removes consumer edges that the new dependency set no
//! longer justifies, and re-triggers builds for the consumers that still
//! depend on the package.
//!
//! The store itself and the build trigger are external collaborators reached
//! over the network; this crate verifies the protocol against an in-memory
//! store with the same conditional-write semantics, and exposes the decision
//! functions that a client of a remote store drives in the same order.

pub mod errors;
pub mod keys;
pub mod laws;
pub mod manifest;
pub mod model;
pub mod store;
pub mod updater;
