//! Dependency-popularity time series for a package index.
//!
//! The crate models snapshots of a package index, resolves which dependency
//! edges are active under an enabled-feature set, computes transitive
//! dependent counts with memoization and cycle handling, and maintains a
//! persistent per-package history with a chunked, content-hashed binary
//! encoding.

pub mod analyze;
pub mod cache;
pub mod codec;
pub mod counts;
pub mod deps;
pub mod digest;
pub mod features;
pub mod names;
pub mod opts;
pub mod order;
pub mod persist;
pub mod sampler;
pub mod semver_req;
pub mod snapshot;
pub mod store;
pub mod transitive;
pub mod trend;
