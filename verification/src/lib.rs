//! Core of a CI build orchestrator for package collections that expose named
//! outputs (packages, checks, dev shells, ...) per target platform.
//!
//! The library holds the parts with algorithmic content, all verified:
//! platform identifiers and their canonical text form, the wildcard/negation
//! pattern language used in configuration, the dependency forest with cycle
//! rejection and chain decomposition, check-to-target inference by naming
//! convention, the artifact-save policy, and the per-run execution state
//! machine that propagates failures to dependents.  Command invocation,
//! filesystem work and report rendering live outside the library.

pub mod checks;
pub mod config;
pub mod error;
pub mod graph;
pub mod orchestrator;
pub mod pattern;
pub mod platform;
pub mod summary;
pub mod target;
pub mod text;

pub use config::Config;
pub use error::{GraphError, ParseError};
pub use platform::{Arch, System, OS};
