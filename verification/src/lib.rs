//! `portez` hands out stable development port numbers.
//!
//! A registry file (TOML) maps a project directory and a name to a port.
//! The first request for a `(directory, name)` pair allocates the lowest
//! free port at or above the configured start; every later request returns
//! the same number.

pub mod cli;
pub mod document;
pub mod edits;
pub mod laws;
pub mod model;
pub mod port_set;
pub mod registry;
pub mod text;
pub mod tree;

pub use registry::{Assignment, Registry, RegistryError};
