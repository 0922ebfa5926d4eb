//! Bounded audit of a repository's sidecar runtime configuration.
//!
//! The audit reads a TOML configuration document, checks it against the
//! sidecar configuration shape and its runtime constraints, and records each
//! violation as a finding in a command report.

pub mod model;
pub mod text;
pub mod toml_tree;
pub mod address;
pub mod audit;
pub mod audit_properties;
pub mod env_boundary;
