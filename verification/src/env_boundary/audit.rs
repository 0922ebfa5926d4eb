//! The options of a repository audit, shared with the sidecar audit.

pub use crate::audit::RepositoryAuditOptions;
