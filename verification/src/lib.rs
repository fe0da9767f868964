//! Version discovery and artifact resolution for a CLI tool distribution.
//!
//! The crate scans release-archive filenames for dotted numeric version
//! tokens, aggregates them into a deduplicated set, and resolves a chosen
//! version plus host platform and architecture into a download URL.

pub mod aggregate;
pub mod config;
pub mod resolve;
pub mod version;

pub use config::GcloudPluginConfig;

pub use aggregate::VersionSet;
pub use aggregate::aggregate;
pub use version::extract_version_from_name;
