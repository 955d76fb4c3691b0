//! Core logic of the `painpkg` package manager: manifests, packages, registry
//! bookkeeping and dependency resolution, with their contracts.

pub mod version;
pub mod text;
pub mod depmap;
pub mod error;
pub mod manifest;
pub mod package;
pub mod registry_metadata;
pub mod resolver;
pub mod registry;
