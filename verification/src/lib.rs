//! Deterministic content fingerprints for files and directory trees,
//! with per-entry manifests and a flat on-disk manifest format, plus
//! small verified helpers for release tooling built around the engine.

pub mod cargo;
pub mod checksums;
pub mod gh_cli;
pub mod git;
pub mod linux_utils;
pub mod package_rpm;
pub mod precommit;
