//! Cooldown enforcement for Cargo lockfiles: freshly published releases must
//! age for a configured number of minutes before a build may use them.
//!
//! The library holds the decisions: configuration layering, the allowlist,
//! candidate filtering, blocker parsing, and the fixed-point engine that
//! chooses which node to downgrade next. Reading the dependency graph,
//! talking to the registry and running Cargo are left to the caller, who
//! hands the results back as plain values.
pub mod text;
pub mod allowlist;
pub mod config;
pub mod registry;
pub mod resolver;
pub mod semver_rules;
pub mod graph;
pub mod engine;
pub mod cli;
