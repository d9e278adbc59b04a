//! The shared module graph engine and package manager behind the `opal` tool.
//!
//! What is decided is decided here; reading and writing files and talking to the
//! registry is the caller's. A function that needs to know something of the outside
//! takes it as an argument, and one that needs to know it step by step says what to
//! find out next.

// Groundwork: text, order, ordered collections, paths, hashes, documents.
pub mod text;
pub mod order;
pub mod sorted;
pub mod path;
pub mod native;
pub mod hash;
pub mod json;

// The engine: the store, what is remembered, and the module graph.
pub mod atomic;
pub mod fault;
pub mod cas;
pub mod cache;
pub mod graph;

// The package manager.
pub mod semver;
pub mod versions;
pub mod ranges;
pub mod integrity;
pub mod manifest;
pub mod registry;
pub mod resolve;
pub mod solutions;
pub mod origins;
pub mod lockfile;
pub mod package;
pub mod link;
pub mod plans;
pub mod commands;
pub mod locks;
pub mod projects;
pub mod install;
pub mod gc;
pub mod diagnose;
pub mod fixtures;
