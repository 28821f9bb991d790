//! okq — query and navigation over Open Knowledge Format (OKF) bundles.
//!
//! The library holds the logic: scanning concept bodies for wikilinks and
//! inline tags, chunking bodies into sections, the typed link graph and its
//! traversals, concept resolution, and the pure parts of each command.
//! File access, argument parsing and printing live in the `app/` shell.

pub mod text;
pub mod snippet;
pub mod splice;
pub mod sections;
pub mod wikilinks;
pub mod tags;
pub mod concept;
pub mod graph;
pub mod model;
pub mod resolve;
pub mod identity;
pub mod edges;
pub mod order;
pub mod ignore_rules;
pub mod index;
pub mod error;
pub mod trust;
pub mod view;
pub mod fmt;
pub mod templates;
pub mod commands;
pub mod cli;
pub mod style;
