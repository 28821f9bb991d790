//! The pure parts of each command: what it computes from the loaded bundle
//! and its arguments, and the text it renders.

pub mod find;
pub mod get;
pub mod graph;
pub mod index;
pub mod listing;
pub mod lint;
pub mod scaffold;
pub mod skills;
pub mod spec;
pub mod stats;
pub mod validate;
