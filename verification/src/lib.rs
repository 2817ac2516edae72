//! Build-interception core: compile-log parsing, option grouping, target
//! classification, and selection-tree construction for tracked C builds.

pub mod config;
pub mod error;
pub mod grouping;
pub mod preprocess;
pub mod selection;
mod shell;
pub mod targets;
pub mod text;
pub mod tracker;
