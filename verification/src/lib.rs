//! Parse a textual, indented description of a directory tree (either `tree`
//! command output or a plain 2-space-indented list with `/`-suffixed
//! directory names) and turn it into a plan of filesystem operations:
//! directories to create, empty files to touch, conflicting nodes to remove.
//!
//! The crate works on an in-memory model of the relevant part of the
//! filesystem. A caller snapshots the paths it cares about into an
//! [`fsmodel::FsModel`], runs the builder, and then applies the returned
//! [`builder::Action`]s to the real filesystem in order.

pub mod text;
pub mod entry;
pub mod classify;
pub mod fsmodel;
pub mod builder;
pub mod laws;
