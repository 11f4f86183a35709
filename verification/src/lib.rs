//! A verified library for rendering a directory tree as an indented diagram.
//!
//! The library works on a pure snapshot of a filesystem subtree: each entry
//! carries its name and the metadata flags that matter for display. From such
//! a snapshot it selects the entries to show, sorts them by name, and renders
//! one line per entry with the connector glyphs that picture sibling order and
//! nesting depth. All of that logic is specified and verified here; reading
//! the filesystem and printing the lines is left to the caller.

pub mod glyphs;
pub mod order;
pub mod render;
pub mod tree;
