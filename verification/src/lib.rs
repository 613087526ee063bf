//! A verified subdomain-tree library.
//!
//! Given a collection of fully-qualified domain names, the library groups
//! them by DNS label from the top-level domain downwards, deduplicates
//! shared suffixes into single nodes, and renders the resulting forest as
//! an indented, optionally colorized, box-drawing tree diagram.

pub mod forest;
pub mod order;
pub mod render;
pub mod laws;
pub mod text;
