//! In-situ photo album builder: the verified core.
//!
//! The library models the recursive tree walk that drives album generation:
//! classifying directory entries, deciding when a cached thumbnail is stale,
//! visiting subdirectories in case-insensitive alphabetical order, assembling
//! the per-directory `ActionRecord` tree, and rendering the HTML index pages
//! as plain strings.  All filesystem reads and writes, the thumbnail backends
//! and the command line live outside the library and hand it plain values.

pub mod html_builder;
pub mod html_generation;
pub mod order;
pub mod paths;
pub mod record;
pub mod snapshot;
pub mod staleness;
pub mod walker;
