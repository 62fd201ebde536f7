//! A commit-lineage log engine.
//!
//! Given branch tips in a commit graph and a selection over those tips, the
//! library produces a time-ordered, deduplicated and bounded sequence of the
//! ancestors of the selected tips.

pub mod store;
pub mod traversal;
pub mod lineage;
pub mod log_view;
pub mod style;
