//! Release-tagging core: a version-identifier grammar (prefix + semantic-version
//! core + suffix), a resolver that picks the highest version out of a tag list,
//! a diff engine that partitions local and remote tag-name sets, a sync-session
//! state machine, and a reset planner that mirrors the remote tag set.
//!
//! All tag input and output crosses the boundary as plain strings; fetching,
//! pushing and storing tags is the business of an external tag store driven by
//! the embedding application.

pub mod text;
pub mod version;
pub mod order;
pub mod resolver;
pub mod plan;
pub mod session;
pub mod reset;
pub mod config;
pub mod repo;
