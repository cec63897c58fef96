//! Reconstructs a team hierarchy from a flat list of team records and renders
//! it as an indented outline.
//!
//! * [`team`]: the records, and when a set of records is usable.
//! * [`paging`]: collecting the records of a listing that comes in pages.
//! * [`forest`]: the hierarchy, built over the records in two passes.
//! * [`outline`]: what the outline of a hierarchy is.
//! * [`render`]: rendering a hierarchy as its outline.
//! * [`laws`]: what holds of every hierarchy and of every outline.
//! * [`config`]: the options of a run and the page size.
//! * [`graph`]: the contracts under which `petgraph` is used. The hierarchy
//!   is kept in a `petgraph` graph and walked with `petgraph`'s depth-first
//!   search; what this crate proves rests on those contracts.

pub mod config;
pub mod forest;
pub mod graph;
pub mod laws;
pub mod outline;
pub mod paging;
pub mod render;
pub mod team;

pub use config::pagination_limit;
pub use config::CmdArgs;
pub use forest::BuildError;
pub use forest::Forest;
pub use paging::PageEvent;
pub use paging::PagerAction;
pub use paging::TeamPager;
pub use render::print_nested_tree;
pub use render::print_team_tree;
pub use team::TeamTreeNode;
