//! Planning engine for batch filesystem renames.
//!
//! Given two equal-length lists of path strings — current names and desired
//! names — the library turns them into a safe, ordered list of atomic rename
//! operations: each pair is decomposed into component-level renames (deepest
//! first), pairwise conflicts such as swaps are detected through a commutative
//! combined key, and each conflicting pair is broken into a three-step
//! sequence through a fresh temporary name.  Applying the planned operations
//! to the filesystem, and the I/O that gathers the two lists, is the caller's
//! part; the planning logic here is verified.

pub mod conflict;
pub mod fs_model;
pub mod hash;
pub mod laws;
pub mod ops;
pub mod paths;
pub mod plan;
pub mod rename;
pub mod sort;

pub use ops::RenameOp;
pub use ops::SortOption;
pub use ops::SortOrder;
pub use plan::bulk_rename;
pub use plan::RenamePlan;
pub use rename::Rename;
pub use rename::RenameError;
