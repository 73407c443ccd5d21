//! A line-oriented diff library built around a hash-free interning layer and
//! an affix-trimming preprocessor: common leading and trailing runs of the
//! two inputs are detected with integer identity comparisons and set aside,
//! and only the remaining middle window is handed to the generic
//! minimum-edit-distance engine. The result is an ordered list of
//! [`Change`] records carrying exact indices into the original sequences and
//! the original content of every affected run.

pub mod builder;
pub mod change;
pub mod diff;
pub mod lines;
pub mod engine;
pub mod interner;
pub mod trim;

pub use builder::ChangesBuilder;
pub use change::Change;
pub use change::DiffError;
pub use diff::diff_lines;
pub use diff::diff_segments;
pub use engine::EngineOp;
pub use interner::Interner;
pub use lines::Segment;
pub use lines::segments;
pub use lines::split_lines;
pub use trim::Hashed;
pub use trim::hash_changed;
