//! Builds the matrix of feature combinations of a package and drives one run of
//! an external build tool per combination.
//!
//! The matrix is every subset of the seed features, joined by the always-added
//! features, closed under what each feature turns on, and filtered by the deny,
//! skip, conflict and choose rules; combinations that close to the same set
//! appear once.
//!
//! Two choices are fixed here:
//! - A name that the package does not declare is not an error: it turns
//!   nothing on when a set is closed, and it may still be combined when the
//!   configured seed names it.
//! - Hidden names (a leading double underscore) stay out of the automatic seed
//!   unless `Config::include_hidden` asks for them; closure still adds them.

pub mod config;
pub mod execution;
pub mod features;
pub mod graph;
pub mod matrix;
pub mod names;

pub use config::{ChooseRule, Config};
pub use execution::{Action, Error, Outcome, Progress, Task, TaskKind};
pub use features::{Feature, FeatureMatrix, FeatureSet};
pub use graph::{FeatureDecl, FeatureGraph};
