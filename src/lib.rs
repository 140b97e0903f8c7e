//! Passive learning of Linear Temporal Logic formulae from a sample of finite traces:
//! the smallest formula, under a fixed grammar and size, that holds on every positive
//! trace and fails on every negative one, found by enumerating candidate formulae size
//! by size while pruning syntactically recognisable duplicates.
//!
//! - [`syntax`]: formulae, their meaning on finite traces, their order and their text.
//! - [`trace`]: traces and samples, consistency and the solvability precheck.
//! - [`learn`]: skeletons, the pruned enumeration of formulae, and the search.
//! - [`equivalence`]: the equivalences on finite traces behind the pruning rules.

pub mod equivalence;
pub mod learn;
pub mod syntax;
pub mod trace;

pub use learn::{gen_formulae, solve, solve_size, SkeletonTree, PARALLEL_FROM_SIZE};
pub use syntax::{Idx, SyntaxTree, Time};
pub use trace::{Sample, Trace};
