//! Ranks C/C++ headers by the preprocessed code that would disappear if each
//! one were emptied, computed from dominator trees of include graphs.

use vstd::prelude::*;

pub mod analyze;
pub mod closure;
pub mod combine;
pub mod bytes;
pub mod compdb;
pub mod csr;
pub mod dominators;
pub mod emitted;
pub mod fs;
pub mod generate;
pub mod json;
pub mod lexer;
pub mod order;
pub mod project;
pub mod removal;
pub mod report;
pub mod resolve;
pub mod scan;
pub mod summary;
pub mod text;
pub mod tugraph;
pub mod walk;

pub use analyze::{analyze, Analysis, HeaderCost, Options};
pub use compdb::{parse_compile_commands, CompileCommand, SearchPaths};
pub use fs::{MemFs, SourceProvider};
pub use project::Project;

verus! {
}
