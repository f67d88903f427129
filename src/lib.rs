//! Ahead-of-time regular-expression matching: a parsed pattern is lowered once
//! into a tree of matching steps, which is then run against any number of texts.
mod compiler;
mod laws;
mod matcher;
mod steps;
mod syntax;
mod text;

pub use compiler::CompileError;
pub use laws::{lemma_compile_idempotent, lemma_misplaced_end_rejected, lemma_unanchored_search};
pub use matcher::Reif;
pub use steps::{run_seq, run_step, Step};
pub use syntax::{ClassRange, LookKind, Node};
pub use text::text_chars;
