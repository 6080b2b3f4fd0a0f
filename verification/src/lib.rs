//! A preprocessor for the assembly language of a small virtual machine, and
//! the table of definitions that it fills.
//!
//! Before a source text reaches the lexer, its `%define` lines are recorded
//! in a [`HashTable`] and removed, and each `%include` line gives way to the
//! contents of the file that it names.

pub mod htab;
pub mod preprocessing;
pub mod text;

pub use htab::HashTable;
pub use preprocessing::{preprocess, PreprocessingError, Progress};
