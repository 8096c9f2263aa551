//! A preprocessor for `#if` / `#elif` / `#else` / `#endif`, `#include`,
//! `#define` and `#undef` directives embedded in arbitrary source text.
//!
//! Everything is stated over bytes: a source is the UTF-8 bytes of its text,
//! a symbol is the bytes of its name, and an emitted line is the bytes between
//! two cuts of its source.

pub mod span;
pub mod text;
pub mod symbols;
pub mod stack;
pub mod exp;
pub mod parser;
pub mod format;
pub mod line;
pub mod scan;
pub mod file;
pub mod cache;
pub mod loader;
pub mod machine;
pub mod driver;
pub mod preprocessor;
pub mod defines;
pub mod blocks;
pub mod roundtrip;
pub mod passthrough;
pub mod lines;
pub mod chars;

pub use crate::file::{parse_file, File};
pub use crate::line::{Config, Line};
pub use crate::loader::{DefaultFileLoader, FileLoader, NoFileLoader};
pub use crate::preprocessor::PreProcessor;
