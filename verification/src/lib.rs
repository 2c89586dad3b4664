//! Compiles a declarative file-naming pattern language into matchers,
//! extracts named placeholder values from matching paths, and groups
//! paths that share identical extracted keys across declared tags.

pub mod error;
pub mod finder;
pub mod grouper;
pub mod key;
pub mod matcher;
pub mod parser;
pub mod pattern;
pub mod text;
pub mod types;

pub use error::{Error, Result};
