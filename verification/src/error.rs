//! The error taxonomy of the pipeline.  Every error is terminal for the
//! whole run: no partial grouping is ever emitted.

use vstd::prelude::*;

verus! {

#[derive(Debug)]
pub enum Error {
    /// A declared tag identifier fails identifier syntax.
    InvalidTag(String),
    /// Reserved for a matched file whose capture for a declared placeholder
    /// is absent where one is required; key construction is proved to
    /// supply one capture per declared placeholder, so no verified path
    /// produces it.
    MissingKeyPart { path: String, missing: String },
    /// A grammar or matcher-compilation failure, carrying the diagnostic.
    InvalidPattern(String),
    /// A failure of the external traversal collaborator.
    Io(String),
}

pub type Result<T> = core::result::Result<T, Error>;

} // verus!
