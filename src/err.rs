use vstd::prelude::*;

use crate::path::FsPath;

verus! {

/// A failure met while working on one path, with a description of it.
#[derive(Debug, Clone)]
pub struct FileError {
    pub path: FsPath,
    pub message: String,
}

/// Why a walker could not be created for a path.
#[derive(Debug, Clone, Copy, PartialEq, Eq)]
pub enum WalkError {
    /// The path does not exist.
    NotFound,
    /// The path exists but is not a directory.
    NotADirectory,
}

} // verus!
