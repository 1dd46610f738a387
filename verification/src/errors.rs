use vstd::prelude::*;

verus! {

/// The failures a file-management operation can report.
///
/// `InvalidPath` covers a path that escapes the root, or that targets the
/// root itself in an operation that mutates the tree. `InvalidSource` is a
/// copy source that is neither a file nor a directory. `InternalIo` stands
/// for an unexpected operating-system level failure.
#[derive(Clone, Copy, Debug, PartialEq, Eq, Structural)]
pub enum FsError {
    InvalidPath,
    AlreadyExists,
    NotFound,
    NotADirectory,
    NotAFile,
    InvalidSource,
    InternalIo,
}

impl FsError {
    /// The HTTP status code the service answers with for this error:
    /// 400 for a client mistake, 404 for a missing or wrongly-typed target,
    /// 500 for an unexpected I/O failure.
    pub open spec fn spec_status(self) -> u16 {
        match self {
            FsError::InvalidPath => 400,
            FsError::AlreadyExists => 400,
            FsError::InvalidSource => 400,
            FsError::NotFound => 404,
            FsError::NotADirectory => 404,
            FsError::NotAFile => 404,
            FsError::InternalIo => 500,
        }
    }

    pub fn status(&self) -> (s: u16)
        ensures
            s == self.spec_status(),
    {
        match self {
            FsError::InvalidPath => 400,
            FsError::AlreadyExists => 400,
            FsError::InvalidSource => 400,
            FsError::NotFound => 404,
            FsError::NotADirectory => 404,
            FsError::NotAFile => 404,
            FsError::InternalIo => 500,
        }
    }
}

} // verus!
