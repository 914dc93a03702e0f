//! Errors of the library.
use vstd::prelude::*;

verus! {

/// What went wrong in an operation.
#[derive(Debug, Clone, Copy, PartialEq, Eq, Structural)]
pub enum DotError {
    /// A file system or subprocess step failed.
    Io,
    /// The persisted mapping table is malformed.
    Parse,
    /// The source is already managed.
    DuplicateKey,
    /// No entry exists for the source.
    NotFound,
    /// The source is not managed by this workspace.
    NotManaged,
    /// The source is missing, of the wrong file type, or not a link.
    InvalidSource,
    /// The working or home directory is unusable.
    Config,
    /// The operation does not exist yet.
    Unimplemented,
}

/// The description of each error.
pub open spec fn error_message(e: DotError) -> Seq<char> {
    match e {
        DotError::Io => "I/O failure"@,
        DotError::Parse => "malformed mapping table"@,
        DotError::DuplicateKey => "entry already exists"@,
        DotError::NotFound => "entry does not exist"@,
        DotError::NotManaged => "file is not managed by this tool"@,
        DotError::InvalidSource => "invalid source file"@,
        DotError::Config => "cannot resolve the working or home directory"@,
        DotError::Unimplemented => "not implemented"@,
    }
}

impl DotError {
    /// A short description for diagnostics.
    pub fn message(&self) -> (r: &'static str)
        ensures
            r@ == error_message(*self),
    {
        match self {
            DotError::Io => "I/O failure",
            DotError::Parse => "malformed mapping table",
            DotError::DuplicateKey => "entry already exists",
            DotError::NotFound => "entry does not exist",
            DotError::NotManaged => "file is not managed by this tool",
            DotError::InvalidSource => "invalid source file",
            DotError::Config => "cannot resolve the working or home directory",
            DotError::Unimplemented => "not implemented",
        }
    }
}

} // verus!
