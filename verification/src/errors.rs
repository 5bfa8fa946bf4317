//! The error taxonomy shared by every component of the library.

use vstd::prelude::*;

verus! {

/// A tagged error kind with a free-form message where one helps the caller.
#[derive(Debug, Clone, PartialEq, Eq)]
pub enum SunderError {
    NotFound(String),
    AlreadyExists(String),
    ValidationError(String),
    DatabaseError(String),
    EmbeddingError(String),
    IoError(String),
    Internal(String),
    ContentTooLarge(String),
    EmptyQuery,
    ContentTooShort(String),
    AlreadyRunning,
    DirectoryNotFound(String),
    NotADirectory(String),
    PermissionDenied(String),
    InvalidValue(String),
}

impl SunderError {
    /// A short, stable name for the kind, for display by a host shell.
    pub fn kind_name(&self) -> (r: &'static str)
        ensures
            r@ == self.kind_name_spec(),
    {
        match self {
            SunderError::NotFound(_) => "NotFound",
            SunderError::AlreadyExists(_) => "AlreadyExists",
            SunderError::ValidationError(_) => "ValidationError",
            SunderError::DatabaseError(_) => "DatabaseError",
            SunderError::EmbeddingError(_) => "EmbeddingError",
            SunderError::IoError(_) => "IoError",
            SunderError::Internal(_) => "Internal",
            SunderError::ContentTooLarge(_) => "ContentTooLarge",
            SunderError::EmptyQuery => "EmptyQuery",
            SunderError::ContentTooShort(_) => "ContentTooShort",
            SunderError::AlreadyRunning => "AlreadyRunning",
            SunderError::DirectoryNotFound(_) => "DirectoryNotFound",
            SunderError::NotADirectory(_) => "NotADirectory",
            SunderError::PermissionDenied(_) => "PermissionDenied",
            SunderError::InvalidValue(_) => "InvalidValue",
        }
    }

    pub open spec fn kind_name_spec(&self) -> Seq<char> {
        match self {
            SunderError::NotFound(_) => "NotFound"@,
            SunderError::AlreadyExists(_) => "AlreadyExists"@,
            SunderError::ValidationError(_) => "ValidationError"@,
            SunderError::DatabaseError(_) => "DatabaseError"@,
            SunderError::EmbeddingError(_) => "EmbeddingError"@,
            SunderError::IoError(_) => "IoError"@,
            SunderError::Internal(_) => "Internal"@,
            SunderError::ContentTooLarge(_) => "ContentTooLarge"@,
            SunderError::EmptyQuery => "EmptyQuery"@,
            SunderError::ContentTooShort(_) => "ContentTooShort"@,
            SunderError::AlreadyRunning => "AlreadyRunning"@,
            SunderError::DirectoryNotFound(_) => "DirectoryNotFound"@,
            SunderError::NotADirectory(_) => "NotADirectory"@,
            SunderError::PermissionDenied(_) => "PermissionDenied"@,
            SunderError::InvalidValue(_) => "InvalidValue"@,
        }
    }
}

} // verus!
