use vstd::prelude::*;

verus! {

/// Every failure a storage operation can report.
#[derive(Clone, Copy, Debug, PartialEq, Eq, Structural)]
pub enum Errors {
    FailedToReadFromDataFile,
    FailedToWriteToDataFile,
    FailedToSyncDataFile,
    FailedToOpenDataFile,
    KeyIsEmpty,
    IndexUpdateFailed,
    KeyNotFound,
    DataFileNotFound,
    DirPathIsEmpty,
    DataFileSizeTooSmall,
    FailedToCreateDatabaseDir,
    FailedToReadDatabaseDir,
    DataDirectoryCorrupted,
    ReadDataFileEOF,
}

impl Errors {
    /// A short description of the error, for callers that report it.
    pub fn message(&self) -> &'static str {
        match self {
            Errors::FailedToReadFromDataFile => "failed to read from data file",
            Errors::FailedToWriteToDataFile => "failed to write to data file",
            Errors::FailedToSyncDataFile => "failed to sync data file",
            Errors::FailedToOpenDataFile => "failed to open data file",
            Errors::KeyIsEmpty => "key is empty",
            Errors::IndexUpdateFailed => "index update failed",
            Errors::KeyNotFound => "key not found",
            Errors::DataFileNotFound => "data file not found",
            Errors::DirPathIsEmpty => "database dir path is empty",
            Errors::DataFileSizeTooSmall => "database data file size is too small",
            Errors::FailedToCreateDatabaseDir => "failed to create database directory",
            Errors::FailedToReadDatabaseDir => "failed to read database directory",
            Errors::DataDirectoryCorrupted => "the database directory may be corrupted",
            Errors::ReadDataFileEOF => "read data file eof",
        }
    }
}

pub type Result<T> = core::result::Result<T, Errors>;

} // verus!
