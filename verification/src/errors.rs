use vstd::prelude::*;

verus! {

/// Every user-visible failure category of the store.
#[derive(Clone, Copy, Debug, PartialEq, Eq, Structural)]
pub enum Errors {
    FailToOpenFile,
    FailToReadFromFile,
    FailToWriteToFile,
    FailToSyncFile,
    EmptyKey,
    KeyNotFound,
    DatafileNotFound,
    DatafileSizeTooSmall,
    DatafileCorrupted,
    IndexUpdateFail,
    CreateDbDirFail,
    ReadDbDirFail,
    InvalidDbPath,
    BatchSizeExceeded,
    InternalError,
}

} // verus!
