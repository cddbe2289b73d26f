use vstd::prelude::*;

verus! {

/// The failure taxonomy of the library.
///
/// Format violations detected on read (`BadSize`, `BadMagic`, `BadChecksum`,
/// `BadTable`), structural inconsistency met while walking block chains
/// (`CorruptChain`), bounds violations (`OutOfRange`), allocation failure
/// (`OutOfSpace`), directory-operation failures (`NotFound`, `NameExists`,
/// `NotADirectory`, `NotEmpty`), packing modes or record kinds the library
/// recognises but does not decode (`Unsupported`), and truncated inputs
/// (`UnexpectedEof`, `BadLength`).
#[derive(Clone, Copy, Debug, PartialEq, Eq, Structural)]
pub enum AdfError {
    BadSize,
    BadMagic,
    BadChecksum,
    BadTable,
    CorruptChain,
    OutOfRange,
    OutOfSpace,
    NotFound,
    NameExists,
    NotADirectory,
    NotEmpty,
    Unsupported,
    UnexpectedEof,
    BadLength,
}

impl AdfError {
    /// A short fixed description of the error kind.
    pub fn message(&self) -> &'static str {
        match self {
            AdfError::BadSize => "bad size",
            AdfError::BadMagic => "bad magic",
            AdfError::BadChecksum => "bad checksum",
            AdfError::BadTable => "bad table",
            AdfError::CorruptChain => "corrupt chain",
            AdfError::OutOfRange => "out of range",
            AdfError::OutOfSpace => "out of space",
            AdfError::NotFound => "not found",
            AdfError::NameExists => "name exists",
            AdfError::NotADirectory => "not a directory",
            AdfError::NotEmpty => "not empty",
            AdfError::Unsupported => "unsupported",
            AdfError::UnexpectedEof => "unexpected end of input",
            AdfError::BadLength => "bad length",
        }
    }
}

} // verus!
