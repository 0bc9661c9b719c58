//! What can go wrong.

use std::convert::Infallible;
use vstd::prelude::*;

verus! {

/// The error of the standard library's input and output, carried as it is.
#[verifier::external_type_specification]
#[verifier::external_body]
pub struct ExIoError(std::io::Error);

/// A failure to read or write bytes.
#[derive(Debug)]
pub enum IoError {
    /// The bytes ended before the ones that were asked for.
    UnexpectedEof,
    /// The bytes of a block could not be decompressed.
    InvalidData,
    /// What was to be written is longer than the format can hold.
    InvalidInput,
    /// The reader, the writer or the chunk itself failed.
    Other(std::io::Error),
}

/// The errors of this library, where `U` is the error of the merge function.
#[derive(Debug)]
pub enum Error<U = Infallible> {
    /// The first byte names no known compression.
    InvalidCompressionType,
    /// The bytes of a block spell no entry.
    InvalidBlock,
    /// The merge function failed.
    Merge(U),
    /// Reading or writing failed.
    Io(IoError),
}

impl<U> From<IoError> for Error<U> {
    fn from(e: IoError) -> (r: Error<U>) {
        Error::Io(e)
    }
}

impl<U> vstd::std_specs::convert::FromSpecImpl<IoError> for Error<U> {
    open spec fn obeys_from_spec() -> bool {
        true
    }

    open spec fn from_spec(e: IoError) -> Error<U> {
        Error::Io(e)
    }
}

impl<U> From<std::io::Error> for Error<U> {
    fn from(e: std::io::Error) -> (r: Error<U>) {
        Error::Io(IoError::Other(e))
    }
}

impl<U> vstd::std_specs::convert::FromSpecImpl<std::io::Error> for Error<U> {
    open spec fn obeys_from_spec() -> bool {
        true
    }

    open spec fn from_spec(e: std::io::Error) -> Error<U> {
        Error::Io(IoError::Other(e))
    }
}

/// An error that no merge function made, as an error of functions that merge.
pub open spec fn converted<U>(e: Error) -> Error<U> {
    match e {
        Error::InvalidCompressionType => Error::InvalidCompressionType,
        Error::InvalidBlock => Error::InvalidBlock,
        Error::Merge(_) => arbitrary(),
        Error::Io(io) => Error::Io(io),
    }
}

impl Error {
    /// Turns an error that cannot come from a merge function into the error of a
    /// function that merges.
    pub fn convert_merge_error<U>(self) -> (e: Error<U>)
        requires
            self !is Merge,
        ensures
            e == converted::<U>(self),
    {
        match self {
            Error::InvalidCompressionType => Error::InvalidCompressionType,
            Error::InvalidBlock => Error::InvalidBlock,
            Error::Merge(_) => vstd::pervasive::unreached(),
            Error::Io(io) => Error::Io(io),
        }
    }
}

/// An error keeps what it is when it becomes one of functions that merge.
pub proof fn conversion_keeps_errors<U>(io: IoError)
    ensures
        converted::<U>(Error::Io(io)) == Error::<U>::Io(io),
        converted::<U>(Error::InvalidBlock) matches Error::InvalidBlock,
        converted::<U>(Error::InvalidCompressionType) matches Error::InvalidCompressionType,
{
}

} // verus!
