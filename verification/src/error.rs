//! The failure kinds carried by every fallible operation of the reader.

use vstd::prelude::*;

use crate::objects::IndirectRef;

verus! {

/// Every error a reader operation can raise. All are fatal for the operation
/// that raises them; none is silently recovered.
#[derive(Debug, PartialEq)]
pub enum Error {
    /// A peek past the end of the buffer during tokenization.
    EOF,
    /// An underlying read failure while the buffer was acquired.
    IO(String),
    /// An operation that requires the cross-reference table before it is loaded.
    NotLoaded,
    /// A cross-reference lookup that found no live entry for the reference.
    ObjectNotFound(IndirectRef),
    /// A numeric token whose byte content is no real number.
    ParseFloat,
    /// A numeric token whose byte content is no integer of the target width.
    ParseInt,
    /// Malformed grammar, with a short static description.
    Syntax(&'static str),
    /// A stream filter name absent from the registry.
    UnknownFilter(Vec<u8>),
}

/// The mathematical shadow of `Error`: the kind alone, with byte payloads as
/// sequences and diagnostic text dropped.
pub enum SpecError {
    Eof,
    Io,
    NotLoaded,
    ObjectNotFound(IndirectRef),
    ParseFloat,
    ParseInt,
    Syntax,
    UnknownFilter,
}

impl View for Error {
    type V = SpecError;

    open spec fn view(&self) -> SpecError {
        match self {
            Error::EOF => SpecError::Eof,
            Error::IO(_) => SpecError::Io,
            Error::NotLoaded => SpecError::NotLoaded,
            Error::ObjectNotFound(r) => SpecError::ObjectNotFound(*r),
            Error::ParseFloat => SpecError::ParseFloat,
            Error::ParseInt => SpecError::ParseInt,
            Error::Syntax(_) => SpecError::Syntax,
            Error::UnknownFilter(_) => SpecError::UnknownFilter,
        }
    }
}

} // verus!
