//! The closed error taxonomy and its stable numeric codes.
use vstd::prelude::*;

verus! {

/// Every failure that a command can report. Variants that wrap a failure of
/// the environment or transport carry its description.
#[derive(Clone, Debug)]
pub enum Error {
    XdgError(String),
    IoError(String),
    MailboxError(String),
    PageOutOfBounds,
    MutexError,
    ConversionError,
    RecordNotFound,
    TraversalError,
    DecodeError(String),
    EncodeError(String),
    MiscDecodeError,
    InvalidKey,
    MultiplePrimaryKeyClauses,
    MissingCatalogueEntry,
    InvalidCondition,
    JoinColumnNotFound,
    SqlParserError(String),
    Unimplemented(Option<String>),
}

/// The numeric code of each kind of error, as callers across the wire see it.
pub open spec fn error_code(e: Error) -> int {
    match e {
        Error::XdgError(_) => 0,
        Error::IoError(_) => 1,
        Error::MailboxError(_) => 2,
        Error::PageOutOfBounds => 3,
        Error::MutexError => 4,
        Error::ConversionError => 5,
        Error::RecordNotFound => 6,
        Error::TraversalError => 7,
        Error::DecodeError(_) => 8,
        Error::EncodeError(_) => 9,
        Error::MiscDecodeError => 10,
        Error::InvalidKey => 11,
        Error::MultiplePrimaryKeyClauses => 12,
        Error::MissingCatalogueEntry => 13,
        Error::InvalidCondition => 14,
        Error::JoinColumnNotFound => 15,
        Error::SqlParserError(_) => 16,
        Error::Unimplemented(_) => 17,
    }
}

/// Whether the error wraps a failure that has its own underlying cause.
pub open spec fn has_source(e: Error) -> bool {
    match e {
        Error::XdgError(_) | Error::IoError(_) | Error::MailboxError(_) | Error::DecodeError(_)
        | Error::EncodeError(_) | Error::SqlParserError(_) => true,
        _ => false,
    }
}

impl Error {
    /// The stable numeric code of this error.
    pub fn code(&self) -> (r: i64)
        ensures
            r as int == error_code(*self),
            0 <= r <= 17,
    {
        match self {
            Error::XdgError(_) => 0,
            Error::IoError(_) => 1,
            Error::MailboxError(_) => 2,
            Error::PageOutOfBounds => 3,
            Error::MutexError => 4,
            Error::ConversionError => 5,
            Error::RecordNotFound => 6,
            Error::TraversalError => 7,
            Error::DecodeError(_) => 8,
            Error::EncodeError(_) => 9,
            Error::MiscDecodeError => 10,
            Error::InvalidKey => 11,
            Error::MultiplePrimaryKeyClauses => 12,
            Error::MissingCatalogueEntry => 13,
            Error::InvalidCondition => 14,
            Error::JoinColumnNotFound => 15,
            Error::SqlParserError(_) => 16,
            Error::Unimplemented(_) => 17,
        }
    }

    /// The description of the underlying cause, for the errors that wrap one.
    pub fn source(&self) -> (r: Option<&String>)
        ensures
            r is Some <==> has_source(*self),
    {
        match self {
            Error::XdgError(e) | Error::IoError(e) | Error::MailboxError(e) | Error::DecodeError(e)
            | Error::EncodeError(e) | Error::SqlParserError(e) => Some(e),
            _ => None,
        }
    }
}

} // verus!
