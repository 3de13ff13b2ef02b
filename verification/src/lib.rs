//! A codec for a legacy record-oriented tax-declaration file format: a fixed
//! header, length-prefixed tokens in a single-byte legacy encoding, and a
//! list of records of which one kind is modelled and all others pass through
//! verbatim. Reading a well-formed file and writing the statement back
//! reproduces the file byte for byte; the contracts of the reader and the
//! writer state this over one byte-image function, `statement_bytes`.

pub mod brokers;
pub mod date;
pub mod decimal;
pub mod digits;
pub mod encoding;
pub mod parser;
pub mod record;
pub mod statement;

use vstd::prelude::*;

verus! {

/// The kinds of failure the codec can report. Every error is fatal: an
/// operation either completes or fails with exactly one of these.
#[derive(Clone, Copy, PartialEq, Eq, Debug, Structural)]
pub enum Error {
    /// The path does not end in `.dc<digit>`.
    InvalidExtension,
    /// The file's first bytes differ from the expected header.
    HeaderMismatch,
    /// A token expected to be a record name does not match the naming grammar.
    InvalidRecordName,
    /// A 4-byte token length field is not 4 ASCII decimal digits.
    MalformedLength,
    /// A byte sequence cannot be decoded under the legacy encoding.
    InvalidEncoding,
    /// A string value cannot be represented in the legacy encoding on write.
    EncodingError,
    /// An encoded token exceeds the 9999-byte capacity of the length field.
    TokenTooLarge,
    /// A token expected to hold a numeric literal does not parse as one.
    InvalidNumber,
    /// A token expected to hold a date does not match the date pattern.
    InvalidDate,
    /// A well-formed file contained zero records.
    EmptyStatement,
    /// The file ended in the middle of a header or token.
    UnexpectedEof,
}

/// The description of each failure, for messages.
pub open spec fn spec_error_text(e: Error) -> Seq<char> {
    match e {
        Error::InvalidExtension => "invalid tax statement file extension: *.dcX is expected"@,
        Error::HeaderMismatch => "the file has an unexpected header"@,
        Error::InvalidRecordName => "got an invalid record name"@,
        Error::MalformedLength => "got an invalid record data size"@,
        Error::InvalidEncoding => "got invalid Windows-1251 encoded data"@,
        Error::EncodingError => "unable to encode the data with the Windows-1251 character encoding"@,
        Error::TokenTooLarge => "unable to encode the data: too big data size"@,
        Error::InvalidNumber => "got an invalid number"@,
        Error::InvalidDate => "got an invalid date"@,
        Error::EmptyStatement => "the tax statement has no records"@,
        Error::UnexpectedEof => "the file ended unexpectedly"@,
    }
}

impl Error {
    /// A short description of the failure, for messages.
    pub fn describe(&self) -> (r: &'static str)
        ensures
            r@ == spec_error_text(*self),
    {
        match self {
            Error::InvalidExtension => "invalid tax statement file extension: *.dcX is expected",
            Error::HeaderMismatch => "the file has an unexpected header",
            Error::InvalidRecordName => "got an invalid record name",
            Error::MalformedLength => "got an invalid record data size",
            Error::InvalidEncoding => "got invalid Windows-1251 encoded data",
            Error::EncodingError => "unable to encode the data with the Windows-1251 character encoding",
            Error::TokenTooLarge => "unable to encode the data: too big data size",
            Error::InvalidNumber => "got an invalid number",
            Error::InvalidDate => "got an invalid date",
            Error::EmptyStatement => "the tax statement has no records",
            Error::UnexpectedEof => "the file ended unexpectedly",
        }
    }
}

} // verus!
