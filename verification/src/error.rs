//! The closed error taxonomy shared by the streaming parser and the
//! typed adapter.
//!
//! `BEError` is the streaming parser's side; `SerbeError` the typed
//! adapter's.  Each variant carries the offending byte or value where
//! one exists.  A key that reaches an error message is rendered as
//! text the way `BEValue::string` renders it: valid UTF-8 as itself,
//! invalid sequences replaced.

use vstd::prelude::*;
use crate::value::BEValue;

verus! {

#[derive(Debug)]
pub enum BEError {
    /// The input ended inside a value.
    EOFError,
    /// A failure of the byte source itself, carried as text.
    IOError(String),
    /// A dict key parsed as something other than a string; carries the
    /// offending value.
    KeyNotString(BEValue),
    /// A dict key not strictly greater than its predecessor; carries
    /// the offending key as text.
    KeysOutOfOrder(String),
    /// An integer or length beginning with '0' that is not exactly "0".
    LeadZeroError,
    /// A value started with the wrong byte: (found, expected).
    MissingPrefixError(u8, u8),
    /// A string length was not followed by ':': (found, expected).
    MissingSeparatorError(u8, u8),
    /// An integer was not closed by 'e': (found, expected).
    MissingSuffixError(u8, u8),
    /// A dict ended right after a key; carries the key as text.
    MissingValueError(String),
    /// The integer "-0", which the grammar forbids.
    NegativeZeroError,
    /// A negative string length; carries the parsed length.
    NegativeStringLength(i64),
    /// A digit run with no numeric reading (empty, or out of the i64
    /// range); carries the digits.
    ParseIntError(Vec<u8>),
    /// A top-level byte that begins no value kind.
    UnexpectedCharError(char),
    /// Bytes that were required to be UTF-8 text and were not.
    Utf8Error,
}

#[derive(Debug)]
pub enum SerbeError {
    /// A type-level mismatch, carried as text.
    Message(String),
    /// The input ended inside a value.
    Eof,
    /// A sequence did not start with 'l'.
    ExpectedList,
    /// A sequence was not closed by 'e'.
    ExpectedListEnd,
    /// An integer was not closed by 'e'.
    ExpectedNumEnd,
    /// A record did not start with 'd'.
    ExpectedMap,
    /// A record was not closed by 'e'.
    ExpectedMapEnd,
    /// A string length was not followed by ':'; carries the byte found.
    MissingColon(u8),
    /// An integer with no digits at all.
    NoDigitsInNumber,
    /// Input remained after the requested value was decoded.
    TrailingInput,
    /// A leading byte that begins no decodable form; carries the byte.
    UnrecognizedPrefix(u8),
    /// The wrong leading byte for the requested form: (found, expected).
    UnexpectedPrefix(char, char),
    /// A minus sign where an unsigned value was requested.
    UnexpectedSigned,
    /// An integer beginning with '0' that is not exactly "0".
    UnexpectedZeroPrefix,
    /// Bytes that were required to be UTF-8 text and were not.
    Utf8Error,
}

impl SerbeError {
    /// Structural equality of error values, payloads included.
    pub open spec fn eq_spec_def(&self, other: &SerbeError) -> bool {
        match (self, other) {
            (SerbeError::Message(a), SerbeError::Message(b)) => a@ == b@,
            (SerbeError::Eof, SerbeError::Eof) => true,
            (SerbeError::ExpectedList, SerbeError::ExpectedList) => true,
            (SerbeError::ExpectedListEnd, SerbeError::ExpectedListEnd) => true,
            (SerbeError::ExpectedNumEnd, SerbeError::ExpectedNumEnd) => true,
            (SerbeError::ExpectedMap, SerbeError::ExpectedMap) => true,
            (SerbeError::ExpectedMapEnd, SerbeError::ExpectedMapEnd) => true,
            (SerbeError::MissingColon(a), SerbeError::MissingColon(b)) => a == b,
            (SerbeError::NoDigitsInNumber, SerbeError::NoDigitsInNumber) => true,
            (SerbeError::TrailingInput, SerbeError::TrailingInput) => true,
            (SerbeError::UnrecognizedPrefix(a), SerbeError::UnrecognizedPrefix(b)) => a == b,
            (SerbeError::UnexpectedPrefix(a, b), SerbeError::UnexpectedPrefix(c, d)) =>
                a == c && b == d,
            (SerbeError::UnexpectedSigned, SerbeError::UnexpectedSigned) => true,
            (SerbeError::UnexpectedZeroPrefix, SerbeError::UnexpectedZeroPrefix) => true,
            (SerbeError::Utf8Error, SerbeError::Utf8Error) => true,
            _ => false,
        }
    }
}

impl PartialEq for SerbeError {
    fn eq(&self, other: &SerbeError) -> (r: bool) {
        match (self, other) {
            (SerbeError::Message(a), SerbeError::Message(b)) => a.eq(b),
            (SerbeError::Eof, SerbeError::Eof) => true,
            (SerbeError::ExpectedList, SerbeError::ExpectedList) => true,
            (SerbeError::ExpectedListEnd, SerbeError::ExpectedListEnd) => true,
            (SerbeError::ExpectedNumEnd, SerbeError::ExpectedNumEnd) => true,
            (SerbeError::ExpectedMap, SerbeError::ExpectedMap) => true,
            (SerbeError::ExpectedMapEnd, SerbeError::ExpectedMapEnd) => true,
            (SerbeError::MissingColon(a), SerbeError::MissingColon(b)) => a == b,
            (SerbeError::NoDigitsInNumber, SerbeError::NoDigitsInNumber) => true,
            (SerbeError::TrailingInput, SerbeError::TrailingInput) => true,
            (SerbeError::UnrecognizedPrefix(a), SerbeError::UnrecognizedPrefix(b)) => a == b,
            (SerbeError::UnexpectedPrefix(a, b), SerbeError::UnexpectedPrefix(c, d)) =>
                a == c && b == d,
            (SerbeError::UnexpectedSigned, SerbeError::UnexpectedSigned) => true,
            (SerbeError::UnexpectedZeroPrefix, SerbeError::UnexpectedZeroPrefix) => true,
            (SerbeError::Utf8Error, SerbeError::Utf8Error) => true,
            _ => false,
        }
    }
}

impl vstd::std_specs::cmp::PartialEqSpecImpl for SerbeError {
    open spec fn obeys_eq_spec() -> bool {
        true
    }

    open spec fn eq_spec(&self, other: &SerbeError) -> bool {
        self.eq_spec_def(other)
    }
}

} // verus!
