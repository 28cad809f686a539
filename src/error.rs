//! Error types of the two directions of the codec.
use vstd::prelude::*;
use crate::text::push_chars;

verus! {

/// Why a decode was aborted.
#[derive(Debug, Clone, Copy, PartialEq, Eq, Structural)]
pub enum DecodeError {
    /// A length header ended before all of its octets.
    UnexpectedEnd,
    /// A long-form length header announced zero or more than four octets.
    InvalidLengthEncoding,
    /// Constructed elements were nested deeper than the decoder allows.
    TooDeeplyNested,
    /// The text envelope around the binary payload could not be read.
    InvalidEnvelope,
}

impl DecodeError {
    pub open spec fn message_spec(&self) -> Seq<char> {
        match self {
            DecodeError::UnexpectedEnd => "Unexpected end of data"@,
            DecodeError::InvalidLengthEncoding => "Invalid length encoding"@,
            DecodeError::TooDeeplyNested => "Elements nested too deeply"@,
            DecodeError::InvalidEnvelope => "Invalid PEM envelope"@,
        }
    }

    /// A short description of the error.
    pub fn message(&self) -> (r: &'static str)
        ensures
            r@ == self.message_spec(),
    {
        match self {
            DecodeError::UnexpectedEnd => "Unexpected end of data",
            DecodeError::InvalidLengthEncoding => "Invalid length encoding",
            DecodeError::TooDeeplyNested => "Elements nested too deeply",
            DecodeError::InvalidEnvelope => "Invalid PEM envelope",
        }
    }
}

/// The category of an [`EncodeError`], without its message.
#[derive(Debug, Clone, Copy, PartialEq, Eq, Structural)]
pub enum EncodeErrorKind {
    InvalidValue,
    InvalidLength,
    InvalidTag,
    UnsupportedType,
}

/// Why an encode was aborted; each variant carries a description.
#[derive(Debug)]
pub enum EncodeError {
    InvalidValue(String),
    InvalidLength(String),
    InvalidTag(String),
    UnsupportedType(String),
}

impl EncodeError {
    pub open spec fn kind_spec(&self) -> EncodeErrorKind {
        match self {
            EncodeError::InvalidValue(_) => EncodeErrorKind::InvalidValue,
            EncodeError::InvalidLength(_) => EncodeErrorKind::InvalidLength,
            EncodeError::InvalidTag(_) => EncodeErrorKind::InvalidTag,
            EncodeError::UnsupportedType(_) => EncodeErrorKind::UnsupportedType,
        }
    }

    pub open spec fn detail(&self) -> Seq<char> {
        match self {
            EncodeError::InvalidValue(m) => m@,
            EncodeError::InvalidLength(m) => m@,
            EncodeError::InvalidTag(m) => m@,
            EncodeError::UnsupportedType(m) => m@,
        }
    }

    pub fn kind(&self) -> (r: EncodeErrorKind)
        ensures
            r == self.kind_spec(),
    {
        match self {
            EncodeError::InvalidValue(_) => EncodeErrorKind::InvalidValue,
            EncodeError::InvalidLength(_) => EncodeErrorKind::InvalidLength,
            EncodeError::InvalidTag(_) => EncodeErrorKind::InvalidTag,
            EncodeError::UnsupportedType(_) => EncodeErrorKind::UnsupportedType,
        }
    }

    /// The category of the error followed by its description.
    pub fn message(&self) -> (r: String)
        ensures
            r@ == self.prefix_spec() + self.detail(),
    {
        let (mut s, m) = match self {
            EncodeError::InvalidValue(m) => (String::from_str("Invalid value: "), m),
            EncodeError::InvalidLength(m) => (String::from_str("Invalid length: "), m),
            EncodeError::InvalidTag(m) => (String::from_str("Invalid tag: "), m),
            EncodeError::UnsupportedType(m) => (String::from_str("Unsupported type: "), m),
        };
        s.append(m.as_str());
        s
    }

    pub open spec fn prefix_spec(&self) -> Seq<char> {
        match self {
            EncodeError::InvalidValue(_) => "Invalid value: "@,
            EncodeError::InvalidLength(_) => "Invalid length: "@,
            EncodeError::InvalidTag(_) => "Invalid tag: "@,
            EncodeError::UnsupportedType(_) => "Unsupported type: "@,
        }
    }
}

/// The model of an [`EncodeError`]: its category and its description.
pub struct Failure {
    pub kind: EncodeErrorKind,
    pub detail: Seq<char>,
}

pub open spec fn fail(kind: EncodeErrorKind, detail: Seq<char>) -> Failure {
    Failure { kind, detail }
}

pub open spec fn failure_of(e: EncodeError) -> Failure {
    Failure { kind: e.kind_spec(), detail: e.detail() }
}

/// Whether an executable encoding result agrees with its specification:
/// the same bytes, or an error of the same category and description.
pub open spec fn agrees(r: Result<Vec<u8>, EncodeError>, s: Result<Seq<u8>, Failure>) -> bool {
    match r {
        Ok(v) => s == Ok::<Seq<u8>, Failure>(v@),
        Err(e) => s == Err::<Seq<u8>, Failure>(failure_of(e)),
    }
}

/// A message made of a description, the offending text and the grammar
/// that was expected.
pub open spec fn described(what: Seq<char>, text: Seq<char>, expected: Seq<char>) -> Seq<char> {
    what + text + " (expected "@ + expected + ")"@
}

/// Builds a message from a description, the offending text and the grammar
/// that was expected.
pub fn describe(what: &str, text: &Vec<char>, expected: &str) -> (r: String)
    ensures
        r@ == described(what@, text@, expected@),
{
    let mut s = String::from_str(what);
    push_chars(&mut s, text);
    s.append(" (expected ");
    s.append(expected);
    s.append(")");
    s
}

} // verus!
