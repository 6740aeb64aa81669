//! The ways in which decoding can fail.

use base64::DecodeError as Base64Error;
use vstd::prelude::*;
use vstd::std_specs::convert::FromSpecImpl;

verus! {

/// The error of base64 decoding, carried inside [`DecodeError`].
#[verifier::external_type_specification]
#[verifier::external_body]
pub struct ExBase64Error(Base64Error);

/// The error of parsing an integer, carried inside [`DecodeError`].
#[verifier::external_type_specification]
#[verifier::external_body]
pub struct ExParseIntError(std::num::ParseIntError);

/// `base64::DecodeError::clone`: the copy is the same error.
pub assume_specification[ <Base64Error as Clone>::clone ](error: &Base64Error) -> (copy: Base64Error)
    ensures
        copy == *error,
;

/// `std::num::ParseIntError::clone`: the copy is the same error.
pub assume_specification[ <std::num::ParseIntError as Clone>::clone ](
    error: &std::num::ParseIntError,
) -> (copy: std::num::ParseIntError)
    ensures
        copy == *error,
;

/// What the XML parser reports of an ill-formed document: the position of the
/// fault, as row and column, and its description.
#[derive(Debug, PartialEq, Eq)]
pub struct XmlError {
    pub message: String,
}

/// A text that stands where a floating-point literal is expected and is none.
#[derive(Debug, PartialEq, Eq)]
pub struct FloatError {
    pub text: String,
}

/// Indicates an error trying to parse an rbxmx or rbxlx document.
#[derive(Debug, PartialEq)]
pub enum DecodeError {
    /// The XML is ill-formed.
    XmlError(XmlError),
    /// A component of a value is no floating-point literal.
    ParseFloatError(FloatError),
    /// A component of a value is no integer in range.
    ParseIntError(std::num::ParseIntError),
    /// Binary data is no base64 text.
    DecodeBase64Error(Base64Error),
    /// The document breaks a rule of the format, described by the message.
    Message(&'static str),
    /// The document ends early, or holds an event that cannot stand where it
    /// is.
    MalformedDocument,
}

/// What a [`DecodeError`] says, without the representation of its texts.
pub enum ErrorView {
    XmlError(Seq<char>),
    ParseFloatError(Seq<char>),
    ParseIntError(std::num::ParseIntError),
    DecodeBase64Error(Base64Error),
    Message(Seq<char>),
    MalformedDocument,
}

impl Clone for XmlError {
    fn clone(&self) -> (copy: XmlError)
        ensures
            copy == *self,
    {
        XmlError { message: self.message.clone() }
    }
}

impl Clone for FloatError {
    fn clone(&self) -> (copy: FloatError)
        ensures
            copy == *self,
    {
        FloatError { text: self.text.clone() }
    }
}

impl Clone for DecodeError {
    fn clone(&self) -> (copy: DecodeError)
        ensures
            copy == *self,
    {
        match self {
            DecodeError::XmlError(error) => DecodeError::XmlError(error.clone()),
            DecodeError::ParseFloatError(error) => DecodeError::ParseFloatError(error.clone()),
            DecodeError::ParseIntError(error) => DecodeError::ParseIntError(error.clone()),
            DecodeError::DecodeBase64Error(error) => DecodeError::DecodeBase64Error(error.clone()),
            DecodeError::Message(message) => DecodeError::Message(*message),
            DecodeError::MalformedDocument => DecodeError::MalformedDocument,
        }
    }
}

impl View for DecodeError {
    type V = ErrorView;

    open spec fn view(&self) -> ErrorView {
        match self {
            DecodeError::XmlError(error) => ErrorView::XmlError(error.message@),
            DecodeError::ParseFloatError(error) => ErrorView::ParseFloatError(error.text@),
            DecodeError::ParseIntError(error) => ErrorView::ParseIntError(*error),
            DecodeError::DecodeBase64Error(error) => ErrorView::DecodeBase64Error(*error),
            DecodeError::Message(message) => ErrorView::Message(message@),
            DecodeError::MalformedDocument => ErrorView::MalformedDocument,
        }
    }
}

impl From<XmlError> for DecodeError {
    fn from(error: XmlError) -> (decode_error: DecodeError) {
        DecodeError::XmlError(error)
    }
}

impl FromSpecImpl<XmlError> for DecodeError {
    open spec fn obeys_from_spec() -> bool {
        true
    }

    open spec fn from_spec(error: XmlError) -> DecodeError {
        DecodeError::XmlError(error)
    }
}

impl From<FloatError> for DecodeError {
    fn from(error: FloatError) -> (decode_error: DecodeError) {
        DecodeError::ParseFloatError(error)
    }
}

impl FromSpecImpl<FloatError> for DecodeError {
    open spec fn obeys_from_spec() -> bool {
        true
    }

    open spec fn from_spec(error: FloatError) -> DecodeError {
        DecodeError::ParseFloatError(error)
    }
}

impl From<std::num::ParseIntError> for DecodeError {
    fn from(error: std::num::ParseIntError) -> (decode_error: DecodeError) {
        DecodeError::ParseIntError(error)
    }
}

impl FromSpecImpl<std::num::ParseIntError> for DecodeError {
    open spec fn obeys_from_spec() -> bool {
        true
    }

    open spec fn from_spec(error: std::num::ParseIntError) -> DecodeError {
        DecodeError::ParseIntError(error)
    }
}

impl From<Base64Error> for DecodeError {
    fn from(error: Base64Error) -> (decode_error: DecodeError) {
        DecodeError::DecodeBase64Error(error)
    }
}

impl FromSpecImpl<Base64Error> for DecodeError {
    open spec fn obeys_from_spec() -> bool {
        true
    }

    open spec fn from_spec(error: Base64Error) -> DecodeError {
        DecodeError::DecodeBase64Error(error)
    }
}

}
