//! The errors of the library.
use vstd::prelude::*;
use vstd::string::StringExecFns;

verus! {

/// Why a text or an encoding was refused.
#[derive(Debug, Clone, PartialEq)]
pub enum DecimalError {
    /// The text is not a decimal number; the message says why.
    InvalidFormat(String),
    /// The exponent of the number is out of range.
    PrecisionOverflow,
    /// The bytes are not the encoding of a number.
    InvalidEncoding,
}

/// A `DecimalError` with its message as a sequence of characters.
#[verifier::ext_equal]
pub enum ErrorView {
    InvalidFormat(Seq<char>),
    PrecisionOverflow,
    InvalidEncoding,
}

impl View for DecimalError {
    type V = ErrorView;

    open spec fn view(&self) -> ErrorView {
        match self {
            DecimalError::InvalidFormat(m) => ErrorView::InvalidFormat(m@),
            DecimalError::PrecisionOverflow => ErrorView::PrecisionOverflow,
            DecimalError::InvalidEncoding => ErrorView::InvalidEncoding,
        }
    }
}

impl ErrorView {
    /// The text that reports the error.
    pub open spec fn message(self) -> Seq<char> {
        match self {
            ErrorView::InvalidFormat(m) => "Invalid format: "@ + m,
            ErrorView::PrecisionOverflow => "Precision overflow: exponent out of range"@,
            ErrorView::InvalidEncoding => "Invalid encoding"@,
        }
    }
}

impl DecimalError {
    /// The text that reports the error.
    pub fn to_string(&self) -> (r: String)
        ensures
            r@ == self@.message(),
    {
        match self {
            DecimalError::InvalidFormat(m) => {
                let mut out: String = "Invalid format: ".to_owned();
                out.append(m.as_str());
                out
            },
            DecimalError::PrecisionOverflow => {
                "Precision overflow: exponent out of range".to_owned()
            },
            DecimalError::InvalidEncoding => "Invalid encoding".to_owned(),
        }
    }
}

/// An `InvalidFormat` error with the given message.
pub fn invalid_format(message: &str) -> (r: DecimalError)
    ensures
        r@ == ErrorView::InvalidFormat(message@),
{
    DecimalError::InvalidFormat(message.to_owned())
}

} // verus!
