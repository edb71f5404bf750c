use vstd::prelude::*;

verus! {

/// Every way an operation of this library can fail.
///
/// Variants that carry a `String` carry the human-readable message.
#[derive(Debug, PartialEq, Eq)]
pub enum ObfuskeyError {
    /// The alphabet contains duplicate characters.
    DuplicateError,
    /// The multiplier must be an odd integer.
    MultiplierError,
    /// A negative value was supplied.
    NegativeValueError(String),
    /// A value exceeds the maximum allowed.
    MaximumValueError(String),
    /// The key contains characters not found in the current alphabet.
    UnknownKeyError,
    /// The key length does not match the set length.
    KeyLengthError,
    /// The schema definition is invalid.
    SchemaValidationError(String),
    /// A field value does not fit in its allocated bits.
    BitOverflowError(String),
    /// Any other invalid value.
    ValueError(String),
}

/// The mathematical content of an `ObfuskeyError`: the variant and, where
/// there is one, the message as a sequence of characters.
pub enum ErrorSpec {
    Duplicate,
    Multiplier,
    NegativeValue(Seq<char>),
    MaximumValue(Seq<char>),
    UnknownKey,
    KeyLength,
    SchemaValidation(Seq<char>),
    BitOverflow(Seq<char>),
    Value(Seq<char>),
}

impl View for ObfuskeyError {
    type V = ErrorSpec;

    open spec fn view(&self) -> ErrorSpec {
        match self {
            ObfuskeyError::DuplicateError => ErrorSpec::Duplicate,
            ObfuskeyError::MultiplierError => ErrorSpec::Multiplier,
            ObfuskeyError::NegativeValueError(m) => ErrorSpec::NegativeValue(m@),
            ObfuskeyError::MaximumValueError(m) => ErrorSpec::MaximumValue(m@),
            ObfuskeyError::UnknownKeyError => ErrorSpec::UnknownKey,
            ObfuskeyError::KeyLengthError => ErrorSpec::KeyLength,
            ObfuskeyError::SchemaValidationError(m) => ErrorSpec::SchemaValidation(m@),
            ObfuskeyError::BitOverflowError(m) => ErrorSpec::BitOverflow(m@),
            ObfuskeyError::ValueError(m) => ErrorSpec::Value(m@),
        }
    }
}

/// The view of a result: the view of its value or of its error.
pub open spec fn result_view<T: View>(r: Result<T, ObfuskeyError>) -> Result<T::V, ErrorSpec> {
    match r {
        Ok(v) => Ok(v@),
        Err(e) => Err(e@),
    }
}

/// The human-readable text of an error.
pub open spec fn error_message(e: ErrorSpec) -> Seq<char> {
    match e {
        ErrorSpec::Duplicate => "The alphabet contains duplicate characters."@,
        ErrorSpec::Multiplier => "The multiplier must be an odd integer."@,
        ErrorSpec::NegativeValue(m) => m,
        ErrorSpec::MaximumValue(m) => m,
        ErrorSpec::UnknownKey => "The key contains characters not found in the current alphabet."@,
        ErrorSpec::KeyLength => "The key length does not match the set length."@,
        ErrorSpec::SchemaValidation(m) => m,
        ErrorSpec::BitOverflow(m) => m,
        ErrorSpec::Value(m) => m,
    }
}

impl ObfuskeyError {
    /// The human-readable text of the error.
    pub fn message(&self) -> (r: String)
        ensures
            r@ == error_message(self@),
    {
        match self {
            ObfuskeyError::DuplicateError => String::from_str(
                "The alphabet contains duplicate characters.",
            ),
            ObfuskeyError::MultiplierError => String::from_str(
                "The multiplier must be an odd integer.",
            ),
            ObfuskeyError::NegativeValueError(m) => m.clone(),
            ObfuskeyError::MaximumValueError(m) => m.clone(),
            ObfuskeyError::UnknownKeyError => String::from_str(
                "The key contains characters not found in the current alphabet.",
            ),
            ObfuskeyError::KeyLengthError => String::from_str(
                "The key length does not match the set length.",
            ),
            ObfuskeyError::SchemaValidationError(m) => m.clone(),
            ObfuskeyError::BitOverflowError(m) => m.clone(),
            ObfuskeyError::ValueError(m) => m.clone(),
        }
    }
}

} // verus!
