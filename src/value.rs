//! The value models: the generic JSON value that the library accepts, and
//! the error type.
use vstd::prelude::*;

verus! {

/// A JSON number, held as a JSON parser reports it.
pub enum Number {
    /// A non-negative integer.
    PosInt(u64),
    /// A negative integer.
    NegInt(i64),
    /// A number with a fraction or an exponent, held by its text form.
    Float(String),
}

/// A generic JSON value.
///
/// An object is a list of members in the order in which they were given;
/// a key may occur more than once, in which case the last member wins.
pub enum JsonValue {
    Null,
    Bool(bool),
    Number(Number),
    String(String),
    Array(Vec<JsonValue>),
    Object(Vec<(String, JsonValue)>),
}

#[verifier::external_type_specification]
#[verifier::external_body]
pub struct ExIoError(std::io::Error);

/// The errors that can be returned when serializing something as canonical JSON.
#[derive(Debug)]
pub enum Error {
    /// A value without a canonical representation, or a formatting failure;
    /// the text says which.
    Custom(String),
    /// The destination failed to accept the bytes.
    Io(std::io::Error),
}

impl From<std::io::Error> for Error {
    fn from(error: std::io::Error) -> (r: Error)
        ensures
            r == Error::Io(error),
    {
        Error::Io(error)
    }
}

impl vstd::std_specs::convert::FromSpecImpl<std::io::Error> for Error {
    open spec fn obeys_from_spec() -> bool {
        true
    }

    open spec fn from_spec(error: std::io::Error) -> Error {
        Error::Io(error)
    }
}

/// The 64-bit signed integer that a number stands for, if it is one.
pub open spec fn number_as_i64(n: Number) -> Option<i64> {
    match n {
        Number::PosInt(u) => if u <= i64::MAX as u64 {
            Some(u as i64)
        } else {
            None
        },
        Number::NegInt(i) => Some(i),
        Number::Float(_) => None,
    }
}

impl Number {
    /// The number as a 64-bit signed integer, if it is exactly one.
    pub fn as_i64(&self) -> (r: Option<i64>)
        ensures
            r == number_as_i64(*self),
    {
        match self {
            Number::PosInt(u) => if *u <= i64::MAX as u64 {
                Some(*u as i64)
            } else {
                None
            },
            Number::NegInt(i) => Some(*i),
            Number::Float(_) => None,
        }
    }
}

} // verus!
