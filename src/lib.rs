//! Canonical JSON: a deterministic, byte-exact serialization of JSON values.
//!
//! Objects are written with their keys in ascending byte order of their
//! UTF-8 encoding, numbers must be 64-bit signed integers, and no
//! insignificant whitespace is ever emitted, so that equal values always
//! give equal bytes (a requirement for hashing or signing JSON).
//!
//! Conversion and writing recurse once per level of nesting of arrays and
//! objects: the call stack bounds how deeply nested an accepted value can be.
use vstd::prelude::*;

pub mod value;
pub mod order;
pub mod canonical;
mod writer;
mod convert;
pub mod laws;

use vstd::string::StrSliceExecFns;
use vstd::utf8::encode_utf8;
pub use crate::canonical::{canonical_text, first_unsupported};
pub use crate::convert::unsupported_message;
pub use crate::value::{Error, JsonValue, Number};
use crate::convert::from_value;

verus! {

/// The canonical bytes of a value: the UTF-8 encoding of its canonical text.
pub open spec fn canonical_bytes(v: JsonValue) -> Seq<u8> {
    encode_utf8(canonical_text(v))
}

/// The conversion fails exactly when some number is not a 64-bit signed
/// integer, with a text naming the first such number.
pub open spec fn conversion_fails_with(v: JsonValue, e: Error) -> bool {
    &&& first_unsupported(v) is Some
    &&& e is Custom
    &&& e->Custom_0@ == unsupported_message(first_unsupported(v)->Some_0)
}

fn canonicalize(val: &JsonValue) -> (r: Result<String, Error>)
    ensures
        r is Ok <==> first_unsupported(*val) is None,
        r is Ok ==> r->Ok_0@ == canonical_text(*val),
        r is Err ==> conversion_fails_with(*val, r->Err_0),
{
    match from_value(val) {
        Ok(cv) => {
            let mut buf = String::new();
            cv.write(&mut buf);
            assert(buf@ =~= canonical_text(*val));
            Ok(buf)
        },
        Err(e) => Err(e),
    }
}

/// Serializes `value` as canonical JSON text.
pub fn to_string(value: &JsonValue) -> (r: Result<String, Error>)
    ensures
        r is Ok <==> first_unsupported(*value) is None,
        r is Ok ==> r->Ok_0@ == canonical_text(*value),
        r is Err ==> conversion_fails_with(*value, r->Err_0),
{
    canonicalize(value)
}

/// Serializes `value` as a canonical JSON byte vector.
pub fn to_vec(value: &JsonValue) -> (r: Result<Vec<u8>, Error>)
    ensures
        r is Ok <==> first_unsupported(*value) is None,
        r is Ok ==> r->Ok_0@ == canonical_bytes(*value),
        r is Err ==> conversion_fails_with(*value, r->Err_0),
{
    match canonicalize(value) {
        Ok(s) => Ok(s.as_str().as_bytes_vec()),
        Err(e) => Err(e),
    }
}

/// Appends the canonical JSON bytes of `value` to `writer`; on failure
/// nothing is written.
pub fn to_writer(writer: &mut Vec<u8>, value: &JsonValue) -> (r: Result<(), Error>)
    ensures
        r is Ok <==> first_unsupported(*value) is None,
        r is Ok ==> final(writer)@ == old(writer)@ + canonical_bytes(*value),
        r is Err ==> final(writer)@ == old(writer)@,
        r is Err ==> conversion_fails_with(*value, r->Err_0),
{
    match to_vec(value) {
        Ok(b) => {
            let mut b = b;
            writer.append(&mut b);
            Ok(())
        },
        Err(e) => Err(e),
    }
}

} // verus!
