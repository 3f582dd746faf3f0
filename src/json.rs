//! Encoding to and decoding from JSON text.
use vstd::prelude::*;
use vstd::string::StringSliceAdditionalSpecFns;
use crate::de::Deserialize;
use crate::error::Result;
use crate::grammar::decode;
use crate::model::encode;
use crate::ser::Serialize;

pub use crate::value::{Array, Decimal, Number, Object, Value, safely};

verus! {

/// Decodes a JSON text into any type that can be built from a document.
///
/// A number with a fraction, an exponent, or too many digits for an integer
/// is kept as its decimal parts, so a number whose `f64` would be infinite
/// (`1e400`) decodes here; composing and checking floats is left to callers
/// that work with `f64`.
pub fn from_str<T: Deserialize>(j: &str) -> (r: Result<T>)
    ensures
        match decode(j.spec_bytes()) {
            Some(d) => (T::accepts(d) ==> r is Ok) && (T::exact() ==> (r is Ok ==> T::accepts(d)))
                && (r is Ok ==> T::decodes(d, r->Ok_0)),
            None => r is Err,
        },
{
    let v = crate::read::from_bytes(j.as_bytes())?;
    T::from_value(v)
}

/// Encodes a value tree, or any value that presents fragments, as JSON text.
pub fn to_string<T: Serialize + ?Sized>(value: &T) -> (r: String)
    ensures
        T::described() ==> r@ == encode(value.doc()),
        exists|f: crate::ser::Fragment| r@ == encode(crate::ser::frag_json(f)),
{
    crate::ser::to_string(value)
}

} // verus!
