//! Typed decoding: building Rust values out of decoded documents.
use vstd::prelude::*;
use crate::error::{Error, Result};
use crate::model::Json;
use crate::value::{Array, Number, Object, Value, json_of, jsons_of, lemma_jsons_of};

verus! {

/// Data structures that can be built from a JSON document.
///
/// A type whose decoding is stated sets `exact`: then `from_value` succeeds
/// on exactly the documents that `accepts` admits, and its value is the one
/// that `decodes` describes. Every type of this crate does so; a wrapper of
/// another type (`Box`, `Option`, `Vec`, arrays, pairs) is exact when that
/// type is, and decodes as that type does.
pub trait Deserialize: Sized {
    /// Whether `accepts` is exactly the set of documents that decode.
    open spec fn exact() -> bool {
        false
    }

    /// Documents that are sure to be turned into a value of this type. Types
    /// whose decoding is not stated promise none.
    open spec fn accepts(j: Json) -> bool {
        false
    }

    /// Whether `x` is what the document `j` turns into. Types whose decoding
    /// is not stated leave it open.
    open spec fn decodes(j: Json, x: Self) -> bool {
        true
    }

    fn from_value(v: Value) -> (r: Result<Self>)
        ensures
            Self::accepts(v@) ==> r is Ok,
            Self::exact() ==> (r is Ok ==> Self::accepts(v@)),
            r is Ok ==> Self::decodes(v@, r->Ok_0),
    ;

    /// Whether a record field of this type may be missing, taking the value
    /// that `missing` gives. A type that overrides `missing` with a value
    /// overrides this too.
    open spec fn has_default() -> bool {
        false
    }

    /// The value of a record field whose key is missing; `None` when the
    /// field is required.
    fn missing() -> (r: Option<Self>)
        ensures
            r is Some <==> Self::has_default(),
            r is Some ==> Self::decodes(Json::Null, r->Some_0),
    ;
}

impl Deserialize for Value {
    open spec fn exact() -> bool {
        true
    }

    open spec fn accepts(j: Json) -> bool {
        true
    }

    open spec fn decodes(j: Json, x: Value) -> bool {
        x@ == j
    }

    fn from_value(v: Value) -> (r: Result<Value>) {
        Ok(v)
    }

    fn missing() -> (r: Option<Value>) {
        None
    }
}

impl Deserialize for Number {
    open spec fn exact() -> bool {
        true
    }

    open spec fn accepts(j: Json) -> bool {
        j is Number
    }

    open spec fn decodes(j: Json, x: Number) -> bool {
        j == Json::Number(x)
    }

    fn from_value(v: Value) -> (r: Result<Number>) {
        match v {
            Value::Number(n) => Ok(n),
            _ => Err(Error),
        }
    }

    fn missing() -> (r: Option<Number>) {
        None
    }
}

impl Deserialize for Array {
    open spec fn exact() -> bool {
        true
    }

    open spec fn accepts(j: Json) -> bool {
        j is Arr
    }

    open spec fn decodes(j: Json, x: Array) -> bool {
        j == Json::Arr(jsons_of(x.items()))
    }

    fn from_value(v: Value) -> (r: Result<Array>) {
        match v {
            Value::Array(a) => Ok(a),
            _ => Err(Error),
        }
    }

    fn missing() -> (r: Option<Array>) {
        None
    }
}

impl Deserialize for Object {
    open spec fn exact() -> bool {
        true
    }

    open spec fn accepts(j: Json) -> bool {
        j is Obj
    }

    open spec fn decodes(j: Json, x: Object) -> bool {
        j == Json::Obj(crate::value::entries_json(x.entries()))
    }

    fn from_value(v: Value) -> (r: Result<Object>) {
        match v {
            Value::Object(o) => Ok(o),
            _ => Err(Error),
        }
    }

    fn missing() -> (r: Option<Object>) {
        None
    }
}

impl Deserialize for bool {
    open spec fn exact() -> bool {
        true
    }

    open spec fn accepts(j: Json) -> bool {
        j is Bool
    }

    open spec fn decodes(j: Json, x: bool) -> bool {
        j == Json::Bool(x)
    }

    fn from_value(v: Value) -> (r: Result<bool>) {
        match v {
            Value::Bool(b) => Ok(b),
            _ => Err(Error),
        }
    }

    fn missing() -> (r: Option<bool>) {
        None
    }
}

impl Deserialize for String {
    open spec fn exact() -> bool {
        true
    }

    open spec fn accepts(j: Json) -> bool {
        j is Str
    }

    open spec fn decodes(j: Json, x: String) -> bool {
        j == Json::Str(x@)
    }

    fn from_value(v: Value) -> (r: Result<String>) {
        match v {
            Value::String(s) => Ok(s),
            _ => Err(Error),
        }
    }

    fn missing() -> (r: Option<String>) {
        None
    }
}

impl Deserialize for u64 {
    open spec fn exact() -> bool {
        true
    }

    open spec fn accepts(j: Json) -> bool {
        j is Number && j->Number_0 is U64
    }

    open spec fn decodes(j: Json, x: u64) -> bool {
        j == Json::Number(Number::U64(x))
    }

    fn from_value(v: Value) -> (r: Result<u64>) {
        match v {
            Value::Number(Number::U64(n)) => Ok(n),
            _ => Err(Error),
        }
    }

    fn missing() -> (r: Option<u64>) {
        None
    }
}

impl Deserialize for u32 {
    open spec fn exact() -> bool {
        true
    }

    open spec fn accepts(j: Json) -> bool {
        j is Number && j->Number_0 is U64 && j->Number_0->U64_0 <= u32::MAX
    }

    open spec fn decodes(j: Json, x: u32) -> bool {
        j == Json::Number(Number::U64(x as u64))
    }

    fn from_value(v: Value) -> (r: Result<u32>) {
        match v {
            Value::Number(Number::U64(n)) => if n <= u32::MAX as u64 {
                Ok(n as u32)
            } else {
                Err(Error)
            },
            _ => Err(Error),
        }
    }

    fn missing() -> (r: Option<u32>) {
        None
    }
}

impl Deserialize for u8 {
    open spec fn exact() -> bool {
        true
    }

    open spec fn accepts(j: Json) -> bool {
        j is Number && j->Number_0 is U64 && j->Number_0->U64_0 <= u8::MAX
    }

    open spec fn decodes(j: Json, x: u8) -> bool {
        j == Json::Number(Number::U64(x as u64))
    }

    fn from_value(v: Value) -> (r: Result<u8>) {
        match v {
            Value::Number(Number::U64(n)) => if n <= u8::MAX as u64 {
                Ok(n as u8)
            } else {
                Err(Error)
            },
            _ => Err(Error),
        }
    }

    fn missing() -> (r: Option<u8>) {
        None
    }
}

impl Deserialize for u16 {
    open spec fn exact() -> bool {
        true
    }

    open spec fn accepts(j: Json) -> bool {
        j is Number && j->Number_0 is U64 && j->Number_0->U64_0 <= u16::MAX
    }

    open spec fn decodes(j: Json, x: u16) -> bool {
        j == Json::Number(Number::U64(x as u64))
    }

    fn from_value(v: Value) -> (r: Result<u16>) {
        match v {
            Value::Number(Number::U64(n)) => if n <= u16::MAX as u64 {
                Ok(n as u16)
            } else {
                Err(Error)
            },
            _ => Err(Error),
        }
    }

    fn missing() -> (r: Option<u16>) {
        None
    }
}

impl Deserialize for i8 {
    open spec fn exact() -> bool {
        true
    }

    open spec fn accepts(j: Json) -> bool {
        j is Number && ((j->Number_0 is I64 && i8::MIN <= j->Number_0->I64_0 <= i8::MAX) || (
        j->Number_0 is U64 && j->Number_0->U64_0 <= i8::MAX))
    }

    open spec fn decodes(j: Json, x: i8) -> bool {
        j == Json::Number(Number::I64(x as i64)) || (x >= 0 && j == Json::Number(
            Number::U64(x as u64),
        ))
    }

    fn from_value(v: Value) -> (r: Result<i8>) {
        match v {
            Value::Number(Number::I64(n)) => if i8::MIN as i64 <= n && n <= i8::MAX as i64 {
                Ok(n as i8)
            } else {
                Err(Error)
            },
            Value::Number(Number::U64(n)) => if n <= i8::MAX as u64 {
                Ok(n as i8)
            } else {
                Err(Error)
            },
            _ => Err(Error),
        }
    }

    fn missing() -> (r: Option<i8>) {
        None
    }
}

impl Deserialize for i16 {
    open spec fn exact() -> bool {
        true
    }

    open spec fn accepts(j: Json) -> bool {
        j is Number && ((j->Number_0 is I64 && i16::MIN <= j->Number_0->I64_0 <= i16::MAX) || (
        j->Number_0 is U64 && j->Number_0->U64_0 <= i16::MAX))
    }

    open spec fn decodes(j: Json, x: i16) -> bool {
        j == Json::Number(Number::I64(x as i64)) || (x >= 0 && j == Json::Number(
            Number::U64(x as u64),
        ))
    }

    fn from_value(v: Value) -> (r: Result<i16>) {
        match v {
            Value::Number(Number::I64(n)) => if i16::MIN as i64 <= n && n <= i16::MAX as i64 {
                Ok(n as i16)
            } else {
                Err(Error)
            },
            Value::Number(Number::U64(n)) => if n <= i16::MAX as u64 {
                Ok(n as i16)
            } else {
                Err(Error)
            },
            _ => Err(Error),
        }
    }

    fn missing() -> (r: Option<i16>) {
        None
    }
}

impl Deserialize for i32 {
    open spec fn exact() -> bool {
        true
    }

    open spec fn accepts(j: Json) -> bool {
        j is Number && ((j->Number_0 is I64 && i32::MIN <= j->Number_0->I64_0 <= i32::MAX) || (
        j->Number_0 is U64 && j->Number_0->U64_0 <= i32::MAX))
    }

    open spec fn decodes(j: Json, x: i32) -> bool {
        j == Json::Number(Number::I64(x as i64)) || (x >= 0 && j == Json::Number(
            Number::U64(x as u64),
        ))
    }

    fn from_value(v: Value) -> (r: Result<i32>) {
        match v {
            Value::Number(Number::I64(n)) => if i32::MIN as i64 <= n && n <= i32::MAX as i64 {
                Ok(n as i32)
            } else {
                Err(Error)
            },
            Value::Number(Number::U64(n)) => if n <= i32::MAX as u64 {
                Ok(n as i32)
            } else {
                Err(Error)
            },
            _ => Err(Error),
        }
    }

    fn missing() -> (r: Option<i32>) {
        None
    }
}

impl Deserialize for () {
    open spec fn exact() -> bool {
        true
    }

    open spec fn accepts(j: Json) -> bool {
        j is Null
    }

    open spec fn decodes(j: Json, x: ()) -> bool {
        j is Null
    }

    fn from_value(v: Value) -> (r: Result<()>) {
        match v {
            Value::Null => Ok(()),
            _ => Err(Error),
        }
    }

    fn missing() -> (r: Option<()>) {
        None
    }
}

impl Deserialize for i64 {
    open spec fn exact() -> bool {
        true
    }

    open spec fn accepts(j: Json) -> bool {
        j is Number && (j->Number_0 is I64 || (j->Number_0 is U64 && j->Number_0->U64_0
            <= i64::MAX))
    }

    open spec fn decodes(j: Json, x: i64) -> bool {
        j == Json::Number(Number::I64(x)) || (x >= 0 && j == Json::Number(Number::U64(x as u64)))
    }

    fn from_value(v: Value) -> (r: Result<i64>) {
        match v {
            Value::Number(Number::I64(n)) => Ok(n),
            Value::Number(Number::U64(n)) => if n <= i64::MAX as u64 {
                Ok(n as i64)
            } else {
                Err(Error)
            },
            _ => Err(Error),
        }
    }

    fn missing() -> (r: Option<i64>) {
        None
    }
}

impl<T: Deserialize> Deserialize for Option<T> {
    open spec fn has_default() -> bool {
        true
    }

    open spec fn exact() -> bool {
        T::exact()
    }

    open spec fn accepts(j: Json) -> bool {
        j is Null || T::accepts(j)
    }

    open spec fn decodes(j: Json, x: Option<T>) -> bool {
        if j is Null {
            x is None
        } else {
            x is Some && T::decodes(j, x->Some_0)
        }
    }

    fn from_value(v: Value) -> (r: Result<Option<T>>) {
        match v {
            Value::Null => Ok(None),
            v => {
                let x = T::from_value(v)?;
                Ok(Some(x))
            },
        }
    }

    fn missing() -> (r: Option<Option<T>>) {
        Some(None)
    }
}

impl<T: Deserialize> Deserialize for Box<T> {
    open spec fn exact() -> bool {
        T::exact()
    }

    open spec fn accepts(j: Json) -> bool {
        T::accepts(j)
    }

    open spec fn decodes(j: Json, x: Box<T>) -> bool {
        T::decodes(j, *x)
    }

    fn from_value(v: Value) -> (r: Result<Box<T>>) {
        let x = T::from_value(v)?;
        Ok(Box::new(x))
    }

    fn missing() -> (r: Option<Box<T>>) {
        None
    }
}

/// Turns each item of an array into a `T`, in order.
pub fn items_from_values<T: Deserialize>(values: Vec<Value>) -> (r: Result<Vec<T>>)
    ensures
        (forall|i: int| 0 <= i < values@.len() ==> T::accepts(#[trigger] values@[i]@)) ==> r is Ok,
        T::exact() ==> (r is Ok ==> forall|i: int|
            0 <= i < values@.len() ==> T::accepts(#[trigger] values@[i]@)),
        r is Ok ==> r->Ok_0@.len() == values@.len() && forall|i: int|
            0 <= i < values@.len() ==> T::decodes(#[trigger] values@[i]@, r->Ok_0@[i]),
{
    let ghost all = values@;
    let mut items = values;
    let mut rev: Vec<Value> = Vec::new();
    while items.len() > 0
        invariant
            all == values@,
            items@.len() + rev@.len() == all.len(),
            forall|i: int| 0 <= i < items@.len() ==> items@[i] == all[i],
            forall|i: int|
                0 <= i < rev@.len() ==> #[trigger] rev@[i] == all[all.len() - 1 - i],
        decreases items.len(),
    {
        match items.pop() {
            Some(x) => rev.push(x),
            None => {},
        }
    }
    let mut out: Vec<T> = Vec::new();
    while rev.len() > 0
        invariant
            all == values@,
            out@.len() + rev@.len() == all.len(),
            forall|i: int|
                0 <= i < rev@.len() ==> #[trigger] rev@[i] == all[all.len() - 1 - i],
            forall|i: int| 0 <= i < out@.len() ==> T::decodes(#[trigger] all[i]@, out@[i]),
            T::exact() ==> forall|i: int| 0 <= i < out@.len() ==> T::accepts(#[trigger] all[i]@),
        decreases rev.len(),
    {
        let ghost k = out@.len() as int;
        match rev.pop() {
            Some(x) => {
                assert(x == all[k]);
                match T::from_value(x) {
                    Ok(t) => out.push(t),
                    Err(e) => {
                        assert(!T::accepts(all[k]@));
                        assert(!(forall|i: int| 0 <= i < all.len() ==> T::accepts(#[trigger] all[i]@)));
                        return Err(e);
                    },
                }
            },
            None => {},
        }
    }
    Ok(out)
}

impl<T: Deserialize> Deserialize for Vec<T> {
    open spec fn exact() -> bool {
        T::exact()
    }

    open spec fn accepts(j: Json) -> bool {
        j is Arr && forall|i: int| 0 <= i < j->Arr_0.len() ==> T::accepts(#[trigger] j->Arr_0[i])
    }

    open spec fn decodes(j: Json, x: Vec<T>) -> bool {
        j is Arr && x@.len() == j->Arr_0.len() && forall|i: int|
            0 <= i < x@.len() ==> T::decodes(#[trigger] j->Arr_0[i], x@[i])
    }

    fn from_value(v: Value) -> (r: Result<Vec<T>>) {
        let ghost vv = v@;
        match v {
            Value::Array(mut a) => {
                let ghost j0 = jsons_of(a.items());
                assert(vv == Json::Arr(j0));
                let items = a.take_items();
                proof {
                    lemma_jsons_of(items@);
                }
                let r = items_from_values::<T>(items);
                proof {
                    if r is Ok {
                        assert forall|i: int| 0 <= i < jsons_of(items@).len() implies T::decodes(
                            #[trigger] jsons_of(items@)[i],
                            r->Ok_0@[i],
                        ) by {
                            assert(jsons_of(items@)[i] == items@[i]@);
                        }
                        if T::exact() {
                            assert forall|i: int| 0 <= i < j0.len() implies T::accepts(
                                #[trigger] vv->Arr_0[i],
                            ) by {
                                assert(j0[i] == items@[i]@);
                                assert(T::accepts(items@[i]@));
                            }
                        }
                    }
                    if <Vec<T> as Deserialize>::accepts(vv) {
                        assert forall|i: int| 0 <= i < items@.len() implies T::accepts(
                            #[trigger] items@[i]@,
                        ) by {
                            assert(j0[i] == items@[i]@);
                            assert(T::accepts(vv->Arr_0[i]));
                        }
                    }
                }
                r
            },
            _ => Err(Error),
        }
    }

    fn missing() -> (r: Option<Vec<T>>) {
        None
    }
}

impl<A: Deserialize, B: Deserialize> Deserialize for (A, B) {
    open spec fn exact() -> bool {
        A::exact() && B::exact()
    }

    open spec fn accepts(j: Json) -> bool {
        j is Arr && j->Arr_0.len() == 2 && A::accepts(j->Arr_0[0]) && B::accepts(j->Arr_0[1])
    }

    open spec fn decodes(j: Json, x: (A, B)) -> bool {
        j is Arr && j->Arr_0.len() == 2 && A::decodes(j->Arr_0[0], x.0) && B::decodes(
            j->Arr_0[1],
            x.1,
        )
    }

    fn from_value(v: Value) -> (r: Result<(A, B)>) {
        let ghost vv = v@;
        match v {
            Value::Array(mut a) => {
                let ghost j0 = jsons_of(a.items());
                assert(vv == Json::Arr(j0));
                let mut items = a.take_items();
                proof {
                    lemma_jsons_of(items@);
                }
                if items.len() != 2 {
                    return Err(Error);
                }
                let ghost both = items@;
                let second = items.pop();
                let first = items.pop();
                match (first, second) {
                    (Some(x), Some(y)) => {
                        assert(x == both[0] && y == both[1]);
                        let p = A::from_value(x)?;
                        let q = B::from_value(y)?;
                        Ok((p, q))
                    },
                    _ => Err(Error),
                }
            },
            _ => Err(Error),
        }
    }

    fn missing() -> (r: Option<(A, B)>) {
        None
    }
}

/// Relies on `TryFrom<Vec<T>>` for `[T; N]`: it succeeds exactly when the
/// vector holds `N` items, and keeps them in order.
#[verifier::external_body]
fn vec_into_array<T, const N: usize>(v: Vec<T>) -> (r: Option<[T; N]>)
    ensures
        r is Some <==> v@.len() == N,
        r is Some ==> r->Some_0@ == v@,
{
    <[T; N]>::try_from(v).ok()
}

impl<T: Deserialize, const N: usize> Deserialize for [T; N] {
    open spec fn exact() -> bool {
        T::exact()
    }

    open spec fn accepts(j: Json) -> bool {
        <Vec<T> as Deserialize>::accepts(j) && j->Arr_0.len() == N
    }

    open spec fn decodes(j: Json, x: [T; N]) -> bool {
        j is Arr && x@.len() == j->Arr_0.len() && forall|i: int|
            0 <= i < x@.len() ==> T::decodes(#[trigger] j->Arr_0[i], x@[i])
    }

    fn from_value(v: Value) -> (r: Result<[T; N]>) {
        let ghost vv = v@;
        let items = <Vec<T> as Deserialize>::from_value(v)?;
        match vec_into_array::<T, N>(items) {
            Some(a) => Ok(a),
            None => Err(Error),
        }
    }

    fn missing() -> (r: Option<[T; N]>) {
        None
    }
}

/// A box decodes exactly as its content does; an option decodes `null` as
/// `None` and every other document as its content does, in `Some`; a vector
/// decodes an array item by item as its element type does.
pub proof fn law_wrappers_decode_as_content<T: Deserialize>(j: Json, x: T, xs: Vec<T>)
    ensures
        <Box<T> as Deserialize>::exact() == T::exact(),
        <Box<T> as Deserialize>::accepts(j) == T::accepts(j),
        <Box<T> as Deserialize>::decodes(j, Box::new(x)) == T::decodes(j, x),
        <Option<T> as Deserialize>::exact() == T::exact(),
        <Option<T> as Deserialize>::decodes(Json::Null, None::<T>),
        !(j is Null) ==> <Option<T> as Deserialize>::accepts(j) == T::accepts(j),
        !(j is Null) ==> <Option<T> as Deserialize>::decodes(j, Some(x)) == T::decodes(j, x),
        !(j is Null) ==> !<Option<T> as Deserialize>::decodes(j, None::<T>),
        <Vec<T> as Deserialize>::exact() == T::exact(),
        <Vec<T> as Deserialize>::accepts(j) == (j is Arr && forall|i: int|
            0 <= i < j->Arr_0.len() ==> T::accepts(#[trigger] j->Arr_0[i])),
        <Vec<T> as Deserialize>::decodes(j, xs) == (j is Arr && xs@.len() == j->Arr_0.len()
            && forall|i: int| 0 <= i < xs@.len() ==> T::decodes(#[trigger] j->Arr_0[i], xs@[i])),
{
}

/// The entries of a document that must be an object.
pub fn record(v: Value) -> (r: Result<Object>)
    ensures
        r is Ok <==> v is Object,
        r is Ok ==> v == Value::Object(r->Ok_0),
{
    match v {
        Value::Object(o) => Ok(o),
        _ => Err(Error),
    }
}

/// Takes the field `key` out of a record's entries and builds it: a missing
/// key falls back to the type's `missing` value, and fails without one. The
/// entry taken out is the one stored under `key`; the others stay.
pub fn field<T: Deserialize>(obj: &mut Object, key: &str) -> (r: Result<T>)
    ensures
        match old(obj).get_spec(key@) {
            Some(v) => (T::accepts(v@) ==> r is Ok) && (T::exact() ==> (r is Ok ==> T::accepts(
                v@,
            ))) && (r is Ok ==> T::decodes(v@, r->Ok_0)),
            None => (r is Ok <==> T::has_default()) && (r is Ok ==> T::decodes(
                Json::Null,
                r->Ok_0,
            )),
        },
        old(obj).get_spec(key@) is None ==> final(obj).entries() == old(obj).entries(),
        old(obj).get_spec(key@) is Some ==> exists|i: int|
            0 <= i < old(obj).entries().len() && #[trigger] old(obj).entries()[i].0@ == key@
                && final(obj).entries() == old(obj).entries().remove(i),
{
    match obj.remove(key) {
        Some(v) => T::from_value(v),
        None => match T::missing() {
            Some(x) => Ok(x),
            None => Err(Error),
        },
    }
}

} // verus!
