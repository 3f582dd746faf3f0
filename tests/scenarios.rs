use miniserde::json::{self, Array, Decimal, Number, Object, Value};
use miniserde::place::Cell;
use miniserde::ptr::NonuniqueBox;

fn number(j: &str) -> Number {
    match json::from_str::<Value>(j).unwrap() {
        Value::Number(n) => n,
        other => panic!("not a number: {:?}", other),
    }
}

#[test]
fn number_boundaries() {
    assert_eq!(number("18446744073709551615"), Number::U64(u64::MAX));
    assert_eq!(
        number("18446744073709551616"),
        Number::Float(Decimal { nonnegative: true, significand: 1844674407370955161, exponent: 1 })
    );
    assert_eq!(number("-9223372036854775808"), Number::I64(i64::MIN));
    assert_eq!(
        number("-9223372036854775809"),
        Number::Float(Decimal { nonnegative: false, significand: 9223372036854775809, exponent: 0 })
    );
}

#[test]
fn fractions_and_exponents() {
    assert_eq!(
        number("1.5"),
        Number::Float(Decimal { nonnegative: true, significand: 15, exponent: -1 })
    );
    assert_eq!(
        number("-2.50E+3"),
        Number::Float(Decimal { nonnegative: false, significand: 250, exponent: 1 })
    );
    assert_eq!(
        number("0e99999999999"),
        Number::Float(Decimal { nonnegative: true, significand: 0, exponent: 0 })
    );
    assert_eq!(
        number("7e-99999999999"),
        Number::Float(Decimal { nonnegative: true, significand: 0, exponent: 0 })
    );
    assert!(json::from_str::<Value>("7e99999999999").is_err());
    assert_eq!(number("-0"), Number::U64(0));
    assert_eq!(number("0"), Number::U64(0));
}

#[test]
fn smallest_exponent_round_trips() {
    let v = json::from_str::<Value>("1.5e-2147483647").unwrap();
    let d = Decimal { nonnegative: true, significand: 15, exponent: i32::MIN };
    assert_eq!(json::to_string(&v), "15e-2147483648");
    assert!(matches!(v, Value::Number(Number::Float(x)) if x == d));
    let w = json::from_str::<Value>("15e-2147483648").unwrap();
    assert!(matches!(w, Value::Number(Number::Float(x)) if x == d));
    assert_eq!(json::to_string(&Value::Number(Number::Float(d))), "15e-2147483648");
    assert_eq!(
        number("15e-2147483649"),
        Number::Float(Decimal { nonnegative: true, significand: 0, exponent: 0 })
    );
    assert!(json::from_str::<Value>("15e2147483648").is_err());
}

#[test]
fn malformed_numbers_fail() {
    for j in ["01", "1.", "1.e5", "1e", "1e+", "-", "-a", "+1", ".5"] {
        assert!(json::from_str::<Value>(j).is_err(), "{}", j);
    }
}

#[test]
fn surrogate_pair() {
    let v = json::from_str::<Value>(r#""\uD83D\uDE00""#).unwrap();
    match v {
        Value::String(s) => assert_eq!(s, "\u{1F600}"),
        other => panic!("not a string: {:?}", other),
    }
    assert!(json::from_str::<Value>(r#""\uD83D""#).is_err());
    assert!(json::from_str::<Value>(r#""\uDE00""#).is_err());
    assert!(json::from_str::<Value>(r#""\uD83DA""#).is_err());
}

#[test]
fn string_escapes_decode() {
    let v = json::from_str::<String>(r#""a\"b\\c\/d\b\f\n\r\té""#).unwrap();
    assert_eq!(v, "a\"b\\c/d\u{8}\u{c}\n\r\t\u{e9}");
    assert!(json::from_str::<String>("\"a\u{1}b\"").is_err());
    assert!(json::from_str::<String>(r#""\x""#).is_err());
    assert!(json::from_str::<String>(r#""abc"#).is_err());
}

#[test]
fn string_escapes_encode() {
    let v = Value::String("a\"b\\c\n\u{1}\u{1f}/\u{e9}".to_owned());
    assert_eq!(json::to_string(&v), r#""a\"b\\c\n\u0001\u001f/é""#);
}

#[test]
fn numbers_encode() {
    assert_eq!(json::to_string(&Value::Number(Number::U64(u64::MAX))), "18446744073709551615");
    assert_eq!(json::to_string(&Value::Number(Number::I64(i64::MIN))), "-9223372036854775808");
    let d = Decimal { nonnegative: false, significand: 15, exponent: -1 };
    assert_eq!(json::to_string(&Value::Number(Number::Float(d))), "-15e-1");
}

#[test]
fn literals_and_whitespace() {
    let v = json::from_str::<Value>(" \t\n[ true , false , null ]\r\n ").unwrap();
    assert_eq!(json::to_string(&v), "[true,false,null]");
    for j in ["tru", "nul", "[1,]", "[1 2]", "{\"a\"}", "{\"a\":}", "{\"a\":1,}", "[1] x", "", " ", "{1:2}"] {
        assert!(json::from_str::<Value>(j).is_err(), "{}", j);
    }
}

#[test]
fn object_keys_sorted_and_last_wins() {
    let v = json::from_str::<Value>(r#"{"b":1,"a":[],"c":{},"a":"x"}"#).unwrap();
    assert_eq!(json::to_string(&v), r#"{"a":"x","b":1,"c":{}}"#);
}

#[test]
fn round_trip_of_decoded_text() {
    let t = r#" {"z": [1, -2, 3.25e2, "s\u0001"], "a": {"k": [true, null, {}]}} "#;
    let v = json::from_str::<Value>(t).unwrap();
    let e = json::to_string(&v);
    let v2 = json::from_str::<Value>(&e).unwrap();
    assert_eq!(json::to_string(&v2), e);
    assert_eq!(e, r#"{"a":{"k":[true,null,{}]},"z":[1,-2,325e0,"s\u0001"]}"#);
}

#[test]
fn object_api() {
    let mut o = Object::new();
    o.insert("b".to_owned(), Value::Bool(true));
    o.insert("a".to_owned(), Value::Null);
    o.insert("b".to_owned(), Value::Bool(false));
    assert_eq!(o.len(), 2);
    assert!(matches!(o.get("b"), Some(Value::Bool(false))));
    assert!(o.get("c").is_none());
    assert!(matches!(o.remove("a"), Some(Value::Null)));
    assert_eq!(o.len(), 1);
    assert_eq!(json::to_string(&Value::Object(o)), r#"{"b":false}"#);
}

#[test]
fn array_api() {
    let mut a = Array::new();
    a.push(Value::Bool(true));
    a.push(Value::String("x".to_owned()));
    assert_eq!(a.len(), 2);
    assert!(matches!(a.get(0), Value::Bool(true)));
    assert_eq!(json::to_string(&Value::Array(a)), r#"[true,"x"]"#);
}

#[test]
fn cell_protocol() {
    let mut c: Cell<u32, &str> = Cell::Empty;
    c.set(1);
    assert!(matches!(c, Cell::Full(1)));
    c.err("bad");
    assert!(c.is_err());
    c.set(2);
    assert!(matches!(c, Cell::Failed("bad")));
    let taken = c.take();
    assert!(matches!(taken, Cell::Failed("bad")));
    assert!(matches!(c, Cell::Empty));
    let mapped = Cell::<u32, &str>::Full(3).map(|x| x * 2);
    assert!(matches!(mapped, Cell::Full(6)));
}

#[test]
fn nonunique_box_holds_value() {
    let b = NonuniqueBox::new(vec![1, 2, 3]);
    assert_eq!(b.get().len(), 3);
    assert_eq!(b.into_inner(), vec![1, 2, 3]);
}
