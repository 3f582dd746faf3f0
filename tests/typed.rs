use miniserde::de::{field, record};
use miniserde::json::{self, Array, Number, Object, Value};
use miniserde::ser::Fragment;
use miniserde::{Deserialize, Error, Result, Serialize};

#[derive(PartialEq, Debug)]
enum Tag {
    A,
    B,
    Enum,
}

impl Deserialize for Tag {
    fn from_value(v: Value) -> Result<Self> {
        match v {
            Value::String(s) => match s.as_str() {
                "A" => Ok(Tag::A),
                "renamedB" => Ok(Tag::B),
                "enum" => Ok(Tag::Enum),
                _ => Err(Error),
            },
            _ => Err(Error),
        }
    }

    fn missing() -> Option<Self> {
        None
    }
}

impl Serialize for Tag {
    fn begin(&self) -> Fragment<'_> {
        let name = match self {
            Tag::A => "A",
            Tag::B => "renamedB",
            Tag::Enum => "enum",
        };
        Fragment::Str(name.to_owned())
    }
}

#[derive(PartialEq, Debug)]
struct Nested {
    y: Option<Vec<String>>,
    z: Option<String>,
}

impl Deserialize for Nested {
    fn from_value(v: Value) -> Result<Self> {
        let mut obj = record(v)?;
        Ok(Nested { y: field(&mut obj, "y")?, z: field(&mut obj, "z")? })
    }

    fn missing() -> Option<Self> {
        None
    }
}

impl Serialize for Nested {
    fn begin(&self) -> Fragment<'_> {
        Fragment::Mapping(vec![("y".to_owned(), self.y.begin()), ("z".to_owned(), self.z.begin())])
    }
}

#[derive(PartialEq, Debug)]
struct Example {
    x: String,
    t1: Tag,
    t2: Box<Tag>,
    n: Box<Nested>,
}

impl Deserialize for Example {
    fn from_value(v: Value) -> Result<Self> {
        let mut obj = record(v)?;
        Ok(Example {
            x: field(&mut obj, "x")?,
            t1: field(&mut obj, "t1")?,
            t2: field(&mut obj, "t2")?,
            n: field(&mut obj, "n")?,
        })
    }

    fn missing() -> Option<Self> {
        None
    }
}

impl Serialize for Example {
    fn begin(&self) -> Fragment<'_> {
        Fragment::Mapping(vec![
            ("x".to_owned(), self.x.begin()),
            ("t1".to_owned(), self.t1.begin()),
            ("t2".to_owned(), self.t2.begin()),
            ("n".to_owned(), self.n.begin()),
        ])
    }
}

#[derive(PartialEq, Debug)]
struct Example3 {
    x: String,
    t1: Tag,
    t2: Box<Tag>,
    t3: [Tag; 1],
    structure: Box<Nested>,
}

impl Deserialize for Example3 {
    fn from_value(v: Value) -> Result<Self> {
        let mut obj = record(v)?;
        Ok(Example3 {
            x: field(&mut obj, "x")?,
            t1: field(&mut obj, "t1")?,
            t2: field(&mut obj, "t2")?,
            t3: field(&mut obj, "t3")?,
            structure: field(&mut obj, "struct")?,
        })
    }

    fn missing() -> Option<Self> {
        None
    }
}

impl Serialize for Example3 {
    fn begin(&self) -> Fragment<'_> {
        Fragment::Mapping(vec![
            ("x".to_owned(), self.x.begin()),
            ("t1".to_owned(), self.t1.begin()),
            ("t2".to_owned(), self.t2.begin()),
            ("t3".to_owned(), self.t3.begin()),
            ("struct".to_owned(), self.structure.begin()),
        ])
    }
}

#[test]
fn test_venial_test_ser() {
    let example = Example {
        x: "X".to_owned(),
        t1: Tag::A,
        t2: Box::new(Tag::B),
        n: Box::new(Nested {
            y: Some(vec!["Y".to_owned(), "Y".to_owned()]),
            z: None,
        }),
    };
    let actual = json::to_string(&example);
    let expected = r#"{"x":"X","t1":"A","t2":"renamedB","n":{"y":["Y","Y"],"z":null}}"#;
    assert_eq!(actual, expected);
}

#[test]
fn test_derive_test_ser() {
    let example = Example3 {
        x: "X".to_owned(),
        t1: Tag::A,
        t2: Box::new(Tag::B),
        t3: [Tag::Enum],
        structure: Box::new(Nested {
            y: Some(vec!["Y".to_owned(), "Y".to_owned()]),
            z: None,
        }),
    };
    let actual = json::to_string(&example);
    let expected =
        r#"{"x":"X","t1":"A","t2":"renamedB","t3":["enum"],"struct":{"y":["Y","Y"],"z":null}}"#;
    assert_eq!(actual, expected);
}

#[test]
fn record_round_trip() {
    let j = r#"{"x":"X","t1":"A","t2":"renamedB","n":{"y":["Y","Y"]}}"#;
    let decoded: Example = json::from_str(j).unwrap();
    let expected = r#"{"x":"X","t1":"A","t2":"renamedB","n":{"y":["Y","Y"],"z":null}}"#;
    assert_eq!(json::to_string(&decoded), expected);
}

#[test]
fn test_venial_test_de() {
    let j = r#" {"x": "X", "t1": "A", "t2": "renamedB", "n": {"y": ["Y", "Y"]}} "#;
    let actual: Example = json::from_str(j).unwrap();
    let expected = Example {
        x: "X".to_owned(),
        t1: Tag::A,
        t2: Box::new(Tag::B),
        n: Box::new(Nested {
            y: Some(vec!["Y".to_owned(), "Y".to_owned()]),
            z: None,
        }),
    };
    assert_eq!(actual, expected);
}

#[test]
fn test_derive_test_de() {
    let j =
        r#" {"x": "X", "t1": "A", "t2": "renamedB", "t3": ["enum"], "struct": {"y": ["Y", "Y"]}} "#;
    let actual: Example3 = json::from_str(j).unwrap();
    let expected = Example3 {
        x: "X".to_owned(),
        t1: Tag::A,
        t2: Box::new(Tag::B),
        t3: [Tag::Enum],
        structure: Box::new(Nested {
            y: Some(vec!["Y".to_owned(), "Y".to_owned()]),
            z: None,
        }),
    };
    assert_eq!(actual, expected);
}

#[test]
fn missing_optional_field_defaults() {
    let n: Nested = json::from_str("{}").unwrap();
    assert_eq!(n, Nested { y: None, z: None });
    assert!(json::from_str::<Example>(r#"{"t1": "A", "t2": "A", "n": {}}"#).is_err());
}

#[test]
fn unknown_variant_fails() {
    let j = r#"{"x": "X", "t1": "C", "t2": "A", "n": {}}"#;
    assert!(json::from_str::<Example>(j).is_err());
}

#[test]
fn primitive_targets() {
    assert_eq!(json::from_str::<bool>("true").unwrap(), true);
    assert_eq!(json::from_str::<u64>("42").unwrap(), 42);
    assert_eq!(json::from_str::<i64>("-42").unwrap(), -42);
    assert_eq!(json::from_str::<i64>("42").unwrap(), 42);
    assert!(json::from_str::<i64>("9223372036854775808").is_err());
    assert_eq!(json::from_str::<Option<u32>>("null").unwrap(), None);
    assert_eq!(json::from_str::<Option<u32>>("7").unwrap(), Some(7));
    assert_eq!(json::from_str::<Vec<u32>>("[1,2,3]").unwrap(), vec![1, 2, 3]);
    assert!(json::from_str::<Vec<u32>>("[1,\"2\"]").is_err());
    assert!(json::from_str::<String>("1").is_err());
}

#[test]
fn small_integer_targets() {
    assert_eq!(json::from_str::<i8>("-128").unwrap(), -128);
    assert!(json::from_str::<i8>("-129").is_err());
    assert!(json::from_str::<i8>("128").is_err());
    assert_eq!(json::from_str::<u8>("255").unwrap(), 255);
    assert!(json::from_str::<u8>("256").is_err());
    assert!(json::from_str::<u16>("-1").is_err());
    assert_eq!(json::from_str::<i32>("-2147483648").unwrap(), i32::MIN);
    assert_eq!(json::from_str::<i16>("7").unwrap(), 7);
    assert_eq!(json::from_str::<()>("null").unwrap(), ());
    assert!(json::from_str::<()>("0").is_err());
}

#[test]
fn tree_parts_as_targets() {
    let n: Number = json::from_str("-5").unwrap();
    assert_eq!(n, Number::I64(-5));
    assert_eq!(json::to_string(&n), "-5");
    let a: Array = json::from_str("[1, [2]]").unwrap();
    assert_eq!(a.len(), 2);
    assert_eq!(json::to_string(&a), "[1,[2]]");
    let o: Object = json::from_str(r#"{"b": 1, "a": {}}"#).unwrap();
    assert_eq!(json::to_string(&o), r#"{"a":{},"b":1}"#);
    assert!(json::from_str::<Array>("{}").is_err());
    assert!(json::from_str::<Object>("[]").is_err());
    assert!(json::from_str::<Number>("true").is_err());
}

#[test]
fn negative_zero_reads_as_unsigned() {
    let v: Value = json::from_str("-0").unwrap();
    let t = json::to_string(&v);
    assert_eq!(t, "0");
    let w: Value = json::from_str(&t).unwrap();
    assert_eq!(json::to_string(&w), t);
    assert_eq!(json::from_str::<u64>("-0").unwrap(), 0);
}

#[test]
fn pairs() {
    let p: (u32, String) = json::from_str(r#"[1, "a"]"#).unwrap();
    assert_eq!(p, (1, "a".to_owned()));
    assert!(json::from_str::<(u32, u32)>("[1]").is_err());
    assert!(json::from_str::<(u32, u32)>("[1,2,3]").is_err());
    assert_eq!(json::to_string(&(true, -3i8)), "[true,-3]");
}

#[test]
fn primitive_sources() {
    assert_eq!(json::to_string(&true), "true");
    assert_eq!(json::to_string(&7u32), "7");
    assert_eq!(json::to_string(&-7i64), "-7");
    assert_eq!(json::to_string(&Some(vec![1u64, 2])), "[1,2]");
    assert_eq!(json::to_string(&None::<u32>), "null");
    assert_eq!(json::to_string(&Box::new("a\"b".to_owned())), r#""a\"b""#);
}
