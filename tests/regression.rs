use miniserde::de::{field, record};
use miniserde::json::{self, Value};
use miniserde::{Deserialize, Result};

#[derive(PartialEq, Debug)]
pub struct Point {
    pub x: u32,
    pub y: u32,
}

impl Deserialize for Point {
    fn from_value(v: Value) -> Result<Self> {
        let mut obj = record(v)?;
        let x = field(&mut obj, "x")?;
        let y = field(&mut obj, "y")?;
        Ok(Point { x, y })
    }

    fn missing() -> Option<Self> {
        None
    }
}

#[test]
fn main() {
    let actual = json::from_str::<Point>(r#"{"x": 1, "y": 2, "z": 3}"#).unwrap();
    let expected = Point { x: 1, y: 2 };
    assert_eq!(actual, expected);
}

#[test]
fn unknown_keys_change_nothing() {
    let with = json::from_str::<Point>(r#"{"x": 1, "w": [1, {"a": null}], "y": 2, "z": 3}"#).unwrap();
    let without = json::from_str::<Point>(r#"{"x": 1, "y": 2}"#).unwrap();
    assert_eq!(with, without);
}

#[test]
fn missing_required_field_fails() {
    assert!(json::from_str::<Point>(r#"{"x": 1}"#).is_err());
}

#[test]
fn duplicate_key_last_wins() {
    let p = json::from_str::<Point>(r#"{"x": 1, "y": 2, "x": 7}"#).unwrap();
    assert_eq!(p, Point { x: 7, y: 2 });
}

#[test]
fn out_of_range_field_fails() {
    assert!(json::from_str::<Point>(r#"{"x": 4294967296, "y": 2}"#).is_err());
    assert!(json::from_str::<Point>(r#"{"x": -1, "y": 2}"#).is_err());
}
