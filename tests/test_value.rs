use miniserde::json::{self, Array, Value};

#[test]
fn test_value_test_round_trip_deeply_nested() {
    let depth = 100_000;

    let mut j = String::new();
    for _ in 0..depth {
        j.push_str("{\"x\":[");
    }
    for _ in 0..depth {
        j.push_str("]}");
    }

    let value: Value = json::from_str(&j).unwrap();
    let j2 = json::to_string(&value);
    assert_eq!(j, j2);
}

#[test]
fn deep_tree_drops_without_overflow() {
    let mut value = Value::Null;
    for _ in 0..100_000 {
        let mut array = Array::new();
        array.push(value);
        value = Value::Array(array);
    }
    drop(value);
}

#[test]
fn safely_releases_deep_tree() {
    let mut value = Value::Null;
    for _ in 0..100_000 {
        let mut array = Array::new();
        array.push(value);
        value = Value::Array(array);
    }
    json::safely(value);
}
