use docdb_rs::document::{clone_json, json_equal, number_equal, JsonNumber, JsonValue};

fn float(x: f64) -> JsonNumber {
    JsonNumber::Float(x.to_bits())
}

#[test]
fn numbers_compare_as_serde_json_does() {
    assert!(number_equal(JsonNumber::PosInt(43), JsonNumber::PosInt(43)));
    assert!(!number_equal(JsonNumber::PosInt(43), JsonNumber::PosInt(44)));
    assert!(!number_equal(JsonNumber::PosInt(1), float(1.0)));
    assert!(number_equal(float(0.0), float(-0.0)));
    assert!(number_equal(float(2.5), float(2.5)));
    assert!(!number_equal(float(2.5), float(-2.5)));
    assert!(number_equal(JsonNumber::NegInt(-7), JsonNumber::NegInt(-7)));
}

#[test]
fn nested_values_compare_deeply() {
    let a = JsonValue::Array(vec![
        JsonValue::Null,
        JsonValue::Bool(true),
        JsonValue::Object(vec![("x".to_string(), JsonValue::String("y".to_string()))]),
    ]);
    let b = clone_json(&a);
    assert!(json_equal(&a, &b));
    let c = JsonValue::Array(vec![
        JsonValue::Null,
        JsonValue::Bool(true),
        JsonValue::Object(vec![("x".to_string(), JsonValue::String("z".to_string()))]),
    ]);
    assert!(!json_equal(&a, &c));
    assert!(!json_equal(&JsonValue::Array(vec![]), &JsonValue::Object(vec![])));
    assert!(!json_equal(&JsonValue::Array(vec![JsonValue::Null]), &JsonValue::Array(vec![])));
}

#[test]
fn get_reads_object_members_only() {
    let obj = JsonValue::Object(vec![
        ("age".to_string(), JsonValue::Number(JsonNumber::PosInt(43))),
        ("name".to_string(), JsonValue::String("John Doe".to_string())),
    ]);
    assert!(json_equal(obj.get("age").unwrap(), &JsonValue::Number(JsonNumber::PosInt(43))));
    assert!(obj.get("height").is_none());
    assert!(JsonValue::Array(vec![obj]).get("age").is_none());
    assert!(JsonValue::Null.get("age").is_none());
}

#[test]
fn clone_keeps_the_sign_of_zero() {
    let v = JsonValue::Array(vec![JsonValue::Number(float(-0.0))]);
    match clone_json(&v) {
        JsonValue::Array(items) => match &items[0] {
            JsonValue::Number(JsonNumber::Float(bits)) => assert_eq!(*bits, (-0.0f64).to_bits()),
            other => panic!("unexpected {:?}", other),
        },
        other => panic!("unexpected {:?}", other),
    }
    assert!(json_equal(&v, &JsonValue::Array(vec![JsonValue::Number(float(0.0))])));
}
