use dynamode::agent::{item_of_record, record_of_item};
use dynamode::decode::decode;
use dynamode::encode::encode;
use dynamode::error::DynamodeError;
use dynamode::value::{Number, StructuredValue};
use dynamode::wire::WireValue;
use serde_json::Value;

fn structured(value: Value) -> StructuredValue {
    match value {
        Value::Null => StructuredValue::Null,
        Value::Bool(b) => StructuredValue::Bool(b),
        Value::Number(n) => StructuredValue::Number(if let Some(i) = n.as_i64() {
            Number::Integer(i)
        } else if let Some(u) = n.as_u64() {
            Number::Float(u.to_string())
        } else if let Some(f) = n.as_f64() {
            Number::Float(f.to_string())
        } else {
            Number::Float(n.to_string())
        }),
        Value::String(s) => StructuredValue::String(s),
        Value::Array(items) => StructuredValue::Array(items.into_iter().map(structured).collect()),
        Value::Object(fields) => StructuredValue::Object(
            fields
                .into_iter()
                .map(|(name, value)| (name, structured(value)))
                .collect(),
        ),
    }
}

fn json(value: StructuredValue) -> Value {
    match value {
        StructuredValue::Null => Value::Null,
        StructuredValue::Bool(b) => Value::Bool(b),
        StructuredValue::Number(Number::Integer(i)) => Value::Number(i.into()),
        StructuredValue::Number(Number::Float(text)) => Value::Number(
            serde_json::Number::from_f64(text.parse::<f64>().unwrap()).unwrap(),
        ),
        StructuredValue::String(s) => Value::String(s),
        StructuredValue::Array(items) => Value::Array(items.into_iter().map(json).collect()),
        StructuredValue::Object(fields) => Value::Object(
            fields
                .into_iter()
                .map(|(name, value)| (name, json(value)))
                .collect(),
        ),
    }
}

fn parse(text: &str) -> Value {
    serde_json::from_str(text).unwrap()
}

fn field<'a>(item: &'a WireValue, name: &str) -> &'a WireValue {
    match item {
        WireValue::M(fields) => {
            let found: Vec<&WireValue> = fields
                .iter()
                .filter(|(n, _)| n == name)
                .map(|(_, v)| v)
                .collect();
            assert_eq!(found.len(), 1, "{}", name);
            found[0]
        }
        other => panic!("not a map: {:?}", other),
    }
}

#[test]
fn a_serialized_car_becomes_an_item_and_comes_back() {
    let car = parse(
        r#"{"pk":"tesla","sk":"model-y","brand":"Tesla","model":"Model Y","horsepower":420}"#,
    );
    let item = item_of_record(&structured(car.clone())).unwrap();
    match &item {
        WireValue::M(fields) => assert_eq!(fields.len(), 5),
        other => panic!("not a map: {:?}", other),
    }
    assert_eq!(field(&item, "pk"), &WireValue::S("tesla".to_string()));
    assert_eq!(field(&item, "sk"), &WireValue::S("model-y".to_string()));
    assert_eq!(field(&item, "brand"), &WireValue::S("Tesla".to_string()));
    assert_eq!(field(&item, "model"), &WireValue::S("Model Y".to_string()));
    assert_eq!(
        field(&item, "horsepower"),
        &WireValue::N("420".to_string())
    );
    assert_eq!(json(record_of_item(&item).unwrap()), car);
}

#[test]
fn serialized_documents_come_back_as_they_were() {
    for text in [
        r#"{"items": [], "tags": null}"#,
        r#"{}"#,
        r#"{"a": {"b": {"c": [1, 2, [3, [4, {"d": null}]]]}}}"#,
        r#"{"n": 473, "f": 3.14, "neg": -0.5, "big": 1e300, "small": 5e-324, "zero": 0}"#,
        r#"{"min": -9223372036854775808, "max": 9223372036854775807}"#,
        r#"{"t": true, "f": false, "s": "", "u": "é😀", "e": "a\"b\\c\n"}"#,
        r#"{"max_float": 1.7976931348623157e308, "min_float": -1.7976931348623157e308}"#,
        r#"{"tenth": 0.1, "third": 0.3333333333333333, "pi": 3.141592653589793}"#,
    ] {
        let document = parse(text);
        let item = item_of_record(&structured(document.clone())).unwrap();
        assert_eq!(json(record_of_item(&item).unwrap()), document, "{}", text);
    }
}

#[test]
fn serialized_values_of_any_kind_come_back_as_they_were() {
    for text in [
        "null", "true", "0", "-1", "473", "3.14", "\"x\"", "[]", "[1, \"a\", null, [true]]",
        "1e21", "123456789.125", "-2.5e-7",
    ] {
        let value = parse(text);
        let wire = encode(&structured(value.clone())).unwrap();
        assert_eq!(json(decode(&wire).unwrap()), value, "{}", text);
    }
}

#[test]
fn serialized_numbers_are_written_as_before() {
    let written = |text: &str| match encode(&structured(parse(text))).unwrap() {
        WireValue::N(number) => number,
        other => panic!("not a number: {:?}", other),
    };
    assert_eq!(written("473"), "473");
    assert_eq!(written("-473"), "-473");
    assert_eq!(written("3.14"), "3.14");
    assert_eq!(written("1.0"), "1");
    assert_eq!(written("2.5e3"), "2500");
    assert_eq!(written("18446744073709551615"), "18446744073709551615");
    assert_eq!(written("1e21"), "1000000000000000000000");
    assert_eq!(written("0.1"), "0.1");
    assert_eq!(written("1e-7"), "0.0000001");
}

#[test]
fn a_value_that_is_no_object_is_no_record() {
    for text in ["null", "1", "\"s\"", "[]", "[{}]", "true"] {
        assert_eq!(
            item_of_record(&structured(parse(text))),
            Err(DynamodeError::Serialization(
                "the value to encode is not an object".to_string()
            )),
            "{}",
            text
        );
    }
}
