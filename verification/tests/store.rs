use aws_sdk_dynamodb::primitives::Blob;
use aws_sdk_dynamodb::types::AttributeValue;
use dynamode::agent::{item_of_record, key_of, partition_condition, record_of_item};
use dynamode::error::DynamodeError;
use dynamode::value::{Number, StructuredValue};
use dynamode::wire::WireValue;
use std::collections::HashMap;

fn attribute(value: WireValue) -> AttributeValue {
    match value {
        WireValue::S(s) => AttributeValue::S(s),
        WireValue::N(text) => AttributeValue::N(text),
        WireValue::Bool(b) => AttributeValue::Bool(b),
        WireValue::Null(flag) => AttributeValue::Null(flag),
        WireValue::L(items) => AttributeValue::L(items.into_iter().map(attribute).collect()),
        WireValue::M(fields) => AttributeValue::M(
            fields
                .into_iter()
                .map(|(name, value)| (name, attribute(value)))
                .collect(),
        ),
        WireValue::B(bytes) => AttributeValue::B(Blob::new(bytes)),
        WireValue::Ss(strings) => AttributeValue::Ss(strings),
        WireValue::Ns(numbers) => AttributeValue::Ns(numbers),
        WireValue::Bs(blobs) => AttributeValue::Bs(blobs.into_iter().map(Blob::new).collect()),
    }
}

fn wire(value: AttributeValue) -> WireValue {
    match value {
        AttributeValue::S(s) => WireValue::S(s),
        AttributeValue::N(text) => WireValue::N(text),
        AttributeValue::Bool(b) => WireValue::Bool(b),
        AttributeValue::Null(flag) => WireValue::Null(flag),
        AttributeValue::L(items) => WireValue::L(items.into_iter().map(wire).collect()),
        AttributeValue::M(fields) => WireValue::M(
            fields
                .into_iter()
                .map(|(name, value)| (name, wire(value)))
                .collect(),
        ),
        AttributeValue::B(blob) => WireValue::B(blob.into_inner()),
        AttributeValue::Ss(strings) => WireValue::Ss(strings),
        AttributeValue::Ns(numbers) => WireValue::Ns(numbers),
        AttributeValue::Bs(blobs) => {
            WireValue::Bs(blobs.into_iter().map(Blob::into_inner).collect())
        }
        other => panic!("unknown attribute value: {:?}", other),
    }
}

fn car() -> StructuredValue {
    StructuredValue::Object(vec![
        (
            "pk".to_string(),
            StructuredValue::String("audi".to_string()),
        ),
        ("sk".to_string(), StructuredValue::String("rs7".to_string())),
        (
            "horsepower".to_string(),
            StructuredValue::Number(Number::Integer(591)),
        ),
        ("tags".to_string(), StructuredValue::Null),
        ("extras".to_string(), StructuredValue::Array(Vec::new())),
    ])
}

#[test]
fn an_item_is_what_the_store_takes() {
    let item = attribute(item_of_record(&car()).unwrap());
    let mut expected = HashMap::new();
    expected.insert("pk".to_string(), AttributeValue::S("audi".to_string()));
    expected.insert("sk".to_string(), AttributeValue::S("rs7".to_string()));
    expected.insert(
        "horsepower".to_string(),
        AttributeValue::N("591".to_string()),
    );
    expected.insert("tags".to_string(), AttributeValue::Null(true));
    expected.insert("extras".to_string(), AttributeValue::L(Vec::new()));
    assert_eq!(item, AttributeValue::M(expected));
}

#[test]
fn what_the_store_hands_back_is_read_whatever_the_order() {
    let stored = attribute(item_of_record(&car()).unwrap());
    let record = record_of_item(&wire(stored)).unwrap();
    let mut found = match record {
        StructuredValue::Object(fields) => fields,
        other => panic!("not an object: {:?}", other),
    };
    let mut expected = match car() {
        StructuredValue::Object(fields) => fields,
        other => panic!("not an object: {:?}", other),
    };
    found.sort_by(|a, b| a.0.cmp(&b.0));
    expected.sort_by(|a, b| a.0.cmp(&b.0));
    assert_eq!(found, expected);
}

#[test]
fn a_key_is_what_the_store_looks_up() {
    let key = attribute(key_of(("audi".to_string(), "rs7".to_string())));
    let mut expected = HashMap::new();
    expected.insert("pk".to_string(), AttributeValue::S("audi".to_string()));
    expected.insert("sk".to_string(), AttributeValue::S("rs7".to_string()));
    assert_eq!(key, AttributeValue::M(expected));
}

#[test]
fn items_of_other_writers_are_refused_by_name() {
    let mut fields = HashMap::new();
    fields.insert(
        "photo".to_string(),
        AttributeValue::B(Blob::new(vec![1u8, 2, 3])),
    );
    assert_eq!(
        record_of_item(&wire(AttributeValue::M(fields))),
        Err(DynamodeError::Deserialization(
            "Unsupported AttributeValue: B at $.photo".to_string()
        ))
    );
    let mut sets = HashMap::new();
    sets.insert(
        "sizes".to_string(),
        AttributeValue::Ns(vec!["1".to_string(), "2".to_string()]),
    );
    assert_eq!(
        record_of_item(&wire(AttributeValue::M(sets))),
        Err(DynamodeError::Deserialization(
            "Unsupported AttributeValue: NS at $.sizes".to_string()
        ))
    );
}

#[test]
fn the_condition_names_what_the_store_expects() {
    let condition = partition_condition("audi".to_string());
    assert_eq!(condition.expression, "#pk = :pk_val");
    let names: HashMap<String, String> = condition.names.into_iter().collect();
    assert_eq!(names.get("#pk"), Some(&"pk".to_string()));
    let values: HashMap<String, AttributeValue> = condition
        .values
        .into_iter()
        .map(|(placeholder, value)| (placeholder, attribute(value)))
        .collect();
    assert_eq!(
        values.get(":pk_val"),
        Some(&AttributeValue::S("audi".to_string()))
    );
}
