use dynamode::agent::{
    item_of_record, key_of, partition_condition, record_of_item, records_of_items,
};
use dynamode::error::{DecodeError, DecodeFailure, DynamodeError, EncodeError, PathStep};
use dynamode::model::DynamoModel;
use dynamode::value::{Number, StructuredValue};
use dynamode::wire::WireValue;

struct Car {
    pk: String,
    sk: String,
    brand: String,
    model: String,
    horsepower: i32,
}

impl DynamoModel for Car {
    fn table_name() -> &'static str {
        "Cars"
    }

    fn partition_sort_key(&self) -> (String, String) {
        (self.pk.clone(), self.sk.clone())
    }
}

fn record_of(car: &Car) -> StructuredValue {
    StructuredValue::Object(vec![
        ("pk".to_string(), StructuredValue::String(car.pk.clone())),
        ("sk".to_string(), StructuredValue::String(car.sk.clone())),
        (
            "brand".to_string(),
            StructuredValue::String(car.brand.clone()),
        ),
        (
            "model".to_string(),
            StructuredValue::String(car.model.clone()),
        ),
        (
            "horsepower".to_string(),
            StructuredValue::Number(Number::Integer(car.horsepower as i64)),
        ),
    ])
}

fn bmw() -> Car {
    Car {
        pk: "bmw".into(),
        sk: "m3".into(),
        brand: "BMW".into(),
        model: "M3".into(),
        horsepower: 473,
    }
}

#[test]
fn encode_errors_in_words() {
    assert_eq!(
        EncodeError::RootNotObject.message(),
        "the value to encode is not an object"
    );
    assert_eq!(
        EncodeError::UnrepresentableNumber.message(),
        "Number parse error"
    );
}

#[test]
fn decode_errors_in_words() {
    assert_eq!(
        DecodeError::RootNotObject.message(),
        "the value to decode is not a map"
    );
    assert_eq!(
        DecodeError::MalformedNumber("12x".to_string()).message(),
        "malformed number: 12x"
    );
    assert_eq!(
        DecodeError::NonFiniteNumber.message(),
        "number is not finite"
    );
    assert_eq!(
        DecodeError::UnsupportedVariant("B".to_string()).message(),
        "Unsupported AttributeValue: B"
    );
    assert_eq!(
        DecodeError::MaxDepthExceeded.message(),
        "maximum nesting depth exceeded"
    );
}

#[test]
fn failures_say_where() {
    let here = DecodeFailure::here(DecodeError::NonFiniteNumber);
    assert_eq!(here.path, Vec::new());
    assert_eq!(here.message(), "number is not finite");
    let inner = DecodeFailure::here(DecodeError::UnsupportedVariant("BS".to_string()))
        .under(PathStep::Index(12))
        .under(PathStep::Field("blobs".to_string()))
        .under(PathStep::Index(0));
    assert_eq!(
        inner.path,
        vec![
            PathStep::Index(0),
            PathStep::Field("blobs".to_string()),
            PathStep::Index(12)
        ]
    );
    assert_eq!(inner.error, DecodeError::UnsupportedVariant("BS".to_string()));
    assert_eq!(
        inner.message(),
        "Unsupported AttributeValue: BS at $[0].blobs[12]"
    );
    let large = DecodeFailure::here(DecodeError::MaxDepthExceeded)
        .under(PathStep::Index(usize::MAX));
    assert_eq!(
        large.message(),
        format!("maximum nesting depth exceeded at $[{}]", usize::MAX)
    );
}

#[test]
fn layer_errors_in_words() {
    assert_eq!(
        DynamodeError::Serialization("x".to_string()).message(),
        "Serialization error: x"
    );
    assert_eq!(
        DynamodeError::Deserialization("y".to_string()).message(),
        "Deserialization error: y"
    );
    assert_eq!(
        DynamodeError::DynamoDb("down".to_string()).message(),
        "DynamoDB error: down"
    );
    assert_eq!(DynamodeError::NotFound.message(), "Entity not found");
    assert_eq!(DynamodeError::InvalidKey.message(), "Invalid key");
    assert_eq!(
        DynamodeError::Validation("empty".to_string()).message(),
        "Validation error: empty"
    );
    assert_eq!(
        DynamodeError::Network("timeout".to_string()).message(),
        "Network error: timeout"
    );
}

#[test]
fn mapping_errors_are_told_from_store_errors() {
    let encode = DynamodeError::from_encode(EncodeError::UnrepresentableNumber);
    assert_eq!(
        encode,
        DynamodeError::Serialization("Number parse error".to_string())
    );
    assert!(encode.is_mapping_error());
    let decode = DynamodeError::from_decode(
        &DecodeFailure::here(DecodeError::UnsupportedVariant("B".to_string()))
            .under(PathStep::Field("blob".to_string())),
    );
    assert_eq!(
        decode,
        DynamodeError::Deserialization("Unsupported AttributeValue: B at $.blob".to_string())
    );
    assert!(decode.is_mapping_error());
    assert!(!DynamodeError::DynamoDb("throttled".to_string()).is_mapping_error());
    assert!(!DynamodeError::Network("reset".to_string()).is_mapping_error());
    assert!(!DynamodeError::NotFound.is_mapping_error());
    assert!(!DynamodeError::InvalidKey.is_mapping_error());
    assert!(!DynamodeError::Validation("v".to_string()).is_mapping_error());
}

#[test]
fn a_car_is_put_and_read_back() {
    let car = bmw();
    assert_eq!(Car::table_name(), "Cars");
    let item = item_of_record(&record_of(&car)).unwrap();
    assert_eq!(
        item,
        WireValue::M(vec![
            ("pk".to_string(), WireValue::S("bmw".to_string())),
            ("sk".to_string(), WireValue::S("m3".to_string())),
            ("brand".to_string(), WireValue::S("BMW".to_string())),
            ("model".to_string(), WireValue::S("M3".to_string())),
            ("horsepower".to_string(), WireValue::N("473".to_string())),
        ])
    );
    assert_eq!(record_of_item(&item), Ok(record_of(&car)));
}

#[test]
fn an_updated_car_reads_back_updated() {
    let mut car = bmw();
    car.horsepower = 503;
    let item = item_of_record(&record_of(&car)).unwrap();
    match record_of_item(&item).unwrap() {
        StructuredValue::Object(fields) => assert!(fields.contains(&(
            "horsepower".to_string(),
            StructuredValue::Number(Number::Integer(503))
        ))),
        other => panic!("not an object: {:?}", other),
    }
}

#[test]
fn a_car_is_found_by_its_keys() {
    let car = Car {
        pk: "toyota".into(),
        sk: "supra".into(),
        brand: "Toyota".into(),
        model: "Supra".into(),
        horsepower: 335,
    };
    assert_eq!(
        key_of(car.partition_sort_key()),
        WireValue::M(vec![
            ("pk".to_string(), WireValue::S("toyota".to_string())),
            ("sk".to_string(), WireValue::S("supra".to_string())),
        ])
    );
}

#[test]
fn a_record_that_cannot_be_put_is_a_serialization_error() {
    assert_eq!(
        item_of_record(&StructuredValue::Array(Vec::new())),
        Err(DynamodeError::Serialization(
            "the value to encode is not an object".to_string()
        ))
    );
    let bad = StructuredValue::Object(vec![(
        "n".to_string(),
        StructuredValue::Number(Number::Float("NaN".to_string())),
    )]);
    assert_eq!(
        item_of_record(&bad),
        Err(DynamodeError::Serialization(
            "Number parse error".to_string()
        ))
    );
}

#[test]
fn an_item_that_cannot_be_read_is_a_deserialization_error() {
    assert_eq!(
        record_of_item(&WireValue::S("bare".to_string())),
        Err(DynamodeError::Deserialization(
            "the value to decode is not a map".to_string()
        ))
    );
    let item = WireValue::M(vec![(
        "hp".to_string(),
        WireValue::N("4 7 3".to_string()),
    )]);
    assert_eq!(
        record_of_item(&item),
        Err(DynamodeError::Deserialization(
            "malformed number: 4 7 3 at $.hp".to_string()
        ))
    );
}

#[test]
fn a_query_reads_all_or_nothing() {
    let audi = |sk: &str, hp: &str| {
        WireValue::M(vec![
            ("pk".to_string(), WireValue::S("audi".to_string())),
            ("sk".to_string(), WireValue::S(sk.to_string())),
            ("horsepower".to_string(), WireValue::N(hp.to_string())),
        ])
    };
    let records = records_of_items(&vec![audi("rs7", "591"), audi("a4", "201")]).unwrap();
    assert_eq!(records.len(), 2);
    let sort_keys: Vec<&StructuredValue> = records
        .iter()
        .map(|r| match r {
            StructuredValue::Object(fields) => &fields[1].1,
            other => panic!("not an object: {:?}", other),
        })
        .collect();
    assert!(sort_keys.contains(&&StructuredValue::String("rs7".to_string())));
    assert!(sort_keys.contains(&&StructuredValue::String("a4".to_string())));
    assert_eq!(
        records_of_items(&vec![audi("rs7", "591"), audi("a4", "inf")]),
        Err(DynamodeError::Deserialization(
            "number is not finite at $[1].horsepower".to_string()
        ))
    );
    assert_eq!(records_of_items(&Vec::new()), Ok(Vec::new()));
}

#[test]
fn the_condition_of_a_partition_query() {
    let condition = partition_condition("audi".to_string());
    assert_eq!(condition.expression, "#pk = :pk_val");
    assert_eq!(
        condition.names,
        vec![("#pk".to_string(), "pk".to_string())]
    );
    assert_eq!(
        condition.values,
        vec![(":pk_val".to_string(), WireValue::S("audi".to_string()))]
    );
}
