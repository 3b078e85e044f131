//! What the operations on the store compute before a request is sent and
//! after its answer has come: the item to put, the key to look up, the
//! condition of a query, and the records that the answer holds.
use crate::decode::{decode_item, decode_items, decoded_item, decoded_items, DEFAULT_MAX_DEPTH};
use crate::encode::{build_key, encode_item, encoded_item, key_item};
use crate::error::{DecodeFailureView, DynamodeError, EncodeError};
use crate::value::{views_of, StructuredValue, StructuredView};
use crate::wire::{wire_views_of, WireValue, WireView};
use vstd::prelude::*;

verus! {

/// The item that stands for a record when it is put into the store.
///
/// A record that is no mapping, or that holds a number that cannot be
/// written, gives a `Serialization` error that says which, and no item.
pub fn item_of_record(record: &StructuredValue) -> (result: Result<WireValue, DynamodeError>)
    ensures
        match result {
            Ok(item) => encoded_item(record@) == Ok::<WireView, EncodeError>(item@),
            Err(error) => encoded_item(record@) matches Err(e) && error
                matches DynamodeError::Serialization(msg) && msg@ == e.message_text(),
        },
{
    match encode_item(record) {
        Ok(item) => Ok(item),
        Err(e) => Err(DynamodeError::from_encode(e)),
    }
}

/// The key under which a record is looked up or deleted.
pub fn key_of(keys: (String, String)) -> (key: WireValue)
    ensures
        key@ == key_item(keys.0@, keys.1@),
{
    build_key(keys.0, keys.1)
}

/// The record that an item of the store stands for.
///
/// An item that does not decode gives a `Deserialization` error that says
/// why and where, and no record.
pub fn record_of_item(item: &WireValue) -> (result: Result<StructuredValue, DynamodeError>)
    ensures
        match result {
            Ok(record) => decoded_item(item@, DEFAULT_MAX_DEPTH as nat) == Ok::<
                StructuredView,
                DecodeFailureView,
            >(record@),
            Err(error) => decoded_item(item@, DEFAULT_MAX_DEPTH as nat) matches Err(f) && error
                matches DynamodeError::Deserialization(msg) && msg@ == f.message_text(),
        },
{
    match decode_item(item) {
        Ok(record) => Ok(record),
        Err(failure) => Err(DynamodeError::from_decode(&failure)),
    }
}

/// The records that the items of a query or a scan stand for, in order.
///
/// One item that does not decode makes the whole read fail with a
/// `Deserialization` error that says why and where: no shorter list of
/// records is handed out.
pub fn records_of_items(items: &Vec<WireValue>) -> (result: Result<
    Vec<StructuredValue>,
    DynamodeError,
>)
    ensures
        match result {
            Ok(records) => decoded_items(wire_views_of(items@), DEFAULT_MAX_DEPTH as nat, 0)
                == Ok::<Seq<StructuredView>, DecodeFailureView>(views_of(records@)),
            Err(error) => decoded_items(wire_views_of(items@), DEFAULT_MAX_DEPTH as nat, 0)
                matches Err(f) && error matches DynamodeError::Deserialization(msg) && msg@
                == f.message_text(),
        },
{
    match decode_items(items) {
        Ok(records) => Ok(records),
        Err(failure) => Err(DynamodeError::from_decode(&failure)),
    }
}

/// The condition of a query for all records of one partition: the
/// expression, the attribute name that its `#` placeholder stands for, and
/// the value that its `:` placeholder stands for.
#[derive(Debug, PartialEq, Eq)]
pub struct KeyCondition {
    pub expression: String,
    pub names: Vec<(String, String)>,
    pub values: Vec<(String, WireValue)>,
}

impl KeyCondition {
    /// Whether this is the condition that the partition key equals
    /// `partition`.
    pub open spec fn is_partition_equals(&self, partition: Seq<char>) -> bool {
        &&& self.expression@ == "#pk = :pk_val"@
        &&& self.names@.len() == 1
        &&& self.names@[0].0@ == "#pk"@
        &&& self.names@[0].1@ == "pk"@
        &&& self.values@.len() == 1
        &&& self.values@[0].0@ == ":pk_val"@
        &&& self.values@[0].1@ == WireView::S(partition)
    }
}

/// The condition of the query for all records whose partition key is
/// `partition`.
pub fn partition_condition(partition: String) -> (condition: KeyCondition)
    ensures
        condition.is_partition_equals(partition@),
{
    let mut names: Vec<(String, String)> = Vec::new();
    names.push((String::from_str("#pk"), String::from_str("pk")));
    let mut values: Vec<(String, WireValue)> = Vec::new();
    values.push((String::from_str(":pk_val"), WireValue::S(partition)));
    KeyCondition { expression: String::from_str("#pk = :pk_val"), names, values }
}

} // verus!
