//! Records: the types whose values are kept in a table of the store.
use vstd::prelude::*;

verus! {

/// A type whose values are records of one table. Each record is found by a
/// pair of strings, its partition key and its sort key.
pub trait DynamoModel: Send + Sync {
    /// The name of the table that holds the records of this type.
    fn table_name() -> &'static str where Self: Sized;

    /// The record's partition key and sort key.
    fn partition_sort_key(&self) -> (String, String);
}

} // verus!
