//! A two-way, schema-less mapping between structured data and the tagged
//! values of a document store.
//!
//! Structured data ([`value`]) is the generic tree of strings, numbers,
//! booleans, nulls, sequences and mappings that a serializer produces. Wire
//! values ([`wire`]) are what the store keeps: strings, numbers as decimal
//! text, booleans, a null marker, lists and maps, and beside them binary
//! values and sets, which have no structured counterpart.
//!
//! [`encode`] turns structured data into wire values and [`decode`] turns
//! wire values back. Both are pure functions of their arguments, and each
//! says in its contract exactly what it returns, over the views of its
//! arguments. [`number`] holds the grammar of number text, on which both
//! rest. [`agent`] holds what the operations on the store compute around a
//! request, [`error`] the errors, and [`model`] the trait of record types.
//!
//! What holds of all this together is stated and proved in [`laws`],
//! [`laws_items`], [`laws_depth`] and [`laws_numbers`]: that encoding and
//! then decoding gives the same data back, that encoding fails on nothing
//! but a number that cannot be written, that the first item to fail decides
//! a failure, and that nesting beyond the limit is refused.
pub mod agent;
pub mod decode;
pub mod encode;
pub mod error;
pub mod laws;
pub mod laws_depth;
pub mod laws_items;
pub mod laws_numbers;
mod magnitude;
pub mod model;
pub mod number;
pub mod value;
pub mod wire;
