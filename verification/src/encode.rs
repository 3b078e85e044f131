//! Encoding: from structured data to the wire value that stands for it.
use crate::error::EncodeError;
use crate::laws_items::law_encode_keeps_well_formed;
use crate::number::{classify, classify_number, format_integer, integer_text, NumberClass};
use crate::value::{
    after, field_views_of, lemma_field_views_of, lemma_views_of, views_of, Number, NumberView,
    StructuredValue, StructuredView,
};
use crate::wire::{wire_field_views_of, wire_views_of, WireValue, WireView};
use vstd::prelude::*;

verus! {

/// The text that a number is written as: the canonical text of an integer;
/// for a number held as text, the canonical text of the integer it denotes
/// where it denotes one that fits in 64 bits, else the text itself where it
/// is a finite decimal number. Any other text is no number that can be
/// written.
pub open spec fn encoded_number(n: NumberView) -> Result<Seq<char>, EncodeError> {
    match n {
        NumberView::Integer(i) => Ok(integer_text(i as int)),
        NumberView::Float(text) => match classify(text) {
            NumberClass::Integer(i) => Ok(integer_text(i as int)),
            NumberClass::Finite => Ok(text),
            _ => Err(EncodeError::UnrepresentableNumber),
        },
    }
}

/// What structured data encodes to.
///
/// A string, a boolean and a number become the wire value of their kind, null
/// becomes the null marker with its flag set, a sequence a list and a mapping
/// a map, item by item and in order. The first item that fails, in order,
/// makes the whole value fail with its error.
pub open spec fn encoded(value: StructuredView) -> Result<WireView, EncodeError>
    decreases value,
{
    match value {
        StructuredView::Null => Ok(WireView::Null(true)),
        StructuredView::Bool(b) => Ok(WireView::Bool(b)),
        StructuredView::Number(n) => match encoded_number(n) {
            Ok(text) => Ok(WireView::N(text)),
            Err(e) => Err(e),
        },
        StructuredView::String(s) => Ok(WireView::S(s)),
        StructuredView::Array(items) => match encoded_list(items) {
            Ok(values) => Ok(WireView::L(values)),
            Err(e) => Err(e),
        },
        StructuredView::Object(fields) => match encoded_fields(fields) {
            Ok(values) => Ok(WireView::M(values)),
            Err(e) => Err(e),
        },
    }
}

/// What the items of a sequence encode to.
pub open spec fn encoded_list(items: Seq<StructuredView>) -> Result<Seq<WireView>, EncodeError>
    decreases items,
{
    if items.len() == 0 {
        Ok(Seq::empty())
    } else {
        match encoded(items.first()) {
            Err(e) => Err(e),
            Ok(value) => match encoded_list(items.drop_first()) {
                Err(e) => Err(e),
                Ok(values) => Ok(seq![value] + values),
            },
        }
    }
}

/// What the entries of a mapping encode to: each value under its own name.
pub open spec fn encoded_fields(fields: Seq<(Seq<char>, StructuredView)>) -> Result<
    Seq<(Seq<char>, WireView)>,
    EncodeError,
>
    decreases fields,
{
    if fields.len() == 0 {
        Ok(Seq::empty())
    } else {
        match encoded(fields.first().1) {
            Err(e) => Err(e),
            Ok(value) => match encoded_fields(fields.drop_first()) {
                Err(e) => Err(e),
                Ok(values) => Ok(seq![(fields.first().0, value)] + values),
            },
        }
    }
}

/// What a record encodes to: a mapping encodes as any value does, anything
/// else fails with `RootNotObject`.
pub open spec fn encoded_item(value: StructuredView) -> Result<WireView, EncodeError> {
    if value is Object {
        encoded(value)
    } else {
        Err(EncodeError::RootNotObject)
    }
}

/// The key of a record: a map of the partition key under `pk` and the sort
/// key under `sk`, both as strings.
pub open spec fn key_item(partition: Seq<char>, sort: Seq<char>) -> WireView {
    WireView::M(seq![("pk"@, WireView::S(partition)), ("sk"@, WireView::S(sort))])
}

/// The key of a record is well formed: its two names differ.
pub proof fn lemma_key_item_well_formed(partition: Seq<char>, sort: Seq<char>)
    ensures
        key_item(partition, sort).well_formed(),
{
    reveal_strlit("pk");
    reveal_strlit("sk");
    let fields = key_item(partition, sort)->M_0;
    assert(fields[0].0[0] == 'p');
    assert(fields[1].0[0] == 's');
    assert(fields[0].1.well_formed());
    assert(fields[1].1.well_formed());
}

/// What the result of encoding stands for.
pub open spec fn wire_outcome(result: Result<WireValue, EncodeError>) -> Result<
    WireView,
    EncodeError,
> {
    match result {
        Ok(wire) => Ok(wire@),
        Err(e) => Err(e),
    }
}

/// What the result of writing a number stands for.
pub open spec fn text_outcome(result: Result<String, EncodeError>) -> Result<
    Seq<char>,
    EncodeError,
> {
    match result {
        Ok(text) => Ok(text@),
        Err(e) => Err(e),
    }
}

/// Writes a number as the text of a wire number.
pub fn encode_number(n: &Number) -> (result: Result<String, EncodeError>)
    ensures
        text_outcome(result) == encoded_number(n@),
{
    match n {
        Number::Integer(i) => Ok(format_integer(*i)),
        Number::Float(text) => match classify_number(text.as_str()) {
            NumberClass::Integer(i) => Ok(format_integer(i)),
            NumberClass::Finite => Ok(text.clone()),
            _ => Err(EncodeError::UnrepresentableNumber),
        },
    }
}

/// Encodes structured data of any kind. Well-formed data gives a
/// well-formed wire value.
pub fn encode(value: &StructuredValue) -> (result: Result<WireValue, EncodeError>)
    ensures
        wire_outcome(result) == encoded(value@),
        value@.well_formed() && result is Ok ==> result->Ok_0@.well_formed(),
{
    let result = encode_value(value);
    proof {
        if value@.well_formed() && result is Ok {
            law_encode_keeps_well_formed(value@);
        }
    }
    result
}

fn encode_value(value: &StructuredValue) -> (result: Result<WireValue, EncodeError>)
    ensures
        wire_outcome(result) == encoded(value@),
    decreases value,
{
    match value {
        StructuredValue::Null => Ok(WireValue::Null(true)),
        StructuredValue::Bool(b) => Ok(WireValue::Bool(*b)),
        StructuredValue::Number(n) => match encode_number(n) {
            Ok(text) => Ok(WireValue::N(text)),
            Err(e) => Err(e),
        },
        StructuredValue::String(s) => Ok(WireValue::S(s.clone())),
        StructuredValue::Array(items) => {
            let ghost all = views_of(items@);
            let mut values: Vec<WireValue> = Vec::new();
            let mut i: usize = 0;
            proof {
                lemma_views_of(items@);
                assert(all.skip(0) =~= all);
                assert(wire_views_of(values@) =~= Seq::empty());
                match encoded_list(all) {
                    Ok(rest) => assert(Seq::<WireView>::empty() + rest =~= rest),
                    Err(_) => {},
                }
            }
            while i < items.len()
                invariant
                    i <= items.len(),
                    *value == StructuredValue::Array(*items),
                    all == views_of(items@),
                    all.len() == items.len(),
                    forall|k: int| 0 <= k < items.len() ==> (#[trigger] all[k]) == items@[k]@,
                    encoded_list(all) == after(
                        wire_views_of(values@),
                        encoded_list(all.skip(i as int)),
                    ),
                decreases items.len() - i,
            {
                proof {
                    let rest = all.skip(i as int);
                    assert(rest.first() == items@[i as int]@);
                    assert(rest.drop_first() =~= all.skip(i + 1));
                    assert(value->Array_0 == *items);
                    assert(decreases_to!(value => items@[i as int]));
                }
                match encode_value(&items[i]) {
                    Ok(wire) => {
                        proof {
                            let before = wire_views_of(values@);
                            let next = values@.push(wire);
                            assert(next.drop_last() =~= values@);
                            assert(wire_views_of(next) == before.push(wire@));
                            match encoded_list(all.skip(i + 1)) {
                                Ok(tail) => assert(before + (seq![wire@] + tail) =~= before.push(
                                    wire@,
                                ) + tail),
                                Err(_) => {},
                            }
                        }
                        values.push(wire);
                    },
                    Err(e) => {
                        return Err(e);
                    },
                }
                i = i + 1;
            }
            proof {
                assert(all.skip(i as int) =~= Seq::empty());
                assert(wire_views_of(values@) + Seq::<WireView>::empty() =~= wire_views_of(
                    values@,
                ));
            }
            Ok(WireValue::L(values))
        },
        StructuredValue::Object(fields) => {
            let ghost all = field_views_of(fields@);
            let mut values: Vec<(String, WireValue)> = Vec::new();
            let mut i: usize = 0;
            proof {
                lemma_field_views_of(fields@);
                assert(all.skip(0) =~= all);
                assert(wire_field_views_of(values@) =~= Seq::empty());
                match encoded_fields(all) {
                    Ok(rest) => assert(Seq::<(Seq<char>, WireView)>::empty() + rest =~= rest),
                    Err(_) => {},
                }
            }
            while i < fields.len()
                invariant
                    i <= fields.len(),
                    *value == StructuredValue::Object(*fields),
                    all == field_views_of(fields@),
                    all.len() == fields.len(),
                    forall|k: int|
                        0 <= k < fields.len() ==> (#[trigger] all[k]) == (
                            fields@[k].0@,
                            fields@[k].1@,
                        ),
                    encoded_fields(all) == after(
                        wire_field_views_of(values@),
                        encoded_fields(all.skip(i as int)),
                    ),
                decreases fields.len() - i,
            {
                proof {
                    let rest = all.skip(i as int);
                    assert(rest.first() == (fields@[i as int].0@, fields@[i as int].1@));
                    assert(rest.drop_first() =~= all.skip(i + 1));
                    assert(value->Object_0 == *fields);
                    assert(decreases_to!(value => fields@[i as int].1));
                }
                match encode_value(&fields[i].1) {
                    Ok(wire) => {
                        let name = fields[i].0.clone();
                        proof {
                            let before = wire_field_views_of(values@);
                            let next = values@.push((name, wire));
                            assert(next.drop_last() =~= values@);
                            assert(wire_field_views_of(next) == before.push((name@, wire@)));
                            match encoded_fields(all.skip(i + 1)) {
                                Ok(tail) => assert(before + (seq![(name@, wire@)] + tail)
                                    =~= before.push((name@, wire@)) + tail),
                                Err(_) => {},
                            }
                        }
                        values.push((name, wire));
                    },
                    Err(e) => {
                        return Err(e);
                    },
                }
                i = i + 1;
            }
            proof {
                assert(all.skip(i as int) =~= Seq::empty());
                assert(wire_field_views_of(values@) + Seq::<(Seq<char>, WireView)>::empty()
                    =~= wire_field_views_of(values@));
            }
            Ok(WireValue::M(values))
        },
    }
}

/// Encodes a record, which has to be a mapping of field names to values.
/// A well-formed record gives a well-formed item.
pub fn encode_item(value: &StructuredValue) -> (result: Result<WireValue, EncodeError>)
    ensures
        wire_outcome(result) == encoded_item(value@),
        value@.well_formed() && result is Ok ==> result->Ok_0@.well_formed(),
{
    match value {
        StructuredValue::Object(_) => encode(value),
        _ => Err(EncodeError::RootNotObject),
    }
}

/// Builds the key of a record from its partition key and its sort key.
pub fn build_key(partition: String, sort: String) -> (key: WireValue)
    ensures
        key@ == key_item(partition@, sort@),
        key@.well_formed(),
{
    let mut fields: Vec<(String, WireValue)> = Vec::new();
    fields.push((String::from_str("pk"), WireValue::S(partition)));
    fields.push((String::from_str("sk"), WireValue::S(sort)));
    let key = WireValue::M(fields);
    proof {
        crate::wire::lemma_wire_field_views_of(fields@);
        assert(key@->M_0 =~= key_item(partition@, sort@)->M_0);
        lemma_key_item_well_formed(partition@, sort@);
    }
    key
}

} // verus!
