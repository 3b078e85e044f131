//! Decoding: from a wire value to the structured data it stands for.
use crate::error::{
    DecodeError, DecodeErrorView, DecodeFailure, DecodeFailureView, PathStep, PathStepView,
};
use crate::laws_items::law_decode_keeps_well_formed;
use crate::number::{classify, classify_number, NumberClass};
use crate::value::{
    after, field_views_of, views_of, Number, NumberView, StructuredValue, StructuredView,
};
use crate::wire::{
    lemma_wire_field_views_of, lemma_wire_views_of, wire_field_views_of, wire_views_of,
    WireValue, WireView,
};
use vstd::prelude::*;

verus! {

/// The nesting that a decoder allows where nothing else is asked for.
pub const DEFAULT_MAX_DEPTH: usize = 128;

/// What the text of a wire number decodes to: an integer where the text is
/// one that fits in 64 bits, else the text itself where it is a finite
/// decimal number.
pub open spec fn decoded_number(text: Seq<char>) -> Result<NumberView, DecodeErrorView> {
    match classify(text) {
        NumberClass::Integer(i) => Ok(NumberView::Integer(i)),
        NumberClass::Finite => Ok(NumberView::Float(text)),
        NumberClass::NonFinite => Err(DecodeErrorView::NonFiniteNumber),
        NumberClass::Malformed => Err(DecodeErrorView::MalformedNumber(text)),
    }
}

/// What a wire value decodes to when lists and maps may lie `budget` deep.
///
/// Strings, booleans and numbers decode to themselves, a null of either flag
/// to null, lists and maps item by item. The first item that fails, in order,
/// decides the failure: it is that item's failure, with its index or name put
/// in front of the path. A list or map met with no budget left fails with
/// `MaxDepthExceeded`, whatever it holds. Binary values and sets fail with
/// `UnsupportedVariant` and their tag.
pub open spec fn decoded(wire: WireView, budget: nat) -> Result<StructuredView, DecodeFailureView>
    decreases wire,
{
    match wire {
        WireView::S(s) => Ok(StructuredView::String(s)),
        WireView::N(text) => match decoded_number(text) {
            Ok(n) => Ok(StructuredView::Number(n)),
            Err(e) => Err(DecodeFailureView::here(e)),
        },
        WireView::Bool(b) => Ok(StructuredView::Bool(b)),
        WireView::Null(_) => Ok(StructuredView::Null),
        WireView::L(items) => if budget == 0 {
            Err(DecodeFailureView::here(DecodeErrorView::MaxDepthExceeded))
        } else {
            match decoded_list(items, (budget - 1) as nat, 0) {
                Ok(values) => Ok(StructuredView::Array(values)),
                Err(f) => Err(f),
            }
        },
        WireView::M(fields) => if budget == 0 {
            Err(DecodeFailureView::here(DecodeErrorView::MaxDepthExceeded))
        } else {
            match decoded_fields(fields, (budget - 1) as nat) {
                Ok(values) => Ok(StructuredView::Object(values)),
                Err(f) => Err(f),
            }
        },
        WireView::B(_) => Err(
            DecodeFailureView::here(DecodeErrorView::UnsupportedVariant("B"@)),
        ),
        WireView::Ss(_) => Err(
            DecodeFailureView::here(DecodeErrorView::UnsupportedVariant("SS"@)),
        ),
        WireView::Ns(_) => Err(
            DecodeFailureView::here(DecodeErrorView::UnsupportedVariant("NS"@)),
        ),
        WireView::Bs(_) => Err(
            DecodeFailureView::here(DecodeErrorView::UnsupportedVariant("BS"@)),
        ),
    }
}

/// What the items of a list decode to, the first of them standing at
/// position `index` of the list.
pub open spec fn decoded_list(items: Seq<WireView>, budget: nat, index: nat) -> Result<
    Seq<StructuredView>,
    DecodeFailureView,
>
    decreases items,
{
    if items.len() == 0 {
        Ok(Seq::empty())
    } else {
        match decoded(items.first(), budget) {
            Err(f) => Err(f.under(PathStepView::Index(index))),
            Ok(value) => match decoded_list(items.drop_first(), budget, index + 1) {
                Err(f) => Err(f),
                Ok(values) => Ok(seq![value] + values),
            },
        }
    }
}

/// What the entries of a map decode to.
pub open spec fn decoded_fields(fields: Seq<(Seq<char>, WireView)>, budget: nat) -> Result<
    Seq<(Seq<char>, StructuredView)>,
    DecodeFailureView,
>
    decreases fields,
{
    if fields.len() == 0 {
        Ok(Seq::empty())
    } else {
        match decoded(fields.first().1, budget) {
            Err(f) => Err(f.under(PathStepView::Field(fields.first().0))),
            Ok(value) => match decoded_fields(fields.drop_first(), budget) {
                Err(f) => Err(f),
                Ok(values) => Ok(seq![(fields.first().0, value)] + values),
            },
        }
    }
}

/// What a record's wire value decodes to: a map decodes as any value does,
/// anything else fails with `RootNotObject`.
pub open spec fn decoded_item(wire: WireView, budget: nat) -> Result<
    StructuredView,
    DecodeFailureView,
> {
    if wire is M {
        decoded(wire, budget)
    } else {
        Err(DecodeFailureView::here(DecodeErrorView::RootNotObject))
    }
}

/// What a run of records decodes to, the first of them standing at position
/// `index` of the run: every record's structured data, or the failure of the
/// first record that fails, with the record's position in front of the path.
pub open spec fn decoded_items(items: Seq<WireView>, budget: nat, index: nat) -> Result<
    Seq<StructuredView>,
    DecodeFailureView,
>
    decreases items.len(),
{
    if items.len() == 0 {
        Ok(Seq::empty())
    } else {
        match decoded_item(items.first(), budget) {
            Err(f) => Err(f.under(PathStepView::Index(index))),
            Ok(value) => match decoded_items(items.drop_first(), budget, index + 1) {
                Err(f) => Err(f),
                Ok(values) => Ok(seq![value] + values),
            },
        }
    }
}

/// What the result of decoding one value stands for.
pub open spec fn value_outcome(result: Result<StructuredValue, DecodeFailure>) -> Result<
    StructuredView,
    DecodeFailureView,
> {
    match result {
        Ok(value) => Ok(value@),
        Err(failure) => Err(failure@),
    }
}

/// What the result of decoding a run of values stands for.
pub open spec fn values_outcome(result: Result<Vec<StructuredValue>, DecodeFailure>) -> Result<
    Seq<StructuredView>,
    DecodeFailureView,
> {
    match result {
        Ok(values) => Ok(views_of(values@)),
        Err(failure) => Err(failure@),
    }
}

/// Reads the text of a wire number.
pub fn decode_number(text: &String) -> (result: Result<Number, DecodeError>)
    ensures
        match result {
            Ok(n) => decoded_number(text@) == Ok::<NumberView, DecodeErrorView>(n@),
            Err(e) => decoded_number(text@) == Err::<NumberView, DecodeErrorView>(e@),
        },
{
    match classify_number(text.as_str()) {
        NumberClass::Integer(i) => Ok(Number::Integer(i)),
        NumberClass::Finite => Ok(Number::Float(text.clone())),
        NumberClass::NonFinite => Err(DecodeError::NonFiniteNumber),
        NumberClass::Malformed => Err(DecodeError::MalformedNumber(text.clone())),
    }
}

/// A decoder: how deep lists and maps may lie inside one another.
#[derive(Debug, Clone, Copy, PartialEq, Eq)]
pub struct Decoder {
    pub max_depth: usize,
}

impl Decoder {
    /// A decoder that allows lists and maps to lie `max_depth` deep.
    pub fn new(max_depth: usize) -> (decoder: Decoder)
        ensures
            decoder.max_depth == max_depth,
    {
        Decoder { max_depth }
    }

    /// Decodes a wire value of any kind. A well-formed wire value gives
    /// well-formed structured data.
    pub fn decode(&self, wire: &WireValue) -> (result: Result<StructuredValue, DecodeFailure>)
        ensures
            value_outcome(result) == decoded(wire@, self.max_depth as nat),
            wire@.well_formed() && result is Ok ==> result->Ok_0@.well_formed(),
    {
        let result = decode_within(wire, self.max_depth);
        proof {
            if wire@.well_formed() && result is Ok {
                law_decode_keeps_well_formed(wire@, self.max_depth as nat);
            }
        }
        result
    }

    /// Decodes the wire value of one record, which has to be a map.
    pub fn decode_item(&self, wire: &WireValue) -> (result: Result<
        StructuredValue,
        DecodeFailure,
    >)
        ensures
            value_outcome(result) == decoded_item(wire@, self.max_depth as nat),
            wire@.well_formed() && result is Ok ==> result->Ok_0@.well_formed(),
    {
        match wire {
            WireValue::M(_) => self.decode(wire),
            _ => Err(DecodeFailure::here(DecodeError::RootNotObject)),
        }
    }

    /// Decodes the wire values of a run of records, as a read of several
    /// records returns them. One record that fails makes the whole run fail:
    /// no shorter run is handed out.
    pub fn decode_items(&self, items: &Vec<WireValue>) -> (result: Result<
        Vec<StructuredValue>,
        DecodeFailure,
    >)
        ensures
            values_outcome(result) == decoded_items(
                wire_views_of(items@),
                self.max_depth as nat,
                0,
            ),
    {
        let ghost all = wire_views_of(items@);
        let ghost budget = self.max_depth as nat;
        let mut values: Vec<StructuredValue> = Vec::new();
        let mut i: usize = 0;
        proof {
            lemma_wire_views_of(items@);
            assert(all.skip(0) =~= all);
            assert(views_of(values@) =~= Seq::empty());
            match decoded_items(all, budget, 0) {
                Ok(rest) => assert(Seq::<StructuredView>::empty() + rest =~= rest),
                Err(_) => {},
            }
        }
        while i < items.len()
            invariant
                i <= items.len(),
                budget == self.max_depth as nat,
                all == wire_views_of(items@),
                all.len() == items.len(),
                forall|k: int| 0 <= k < items.len() ==> (#[trigger] all[k]) == items@[k]@,
                decoded_items(all, budget, 0) == after(
                    views_of(values@),
                    decoded_items(all.skip(i as int), budget, i as nat),
                ),
            decreases items.len() - i,
        {
            proof {
                let rest = all.skip(i as int);
                assert(rest.first() == items@[i as int]@);
                assert(rest.drop_first() =~= all.skip(i + 1));
            }
            match self.decode_item(&items[i]) {
                Ok(value) => {
                    proof {
                        let before = views_of(values@);
                        let next = values@.push(value);
                        assert(next.drop_last() =~= values@);
                        assert(views_of(next) == before.push(value@));
                        match decoded_items(all.skip(i + 1), budget, (i + 1) as nat) {
                            Ok(tail) => assert(before + (seq![value@] + tail) =~= before.push(
                                value@,
                            ) + tail),
                            Err(_) => {},
                        }
                    }
                    values.push(value);
                },
                Err(failure) => {
                    return Err(failure.under(PathStep::Index(i)));
                },
            }
            i = i + 1;
        }
        proof {
            assert(all.skip(i as int) =~= Seq::empty());
            assert(views_of(values@) + Seq::<StructuredView>::empty() =~= views_of(values@));
        }
        Ok(values)
    }
}

impl Default for Decoder {
    /// The decoder that allows [`DEFAULT_MAX_DEPTH`].
    fn default() -> (decoder: Decoder)
        ensures
            decoder.max_depth == DEFAULT_MAX_DEPTH,
    {
        Decoder { max_depth: DEFAULT_MAX_DEPTH }
    }
}

/// Decodes a wire value of any kind, with lists and maps at most
/// [`DEFAULT_MAX_DEPTH`] deep.
pub fn decode(wire: &WireValue) -> (result: Result<StructuredValue, DecodeFailure>)
    ensures
        value_outcome(result) == decoded(wire@, DEFAULT_MAX_DEPTH as nat),
        wire@.well_formed() && result is Ok ==> result->Ok_0@.well_formed(),
{
    Decoder::new(DEFAULT_MAX_DEPTH).decode(wire)
}

/// Decodes the wire value of one record, which has to be a map, with lists
/// and maps at most [`DEFAULT_MAX_DEPTH`] deep.
pub fn decode_item(wire: &WireValue) -> (result: Result<StructuredValue, DecodeFailure>)
    ensures
        value_outcome(result) == decoded_item(wire@, DEFAULT_MAX_DEPTH as nat),
        wire@.well_formed() && result is Ok ==> result->Ok_0@.well_formed(),
{
    Decoder::new(DEFAULT_MAX_DEPTH).decode_item(wire)
}

/// Decodes the wire values of a run of records, each with lists and maps at
/// most [`DEFAULT_MAX_DEPTH`] deep. One record that fails makes the whole run
/// fail.
pub fn decode_items(items: &Vec<WireValue>) -> (result: Result<
    Vec<StructuredValue>,
    DecodeFailure,
>)
    ensures
        values_outcome(result) == decoded_items(
            wire_views_of(items@),
            DEFAULT_MAX_DEPTH as nat,
            0,
        ),
{
    Decoder::new(DEFAULT_MAX_DEPTH).decode_items(items)
}

fn unsupported(tag: &str) -> (failure: DecodeFailure)
    ensures
        failure@ == DecodeFailureView::here(DecodeErrorView::UnsupportedVariant(tag@)),
{
    DecodeFailure::here(DecodeError::UnsupportedVariant(String::from_str(tag)))
}

fn decode_within(wire: &WireValue, budget: usize) -> (result: Result<
    StructuredValue,
    DecodeFailure,
>)
    ensures
        value_outcome(result) == decoded(wire@, budget as nat),
    decreases wire,
{
    match wire {
        WireValue::S(s) => Ok(StructuredValue::String(s.clone())),
        WireValue::N(text) => match decode_number(text) {
            Ok(n) => Ok(StructuredValue::Number(n)),
            Err(e) => Err(DecodeFailure::here(e)),
        },
        WireValue::Bool(b) => Ok(StructuredValue::Bool(*b)),
        WireValue::Null(_) => Ok(StructuredValue::Null),
        WireValue::L(items) => {
            if budget == 0 {
                return Err(DecodeFailure::here(DecodeError::MaxDepthExceeded));
            }
            let ghost all = wire_views_of(items@);
            let mut values: Vec<StructuredValue> = Vec::new();
            let mut i: usize = 0;
            proof {
                lemma_wire_views_of(items@);
                assert(all.skip(0) =~= all);
                assert(views_of(values@) =~= Seq::empty());
                assert(decoded_list(all, (budget - 1) as nat, 0) == after(
                    views_of(values@),
                    decoded_list(all.skip(0), (budget - 1) as nat, 0),
                )) by {
                    match decoded_list(all, (budget - 1) as nat, 0) {
                        Ok(rest) => assert(Seq::<StructuredView>::empty() + rest =~= rest),
                        Err(_) => {},
                    }
                }
            }
            while i < items.len()
                invariant
                    i <= items.len(),
                    budget > 0,
                    *wire == WireValue::L(*items),
                    all == wire_views_of(items@),
                    all.len() == items.len(),
                    forall|k: int| 0 <= k < items.len() ==> (#[trigger] all[k]) == items@[k]@,
                    decoded_list(all, (budget - 1) as nat, 0) == after(
                        views_of(values@),
                        decoded_list(all.skip(i as int), (budget - 1) as nat, i as nat),
                    ),
                decreases items.len() - i,
            {
                let ghost rest = all.skip(i as int);
                proof {
                    assert(rest.first() == items@[i as int]@);
                    assert(rest.drop_first() =~= all.skip(i + 1));
                    assert(wire->L_0 == *items);
                    assert(decreases_to!(wire => items@[i as int]));
                }
                match decode_within(&items[i], budget - 1) {
                    Ok(value) => {
                        proof {
                            let before = views_of(values@);
                            let next = values@.push(value);
                            assert(next.drop_last() =~= values@);
                            assert(views_of(next) == before.push(value@));
                            match decoded_list(
                                all.skip(i + 1),
                                (budget - 1) as nat,
                                (i + 1) as nat,
                            ) {
                                Ok(tail) => assert(before + (seq![value@] + tail) =~= before.push(
                                    value@,
                                ) + tail),
                                Err(_) => {},
                            }
                        }
                        values.push(value);
                    },
                    Err(failure) => {
                        return Err(failure.under(PathStep::Index(i)));
                    },
                }
                i = i + 1;
            }
            proof {
                assert(all.skip(i as int) =~= Seq::empty());
                assert(views_of(values@) + Seq::<StructuredView>::empty() =~= views_of(values@));
            }
            Ok(StructuredValue::Array(values))
        },
        WireValue::M(fields) => {
            if budget == 0 {
                return Err(DecodeFailure::here(DecodeError::MaxDepthExceeded));
            }
            let ghost all = wire_field_views_of(fields@);
            let mut values: Vec<(String, StructuredValue)> = Vec::new();
            let mut i: usize = 0;
            proof {
                lemma_wire_field_views_of(fields@);
                assert(all.skip(0) =~= all);
                assert(field_views_of(values@) =~= Seq::empty());
                assert(decoded_fields(all, (budget - 1) as nat) == after(
                    field_views_of(values@),
                    decoded_fields(all.skip(0), (budget - 1) as nat),
                )) by {
                    match decoded_fields(all, (budget - 1) as nat) {
                        Ok(rest) => assert(Seq::<(Seq<char>, StructuredView)>::empty() + rest
                            =~= rest),
                        Err(_) => {},
                    }
                }
            }
            while i < fields.len()
                invariant
                    i <= fields.len(),
                    budget > 0,
                    *wire == WireValue::M(*fields),
                    all == wire_field_views_of(fields@),
                    all.len() == fields.len(),
                    forall|k: int|
                        0 <= k < fields.len() ==> (#[trigger] all[k]) == (
                            fields@[k].0@,
                            fields@[k].1@,
                        ),
                    decoded_fields(all, (budget - 1) as nat) == after(
                        field_views_of(values@),
                        decoded_fields(all.skip(i as int), (budget - 1) as nat),
                    ),
                decreases fields.len() - i,
            {
                let ghost rest = all.skip(i as int);
                proof {
                    assert(rest.first() == (fields@[i as int].0@, fields@[i as int].1@));
                    assert(rest.drop_first() =~= all.skip(i + 1));
                    assert(wire->M_0 == *fields);
                    assert(decreases_to!(wire => fields@[i as int].1));
                }
                match decode_within(&fields[i].1, budget - 1) {
                    Ok(value) => {
                        let name = fields[i].0.clone();
                        proof {
                            let before = field_views_of(values@);
                            let next = values@.push((name, value));
                            assert(next.drop_last() =~= values@);
                            assert(field_views_of(next) == before.push((name@, value@)));
                            match decoded_fields(all.skip(i + 1), (budget - 1) as nat) {
                                Ok(tail) => assert(before + (seq![(name@, value@)] + tail)
                                    =~= before.push((name@, value@)) + tail),
                                Err(_) => {},
                            }
                        }
                        values.push((name, value));
                    },
                    Err(failure) => {
                        return Err(failure.under(PathStep::Field(fields[i].0.clone())));
                    },
                }
                i = i + 1;
            }
            proof {
                assert(all.skip(i as int) =~= Seq::empty());
                assert(field_views_of(values@) + Seq::<(Seq<char>, StructuredView)>::empty()
                    =~= field_views_of(values@));
            }
            Ok(StructuredValue::Object(values))
        },
        WireValue::B(_) => Err(unsupported("B")),
        WireValue::Ss(_) => Err(unsupported("SS")),
        WireValue::Ns(_) => Err(unsupported("NS")),
        WireValue::Bs(_) => Err(unsupported("BS")),
    }
}

} // verus!
