//! What holds of encoding and decoding together.
use crate::decode::{decoded, decoded_fields, decoded_item, decoded_list, decoded_number};
use crate::encode::{encoded, encoded_fields, encoded_item, encoded_list, encoded_number};
use crate::error::{DecodeErrorView, DecodeFailureView, EncodeError};
use crate::number::{classify, lemma_integer_text_parses, NumberClass};
use crate::value::{NumberView, StructuredView};
use crate::wire::WireView;
use vstd::prelude::*;

verus! {

/// A canonical number, written and read again, is the same number: an integer
/// comes back as that integer, not as a decimal number, and the text of a
/// decimal number comes back character for character.
pub proof fn law_number_round_trip(n: NumberView)
    requires
        n.canonical(),
    ensures
        encoded_number(n) is Ok,
        decoded_number(encoded_number(n)->Ok_0) == Ok::<NumberView, DecodeErrorView>(n),
{
    match n {
        NumberView::Integer(i) => {
            lemma_integer_text_parses(i);
        },
        NumberView::Float(_) => {},
    }
}

/// Round trip: structured data whose numbers are canonical, encoded and then
/// decoded with a budget that its nesting does not exceed, is the same
/// structured data, entry for entry and in the same order.
pub proof fn law_round_trip(value: StructuredView, budget: nat)
    requires
        value.canonical(),
        value.nesting() <= budget,
    ensures
        encoded(value) is Ok,
        decoded(encoded(value)->Ok_0, budget) == Ok::<StructuredView, DecodeFailureView>(value),
    decreases value,
{
    match value {
        StructuredView::Number(n) => {
            law_number_round_trip(n);
        },
        StructuredView::Array(items) => {
            law_round_trip_list(items, (budget - 1) as nat, 0);
        },
        StructuredView::Object(fields) => {
            law_round_trip_fields(fields, (budget - 1) as nat);
        },
        _ => {},
    }
}

/// Round trip, for the items of a sequence.
pub proof fn law_round_trip_list(items: Seq<StructuredView>, budget: nat, index: nat)
    requires
        forall|i: int| 0 <= i < items.len() ==> (#[trigger] items[i]).canonical(),
        StructuredView::deepest(items) <= budget,
    ensures
        encoded_list(items) is Ok,
        decoded_list(encoded_list(items)->Ok_0, budget, index) == Ok::<
            Seq<StructuredView>,
            DecodeFailureView,
        >(items),
    decreases items,
{
    if items.len() > 0 {
        let rest = items.drop_first();
        assert(items.first() == items[0]);
        assert forall|i: int| 0 <= i < rest.len() implies (#[trigger] rest[i]).canonical() by {
            assert(rest[i] == items[i + 1]);
        }
        law_round_trip(items.first(), budget);
        law_round_trip_list(rest, budget, index + 1);
        let wire = encoded(items.first())->Ok_0;
        let wires = encoded_list(rest)->Ok_0;
        let all = seq![wire] + wires;
        assert(encoded_list(items) == Ok::<Seq<WireView>, EncodeError>(all));
        assert(all.first() == wire);
        assert(all.drop_first() =~= wires);
        assert(seq![items.first()] + rest =~= items);
    } else {
        assert(encoded_list(items) == Ok::<Seq<WireView>, EncodeError>(Seq::empty()));
        assert(items =~= Seq::empty());
    }
}

/// Round trip, for the entries of a mapping: every value comes back under
/// its own name.
pub proof fn law_round_trip_fields(fields: Seq<(Seq<char>, StructuredView)>, budget: nat)
    requires
        forall|i: int| 0 <= i < fields.len() ==> (#[trigger] fields[i]).1.canonical(),
        StructuredView::deepest_field(fields) <= budget,
    ensures
        encoded_fields(fields) is Ok,
        decoded_fields(encoded_fields(fields)->Ok_0, budget) == Ok::<
            Seq<(Seq<char>, StructuredView)>,
            DecodeFailureView,
        >(fields),
    decreases fields,
{
    if fields.len() > 0 {
        let rest = fields.drop_first();
        assert(fields.first() == fields[0]);
        assert forall|i: int| 0 <= i < rest.len() implies (#[trigger] rest[i]).1.canonical() by {
            assert(rest[i] == fields[i + 1]);
        }
        law_round_trip(fields.first().1, budget);
        law_round_trip_fields(rest, budget);
        let wire = encoded(fields.first().1)->Ok_0;
        let wires = encoded_fields(rest)->Ok_0;
        let all = seq![(fields.first().0, wire)] + wires;
        assert(encoded_fields(fields) == Ok::<Seq<(Seq<char>, WireView)>, EncodeError>(all));
        assert(all.first() == (fields.first().0, wire));
        assert(all.drop_first() =~= wires);
        assert(seq![fields.first()] + rest =~= fields);
    } else {
        assert(encoded_fields(fields) == Ok::<Seq<(Seq<char>, WireView)>, EncodeError>(
            Seq::empty(),
        ));
        assert(fields =~= Seq::empty());
    }
}

/// Totality: encoding fails on no structured data but on a number that
/// cannot be written, and then with `UnrepresentableNumber`.
pub proof fn law_encode_total(value: StructuredView)
    ensures
        encoded(value) is Ok <==> value.representable(),
        encoded(value) is Err ==> encoded(value) == Err::<WireView, EncodeError>(
            EncodeError::UnrepresentableNumber,
        ),
    decreases value,
{
    match value {
        StructuredView::Array(items) => {
            law_encode_total_list(items);
        },
        StructuredView::Object(fields) => {
            law_encode_total_fields(fields);
        },
        _ => {},
    }
}

/// Totality, for the items of a sequence.
pub proof fn law_encode_total_list(items: Seq<StructuredView>)
    ensures
        encoded_list(items) is Ok <==> forall|i: int|
            0 <= i < items.len() ==> (#[trigger] items[i]).representable(),
        encoded_list(items) is Err ==> encoded_list(items) == Err::<Seq<WireView>, EncodeError>(
            EncodeError::UnrepresentableNumber,
        ),
    decreases items,
{
    if items.len() > 0 {
        let rest = items.drop_first();
        law_encode_total(items.first());
        law_encode_total_list(rest);
        assert(items.first() == items[0]);
        if encoded_list(items) is Ok {
            assert forall|i: int| 0 <= i < items.len() implies (
            #[trigger] items[i]).representable() by {
                if i > 0 {
                    assert(items[i] == rest[i - 1]);
                }
            }
        } else if encoded(items.first()) is Ok {
            let j = choose|j: int| 0 <= j < rest.len() && !(#[trigger] rest[j]).representable();
            assert(items[j + 1] == rest[j]);
        }
    } else {
        assert(encoded_list(items) is Ok);
    }
}

/// Totality, for the entries of a mapping.
pub proof fn law_encode_total_fields(fields: Seq<(Seq<char>, StructuredView)>)
    ensures
        encoded_fields(fields) is Ok <==> forall|i: int|
            0 <= i < fields.len() ==> (#[trigger] fields[i]).1.representable(),
        encoded_fields(fields) is Err ==> encoded_fields(fields) == Err::<
            Seq<(Seq<char>, WireView)>,
            EncodeError,
        >(EncodeError::UnrepresentableNumber),
    decreases fields,
{
    if fields.len() > 0 {
        let rest = fields.drop_first();
        law_encode_total(fields.first().1);
        law_encode_total_fields(rest);
        assert(fields.first() == fields[0]);
        if encoded_fields(fields) is Ok {
            assert forall|i: int| 0 <= i < fields.len() implies (
            #[trigger] fields[i]).1.representable() by {
                if i > 0 {
                    assert(fields[i] == rest[i - 1]);
                }
            }
        } else if encoded(fields.first().1) is Ok {
            let j = choose|j: int| 0 <= j < rest.len() && !(#[trigger] rest[j]).1.representable();
            assert(fields[j + 1] == rest[j]);
        }
    } else {
        assert(encoded_fields(fields) is Ok);
    }
}

/// Totality, for records: encoding a record fails with `RootNotObject`
/// exactly where the record is no mapping, with `UnrepresentableNumber`
/// exactly where it is a mapping that holds a number that cannot be written,
/// and in no other way.
pub proof fn law_encode_item_total(value: StructuredView)
    ensures
        encoded_item(value) == Err::<WireView, EncodeError>(EncodeError::RootNotObject) <==> !(value
            is Object),
        encoded_item(value) == Err::<WireView, EncodeError>(EncodeError::UnrepresentableNumber)
            <==> value is Object && !value.representable(),
        encoded_item(value) is Ok <==> value is Object && value.representable(),
{
    law_encode_total(value);
}

/// Round trip, for records: a mapping whose numbers are canonical, encoded
/// as a record and decoded as one, is the same mapping.
pub proof fn law_item_round_trip(value: StructuredView, budget: nat)
    requires
        value is Object,
        value.canonical(),
        value.nesting() <= budget,
    ensures
        encoded_item(value) is Ok,
        decoded_item(encoded_item(value)->Ok_0, budget) == Ok::<
            StructuredView,
            DecodeFailureView,
        >(value),
{
    law_round_trip(value, budget);
}

/// Binary values and sets are never decoded, whatever they hold and whatever
/// the budget: each fails with `UnsupportedVariant` and its tag, at the value
/// itself.
pub proof fn law_unsupported_variants(wire: WireView, budget: nat)
    ensures
        wire is B ==> decoded(wire, budget) == Err::<StructuredView, DecodeFailureView>(
            DecodeFailureView::here(DecodeErrorView::UnsupportedVariant("B"@)),
        ),
        wire is Ss ==> decoded(wire, budget) == Err::<StructuredView, DecodeFailureView>(
            DecodeFailureView::here(DecodeErrorView::UnsupportedVariant("SS"@)),
        ),
        wire is Ns ==> decoded(wire, budget) == Err::<StructuredView, DecodeFailureView>(
            DecodeFailureView::here(DecodeErrorView::UnsupportedVariant("NS"@)),
        ),
        wire is Bs ==> decoded(wire, budget) == Err::<StructuredView, DecodeFailureView>(
            DecodeFailureView::here(DecodeErrorView::UnsupportedVariant("BS"@)),
        ),
{
}

/// Fail-fast: a mapping with one entry whose value cannot be encoded cannot
/// be encoded either. It fails with that entry's error, whatever its other
/// entries hold, and so yields no wire value at all.
pub proof fn law_fail_fast(fields: Seq<(Seq<char>, StructuredView)>, i: int)
    requires
        0 <= i < fields.len(),
        encoded(fields[i].1) is Err,
    ensures
        encoded(StructuredView::Object(fields)) == Err::<WireView, EncodeError>(
            encoded(fields[i].1)->Err_0,
        ),
{
    law_encode_total(fields[i].1);
    law_encode_total_fields(fields);
    law_encode_total(StructuredView::Object(fields));
}

/// Null encodes to the null marker with its flag set, and the null marker
/// decodes to null whatever its flag: never to a default, and inside a
/// mapping never to a missing entry.
pub proof fn law_null_round_trip(flag: bool, budget: nat)
    ensures
        encoded(StructuredView::Null) == Ok::<WireView, EncodeError>(WireView::Null(true)),
        decoded(WireView::Null(flag), budget) == Ok::<StructuredView, DecodeFailureView>(
            StructuredView::Null,
        ),
{
}

/// Any number that can be written comes back normalized: as the integer
/// that it denotes where that is one of 64 bits, else as the same text.
pub proof fn law_number_round_trip_normalizes(n: NumberView)
    requires
        n.representable(),
    ensures
        encoded_number(n) is Ok,
        decoded_number(encoded_number(n)->Ok_0) == Ok::<NumberView, DecodeErrorView>(
            n.normalized(),
        ),
{
    match n {
        NumberView::Integer(i) => {
            lemma_integer_text_parses(i);
        },
        NumberView::Float(text) => {
            if let NumberClass::Integer(i) = classify(text) {
                lemma_integer_text_parses(i);
            }
        },
    }
}

/// Round trip of any structured data that can be encoded: decoded again
/// with a budget that its nesting does not exceed, it is the same data with
/// its numbers normalized. The numbers keep their value; one that was held
/// as the text of a 64-bit integer comes back as that integer.
pub proof fn law_round_trip_normalizes(value: StructuredView, budget: nat)
    requires
        value.representable(),
        value.nesting() <= budget,
    ensures
        encoded(value) is Ok,
        decoded(encoded(value)->Ok_0, budget) == Ok::<StructuredView, DecodeFailureView>(
            value.normalized(),
        ),
    decreases value,
{
    match value {
        StructuredView::Number(n) => {
            law_number_round_trip_normalizes(n);
        },
        StructuredView::Array(items) => {
            law_round_trip_normalizes_list(items, (budget - 1) as nat, 0);
        },
        StructuredView::Object(fields) => {
            law_round_trip_normalizes_fields(fields, (budget - 1) as nat);
        },
        _ => {},
    }
}

/// Round trip of what can be encoded, for the items of a sequence.
pub proof fn law_round_trip_normalizes_list(items: Seq<StructuredView>, budget: nat, index: nat)
    requires
        forall|i: int| 0 <= i < items.len() ==> (#[trigger] items[i]).representable(),
        StructuredView::deepest(items) <= budget,
    ensures
        encoded_list(items) is Ok,
        decoded_list(encoded_list(items)->Ok_0, budget, index) == Ok::<
            Seq<StructuredView>,
            DecodeFailureView,
        >(StructuredView::normalized_list(items)),
    decreases items,
{
    if items.len() > 0 {
        let rest = items.drop_first();
        assert(items.first() == items[0]);
        assert forall|i: int| 0 <= i < rest.len() implies (#[trigger] rest[i]).representable() by {
            assert(rest[i] == items[i + 1]);
        }
        law_round_trip_normalizes(items.first(), budget);
        law_round_trip_normalizes_list(rest, budget, index + 1);
        let wire = encoded(items.first())->Ok_0;
        let wires = encoded_list(rest)->Ok_0;
        let all = seq![wire] + wires;
        assert(encoded_list(items) == Ok::<Seq<WireView>, EncodeError>(all));
        assert(all.first() == wire);
        assert(all.drop_first() =~= wires);
    } else {
        assert(encoded_list(items) == Ok::<Seq<WireView>, EncodeError>(Seq::empty()));
    }
}

/// Round trip of what can be encoded, for the entries of a mapping.
pub proof fn law_round_trip_normalizes_fields(
    fields: Seq<(Seq<char>, StructuredView)>,
    budget: nat,
)
    requires
        forall|i: int| 0 <= i < fields.len() ==> (#[trigger] fields[i]).1.representable(),
        StructuredView::deepest_field(fields) <= budget,
    ensures
        encoded_fields(fields) is Ok,
        decoded_fields(encoded_fields(fields)->Ok_0, budget) == Ok::<
            Seq<(Seq<char>, StructuredView)>,
            DecodeFailureView,
        >(StructuredView::normalized_fields(fields)),
    decreases fields,
{
    if fields.len() > 0 {
        let rest = fields.drop_first();
        assert(fields.first() == fields[0]);
        assert forall|i: int| 0 <= i < rest.len() implies (
        #[trigger] rest[i]).1.representable() by {
            assert(rest[i] == fields[i + 1]);
        }
        law_round_trip_normalizes(fields.first().1, budget);
        law_round_trip_normalizes_fields(rest, budget);
        let wire = encoded(fields.first().1)->Ok_0;
        let wires = encoded_fields(rest)->Ok_0;
        let all = seq![(fields.first().0, wire)] + wires;
        assert(encoded_fields(fields) == Ok::<Seq<(Seq<char>, WireView)>, EncodeError>(all));
        assert(all.first() == (fields.first().0, wire));
        assert(all.drop_first() =~= wires);
    } else {
        assert(encoded_fields(fields) == Ok::<Seq<(Seq<char>, WireView)>, EncodeError>(
            Seq::empty(),
        ));
    }
}

} // verus!
