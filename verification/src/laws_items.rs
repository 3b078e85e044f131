//! What holds of lists and maps item by item: every item is encoded and
//! decoded on its own and stays at its place and under its name, and the
//! first item that fails decides the failure.
use crate::decode::{decoded, decoded_fields, decoded_list};
use crate::encode::{encoded, encoded_fields, encoded_list};
use crate::error::{DecodeFailureView, EncodeError, PathStepView};
use crate::value::StructuredView;
use crate::wire::WireView;
use vstd::prelude::*;

verus! {

/// A sequence encodes to the list of what its items encode to, each at its
/// place.
pub proof fn law_encode_list_by_item(items: Seq<StructuredView>)
    requires
        encoded_list(items) is Ok,
    ensures
        encoded_list(items)->Ok_0.len() == items.len(),
        forall|i: int|
            0 <= i < items.len() ==> encoded(#[trigger] items[i]) == Ok::<WireView, EncodeError>(
                encoded_list(items)->Ok_0[i],
            ),
    decreases items,
{
    if items.len() > 0 {
        let rest = items.drop_first();
        law_encode_list_by_item(rest);
        let wires = encoded_list(items)->Ok_0;
        let tail = encoded_list(rest)->Ok_0;
        assert(wires == seq![encoded(items.first())->Ok_0] + tail);
        assert forall|i: int| 0 <= i < items.len() implies encoded(#[trigger] items[i]) == Ok::<
            WireView,
            EncodeError,
        >(wires[i]) by {
            if i > 0 {
                assert(items[i] == rest[i - 1]);
                assert(wires[i] == tail[i - 1]);
            }
        }
    }
}

/// A mapping encodes to the map of what its values encode to, each under
/// its own name and at its place.
pub proof fn law_encode_fields_by_entry(fields: Seq<(Seq<char>, StructuredView)>)
    requires
        encoded_fields(fields) is Ok,
    ensures
        encoded_fields(fields)->Ok_0.len() == fields.len(),
        forall|i: int|
            0 <= i < fields.len() ==> (#[trigger] encoded_fields(fields)->Ok_0[i]).0
                == fields[i].0,
        forall|i: int|
            0 <= i < fields.len() ==> encoded((#[trigger] fields[i]).1) == Ok::<
                WireView,
                EncodeError,
            >(encoded_fields(fields)->Ok_0[i].1),
    decreases fields,
{
    if fields.len() > 0 {
        let rest = fields.drop_first();
        law_encode_fields_by_entry(rest);
        let wires = encoded_fields(fields)->Ok_0;
        let tail = encoded_fields(rest)->Ok_0;
        assert(wires == seq![(fields.first().0, encoded(fields.first().1)->Ok_0)] + tail);
        assert forall|i: int| 0 <= i < fields.len() implies (#[trigger] wires[i]).0
            == fields[i].0 by {
            if i > 0 {
                assert(fields[i] == rest[i - 1]);
                assert(wires[i] == tail[i - 1]);
            }
        }
        assert forall|i: int| 0 <= i < fields.len() implies encoded((#[trigger] fields[i]).1)
            == Ok::<WireView, EncodeError>(wires[i].1) by {
            if i > 0 {
                assert(fields[i] == rest[i - 1]);
                assert(wires[i] == tail[i - 1]);
            }
        }
    }
}

/// A list decodes to the sequence of what its items decode to, each at its
/// place.
pub proof fn law_decode_list_by_item(items: Seq<WireView>, budget: nat, index: nat)
    requires
        decoded_list(items, budget, index) is Ok,
    ensures
        decoded_list(items, budget, index)->Ok_0.len() == items.len(),
        forall|i: int|
            0 <= i < items.len() ==> decoded(#[trigger] items[i], budget) == Ok::<
                StructuredView,
                DecodeFailureView,
            >(decoded_list(items, budget, index)->Ok_0[i]),
    decreases items,
{
    if items.len() > 0 {
        let rest = items.drop_first();
        law_decode_list_by_item(rest, budget, index + 1);
        let values = decoded_list(items, budget, index)->Ok_0;
        let tail = decoded_list(rest, budget, index + 1)->Ok_0;
        assert(values == seq![decoded(items.first(), budget)->Ok_0] + tail);
        assert forall|i: int| 0 <= i < items.len() implies decoded(#[trigger] items[i], budget)
            == Ok::<StructuredView, DecodeFailureView>(values[i]) by {
            if i > 0 {
                assert(items[i] == rest[i - 1]);
                assert(values[i] == tail[i - 1]);
            }
        }
    }
}

/// A map decodes to the mapping of what its values decode to, each under its
/// own name and at its place.
pub proof fn law_decode_fields_by_entry(fields: Seq<(Seq<char>, WireView)>, budget: nat)
    requires
        decoded_fields(fields, budget) is Ok,
    ensures
        decoded_fields(fields, budget)->Ok_0.len() == fields.len(),
        forall|i: int|
            0 <= i < fields.len() ==> (#[trigger] decoded_fields(fields, budget)->Ok_0[i]).0
                == fields[i].0,
        forall|i: int|
            0 <= i < fields.len() ==> decoded((#[trigger] fields[i]).1, budget) == Ok::<
                StructuredView,
                DecodeFailureView,
            >(decoded_fields(fields, budget)->Ok_0[i].1),
    decreases fields,
{
    if fields.len() > 0 {
        let rest = fields.drop_first();
        law_decode_fields_by_entry(rest, budget);
        let values = decoded_fields(fields, budget)->Ok_0;
        let tail = decoded_fields(rest, budget)->Ok_0;
        assert(values == seq![(fields.first().0, decoded(fields.first().1, budget)->Ok_0)]
            + tail);
        assert forall|i: int| 0 <= i < fields.len() implies (#[trigger] values[i]).0
            == fields[i].0 by {
            if i > 0 {
                assert(fields[i] == rest[i - 1]);
                assert(values[i] == tail[i - 1]);
            }
        }
        assert forall|i: int| 0 <= i < fields.len() implies decoded(
            (#[trigger] fields[i]).1,
            budget,
        ) == Ok::<StructuredView, DecodeFailureView>(values[i].1) by {
            if i > 0 {
                assert(fields[i] == rest[i - 1]);
                assert(values[i] == tail[i - 1]);
            }
        }
    }
}

/// Fail-fast in a list: where the items before position `i` decode and the
/// item at `i` does not, the list fails with that item's failure, unchanged
/// but for the item's index in front of its path. What comes after `i` is
/// not looked at.
pub proof fn law_first_failure_in_list(items: Seq<WireView>, budget: nat, index: nat, i: int)
    requires
        0 <= i < items.len(),
        forall|j: int| 0 <= j < i ==> decoded(#[trigger] items[j], budget) is Ok,
        decoded(items[i], budget) is Err,
    ensures
        decoded_list(items, budget, index) == Err::<Seq<StructuredView>, DecodeFailureView>(
            decoded(items[i], budget)->Err_0.under(PathStepView::Index((index + i) as nat)),
        ),
    decreases items,
{
    assert(items.first() == items[0]);
    if i > 0 {
        let rest = items.drop_first();
        assert(rest[i - 1] == items[i]);
        assert forall|j: int| 0 <= j < i - 1 implies decoded(#[trigger] rest[j], budget) is Ok by {
            assert(rest[j] == items[j + 1]);
        }
        law_first_failure_in_list(rest, budget, index + 1, i - 1);
    }
}

/// Fail-fast in a map: where the entries before position `i` decode and the
/// entry at `i` does not, the map fails with that entry's failure, unchanged
/// but for the entry's name in front of its path.
pub proof fn law_first_failure_in_map(fields: Seq<(Seq<char>, WireView)>, budget: nat, i: int)
    requires
        0 <= i < fields.len(),
        forall|j: int| 0 <= j < i ==> decoded((#[trigger] fields[j]).1, budget) is Ok,
        decoded(fields[i].1, budget) is Err,
    ensures
        decoded_fields(fields, budget) == Err::<
            Seq<(Seq<char>, StructuredView)>,
            DecodeFailureView,
        >(decoded(fields[i].1, budget)->Err_0.under(PathStepView::Field(fields[i].0))),
    decreases fields,
{
    assert(fields.first() == fields[0]);
    if i > 0 {
        let rest = fields.drop_first();
        assert(rest[i - 1] == fields[i]);
        assert forall|j: int| 0 <= j < i - 1 implies decoded((#[trigger] rest[j]).1, budget)
            is Ok by {
            assert(rest[j] == fields[j + 1]);
        }
        law_first_failure_in_map(rest, budget, i - 1);
    }
}

/// Encoding keeps values well formed: where no name occurs twice in a
/// mapping of the structured data, none occurs twice in a map of the wire
/// value.
pub proof fn law_encode_keeps_well_formed(value: StructuredView)
    requires
        value.well_formed(),
        encoded(value) is Ok,
    ensures
        encoded(value)->Ok_0.well_formed(),
    decreases value,
{
    match value {
        StructuredView::Array(items) => {
            law_encode_list_by_item(items);
            let wires = encoded_list(items)->Ok_0;
            assert forall|i: int| 0 <= i < wires.len() implies (#[trigger] wires[i]).well_formed() by {
                assert(encoded(items[i]) == Ok::<WireView, EncodeError>(wires[i]));
                law_encode_keeps_well_formed(items[i]);
            }
        },
        StructuredView::Object(fields) => {
            law_encode_fields_by_entry(fields);
            let wires = encoded_fields(fields)->Ok_0;
            assert forall|i: int| 0 <= i < wires.len() implies (
            #[trigger] wires[i]).1.well_formed() by {
                assert(encoded(fields[i].1) == Ok::<WireView, EncodeError>(wires[i].1));
                law_encode_keeps_well_formed(fields[i].1);
            }
            assert forall|i: int, j: int| 0 <= i < j < wires.len() implies (#[trigger] wires[i]).0
                != (#[trigger] wires[j]).0 by {
                assert(wires[i].0 == fields[i].0);
                assert(wires[j].0 == fields[j].0);
            }
        },
        _ => {},
    }
}

/// Decoding keeps values well formed: where no name occurs twice in a map
/// of the wire value, none occurs twice in a mapping of the structured data.
pub proof fn law_decode_keeps_well_formed(wire: WireView, budget: nat)
    requires
        wire.well_formed(),
        decoded(wire, budget) is Ok,
    ensures
        decoded(wire, budget)->Ok_0.well_formed(),
    decreases wire,
{
    match wire {
        WireView::L(items) => {
            let inner = (budget - 1) as nat;
            law_decode_list_by_item(items, inner, 0);
            let values = decoded_list(items, inner, 0)->Ok_0;
            assert forall|i: int| 0 <= i < values.len() implies (
            #[trigger] values[i]).well_formed() by {
                assert(decoded(items[i], inner) == Ok::<StructuredView, DecodeFailureView>(
                    values[i],
                ));
                law_decode_keeps_well_formed(items[i], inner);
            }
        },
        WireView::M(fields) => {
            let inner = (budget - 1) as nat;
            law_decode_fields_by_entry(fields, inner);
            let values = decoded_fields(fields, inner)->Ok_0;
            assert forall|i: int| 0 <= i < values.len() implies (
            #[trigger] values[i]).1.well_formed() by {
                assert(decoded(fields[i].1, inner) == Ok::<StructuredView, DecodeFailureView>(
                    values[i].1,
                ));
                law_decode_keeps_well_formed(fields[i].1, inner);
            }
            assert forall|i: int, j: int| 0 <= i < j < values.len() implies (
            #[trigger] values[i]).0 != (#[trigger] values[j]).0 by {
                assert(values[i].0 == fields[i].0);
                assert(values[j].0 == fields[j].0);
            }
        },
        _ => {},
    }
}

} // verus!
