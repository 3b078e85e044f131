//! What holds of the depth guard.
use crate::decode::{decoded, decoded_fields, decoded_list};
use crate::encode::{encoded, encoded_fields, encoded_list};
use crate::error::{DecodeErrorView, DecodeFailureView};
use crate::laws::law_round_trip;
use crate::value::StructuredView;
use crate::wire::WireView;
use vstd::prelude::*;

verus! {

/// Whether a decoding failed because lists and maps lie too deep.
pub open spec fn hits_limit<T>(outcome: Result<T, DecodeFailureView>) -> bool {
    outcome matches Err(f) && f.error == DecodeErrorView::MaxDepthExceeded
}

/// Encoding keeps the nesting: the wire value is as deep as the structured
/// data that it stands for.
pub proof fn law_encode_keeps_nesting(value: StructuredView)
    requires
        encoded(value) is Ok,
    ensures
        encoded(value)->Ok_0.nesting() == value.nesting(),
    decreases value,
{
    match value {
        StructuredView::Array(items) => {
            law_encode_keeps_nesting_list(items);
        },
        StructuredView::Object(fields) => {
            law_encode_keeps_nesting_fields(fields);
        },
        _ => {},
    }
}

/// Encoding keeps the nesting, for the items of a sequence.
pub proof fn law_encode_keeps_nesting_list(items: Seq<StructuredView>)
    requires
        encoded_list(items) is Ok,
    ensures
        WireView::deepest(encoded_list(items)->Ok_0) == StructuredView::deepest(items),
    decreases items,
{
    if items.len() > 0 {
        law_encode_keeps_nesting(items.first());
        law_encode_keeps_nesting_list(items.drop_first());
        let wire = encoded(items.first())->Ok_0;
        let wires = encoded_list(items.drop_first())->Ok_0;
        let all = seq![wire] + wires;
        assert(encoded_list(items)->Ok_0 == all);
        assert(all.first() == wire);
        assert(all.drop_first() =~= wires);
    } else {
        assert(encoded_list(items)->Ok_0 =~= Seq::<WireView>::empty());
    }
}

/// Encoding keeps the nesting, for the entries of a mapping.
pub proof fn law_encode_keeps_nesting_fields(fields: Seq<(Seq<char>, StructuredView)>)
    requires
        encoded_fields(fields) is Ok,
    ensures
        WireView::deepest_field(encoded_fields(fields)->Ok_0) == StructuredView::deepest_field(
            fields,
        ),
    decreases fields,
{
    if fields.len() > 0 {
        law_encode_keeps_nesting(fields.first().1);
        law_encode_keeps_nesting_fields(fields.drop_first());
        let wire = encoded(fields.first().1)->Ok_0;
        let wires = encoded_fields(fields.drop_first())->Ok_0;
        let all = seq![(fields.first().0, wire)] + wires;
        assert(encoded_fields(fields)->Ok_0 == all);
        assert(all.first() == (fields.first().0, wire));
        assert(all.drop_first() =~= wires);
    } else {
        assert(encoded_fields(fields)->Ok_0 =~= Seq::<(Seq<char>, WireView)>::empty());
    }
}

/// The budget decides nothing but whether the limit is hit: a decoding that
/// does not fail with `MaxDepthExceeded` ends the same way under any larger
/// budget.
pub proof fn law_budget_only_limits(wire: WireView, small: nat, large: nat)
    requires
        small <= large,
        !hits_limit(decoded(wire, small)),
    ensures
        decoded(wire, large) == decoded(wire, small),
    decreases wire,
{
    match wire {
        WireView::L(items) => {
            law_budget_only_limits_list(items, (small - 1) as nat, (large - 1) as nat, 0);
        },
        WireView::M(fields) => {
            law_budget_only_limits_fields(fields, (small - 1) as nat, (large - 1) as nat);
        },
        _ => {},
    }
}

/// The budget decides nothing but whether the limit is hit, for the items of
/// a list.
pub proof fn law_budget_only_limits_list(
    items: Seq<WireView>,
    small: nat,
    large: nat,
    index: nat,
)
    requires
        small <= large,
        !hits_limit(decoded_list(items, small, index)),
    ensures
        decoded_list(items, large, index) == decoded_list(items, small, index),
    decreases items,
{
    if items.len() > 0 {
        law_budget_only_limits(items.first(), small, large);
        if decoded(items.first(), small) is Ok {
            law_budget_only_limits_list(items.drop_first(), small, large, index + 1);
        }
    }
}

/// The budget decides nothing but whether the limit is hit, for the entries
/// of a map.
pub proof fn law_budget_only_limits_fields(
    fields: Seq<(Seq<char>, WireView)>,
    small: nat,
    large: nat,
)
    requires
        small <= large,
        !hits_limit(decoded_fields(fields, small)),
    ensures
        decoded_fields(fields, large) == decoded_fields(fields, small),
    decreases fields,
{
    if fields.len() > 0 {
        law_budget_only_limits(fields.first().1, small, large);
        if decoded(fields.first().1, small) is Ok {
            law_budget_only_limits_fields(fields.drop_first(), small, large);
        }
    }
}

/// The limit is hit only by what lies too deep, and nothing that lies too
/// deep is decoded: a wire value whose nesting is within the budget does not
/// fail with `MaxDepthExceeded`, and one whose nesting is beyond it fails.
pub proof fn law_depth_guard(wire: WireView, budget: nat)
    ensures
        wire.nesting() <= budget ==> !hits_limit(decoded(wire, budget)),
        wire.nesting() > budget ==> decoded(wire, budget) is Err,
    decreases wire,
{
    match wire {
        WireView::L(items) => {
            if budget > 0 {
                law_depth_guard_list(items, (budget - 1) as nat, 0);
            }
        },
        WireView::M(fields) => {
            if budget > 0 {
                law_depth_guard_fields(fields, (budget - 1) as nat);
            }
        },
        _ => {},
    }
}

/// The depth guard, for the items of a list.
pub proof fn law_depth_guard_list(items: Seq<WireView>, budget: nat, index: nat)
    ensures
        WireView::deepest(items) <= budget ==> !hits_limit(decoded_list(items, budget, index)),
        WireView::deepest(items) > budget ==> decoded_list(items, budget, index) is Err,
    decreases items,
{
    if items.len() > 0 {
        law_depth_guard(items.first(), budget);
        law_depth_guard_list(items.drop_first(), budget, index + 1);
    }
}

/// The depth guard, for the entries of a map.
pub proof fn law_depth_guard_fields(fields: Seq<(Seq<char>, WireView)>, budget: nat)
    ensures
        WireView::deepest_field(fields) <= budget ==> !hits_limit(decoded_fields(fields, budget)),
        WireView::deepest_field(fields) > budget ==> decoded_fields(fields, budget) is Err,
    decreases fields,
{
    if fields.len() > 0 {
        law_depth_guard(fields.first().1, budget);
        law_depth_guard_fields(fields.drop_first(), budget);
    }
}

/// A wire value that decodes when the budget is as large as its nesting fails
/// with `MaxDepthExceeded` under every smaller budget.
pub proof fn law_too_deep(wire: WireView, budget: nat)
    requires
        decoded(wire, wire.nesting()) is Ok,
        wire.nesting() > budget,
    ensures
        hits_limit(decoded(wire, budget)),
{
    law_depth_guard(wire, budget);
    if !hits_limit(decoded(wire, budget)) {
        law_budget_only_limits(wire, budget, wire.nesting());
    }
}

/// Depth guard: structured data whose numbers are canonical and that is
/// nested beyond the budget does not come back from its encoding; decoding
/// fails with `MaxDepthExceeded`.
pub proof fn law_nested_beyond_budget(value: StructuredView, budget: nat)
    requires
        value.canonical(),
        value.nesting() > budget,
    ensures
        encoded(value) is Ok,
        hits_limit(decoded(encoded(value)->Ok_0, budget)),
{
    law_round_trip(value, value.nesting());
    law_encode_keeps_nesting(value);
    law_too_deep(encoded(value)->Ok_0, budget);
}

} // verus!
