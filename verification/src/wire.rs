//! Wire values: the tagged representation that the document store keeps and
//! exchanges.
use crate::value::{distinct_names, has_distinct_names, larger};
use vstd::prelude::*;

verus! {

/// A value as the store holds it.
///
/// `S`, `N`, `Bool`, `Null`, `L` and `M` are what structured data is written
/// as. `B`, `Ss`, `Ns` and `Bs` (binary, and sets of strings, numbers and
/// binaries) may be found in a store that others have written to; they have no
/// structured counterpart. A map is held as its entries in order.
#[derive(Debug, PartialEq, Eq)]
pub enum WireValue {
    S(String),
    N(String),
    Bool(bool),
    Null(bool),
    L(Vec<WireValue>),
    M(Vec<(String, WireValue)>),
    B(Vec<u8>),
    Ss(Vec<String>),
    Ns(Vec<String>),
    Bs(Vec<Vec<u8>>),
}

/// What a [`WireValue`] stands for.
pub enum WireView {
    S(Seq<char>),
    N(Seq<char>),
    Bool(bool),
    Null(bool),
    L(Seq<WireView>),
    M(Seq<(Seq<char>, WireView)>),
    B(Seq<u8>),
    Ss(Seq<Seq<char>>),
    Ns(Seq<Seq<char>>),
    Bs(Seq<Seq<u8>>),
}

/// The characters of each string of a sequence.
pub open spec fn texts_of(strings: Seq<String>) -> Seq<Seq<char>> {
    strings.map_values(|s: String| s@)
}

/// The bytes of each vector of a sequence.
pub open spec fn blobs_of(blobs: Seq<Vec<u8>>) -> Seq<Seq<u8>> {
    blobs.map_values(|b: Vec<u8>| b@)
}

impl View for WireValue {
    type V = WireView;

    open spec fn view(&self) -> WireView
        decreases self,
    {
        match self {
            WireValue::S(s) => WireView::S(s@),
            WireValue::N(text) => WireView::N(text@),
            WireValue::Bool(b) => WireView::Bool(*b),
            WireValue::Null(flag) => WireView::Null(*flag),
            WireValue::L(items) => WireView::L(wire_views_of(items@)),
            WireValue::M(fields) => WireView::M(wire_field_views_of(fields@)),
            WireValue::B(bytes) => WireView::B(bytes@),
            WireValue::Ss(strings) => WireView::Ss(texts_of(strings@)),
            WireValue::Ns(numbers) => WireView::Ns(texts_of(numbers@)),
            WireValue::Bs(blobs) => WireView::Bs(blobs_of(blobs@)),
        }
    }
}

impl Clone for WireValue {
    /// A copy that stands for the same wire value.
    fn clone(&self) -> (copy: WireValue)
        ensures
            copy@ == self@,
        decreases self,
    {
        match self {
            WireValue::S(s) => WireValue::S(s.clone()),
            WireValue::N(text) => WireValue::N(text.clone()),
            WireValue::Bool(b) => WireValue::Bool(*b),
            WireValue::Null(flag) => WireValue::Null(*flag),
            WireValue::L(items) => {
                let mut copies: Vec<WireValue> = Vec::new();
                let mut i: usize = 0;
                assert(items@.take(0) =~= Seq::empty());
                while i < items.len()
                    invariant
                        i <= items.len(),
                        *self == WireValue::L(*items),
                        wire_views_of(copies@) == wire_views_of(items@.take(i as int)),
                    decreases items.len() - i,
                {
                    proof {
                        assert(self->L_0 == *items);
                        assert(decreases_to!(self => items@[i as int]));
                    }
                    let copy = items[i].clone();
                    proof {
                        assert(copies@.push(copy).drop_last() =~= copies@);
                        assert(items@.take(i + 1).drop_last() =~= items@.take(i as int));
                    }
                    copies.push(copy);
                    i = i + 1;
                }
                assert(items@.take(i as int) =~= items@);
                WireValue::L(copies)
            },
            WireValue::M(fields) => {
                let mut copies: Vec<(String, WireValue)> = Vec::new();
                let mut i: usize = 0;
                assert(fields@.take(0) =~= Seq::empty());
                while i < fields.len()
                    invariant
                        i <= fields.len(),
                        *self == WireValue::M(*fields),
                        wire_field_views_of(copies@) == wire_field_views_of(
                            fields@.take(i as int),
                        ),
                    decreases fields.len() - i,
                {
                    proof {
                        assert(self->M_0 == *fields);
                        assert(decreases_to!(self => fields@[i as int].1));
                    }
                    let name = fields[i].0.clone();
                    let copy = fields[i].1.clone();
                    proof {
                        assert(copies@.push((name, copy)).drop_last() =~= copies@);
                        assert(fields@.take(i + 1).drop_last() =~= fields@.take(i as int));
                    }
                    copies.push((name, copy));
                    i = i + 1;
                }
                assert(fields@.take(i as int) =~= fields@);
                WireValue::M(copies)
            },
            WireValue::B(bytes) => {
                let copy = bytes.clone();
                assert(copy@ =~= bytes@);
                WireValue::B(copy)
            },
            WireValue::Ss(strings) => {
                let copy = strings.clone();
                assert(copy@ =~= strings@);
                WireValue::Ss(copy)
            },
            WireValue::Ns(numbers) => {
                let copy = numbers.clone();
                assert(copy@ =~= numbers@);
                WireValue::Ns(copy)
            },
            WireValue::Bs(blobs) => {
                let mut copies: Vec<Vec<u8>> = Vec::new();
                let mut i: usize = 0;
                while i < blobs.len()
                    invariant
                        i <= blobs.len(),
                        copies@.len() == i,
                        forall|k: int| 0 <= k < i ==> (#[trigger] copies@[k])@ == blobs@[k]@,
                    decreases blobs.len() - i,
                {
                    let copy = blobs[i].clone();
                    assert(copy@ =~= blobs@[i as int]@);
                    copies.push(copy);
                    i = i + 1;
                }
                assert(blobs_of(copies@) =~= blobs_of(blobs@));
                WireValue::Bs(copies)
            },
        }
    }
}

/// The views of a sequence of wire values, in order.
pub open spec fn wire_views_of(items: Seq<WireValue>) -> Seq<WireView>
    decreases items,
{
    if items.len() == 0 {
        Seq::empty()
    } else {
        wire_views_of(items.drop_last()).push(items.last()@)
    }
}

/// The keys of a sequence of named wire values with the views of the values,
/// in order.
pub open spec fn wire_field_views_of(fields: Seq<(String, WireValue)>) -> Seq<
    (Seq<char>, WireView),
>
    decreases fields,
{
    if fields.len() == 0 {
        Seq::empty()
    } else {
        wire_field_views_of(fields.drop_last()).push((fields.last().0@, fields.last().1@))
    }
}

/// The views of wire values stand at the places of the values.
pub proof fn lemma_wire_views_of(items: Seq<WireValue>)
    ensures
        wire_views_of(items).len() == items.len(),
        forall|i: int|
            0 <= i < items.len() ==> (#[trigger] wire_views_of(items)[i]) == items[i]@,
    decreases items.len(),
{
    if items.len() > 0 {
        lemma_wire_views_of(items.drop_last());
        assert(wire_views_of(items) == wire_views_of(items.drop_last()).push(items.last()@));
    } else {
        assert(wire_views_of(items) == Seq::<WireView>::empty());
    }
}

/// The views of named wire values stand at the places of the values, under
/// their names.
pub proof fn lemma_wire_field_views_of(fields: Seq<(String, WireValue)>)
    ensures
        wire_field_views_of(fields).len() == fields.len(),
        forall|i: int|
            0 <= i < fields.len() ==> (#[trigger] wire_field_views_of(fields)[i]) == (
                fields[i].0@,
                fields[i].1@,
            ),
    decreases fields.len(),
{
    if fields.len() > 0 {
        lemma_wire_field_views_of(fields.drop_last());
        assert(wire_field_views_of(fields) == wire_field_views_of(fields.drop_last()).push(
            (fields.last().0@, fields.last().1@),
        ));
    } else {
        assert(wire_field_views_of(fields) == Seq::<(Seq<char>, WireView)>::empty());
    }
}

impl WireValue {
    /// Whether the value is well formed: whether no name occurs twice in a
    /// map inside it, or in the value itself where it is one.
    pub fn is_well_formed(&self) -> (ok: bool)
        ensures
            ok == self@.well_formed(),
        decreases self,
    {
        match self {
            WireValue::L(items) => {
                let ghost views = wire_views_of(items@);
                proof {
                    lemma_wire_views_of(items@);
                }
                let mut i: usize = 0;
                while i < items.len()
                    invariant
                        i <= items.len(),
                        *self == WireValue::L(*items),
                        views == wire_views_of(items@),
                        forall|k: int| 0 <= k < i ==> (#[trigger] items@[k])@.well_formed(),
                    decreases items.len() - i,
                {
                    proof {
                        assert(self->L_0 == *items);
                        assert(decreases_to!(self => items@[i as int]));
                    }
                    if !items[i].is_well_formed() {
                        proof {
                            lemma_wire_views_of(items@);
                            assert(self@->L_0 == views);
                            assert(!self@->L_0[i as int].well_formed());
                        }
                        return false;
                    }
                    i = i + 1;
                }
                proof {
                    lemma_wire_views_of(items@);
                    assert forall|k: int| 0 <= k < views.len() implies (
                    #[trigger] views[k]).well_formed() by {
                        assert(views[k] == items@[k]@);
                    }
                }
                true
            },
            WireValue::M(fields) => {
                proof {
                    lemma_wire_field_views_of(fields@);
                }
                let ghost views = wire_field_views_of(fields@);
                if !has_distinct_names(fields) {
                    proof {
                        let (a, b) = choose|a: int, b: int|
                            0 <= a < b < fields@.len() && (#[trigger] fields@[a]).0@ == (
                            #[trigger] fields@[b]).0@;
                        assert(views[a].0 == views[b].0);
                    }
                    return false;
                }
                assert(distinct_names(views)) by {
                    assert forall|a: int, b: int| 0 <= a < b < views.len() implies (
                    #[trigger] views[a]).0 != (#[trigger] views[b]).0 by {
                        assert(views[a].0 == fields@[a].0@);
                        assert(views[b].0 == fields@[b].0@);
                    }
                }
                let mut i: usize = 0;
                while i < fields.len()
                    invariant
                        i <= fields.len(),
                        *self == WireValue::M(*fields),
                        views == wire_field_views_of(fields@),
                        distinct_names(views),
                        forall|k: int| 0 <= k < i ==> (#[trigger] fields@[k]).1@.well_formed(),
                    decreases fields.len() - i,
                {
                    proof {
                        assert(self->M_0 == *fields);
                        assert(decreases_to!(self => fields@[i as int].1));
                    }
                    if !fields[i].1.is_well_formed() {
                        proof {
                            lemma_wire_field_views_of(fields@);
                            assert(self@->M_0 == views);
                            assert(!self@->M_0[i as int].1.well_formed());
                        }
                        return false;
                    }
                    i = i + 1;
                }
                proof {
                    lemma_wire_field_views_of(fields@);
                    assert forall|k: int| 0 <= k < views.len() implies (
                    #[trigger] views[k]).1.well_formed() by {
                        assert(views[k].1 == fields@[k].1@);
                    }
                }
                true
            },
            _ => true,
        }
    }
}

impl WireView {
    /// Whether the value is what it is meant to be: in every map inside it,
    /// and in the value itself where it is one, no name occurs twice.
    pub open spec fn well_formed(self) -> bool
        decreases self,
    {
        match self {
            WireView::L(items) => forall|i: int|
                0 <= i < items.len() ==> (#[trigger] items[i]).well_formed(),
            WireView::M(fields) => distinct_names(fields) && forall|i: int|
                0 <= i < fields.len() ==> (#[trigger] fields[i]).1.well_formed(),
            _ => true,
        }
    }

    /// How many lists and maps lie inside one another at the deepest place of
    /// the value: 0 for a value that is neither, 1 for an empty list or map.
    pub open spec fn nesting(self) -> nat
        decreases self,
    {
        match self {
            WireView::L(items) => 1 + Self::deepest(items),
            WireView::M(fields) => 1 + Self::deepest_field(fields),
            _ => 0,
        }
    }

    /// The greatest nesting among `items`; 0 where there is none.
    pub open spec fn deepest(items: Seq<WireView>) -> nat
        decreases items,
    {
        if items.len() == 0 {
            0
        } else {
            larger(items.first().nesting(), Self::deepest(items.drop_first()))
        }
    }

    /// The greatest nesting among the values of `fields`; 0 where there is
    /// none.
    pub open spec fn deepest_field(fields: Seq<(Seq<char>, WireView)>) -> nat
        decreases fields,
    {
        if fields.len() == 0 {
            0
        } else {
            larger(
                fields.first().1.nesting(),
                Self::deepest_field(fields.drop_first()),
            )
        }
    }
}

} // verus!
