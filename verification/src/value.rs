//! Structured data: the generic tree of strings, numbers, booleans, nulls,
//! sequences and mappings that a serializer produces.
use crate::number::{classify, NumberClass};
use vstd::prelude::*;

verus! {

/// A number of structured data.
#[derive(Debug, PartialEq, Eq)]
pub enum Number {
    /// An integer in the signed 64-bit range.
    Integer(i64),
    /// Any other number, held as its decimal text.
    Float(String),
}

/// A value of structured data.
///
/// A mapping is held as its entries in order; its keys are meant to be
/// distinct (see [`StructuredView::well_formed`]).
#[derive(Debug, PartialEq, Eq)]
pub enum StructuredValue {
    Null,
    Bool(bool),
    Number(Number),
    String(String),
    Array(Vec<StructuredValue>),
    Object(Vec<(String, StructuredValue)>),
}

/// What a [`Number`] stands for.
pub enum NumberView {
    Integer(i64),
    Float(Seq<char>),
}

/// What a [`StructuredValue`] stands for.
pub enum StructuredView {
    Null,
    Bool(bool),
    Number(NumberView),
    String(Seq<char>),
    Array(Seq<StructuredView>),
    Object(Seq<(Seq<char>, StructuredView)>),
}

impl View for Number {
    type V = NumberView;

    open spec fn view(&self) -> NumberView {
        match self {
            Number::Integer(i) => NumberView::Integer(*i),
            Number::Float(text) => NumberView::Float(text@),
        }
    }
}

impl View for StructuredValue {
    type V = StructuredView;

    open spec fn view(&self) -> StructuredView
        decreases self,
    {
        match self {
            StructuredValue::Null => StructuredView::Null,
            StructuredValue::Bool(b) => StructuredView::Bool(*b),
            StructuredValue::Number(n) => StructuredView::Number(n@),
            StructuredValue::String(s) => StructuredView::String(s@),
            StructuredValue::Array(items) => StructuredView::Array(views_of(items@)),
            StructuredValue::Object(fields) => StructuredView::Object(field_views_of(fields@)),
        }
    }
}

impl Clone for Number {
    /// A copy that stands for the same number.
    fn clone(&self) -> (copy: Number)
        ensures
            copy@ == self@,
    {
        match self {
            Number::Integer(i) => Number::Integer(*i),
            Number::Float(text) => Number::Float(text.clone()),
        }
    }
}

impl Clone for StructuredValue {
    /// A copy that stands for the same structured data.
    fn clone(&self) -> (copy: StructuredValue)
        ensures
            copy@ == self@,
        decreases self,
    {
        match self {
            StructuredValue::Null => StructuredValue::Null,
            StructuredValue::Bool(b) => StructuredValue::Bool(*b),
            StructuredValue::Number(n) => StructuredValue::Number(n.clone()),
            StructuredValue::String(s) => StructuredValue::String(s.clone()),
            StructuredValue::Array(items) => {
                let mut copies: Vec<StructuredValue> = Vec::new();
                let mut i: usize = 0;
                assert(items@.take(0) =~= Seq::empty());
                while i < items.len()
                    invariant
                        i <= items.len(),
                        *self == StructuredValue::Array(*items),
                        views_of(copies@) == views_of(items@.take(i as int)),
                    decreases items.len() - i,
                {
                    proof {
                        assert(self->Array_0 == *items);
                        assert(decreases_to!(self => items@[i as int]));
                    }
                    let copy = items[i].clone();
                    proof {
                        assert(copies@.push(copy).drop_last() =~= copies@);
                        assert(items@.take(i + 1).drop_last() =~= items@.take(i as int));
                    }
                    copies.push(copy);
                    i = i + 1;
                }
                assert(items@.take(i as int) =~= items@);
                StructuredValue::Array(copies)
            },
            StructuredValue::Object(fields) => {
                let mut copies: Vec<(String, StructuredValue)> = Vec::new();
                let mut i: usize = 0;
                assert(fields@.take(0) =~= Seq::empty());
                while i < fields.len()
                    invariant
                        i <= fields.len(),
                        *self == StructuredValue::Object(*fields),
                        field_views_of(copies@) == field_views_of(fields@.take(i as int)),
                    decreases fields.len() - i,
                {
                    proof {
                        assert(self->Object_0 == *fields);
                        assert(decreases_to!(self => fields@[i as int].1));
                    }
                    let name = fields[i].0.clone();
                    let copy = fields[i].1.clone();
                    proof {
                        assert(copies@.push((name, copy)).drop_last() =~= copies@);
                        assert(fields@.take(i + 1).drop_last() =~= fields@.take(i as int));
                    }
                    copies.push((name, copy));
                    i = i + 1;
                }
                assert(fields@.take(i as int) =~= fields@);
                StructuredValue::Object(copies)
            },
        }
    }
}

/// The views of a sequence of values, in order.
pub open spec fn views_of(items: Seq<StructuredValue>) -> Seq<StructuredView>
    decreases items,
{
    if items.len() == 0 {
        Seq::empty()
    } else {
        views_of(items.drop_last()).push(items.last()@)
    }
}

/// The keys of a sequence of named values with the views of the values, in
/// order.
pub open spec fn field_views_of(fields: Seq<(String, StructuredValue)>) -> Seq<
    (Seq<char>, StructuredView),
>
    decreases fields,
{
    if fields.len() == 0 {
        Seq::empty()
    } else {
        field_views_of(fields.drop_last()).push((fields.last().0@, fields.last().1@))
    }
}

/// The views of values stand at the places of the values.
pub proof fn lemma_views_of(items: Seq<StructuredValue>)
    ensures
        views_of(items).len() == items.len(),
        forall|i: int| 0 <= i < items.len() ==> (#[trigger] views_of(items)[i]) == items[i]@,
    decreases items.len(),
{
    if items.len() > 0 {
        lemma_views_of(items.drop_last());
        assert(views_of(items) == views_of(items.drop_last()).push(items.last()@));
    } else {
        assert(views_of(items) == Seq::<StructuredView>::empty());
    }
}

/// The views of named values stand at the places of the values, under their
/// names.
pub proof fn lemma_field_views_of(fields: Seq<(String, StructuredValue)>)
    ensures
        field_views_of(fields).len() == fields.len(),
        forall|i: int|
            0 <= i < fields.len() ==> (#[trigger] field_views_of(fields)[i]) == (
                fields[i].0@,
                fields[i].1@,
            ),
    decreases fields.len(),
{
    if fields.len() > 0 {
        lemma_field_views_of(fields.drop_last());
        assert(field_views_of(fields) == field_views_of(fields.drop_last()).push(
            (fields.last().0@, fields.last().1@),
        ));
    } else {
        assert(field_views_of(fields) == Seq::<(Seq<char>, StructuredView)>::empty());
    }
}

/// `done` in front of what `rest` holds, or the error of `rest`.
pub open spec fn after<T, E>(done: Seq<T>, rest: Result<Seq<T>, E>) -> Result<Seq<T>, E> {
    match rest {
        Ok(values) => Ok(done + values),
        Err(e) => Err(e),
    }
}

/// Whether no name occurs twice among `fields`.
pub open spec fn distinct_names<T>(fields: Seq<(Seq<char>, T)>) -> bool {
    forall|i: int, j: int|
        0 <= i < j < fields.len() ==> (#[trigger] fields[i]).0 != (#[trigger] fields[j]).0
}

/// Whether no name occurs twice among the entries of a mapping.
pub fn has_distinct_names<T>(fields: &Vec<(String, T)>) -> (distinct: bool)
    ensures
        distinct == forall|i: int, j: int|
            0 <= i < j < fields@.len() ==> (#[trigger] fields@[i]).0@ != (#[trigger] fields@[j]).0@,
{
    let mut j: usize = 0;
    while j < fields.len()
        invariant
            j <= fields.len(),
            forall|a: int, b: int|
                0 <= a < b < j ==> (#[trigger] fields@[a]).0@ != (#[trigger] fields@[b]).0@,
        decreases fields.len() - j,
    {
        let mut i: usize = 0;
        while i < j
            invariant
                i <= j < fields.len(),
                forall|a: int| 0 <= a < i ==> (#[trigger] fields@[a]).0@ != fields@[j as int].0@,
            decreases j - i,
        {
            if fields[i].0 == fields[j].0 {
                return false;
            }
            i = i + 1;
        }
        j = j + 1;
    }
    true
}

impl StructuredValue {
    /// Whether the value is well formed: whether no name occurs twice in a
    /// mapping inside it, or in the value itself where it is one.
    pub fn is_well_formed(&self) -> (ok: bool)
        ensures
            ok == self@.well_formed(),
        decreases self,
    {
        match self {
            StructuredValue::Array(items) => {
                let mut i: usize = 0;
                while i < items.len()
                    invariant
                        i <= items.len(),
                        *self == StructuredValue::Array(*items),
                        forall|k: int| 0 <= k < i ==> (#[trigger] items@[k])@.well_formed(),
                    decreases items.len() - i,
                {
                    proof {
                        assert(self->Array_0 == *items);
                        assert(decreases_to!(self => items@[i as int]));
                    }
                    if !items[i].is_well_formed() {
                        proof {
                            lemma_views_of(items@);
                            assert(self@->Array_0 == views_of(items@));
                            assert(!self@->Array_0[i as int].well_formed());
                        }
                        return false;
                    }
                    i = i + 1;
                }
                proof {
                    lemma_views_of(items@);
                    let views = views_of(items@);
                    assert forall|k: int| 0 <= k < views.len() implies (
                    #[trigger] views[k]).well_formed() by {
                        assert(views[k] == items@[k]@);
                    }
                }
                true
            },
            StructuredValue::Object(fields) => {
                proof {
                    lemma_field_views_of(fields@);
                }
                let ghost views = field_views_of(fields@);
                if !has_distinct_names(fields) {
                    proof {
                        let (a, b) = choose|a: int, b: int|
                            0 <= a < b < fields@.len() && (#[trigger] fields@[a]).0@ == (
                            #[trigger] fields@[b]).0@;
                        assert(views[a].0 == views[b].0);
                    }
                    return false;
                }
                assert(distinct_names(views)) by {
                    assert forall|a: int, b: int| 0 <= a < b < views.len() implies (
                    #[trigger] views[a]).0 != (#[trigger] views[b]).0 by {
                        assert(views[a].0 == fields@[a].0@);
                        assert(views[b].0 == fields@[b].0@);
                    }
                }
                let mut i: usize = 0;
                while i < fields.len()
                    invariant
                        i <= fields.len(),
                        *self == StructuredValue::Object(*fields),
                        views == field_views_of(fields@),
                        distinct_names(views),
                        forall|k: int| 0 <= k < i ==> (#[trigger] fields@[k]).1@.well_formed(),
                    decreases fields.len() - i,
                {
                    proof {
                        assert(self->Object_0 == *fields);
                        assert(decreases_to!(self => fields@[i as int].1));
                    }
                    if !fields[i].1.is_well_formed() {
                        proof {
                            lemma_field_views_of(fields@);
                            assert(self@->Object_0 == views);
                            assert(!self@->Object_0[i as int].1.well_formed());
                        }
                        return false;
                    }
                    i = i + 1;
                }
                proof {
                    lemma_field_views_of(fields@);
                    assert forall|k: int| 0 <= k < views.len() implies (
                    #[trigger] views[k]).1.well_formed() by {
                        assert(views[k].1 == fields@[k].1@);
                    }
                }
                true
            },
            _ => true,
        }
    }
}

/// The greater of two numbers.
pub open spec fn larger(a: nat, b: nat) -> nat {
    if a >= b {
        a
    } else {
        b
    }
}

impl NumberView {
    /// Whether the number can be written: any integer, and any text that
    /// denotes an integer of 64 bits or a finite decimal number.
    pub open spec fn representable(self) -> bool {
        match self {
            NumberView::Integer(_) => true,
            NumberView::Float(text) => classify(text) is Integer || classify(text) is Finite,
        }
    }

    /// The number in the form that reading gives back: the integer that its
    /// text denotes where that is one of 64 bits, else the number as it is.
    pub open spec fn normalized(self) -> NumberView {
        match self {
            NumberView::Float(text) => match classify(text) {
                NumberClass::Integer(i) => NumberView::Integer(i),
                _ => self,
            },
            _ => self,
        }
    }

    /// Whether the number is held in the one form that reading gives back:
    /// as an integer where it is one of 64 bits, as the text of a finite
    /// decimal number otherwise.
    pub open spec fn canonical(self) -> bool {
        match self {
            NumberView::Integer(_) => true,
            NumberView::Float(text) => classify(text) is Finite,
        }
    }
}

impl StructuredView {
    /// Whether every number in the value can be written.
    pub open spec fn representable(self) -> bool
        decreases self,
    {
        match self {
            StructuredView::Number(n) => n.representable(),
            StructuredView::Array(items) => forall|i: int|
                0 <= i < items.len() ==> (#[trigger] items[i]).representable(),
            StructuredView::Object(fields) => forall|i: int|
                0 <= i < fields.len() ==> (#[trigger] fields[i]).1.representable(),
            _ => true,
        }
    }

    /// Whether every number in the value is canonical.
    pub open spec fn canonical(self) -> bool
        decreases self,
    {
        match self {
            StructuredView::Number(n) => n.canonical(),
            StructuredView::Array(items) => forall|i: int|
                0 <= i < items.len() ==> (#[trigger] items[i]).canonical(),
            StructuredView::Object(fields) => forall|i: int|
                0 <= i < fields.len() ==> (#[trigger] fields[i]).1.canonical(),
            _ => true,
        }
    }

    /// The value with every number in the form that reading gives back.
    pub open spec fn normalized(self) -> StructuredView
        decreases self,
    {
        match self {
            StructuredView::Number(n) => StructuredView::Number(n.normalized()),
            StructuredView::Array(items) => StructuredView::Array(Self::normalized_list(items)),
            StructuredView::Object(fields) => StructuredView::Object(
                Self::normalized_fields(fields),
            ),
            _ => self,
        }
    }

    /// `items`, each normalized.
    pub open spec fn normalized_list(items: Seq<StructuredView>) -> Seq<StructuredView>
        decreases items,
    {
        if items.len() == 0 {
            Seq::empty()
        } else {
            seq![items.first().normalized()] + Self::normalized_list(items.drop_first())
        }
    }

    /// `fields`, each value normalized under its own name.
    pub open spec fn normalized_fields(fields: Seq<(Seq<char>, StructuredView)>) -> Seq<
        (Seq<char>, StructuredView),
    >
        decreases fields,
    {
        if fields.len() == 0 {
            Seq::empty()
        } else {
            seq![(fields.first().0, fields.first().1.normalized())] + Self::normalized_fields(
                fields.drop_first(),
            )
        }
    }

    /// Whether the value is what it is meant to be: in every mapping inside
    /// it, and in the value itself where it is one, no name occurs twice.
    pub open spec fn well_formed(self) -> bool
        decreases self,
    {
        match self {
            StructuredView::Array(items) => forall|i: int|
                0 <= i < items.len() ==> (#[trigger] items[i]).well_formed(),
            StructuredView::Object(fields) => distinct_names(fields) && forall|i: int|
                0 <= i < fields.len() ==> (#[trigger] fields[i]).1.well_formed(),
            _ => true,
        }
    }

    /// How many sequences and mappings lie inside one another at the deepest
    /// place of the value: 0 for a scalar, 1 for an empty sequence or mapping.
    pub open spec fn nesting(self) -> nat
        decreases self,
    {
        match self {
            StructuredView::Array(items) => 1 + Self::deepest(items),
            StructuredView::Object(fields) => 1 + Self::deepest_field(fields),
            _ => 0,
        }
    }

    /// The greatest nesting among `items`; 0 where there is none.
    pub open spec fn deepest(items: Seq<StructuredView>) -> nat
        decreases items,
    {
        if items.len() == 0 {
            0
        } else {
            larger(items.first().nesting(), Self::deepest(items.drop_first()))
        }
    }

    /// The greatest nesting among the values of `fields`; 0 where there is
    /// none.
    pub open spec fn deepest_field(fields: Seq<(Seq<char>, StructuredView)>) -> nat
        decreases fields,
    {
        if fields.len() == 0 {
            0
        } else {
            larger(fields.first().1.nesting(), Self::deepest_field(fields.drop_first()))
        }
    }
}

} // verus!
