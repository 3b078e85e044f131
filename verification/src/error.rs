//! The errors of encoding and decoding, and the broader error of the layer
//! that talks to the store.
use crate::number::{natural_text, push_natural};
use vstd::prelude::*;

verus! {

/// Why structured data could not be written as a wire value.
#[derive(Debug, Clone, Copy, PartialEq, Eq, Structural)]
pub enum EncodeError {
    /// The value handed in as a record is no mapping.
    RootNotObject,
    /// A number is neither a 64-bit integer nor a finite decimal number.
    UnrepresentableNumber,
}

/// Why a wire value could not be read as structured data.
#[derive(Debug, PartialEq, Eq)]
pub enum DecodeError {
    /// The value handed in as a record is no map.
    RootNotObject,
    /// The text of a number is no number; the text is kept.
    MalformedNumber(String),
    /// The text of a number denotes an infinity, a NaN, or a magnitude that
    /// is beyond binary64.
    NonFiniteNumber,
    /// A kind of wire value that has no structured counterpart; its tag is
    /// kept.
    UnsupportedVariant(String),
    /// Lists and maps lie inside one another more deeply than allowed.
    MaxDepthExceeded,
}

/// What a [`DecodeError`] stands for.
pub enum DecodeErrorView {
    RootNotObject,
    MalformedNumber(Seq<char>),
    NonFiniteNumber,
    UnsupportedVariant(Seq<char>),
    MaxDepthExceeded,
}

impl View for DecodeError {
    type V = DecodeErrorView;

    open spec fn view(&self) -> DecodeErrorView {
        match self {
            DecodeError::RootNotObject => DecodeErrorView::RootNotObject,
            DecodeError::MalformedNumber(text) => DecodeErrorView::MalformedNumber(text@),
            DecodeError::NonFiniteNumber => DecodeErrorView::NonFiniteNumber,
            DecodeError::UnsupportedVariant(tag) => DecodeErrorView::UnsupportedVariant(tag@),
            DecodeError::MaxDepthExceeded => DecodeErrorView::MaxDepthExceeded,
        }
    }
}

/// One step on the way from a value to a value inside it.
#[derive(Debug, PartialEq, Eq)]
pub enum PathStep {
    /// Into a list, or into a run of items, at this position.
    Index(usize),
    /// Into a map, at the entry of this name.
    Field(String),
}

impl Clone for DecodeError {
    /// A copy that stands for the same error.
    fn clone(&self) -> (copy: DecodeError)
        ensures
            copy@ == self@,
    {
        match self {
            DecodeError::RootNotObject => DecodeError::RootNotObject,
            DecodeError::MalformedNumber(text) => DecodeError::MalformedNumber(text.clone()),
            DecodeError::NonFiniteNumber => DecodeError::NonFiniteNumber,
            DecodeError::UnsupportedVariant(tag) => DecodeError::UnsupportedVariant(tag.clone()),
            DecodeError::MaxDepthExceeded => DecodeError::MaxDepthExceeded,
        }
    }
}

impl Clone for PathStep {
    /// A copy that stands for the same step.
    fn clone(&self) -> (copy: PathStep)
        ensures
            copy@ == self@,
    {
        match self {
            PathStep::Index(i) => PathStep::Index(*i),
            PathStep::Field(name) => PathStep::Field(name.clone()),
        }
    }
}

/// What a [`PathStep`] stands for.
pub enum PathStepView {
    Index(nat),
    Field(Seq<char>),
}

impl View for PathStep {
    type V = PathStepView;

    open spec fn view(&self) -> PathStepView {
        match self {
            PathStep::Index(i) => PathStepView::Index(*i as nat),
            PathStep::Field(name) => PathStepView::Field(name@),
        }
    }
}

/// A decoding error together with the place at which it arose: the steps
/// that lead from the value handed in to the offending value, outermost
/// first. The error itself is the one raised at that place, unchanged.
#[derive(Debug, PartialEq, Eq)]
pub struct DecodeFailure {
    pub error: DecodeError,
    pub path: Vec<PathStep>,
}

/// What a [`DecodeFailure`] stands for.
pub struct DecodeFailureView {
    pub error: DecodeErrorView,
    pub path: Seq<PathStepView>,
}

impl DecodeFailureView {
    /// A failure at the value handed in itself.
    pub open spec fn here(error: DecodeErrorView) -> DecodeFailureView {
        DecodeFailureView { error, path: Seq::empty() }
    }

    /// The same failure, seen from one step further out.
    pub open spec fn under(self, step: PathStepView) -> DecodeFailureView {
        DecodeFailureView { error: self.error, path: seq![step] + self.path }
    }
}

impl View for DecodeFailure {
    type V = DecodeFailureView;

    open spec fn view(&self) -> DecodeFailureView {
        DecodeFailureView {
            error: self.error@,
            path: self.path@.map_values(|step: PathStep| step@),
        }
    }
}

impl Clone for DecodeFailure {
    /// A copy that stands for the same failure.
    fn clone(&self) -> (copy: DecodeFailure)
        ensures
            copy@ == self@,
    {
        let mut path: Vec<PathStep> = Vec::new();
        let mut i: usize = 0;
        while i < self.path.len()
            invariant
                i <= self.path.len(),
                path@.len() == i,
                forall|k: int| 0 <= k < i ==> (#[trigger] path@[k])@ == self.path@[k]@,
            decreases self.path.len() - i,
        {
            path.push(self.path[i].clone());
            i = i + 1;
        }
        let copy = DecodeFailure { error: self.error.clone(), path };
        assert(copy@.path =~= self@.path);
        copy
    }
}

impl DecodeFailure {
    /// A failure at the value handed in itself.
    pub fn here(error: DecodeError) -> (failure: DecodeFailure)
        ensures
            failure@ == DecodeFailureView::here(error@),
    {
        let failure = DecodeFailure { error, path: Vec::new() };
        assert(failure@.path =~= Seq::empty());
        failure
    }

    /// The same failure, seen from one step further out.
    pub fn under(self, step: PathStep) -> (failure: DecodeFailure)
        ensures
            failure@ == self@.under(step@),
    {
        let mut path = self.path;
        path.insert(0, step);
        let failure = DecodeFailure { error: self.error, path };
        assert(failure@.path =~= seq![step@] + self@.path);
        failure
    }
}

impl EncodeError {
    /// The error in words.
    pub open spec fn message_text(self) -> Seq<char> {
        match self {
            EncodeError::RootNotObject => "the value to encode is not an object"@,
            EncodeError::UnrepresentableNumber => "Number parse error"@,
        }
    }

    /// The error in words.
    pub fn message(&self) -> (text: String)
        ensures
            text@ == self.message_text(),
    {
        match self {
            EncodeError::RootNotObject => String::from_str("the value to encode is not an object"),
            EncodeError::UnrepresentableNumber => String::from_str("Number parse error"),
        }
    }
}

impl DecodeErrorView {
    /// The error in words, with the text or the tag that it keeps.
    pub open spec fn message_text(self) -> Seq<char> {
        match self {
            DecodeErrorView::RootNotObject => "the value to decode is not a map"@,
            DecodeErrorView::MalformedNumber(text) => "malformed number: "@ + text,
            DecodeErrorView::NonFiniteNumber => "number is not finite"@,
            DecodeErrorView::UnsupportedVariant(tag) => "Unsupported AttributeValue: "@ + tag,
            DecodeErrorView::MaxDepthExceeded => "maximum nesting depth exceeded"@,
        }
    }
}

impl DecodeError {
    /// The error in words, with the text or the tag that it keeps.
    pub fn message(&self) -> (text: String)
        ensures
            text@ == self@.message_text(),
    {
        match self {
            DecodeError::RootNotObject => String::from_str("the value to decode is not a map"),
            DecodeError::MalformedNumber(number) => {
                let mut text = String::from_str("malformed number: ");
                text.append(number.as_str());
                text
            },
            DecodeError::NonFiniteNumber => String::from_str("number is not finite"),
            DecodeError::UnsupportedVariant(tag) => {
                let mut text = String::from_str("Unsupported AttributeValue: ");
                text.append(tag.as_str());
                text
            },
            DecodeError::MaxDepthExceeded => String::from_str("maximum nesting depth exceeded"),
        }
    }
}

impl PathStepView {
    /// The step as it is written in a path: `[3]` for an index, `.name` for a
    /// field.
    pub open spec fn text(self) -> Seq<char> {
        match self {
            PathStepView::Index(i) => "["@ + natural_text(i) + "]"@,
            PathStepView::Field(name) => "."@ + name,
        }
    }
}

/// The steps of a path as they are written, one after the other.
pub open spec fn path_text(path: Seq<PathStepView>) -> Seq<char>
    decreases path.len(),
{
    if path.len() == 0 {
        Seq::empty()
    } else {
        path_text(path.drop_last()) + path.last().text()
    }
}

impl DecodeFailureView {
    /// The failure in words: the error, and after ` at $` the path to its
    /// place where the path is not empty.
    pub open spec fn message_text(self) -> Seq<char> {
        if self.path.len() == 0 {
            self.error.message_text()
        } else {
            self.error.message_text() + " at $"@ + path_text(self.path)
        }
    }
}

impl DecodeFailure {
    /// The failure in words: the error, and the path to its place.
    pub fn message(&self) -> (text: String)
        ensures
            text@ == self@.message_text(),
    {
        let mut text = self.error.message();
        if self.path.len() == 0 {
            return text;
        }
        text.append(" at $");
        let ghost head = text@;
        let ghost steps = self@.path;
        let mut i: usize = 0;
        assert(steps.take(0) =~= Seq::empty());
        while i < self.path.len()
            invariant
                i <= self.path.len(),
                steps == self@.path,
                steps.len() == self.path.len(),
                text@ == head + path_text(steps.take(i as int)),
            decreases self.path.len() - i,
        {
            let ghost before = text@;
            match &self.path[i] {
                PathStep::Index(index) => {
                    text.append("[");
                    push_natural(&mut text, *index as u64);
                    text.append("]");
                },
                PathStep::Field(name) => {
                    text.append(".");
                    text.append(name.as_str());
                },
            }
            proof {
                let next = steps.take(i + 1);
                assert(next.drop_last() =~= steps.take(i as int));
                assert(next.last() == self.path@[i as int]@);
                assert(text@ =~= before + next.last().text());
                assert(text@ =~= head + path_text(next));
            }
            i = i + 1;
        }
        assert(steps.take(i as int) =~= steps);
        text
    }
}

/// What can go wrong in the layer that talks to the store: the errors of
/// encoding and decoding, kept apart from those of the store and the network.
#[derive(Debug, PartialEq, Eq)]
pub enum DynamodeError {
    /// Encoding failed; never worth a retry.
    Serialization(String),
    /// Decoding failed; never worth a retry.
    Deserialization(String),
    /// The store refused or failed the request.
    DynamoDb(String),
    NotFound,
    InvalidKey,
    Validation(String),
    Network(String),
}

impl DynamodeError {
    /// The error in words.
    pub open spec fn message_text(&self) -> Seq<char> {
        match self {
            DynamodeError::Serialization(msg) => "Serialization error: "@ + msg@,
            DynamodeError::Deserialization(msg) => "Deserialization error: "@ + msg@,
            DynamodeError::DynamoDb(msg) => "DynamoDB error: "@ + msg@,
            DynamodeError::NotFound => "Entity not found"@,
            DynamodeError::InvalidKey => "Invalid key"@,
            DynamodeError::Validation(msg) => "Validation error: "@ + msg@,
            DynamodeError::Network(msg) => "Network error: "@ + msg@,
        }
    }

    /// The error in words.
    pub fn message(&self) -> (text: String)
        ensures
            text@ == self.message_text(),
    {
        match self {
            DynamodeError::Serialization(msg) => {
                let mut text = String::from_str("Serialization error: ");
                text.append(msg.as_str());
                text
            },
            DynamodeError::Deserialization(msg) => {
                let mut text = String::from_str("Deserialization error: ");
                text.append(msg.as_str());
                text
            },
            DynamodeError::DynamoDb(msg) => {
                let mut text = String::from_str("DynamoDB error: ");
                text.append(msg.as_str());
                text
            },
            DynamodeError::NotFound => String::from_str("Entity not found"),
            DynamodeError::InvalidKey => String::from_str("Invalid key"),
            DynamodeError::Validation(msg) => {
                let mut text = String::from_str("Validation error: ");
                text.append(msg.as_str());
                text
            },
            DynamodeError::Network(msg) => {
                let mut text = String::from_str("Network error: ");
                text.append(msg.as_str());
                text
            },
        }
    }

    /// The error of this layer for a failed encoding.
    pub fn from_encode(error: EncodeError) -> (wrapped: DynamodeError)
        ensures
            wrapped matches DynamodeError::Serialization(msg) && msg@ == error.message_text(),
    {
        DynamodeError::Serialization(error.message())
    }

    /// The error of this layer for a failed decoding.
    pub fn from_decode(failure: &DecodeFailure) -> (wrapped: DynamodeError)
        ensures
            wrapped matches DynamodeError::Deserialization(msg) && msg@
                == failure@.message_text(),
    {
        DynamodeError::Deserialization(failure.message())
    }

    /// Whether the error arose in encoding or decoding, and not at the store
    /// or on the way to it. Such an error comes again on every retry.
    pub fn is_mapping_error(&self) -> (mapping: bool)
        ensures
            mapping == (self is Serialization || self is Deserialization),
    {
        match self {
            DynamodeError::Serialization(_) => true,
            DynamodeError::Deserialization(_) => true,
            _ => false,
        }
    }
}

} // verus!
