//! The elements a sentence is made of: words and sentence markers.

use vstd::prelude::*;

verus! {

/// The side on which a sentence is being extended.
#[derive(Debug, Clone, Copy, PartialEq, Eq, Structural)]
pub enum SentenceDirection {
    Backward,
    Forward,
}

/// An element that stands for a position in a sentence rather than a word.
///
/// `Placeholder` pads a tokenized line so that every window over it has a
/// neighbour on both sides; it is never learned.
#[derive(Debug, Clone, Copy, PartialEq, Eq, Hash, Structural)]
pub enum SentenceMarker {
    Placeholder,
    Start,
    End,
}

/// One element of a sentence: a marker or a word.
#[derive(Debug, Hash)]
pub enum StateElement {
    Marker(SentenceMarker),
    Word(String),
}

/// The mathematical value of a [`StateElement`]: a word is its characters.
pub enum Element {
    Marker(SentenceMarker),
    Word(Seq<char>),
}

impl View for StateElement {
    type V = Element;

    open spec fn view(&self) -> Element {
        match self {
            StateElement::Marker(m) => Element::Marker(*m),
            StateElement::Word(w) => Element::Word(w@),
        }
    }
}

/// The placeholder, as a value.
pub open spec fn placeholder() -> Element {
    Element::Marker(SentenceMarker::Placeholder)
}

/// The marker that ends a sentence on the given side.
pub open spec fn boundary(direction: SentenceDirection) -> Element {
    match direction {
        SentenceDirection::Backward => Element::Marker(SentenceMarker::Start),
        SentenceDirection::Forward => Element::Marker(SentenceMarker::End),
    }
}

/// The values of a run of elements, in order.
pub open spec fn elements_view(s: Seq<StateElement>) -> Seq<Element> {
    Seq::new(s.len(), |i: int| s[i]@)
}

impl Clone for StateElement {
    fn clone(&self) -> (r: Self)
        ensures
            r@ == self@,
    {
        match self {
            StateElement::Marker(m) => StateElement::Marker(*m),
            StateElement::Word(w) => StateElement::Word(w.clone()),
        }
    }
}

impl PartialEq for StateElement {
    fn eq(&self, other: &Self) -> (r: bool) {
        match (self, other) {
            (StateElement::Marker(a), StateElement::Marker(b)) => *a == *b,
            (StateElement::Word(a), StateElement::Word(b)) => *a == *b,
            _ => false,
        }
    }
}

impl vstd::std_specs::cmp::PartialEqSpecImpl for StateElement {
    open spec fn obeys_eq_spec() -> bool {
        true
    }

    open spec fn eq_spec(&self, other: &Self) -> bool {
        self@ == other@
    }
}

impl Eq for StateElement {}

impl StateElement {
    /// Whether this element is the placeholder.
    pub fn is_placeholder(&self) -> (r: bool)
        ensures
            r == (self@ == placeholder()),
    {
        match self {
            StateElement::Marker(SentenceMarker::Placeholder) => true,
            _ => false,
        }
    }

    /// Whether this element is the given marker.
    pub fn is_marker(&self, marker: SentenceMarker) -> (r: bool)
        ensures
            r == (self@ == Element::Marker(marker)),
    {
        match self {
            StateElement::Marker(m) => *m == marker,
            StateElement::Word(_) => false,
        }
    }
}

/// Copies a run of elements.
pub fn clone_elements(source: &[StateElement]) -> (r: Vec<StateElement>)
    ensures
        elements_view(r@) == elements_view(source@),
{
    let mut out: Vec<StateElement> = Vec::new();
    let mut i: usize = 0;
    while i < source.len()
        invariant
            i <= source.len(),
            out.len() == i,
            forall|k: int| 0 <= k < i ==> out[k]@ == source[k]@,
        decreases source.len() - i,
    {
        out.push(source[i].clone());
        i = i + 1;
    }
    assert(elements_view(out@) =~= elements_view(source@));
    out
}

} // verus!
