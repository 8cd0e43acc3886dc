//! States, and the transitions observed around them.

use vstd::prelude::*;
use crate::elements::{
    clone_elements, elements_view, placeholder, Element, SentenceDirection, StateElement,
};
use crate::prng::Prng;
use crate::weights::{
    bump, lemma_bump, lemma_count_le_total, lemma_index_unique, lemma_total_prefix, list_has,
    list_wf, records, total_weight, WEIGHT_LIMIT,
};

verus! {

/// The value of a stored neighbour list.
pub open spec fn list_view(list: Seq<(StateElement, u64)>) -> Seq<(Element, nat)> {
    Seq::new(list.len(), |i: int| (list[i].0@, list[i].1 as nat))
}

/// A run of elements, used as a key to what was observed around it.
#[derive(Debug, Hash)]
pub struct State(pub(crate) Vec<StateElement>);

impl View for State {
    type V = Seq<Element>;

    closed spec fn view(&self) -> Seq<Element> {
        elements_view(self.0@)
    }
}

impl State {
    /// The state made of `elements`.
    pub fn new(elements: Vec<StateElement>) -> (r: State)
        ensures
            r@ == elements_view(elements@),
    {
        State(elements)
    }

    /// The elements of the state.
    pub fn elements(&self) -> (r: &Vec<StateElement>)
        ensures
            elements_view(r@) == self@,
    {
        &self.0
    }

    /// The number of elements.
    pub fn len(&self) -> (r: usize)
        ensures
            r == self@.len(),
    {
        self.0.len()
    }

    /// Whether `element` is one of the state's elements.
    pub fn contains(&self, element: &StateElement) -> (r: bool)
        ensures
            r == self@.contains(element@),
    {
        let mut i: usize = 0;
        while i < self.0.len()
            invariant
                i <= self.0.len(),
                forall|k: int| 0 <= k < i ==> self@[k] != element@,
            decreases self.0.len() - i,
        {
            if self.0[i] == *element {
                assert(self@[i as int] == element@);
                return true;
            }
            i = i + 1;
        }
        false
    }

    /// Whether the state is made of exactly the elements of `key`.
    pub fn matches(&self, key: &[StateElement]) -> (r: bool)
        ensures
            r == (self@ == elements_view(key@)),
    {
        if self.0.len() != key.len() {
            assert(self@.len() != elements_view(key@).len());
            return false;
        }
        let mut i: usize = 0;
        while i < key.len()
            invariant
                i <= key.len(),
                self.0.len() == key.len(),
                forall|k: int| 0 <= k < i ==> self@[k] == elements_view(key@)[k],
            decreases key.len() - i,
        {
            if self.0[i] != key[i] {
                assert(self@[i as int] != elements_view(key@)[i as int]);
                return false;
            }
            i = i + 1;
        }
        assert(self@ =~= elements_view(key@));
        true
    }

    /// One element of the state, each with the same chance.
    ///
    /// The element is the one at the index that the generator draws for the
    /// state's length.
    pub fn random_element(&self, rng: &mut Prng) -> (r: &StateElement)
        requires
            self@.len() > 0,
        ensures
            ({
                let d = old(rng)@.index(self@.len() as int);
                &&& 0 <= d.0 < self@.len()
                &&& r@ == self@[d.0]
                &&& final(rng)@ == d.1
            }),
    {
        let chosen = rng.pick(self.0.as_slice());
        chosen.unwrap()
    }
}

impl Clone for State {
    fn clone(&self) -> (r: Self)
        ensures
            r@ == self@,
    {
        State(clone_elements(self.0.as_slice()))
    }
}

impl PartialEq for State {
    fn eq(&self, other: &Self) -> (r: bool) {
        self.matches(other.0.as_slice())
    }
}

impl vstd::std_specs::cmp::PartialEqSpecImpl for State {
    open spec fn obeys_eq_spec() -> bool {
        true
    }

    open spec fn eq_spec(&self, other: &Self) -> bool {
        self@ == other@
    }
}

impl Eq for State {}

/// What was observed around a state, as a value: the elements seen just
/// before it and just after it, each with its count.
pub struct TransitionView {
    pub prev: Seq<(Element, nat)>,
    pub next: Seq<(Element, nat)>,
}

impl TransitionView {
    /// The list on the given side.
    pub open spec fn side(self, direction: SentenceDirection) -> Seq<(Element, nat)> {
        match direction {
            SentenceDirection::Backward => self.prev,
            SentenceDirection::Forward => self.next,
        }
    }

    /// Both lists are well formed.
    pub open spec fn wf(self) -> bool {
        list_wf(self.prev) && list_wf(self.next)
    }

    /// The transition after one observation of `e` on the given side.
    pub open spec fn observed(self, direction: SentenceDirection, e: Element) -> TransitionView {
        match direction {
            SentenceDirection::Backward => TransitionView { prev: bump(self.prev, e), next: self.next },
            SentenceDirection::Forward => TransitionView { prev: self.prev, next: bump(self.next, e) },
        }
    }

    /// The transition of a state that was never observed.
    pub open spec fn empty() -> TransitionView {
        TransitionView { prev: Seq::empty(), next: Seq::empty() }
    }
}

/// The elements observed just before and just after a state, with counts.
#[derive(Debug)]
pub struct Transistion {
    pub(crate) prev: Vec<(StateElement, u64)>,
    pub(crate) next: Vec<(StateElement, u64)>,
}

impl View for Transistion {
    type V = TransitionView;

    closed spec fn view(&self) -> TransitionView {
        TransitionView { prev: list_view(self.prev@), next: list_view(self.next@) }
    }
}

/// Records one observation of `element` in `list`.
fn bump_list(list: &mut Vec<(StateElement, u64)>, element: &StateElement)
    requires
        list_wf(list_view(old(list)@)),
    ensures
        list_view(final(list)@) == bump(list_view(old(list)@), element@),
        list_wf(list_view(final(list)@)),
{
    let ghost before = list_view(list@);
    proof {
        lemma_bump(before, element@);
    }
    if element.is_placeholder() {
        return;
    }
    let mut total: u64 = 0;
    let mut found: Option<usize> = None;
    let mut i: usize = 0;
    while i < list.len()
        invariant
            i <= list.len(),
            list_view(list@) == before,
            total_weight(before) <= WEIGHT_LIMIT,
            total == total_weight(before.subrange(0, i as int)),
            found matches Some(k) ==> k < i && before[k as int].0 == element@,
            found is None ==> forall|k: int| 0 <= k < i ==> before[k].0 != element@,
        decreases list.len() - i,
    {
        proof {
            lemma_total_prefix(before, i + 1);
            assert(before.subrange(0, i + 1).drop_last() =~= before.subrange(0, i as int));
        }
        total = total + list[i].1;
        if list[i].0 == *element {
            found = Some(i);
        }
        i = i + 1;
    }
    assert(before.subrange(0, i as int) =~= before);
    if total == WEIGHT_LIMIT {
        return;
    }
    assert(records(before, element@));
    match found {
        Some(k) => {
            proof {
                lemma_index_unique(before, k as int);
            }
            let count: u64 = list[k].1;
            proof {
                lemma_count_le_total(before, k as int);
            }
            list.set(k, (element.clone(), count + 1));
            assert(list_view(list@) =~= bump(before, element@));
        },
        None => {
            assert(!list_has(before, element@));
            list.push((element.clone(), 1));
            assert(list_view(list@) =~= bump(before, element@));
        },
    }
}

/// Copies a neighbour list.
pub fn clone_list(list: &Vec<(StateElement, u64)>) -> (r: Vec<(StateElement, u64)>)
    ensures
        list_view(r@) == list_view(list@),
{
    let mut out: Vec<(StateElement, u64)> = Vec::new();
    let mut i: usize = 0;
    while i < list.len()
        invariant
            i <= list.len(),
            out.len() == i,
            forall|k: int| 0 <= k < i ==> out[k].0@ == list[k].0@ && out[k].1 == list[k].1,
        decreases list.len() - i,
    {
        out.push((list[i].0.clone(), list[i].1));
        i = i + 1;
    }
    assert(list_view(out@) =~= list_view(list@));
    out
}

/// Whether `list` is a well-formed neighbour list, see [`list_wf`].
pub fn valid_list(list: &Vec<(StateElement, u64)>) -> (r: bool)
    ensures
        r == list_wf(list_view(list@)),
{
    let ghost all = list_view(list@);
    let mut total: u64 = 0;
    let mut i: usize = 0;
    while i < list.len()
        invariant
            i <= list.len(),
            all == list_view(list@),
            total == total_weight(all.subrange(0, i as int)),
            forall|a: int, b: int| 0 <= a < b < i ==> (#[trigger] all[a]).0 != (#[trigger] all[b]).0,
            forall|a: int| 0 <= a < i ==> (#[trigger] all[a]).1 >= 1 && all[a].0 != placeholder(),
        decreases list.len() - i,
    {
        if list[i].1 == 0 || list[i].0.is_placeholder() {
            assert(!(all[i as int].1 >= 1 && all[i as int].0 != placeholder()));
            return false;
        }
        let mut j: usize = 0;
        while j < i
            invariant
                j <= i,
                i < list.len(),
                all == list_view(list@),
                forall|b: int| 0 <= b < j ==> (#[trigger] all[b]).0 != all[i as int].0,
            decreases i - j,
        {
            if list[j].0 == list[i].0 {
                assert(all[j as int].0 == all[i as int].0);
                return false;
            }
            j = j + 1;
        }
        proof {
            lemma_total_prefix(all, i + 1);
            assert(all.subrange(0, i + 1).drop_last() =~= all.subrange(0, i as int));
        }
        match total.checked_add(list[i].1) {
            Some(sum) => {
                total = sum;
            },
            None => {
                return false;
            },
        }
        i = i + 1;
    }
    assert(all.subrange(0, i as int) =~= all);
    true
}

impl Clone for Transistion {
    fn clone(&self) -> (r: Self)
        ensures
            r@ == self@,
    {
        Transistion { prev: clone_list(&self.prev), next: clone_list(&self.next) }
    }
}

impl Transistion {
    /// The transition of a state around which nothing was observed yet.
    pub fn new() -> (r: Transistion)
        ensures
            r@ == TransitionView::empty(),
            r.wf(),
    {
        let r = Transistion { prev: Vec::new(), next: Vec::new() };
        assert(r@.prev =~= Seq::empty() && r@.next =~= Seq::empty());
        r
    }

    /// The transition with the given neighbour lists, if both are well
    /// formed.
    pub fn from_lists(prev: Vec<(StateElement, u64)>, next: Vec<(StateElement, u64)>) -> (r: Option<
        Transistion,
    >)
        ensures
            r is Some == (list_wf(list_view(prev@)) && list_wf(list_view(next@))),
            r matches Some(transition) ==> transition@ == (TransitionView {
                prev: list_view(prev@),
                next: list_view(next@),
            }),
    {
        if valid_list(&prev) && valid_list(&next) {
            Some(Transistion { prev, next })
        } else {
            None
        }
    }

    /// The invariant of a transition: both neighbour lists are well formed.
    pub open spec fn wf(&self) -> bool {
        self@.wf()
    }

    /// The elements observed just before the state, with their counts.
    pub fn prev(&self) -> (r: &Vec<(StateElement, u64)>)
        ensures
            list_view(r@) == self@.prev,
    {
        &self.prev
    }

    /// The elements observed just after the state, with their counts.
    pub fn next(&self) -> (r: &Vec<(StateElement, u64)>)
        ensures
            list_view(r@) == self@.next,
    {
        &self.next
    }

    /// The list on the given side.
    pub fn side(&self, direction: SentenceDirection) -> (r: &Vec<(StateElement, u64)>)
        ensures
            list_view(r@) == self@.side(direction),
    {
        match direction {
            SentenceDirection::Backward => &self.prev,
            SentenceDirection::Forward => &self.next,
        }
    }

    /// Records that `new_element` was seen next to the state on the given
    /// side.
    ///
    /// The placeholder is never recorded. Otherwise the count of the element
    /// grows by one, or the element enters the list with count one. A list
    /// whose counts add up to [`WEIGHT_LIMIT`] is full and stays as it is.
    pub fn increment_occurence(&mut self, direction: SentenceDirection, new_element: &StateElement)
        requires
            old(self).wf(),
        ensures
            final(self).wf(),
            final(self)@ == old(self)@.observed(direction, new_element@),
    {
        match direction {
            SentenceDirection::Backward => bump_list(&mut self.prev, new_element),
            SentenceDirection::Forward => bump_list(&mut self.next, new_element),
        }
    }
}

} // verus!
