//! The transition store: every state observed so far, with its transition.
//!
//! Entries are kept in the order in which their states were first observed,
//! and no state has two entries.

use vstd::prelude::*;
use vstd::slice::slice_subrange;
use crate::components::{clone_list, list_view, State, Transistion, TransitionView};
use crate::error::Error;
use crate::elements::{clone_elements, elements_view, Element, SentenceDirection, StateElement};
use crate::prng::Prng;
use crate::weights::{count_of, lemma_bump};

verus! {

/// The value of a store: its states, each with its transition.
pub type StoreView = Seq<(Seq<Element>, TransitionView)>;

/// Whether `key` is a state of `store`.
pub open spec fn store_has(store: StoreView, key: Seq<Element>) -> bool {
    exists|i: int| 0 <= i < store.len() && (#[trigger] store[i]).0 == key
}

/// The position of `key` in `store`, where it is one of its states.
pub open spec fn store_index(store: StoreView, key: Seq<Element>) -> int {
    choose|i: int| 0 <= i < store.len() && (#[trigger] store[i]).0 == key
}

/// The transition of `key`, where it is a state of `store`.
pub open spec fn lookup(store: StoreView, key: Seq<Element>) -> Option<TransitionView> {
    if store_has(store, key) {
        Some(store[store_index(store, key)].1)
    } else {
        None
    }
}

/// How often `e` was observed next to `key` on the given side; zero where
/// `key` is no state of `store`.
pub open spec fn weight(
    store: StoreView,
    key: Seq<Element>,
    direction: SentenceDirection,
    e: Element,
) -> nat {
    match lookup(store, key) {
        Some(transition) => count_of(transition.side(direction), e),
        None => 0,
    }
}

/// No state has two entries.
pub open spec fn distinct_keys(store: StoreView) -> bool {
    forall|i: int, j: int|
        0 <= i < j < store.len() ==> (#[trigger] store[i]).0 != (#[trigger] store[j]).0
}

/// The invariant of a store: no state has two entries, no state is empty,
/// and every transition is well formed.
pub open spec fn store_wf(store: StoreView) -> bool {
    &&& distinct_keys(store)
    &&& forall|i: int|
        0 <= i < store.len() ==> (#[trigger] store[i]).0.len() >= 1 && store[i].1.wf()
}

/// What one window adds to a transition: `before` on the backward side and
/// `after` on the forward side.
pub open spec fn framed(transition: TransitionView, before: Element, after: Element) -> TransitionView {
    transition.observed(SentenceDirection::Backward, before).observed(
        SentenceDirection::Forward,
        after,
    )
}

/// `store` after one window: `key` was seen with `before` in front of it and
/// `after` behind it. A state seen for the first time enters at the end.
pub open spec fn observe(
    store: StoreView,
    key: Seq<Element>,
    before: Element,
    after: Element,
) -> StoreView {
    if store_has(store, key) {
        let i = store_index(store, key);
        store.update(i, (key, framed(store[i].1, before, after)))
    } else {
        store.push((key, framed(TransitionView::empty(), before, after)))
    }
}

/// The number of windows that hold a state of `size` elements and a
/// neighbour on each side, in a line of `len` elements.
pub open spec fn window_count(len: nat, size: nat) -> nat {
    if len >= size + 2 {
        (len - size - 1) as nat
    } else {
        0
    }
}

/// `store` after the first `upto` windows for states of `size` elements over
/// `elements`, from left to right.
pub open spec fn ingest_windows(
    store: StoreView,
    elements: Seq<Element>,
    size: nat,
    upto: nat,
) -> StoreView
    decreases upto,
{
    if upto == 0 {
        store
    } else {
        let at = upto - 1;
        observe(
            ingest_windows(store, elements, size, at as nat),
            elements.subrange(at + 1, at + 1 + size),
            elements[at],
            elements[at + size + 1],
        )
    }
}

/// `store` after all windows for states of one element, then of two, and so
/// on up to `max_size` elements.
pub open spec fn ingested(store: StoreView, elements: Seq<Element>, max_size: nat) -> StoreView
    decreases max_size,
{
    if max_size == 0 {
        store
    } else {
        ingest_windows(
            ingested(store, elements, (max_size - 1) as nat),
            elements,
            max_size,
            window_count(elements.len(), max_size),
        )
    }
}

/// The positions of the states of `store` among its first `upto` that hold
/// `e`, in order.
pub open spec fn states_with_upto(store: StoreView, e: Element, upto: nat) -> Seq<int>
    decreases upto,
{
    if upto == 0 {
        Seq::empty()
    } else {
        let before = states_with_upto(store, e, (upto - 1) as nat);
        if store[upto - 1].0.contains(e) {
            before.push(upto - 1)
        } else {
            before
        }
    }
}

/// The positions of all states of `store` that hold `e`, in order.
pub open spec fn states_with(store: StoreView, e: Element) -> Seq<int> {
    states_with_upto(store, e, store.len())
}

/// The positions in `indices`, as numbers.
pub open spec fn indices_view(indices: Seq<usize>) -> Seq<int> {
    Seq::new(indices.len(), |k: int| indices[k] as int)
}

/// In a store without repeated states, an entry of a state is its entry.
pub proof fn lemma_key_unique(store: StoreView, i: int)
    requires
        distinct_keys(store),
        0 <= i < store.len(),
    ensures
        store_has(store, store[i].0),
        store_index(store, store[i].0) == i,
        lookup(store, store[i].0) == Some(store[i].1),
{
    let j = store_index(store, store[i].0);
    assert(0 <= j < store.len() && store[j].0 == store[i].0);
    if j < i {
        assert(store[j].0 != store[i].0);
    } else if i < j {
        assert(store[i].0 != store[j].0);
    }
}

/// One window keeps a transition well formed.
pub proof fn lemma_framed_wf(transition: TransitionView, before: Element, after: Element)
    requires
        transition.wf(),
    ensures
        framed(transition, before, after).wf(),
{
    lemma_bump(transition.prev, before);
    lemma_bump(transition.next, after);
}

/// One window keeps a store well formed.
pub proof fn lemma_observe_wf(store: StoreView, key: Seq<Element>, before: Element, after: Element)
    requires
        store_wf(store),
        key.len() >= 1,
    ensures
        store_wf(observe(store, key, before, after)),
{
    let result = observe(store, key, before, after);
    if store_has(store, key) {
        let i = store_index(store, key);
        lemma_framed_wf(store[i].1, before, after);
        assert forall|a: int, b: int| 0 <= a < b < result.len() implies (#[trigger] result[a]).0 != (
        #[trigger] result[b]).0 by {
            assert(result[a].0 == store[a].0 && result[b].0 == store[b].0);
        }
        assert forall|k: int| 0 <= k < result.len() implies (#[trigger] result[k]).0.len() >= 1
            && result[k].1.wf() by {
            assert(store[k].0.len() >= 1 && store[k].1.wf());
        }
    } else {
        lemma_bump(Seq::empty(), before);
        lemma_bump(Seq::empty(), after);
        assert forall|a: int, b: int| 0 <= a < b < result.len() implies (#[trigger] result[a]).0 != (
        #[trigger] result[b]).0 by {
            if b == store.len() {
                assert(store[a].0 != key);
            } else {
                assert(result[a].0 == store[a].0 && result[b].0 == store[b].0);
            }
        }
        assert forall|k: int| 0 <= k < result.len() implies (#[trigger] result[k]).0.len() >= 1
            && result[k].1.wf() by {
            if k < store.len() {
                assert(store[k].0.len() >= 1 && store[k].1.wf());
            }
        }
    }
}

/// Sizes for which a line has no window add nothing.
pub proof fn lemma_ingested_beyond(store: StoreView, elements: Seq<Element>, reach: nat, max_size: nat)
    requires
        reach <= max_size,
        elements.len() < reach + 3,
    ensures
        ingested(store, elements, max_size) == ingested(store, elements, reach),
    decreases max_size,
{
    if reach < max_size {
        lemma_ingested_beyond(store, elements, reach, (max_size - 1) as nat);
    }
}

/// One state of a saved store, with its two neighbour lists.
#[derive(Debug)]
pub struct StateRecord {
    pub state: Vec<StateElement>,
    pub prev: Vec<(StateElement, u64)>,
    pub next: Vec<(StateElement, u64)>,
}

/// The value of a [`StateRecord`].
pub struct RecordView {
    pub state: Seq<Element>,
    pub prev: Seq<(Element, nat)>,
    pub next: Seq<(Element, nat)>,
}

impl View for StateRecord {
    type V = RecordView;

    open spec fn view(&self) -> RecordView {
        RecordView {
            state: elements_view(self.state@),
            prev: list_view(self.prev@),
            next: list_view(self.next@),
        }
    }
}

/// The values of a run of records, in order.
pub open spec fn records_view(records: Seq<StateRecord>) -> Seq<RecordView> {
    Seq::new(records.len(), |i: int| records[i]@)
}

/// The records that save `store`: one for each state, in order.
pub open spec fn snapshot_of(store: StoreView) -> Seq<RecordView> {
    Seq::new(
        store.len(),
        |i: int| RecordView { state: store[i].0, prev: store[i].1.prev, next: store[i].1.next },
    )
}

/// The states and transitions that `records` hold, in order.
pub open spec fn store_of(records: Seq<RecordView>) -> StoreView {
    Seq::new(
        records.len(),
        |i: int| (records[i].state, TransitionView { prev: records[i].prev, next: records[i].next }),
    )
}

/// The store that `records` restore: the one they hold, if it is well
/// formed.
pub open spec fn restored(records: Seq<RecordView>) -> Option<StoreView> {
    if store_wf(store_of(records)) {
        Some(store_of(records))
    } else {
        None
    }
}

/// Saving a store and restoring it gives the store back: the same states
/// in the same order, each with the same counts. This holds of the empty
/// store too.
pub proof fn lemma_save_restore(store: StoreView)
    requires
        store_wf(store),
    ensures
        restored(snapshot_of(store)) == Some(store),
{
    assert(store_of(snapshot_of(store)) =~= store);
}

/// Every state observed so far, with its transition.
#[derive(Debug)]
pub struct TransitionStore {
    entries: Vec<(State, Transistion)>,
}

impl View for TransitionStore {
    type V = StoreView;

    closed spec fn view(&self) -> StoreView {
        Seq::new(self.entries@.len(), |i: int| (self.entries@[i].0@, self.entries@[i].1@))
    }
}

impl Clone for TransitionStore {
    fn clone(&self) -> (r: Self)
        ensures
            r@ == self@,
    {
        let mut entries: Vec<(State, Transistion)> = Vec::new();
        let mut i: usize = 0;
        while i < self.entries.len()
            invariant
                i <= self.entries.len(),
                entries.len() == i,
                forall|k: int|
                    0 <= k < i ==> entries[k].0@ == self.entries[k].0@ && entries[k].1@
                        == self.entries[k].1@,
            decreases self.entries.len() - i,
        {
            entries.push((self.entries[i].0.clone(), self.entries[i].1.clone()));
            i = i + 1;
        }
        let r = TransitionStore { entries };
        assert(r@ =~= self@);
        r
    }
}

impl TransitionStore {
    /// The invariant of a store, see [`store_wf`].
    pub open spec fn wf(&self) -> bool {
        store_wf(self@)
    }

    /// A store without states.
    pub fn new() -> (r: TransitionStore)
        ensures
            r@ == Seq::<(Seq<Element>, TransitionView)>::empty(),
            r.wf(),
    {
        let r = TransitionStore { entries: Vec::new() };
        assert(r@ =~= Seq::empty());
        r
    }

    /// The number of states.
    pub fn len(&self) -> (r: usize)
        ensures
            r == self@.len(),
    {
        self.entries.len()
    }

    /// Whether the store has no state.
    pub fn is_empty(&self) -> (r: bool)
        ensures
            r == (self@.len() == 0),
    {
        self.entries.len() == 0
    }

    /// The state at position `i`.
    pub fn state_at(&self, i: usize) -> (r: &State)
        requires
            i < self@.len(),
        ensures
            r@ == self@[i as int].0,
    {
        &self.entries[i].0
    }

    /// The transition at position `i`.
    pub fn transition_at(&self, i: usize) -> (r: &Transistion)
        requires
            i < self@.len(),
        ensures
            r@ == self@[i as int].1,
    {
        &self.entries[i].1
    }

    /// The records that save the store.
    pub fn export(&self) -> (r: Vec<StateRecord>)
        ensures
            records_view(r@) == snapshot_of(self@),
    {
        let mut records: Vec<StateRecord> = Vec::new();
        let mut i: usize = 0;
        while i < self.entries.len()
            invariant
                i <= self.entries.len(),
                records.len() == i,
                forall|k: int| 0 <= k < i ==> (#[trigger] records[k])@ == snapshot_of(self@)[k],
            decreases self.entries.len() - i,
        {
            let state = clone_elements(self.entries[i].0.elements().as_slice());
            let prev = clone_list(self.entries[i].1.prev());
            let next = clone_list(self.entries[i].1.next());
            records.push(StateRecord { state, prev, next });
            i = i + 1;
        }
        assert(records_view(records@) =~= snapshot_of(self@));
        records
    }

    /// The store that `records` restore.
    ///
    /// The records are refused where they do not make a well-formed store:
    /// where a state is empty or occurs twice, or a neighbour list holds an
    /// element twice, a placeholder, a zero count, or counts that add up to
    /// more than [`WEIGHT_LIMIT`](crate::weights::WEIGHT_LIMIT).
    pub fn import(records: &[StateRecord]) -> (r: Result<TransitionStore, Error>)
        ensures
            match r {
                Ok(store) => store.wf() && restored(records_view(records@)) == Some(store@),
                Err(e) => e is InvalidStore && restored(records_view(records@)) is None,
            },
    {
        let ghost held = store_of(records_view(records@));
        let mut store = TransitionStore::new();
        let mut i: usize = 0;
        assert(store@ =~= held.subrange(0, 0));
        while i < records.len()
            invariant
                i <= records.len(),
                held == store_of(records_view(records@)),
                store.wf(),
                store@ == held.subrange(0, i as int),
            decreases records.len() - i,
        {
            let record = &records[i];
            assert(held[i as int].0 == elements_view(record.state@));
            assert(held[i as int].1 == (TransitionView {
                prev: list_view(record.prev@),
                next: list_view(record.next@),
            }));
            if record.state.len() == 0 {
                assert(!(held[i as int].0.len() >= 1));
                return Err(Error::InvalidStore);
            }
            match store.position(record.state.as_slice()) {
                Some(j) => {
                    assert(held[j as int].0 == held[i as int].0);
                    return Err(Error::InvalidStore);
                },
                None => {},
            }
            match Transistion::from_lists(clone_list(&record.prev), clone_list(&record.next)) {
                Some(transition) => {
                    store.entries.push((State::new(clone_elements(record.state.as_slice())), transition));
                },
                None => {
                    assert(!held[i as int].1.wf());
                    return Err(Error::InvalidStore);
                },
            }
            i = i + 1;
            assert(store@ =~= held.subrange(0, i as int));
            assert(store.wf()) by {
                let before = held.subrange(0, i - 1);
                assert forall|a: int, b: int| 0 <= a < b < store@.len() implies (
                #[trigger] store@[a]).0 != (#[trigger] store@[b]).0 by {
                    if b == i - 1 {
                        assert(before[a].0 == store@[a].0);
                    } else {
                        assert(before[a].0 == store@[a].0 && before[b].0 == store@[b].0);
                    }
                }
                assert forall|k: int| 0 <= k < store@.len() implies (#[trigger] store@[k]).0.len()
                    >= 1 && store@[k].1.wf() by {
                    if k < i - 1 {
                        assert(before[k] == store@[k]);
                    }
                }
            }
        }
        assert(held.subrange(0, i as int) =~= held);
        Ok(store)
    }

    /// One state of the store, each with the same chance.
    ///
    /// The state is the one at the index that the generator draws for the
    /// number of states.
    pub fn random_state(&self, rng: &mut Prng) -> (r: &State)
        requires
            self@.len() > 0,
        ensures
            ({
                let d = old(rng)@.index(self@.len() as int);
                &&& 0 <= d.0 < self@.len()
                &&& r@ == self@[d.0].0
                &&& final(rng)@ == d.1
            }),
    {
        let entry = rng.pick(self.entries.as_slice()).unwrap();
        &entry.0
    }

    /// The position of the state made of the elements of `key`, if the store
    /// has it.
    pub fn position(&self, key: &[StateElement]) -> (r: Option<usize>)
        requires
            self.wf(),
        ensures
            r is Some == store_has(self@, elements_view(key@)),
            r matches Some(i) ==> i == store_index(self@, elements_view(key@)) && i < self@.len()
                && self@[i as int].0 == elements_view(key@),
    {
        let mut i: usize = 0;
        while i < self.entries.len()
            invariant
                i <= self.entries.len(),
                self.wf(),
                forall|k: int| 0 <= k < i ==> (#[trigger] self@[k]).0 != elements_view(key@),
            decreases self.entries.len() - i,
        {
            if self.entries[i].0.matches(key) {
                proof {
                    lemma_key_unique(self@, i as int);
                }
                return Some(i);
            }
            i = i + 1;
        }
        None
    }

    /// The transition of `state`, if the store has it.
    pub fn get(&self, state: &State) -> (r: Option<&Transistion>)
        requires
            self.wf(),
        ensures
            r is Some == store_has(self@, state@),
            r matches Some(transition) ==> Some(transition@) == lookup(self@, state@),
    {
        match self.position(state.elements().as_slice()) {
            Some(i) => Some(&self.entries[i].1),
            None => None,
        }
    }

    /// The positions of the states that hold `element`, in order.
    pub fn state_with_element_vec(&self, element: &StateElement) -> (r: Vec<usize>)
        ensures
            indices_view(r@) == states_with(self@, element@),
            forall|k: int| 0 <= k < r@.len() ==> (#[trigger] r@[k]) < self@.len(),
    {
        let mut found: Vec<usize> = Vec::new();
        let mut i: usize = 0;
        assert(indices_view(found@) =~= states_with_upto(self@, element@, 0));
        while i < self.entries.len()
            invariant
                i <= self.entries.len(),
                indices_view(found@) == states_with_upto(self@, element@, i as nat),
                forall|k: int| 0 <= k < found@.len() ==> (#[trigger] found@[k]) < self@.len(),
            decreases self.entries.len() - i,
        {
            let ghost before = indices_view(found@);
            if self.entries[i].0.contains(element) {
                found.push(i);
                assert(indices_view(found@) =~= before.push(i as int));
            }
            i = i + 1;
        }
        found
    }

    /// Records one window: the state made of `key` was seen with `before` in
    /// front of it and `after` behind it.
    pub fn observe(&mut self, key: &[StateElement], before: &StateElement, after: &StateElement)
        requires
            old(self).wf(),
            key@.len() >= 1,
        ensures
            final(self).wf(),
            final(self)@ == observe(old(self)@, elements_view(key@), before@, after@),
    {
        proof {
            lemma_observe_wf(self@, elements_view(key@), before@, after@);
        }
        let ghost prior = self@;
        match self.position(key) {
            Some(i) => {
                assert(prior[i as int].1.wf());
                proof {
                    lemma_bump(prior[i as int].1.prev, before@);
                }
                self.entries[i].1.increment_occurence(SentenceDirection::Backward, before);
                self.entries[i].1.increment_occurence(SentenceDirection::Forward, after);
                assert(self@ =~= observe(prior, elements_view(key@), before@, after@));
            },
            None => {
                let mut transition = Transistion::new();
                proof {
                    lemma_bump(Seq::empty(), before@);
                }
                transition.increment_occurence(SentenceDirection::Backward, before);
                transition.increment_occurence(SentenceDirection::Forward, after);
                self.entries.push((State::new(clone_elements(key)), transition));
                assert(self@ =~= observe(prior, elements_view(key@), before@, after@));
            },
        }
    }

    /// Learns one tokenized line: for every state size from one to
    /// `max_state_size`, every window of that many elements with a neighbour
    /// on each side is recorded, from left to right.
    pub fn ingest(&mut self, elements: &[StateElement], max_state_size: usize)
        requires
            old(self).wf(),
        ensures
            final(self).wf(),
            final(self)@ == ingested(
                old(self)@,
                elements_view(elements@),
                max_state_size as nat,
            ),
    {
        let ghost prior = self@;
        let ghost line = elements_view(elements@);
        let n = elements.len();
        let mut size: usize = 1;
        while size <= max_state_size && n >= 2 && size <= n - 2
            invariant
                1 <= size,
                n == elements@.len(),
                line == elements_view(elements@),
                size <= max_state_size + 1,
                self.wf(),
                self@ == ingested(prior, line, (size - 1) as nat),
            decreases n - size,
        {
            let count = n - size - 1;
            let ghost start = self@;
            let mut at: usize = 0;
            while at < count
                invariant
                    at <= count,
                    1 <= size,
                    n == elements@.len(),
                    count == n - size - 1,
                    line == elements_view(elements@),
                    self.wf(),
                    self@ == ingest_windows(start, line, size as nat, at as nat),
                decreases count - at,
            {
                let key = slice_subrange(elements, at + 1, at + 1 + size);
                assert(elements_view(key@) =~= line.subrange(at + 1, at + 1 + size));
                self.observe(key, &elements[at], &elements[at + size + 1]);
                at = at + 1;
            }
            size = size + 1;
        }
        proof {
            if size <= max_state_size {
                lemma_ingested_beyond(prior, line, (size - 1) as nat, max_state_size as nat);
            }
        }
    }
}

} // verus!
