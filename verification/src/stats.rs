//! Figures about a brain, computed from its store on demand.

use vstd::prelude::*;
use crate::brain::Brain;
use crate::components::list_view;
use crate::elements::{elements_view, Element, StateElement};
use crate::store::StoreView;
use crate::text::strings_view;

verus! {

/// The number of entries in the neighbour lists of all states of `store`.
pub open spec fn total_transitions(store: StoreView) -> nat
    decreases store.len(),
{
    if store.len() == 0 {
        0
    } else {
        total_transitions(store.drop_last()) + store.last().1.prev.len() + store.last().1.next.len()
    }
}

/// The words that occur in the states of `store`.
pub open spec fn store_words(store: StoreView) -> Set<Seq<char>> {
    Set::new(|w: Seq<char>| words_before(store, store.len() as int, 0, w))
}

/// Whether `w` occurs in a state of `store` in front of position `state`, or
/// in the state at that position in front of its element `element`.
pub open spec fn words_before(store: StoreView, state: int, element: int, w: Seq<char>) -> bool {
    exists|i: int, k: int|
        0 <= i < store.len() && 0 <= k < store[i].0.len() && (i < state || (i == state && k
            < element)) && #[trigger] store[i].0[k] == Element::Word(w)
}

/// Whether one of `texts` is `text`.
fn holds_text(texts: &Vec<String>, text: &String) -> (r: bool)
    ensures
        r == strings_view(texts@).contains(text@),
{
    let mut i: usize = 0;
    while i < texts.len()
        invariant
            i <= texts.len(),
            forall|k: int| 0 <= k < i ==> strings_view(texts@)[k] != text@,
        decreases texts.len() - i,
    {
        if texts[i] == *text {
            assert(strings_view(texts@)[i as int] == text@);
            return true;
        }
        i = i + 1;
    }
    false
}

/// Figures about a [`Brain`].
pub struct BrainStats<'a> {
    brain: &'a Brain,
}

impl<'a> View for BrainStats<'a> {
    type V = StoreView;

    closed spec fn view(&self) -> StoreView {
        self.brain@.store
    }
}

impl<'a> BrainStats<'a> {
    /// The statistics of `brain`.
    pub fn new(brain: &'a Brain) -> (r: Self)
        ensures
            r@ == brain@.store,
    {
        Self { brain }
    }

    /// The number of states that the brain has.
    pub fn get_total_states(&self) -> (r: usize)
        ensures
            r == self@.len(),
    {
        self.brain.state_transitions.len()
    }

    /// The number of transitions that the brain has: over all states, the
    /// number of elements seen before the state plus the number seen after
    /// it. A number that does not fit is given as `usize::MAX`.
    pub fn get_total_transitions(&self) -> (r: usize)
        ensures
            total_transitions(self@) <= usize::MAX ==> r == total_transitions(self@),
            total_transitions(self@) > usize::MAX ==> r == usize::MAX,
    {
        let store = &self.brain.state_transitions;
        let mut total: usize = 0;
        let mut i: usize = 0;
        assert(store@.subrange(0, 0) =~= Seq::empty());
        while i < store.len()
            invariant
                i <= store@.len(),
                store@ == self@,
                total_transitions(store@.subrange(0, i as int)) <= usize::MAX ==> total
                    == total_transitions(store@.subrange(0, i as int)),
                total_transitions(store@.subrange(0, i as int)) > usize::MAX ==> total
                    == usize::MAX,
            decreases store@.len() - i,
        {
            assert(store@.subrange(0, i + 1).drop_last() =~= store@.subrange(0, i as int));
            let transition = store.transition_at(i);
            let prev = transition.prev();
            let next = transition.next();
            let before = prev.len();
            let after = next.len();
            assert(before == list_view(prev@).len() && after == list_view(next@).len());
            total = total.saturating_add(before).saturating_add(after);
            i = i + 1;
        }
        assert(store@.subrange(0, i as int) =~= store@);
        total
    }

    /// The number of different words in the states of the brain.
    pub fn get_total_words(&self) -> (r: usize)
        ensures
            store_words(self@).finite(),
            r == store_words(self@).len(),
    {
        let store = &self.brain.state_transitions;
        let ghost all = store@;
        let mut seen: Vec<String> = Vec::new();
        let mut i: usize = 0;
        while i < store.len()
            invariant
                i <= all.len(),
                all == store@,
                all == self@,
                strings_view(seen@).no_duplicates(),
                forall|w: Seq<char>| #[trigger]
                    strings_view(seen@).contains(w) == words_before(all, i as int, 0, w),
            decreases all.len() - i,
        {
            let elements = store.state_at(i).elements();
            let ghost state = elements_view(elements@);
            let mut k: usize = 0;
            while k < elements.len()
                invariant
                    i < all.len(),
                    k <= elements@.len(),
                    state == elements_view(elements@),
                    state == all[i as int].0,
                    strings_view(seen@).no_duplicates(),
                    forall|w: Seq<char>| #[trigger]
                        strings_view(seen@).contains(w) == words_before(all, i as int, k as int, w),
                decreases elements@.len() - k,
            {
                let ghost before = strings_view(seen@);
                match &elements[k] {
                    StateElement::Word(word) => {
                        if !holds_text(&seen, word) {
                            seen.push(word.clone());
                            assert(strings_view(seen@) =~= before.push(word@));
                        }
                    },
                    StateElement::Marker(_) => {},
                }
                assert forall|w: Seq<char>| #[trigger]
                    strings_view(seen@).contains(w) == words_before(
                        all,
                        i as int,
                        k + 1,
                        w,
                    ) by {
                    let now = strings_view(seen@);
                    if words_before(all, i as int, k + 1, w) {
                        let (a, b) = choose|a: int, b: int|
                            0 <= a < all.len() && 0 <= b < all[a].0.len() && (a < i || (a == i && b
                                < k + 1)) && #[trigger] all[a].0[b] == Element::Word(w);
                        if a == i && b == k {
                            assert(state[k as int] == Element::Word(w));
                            if now.len() > before.len() {
                                assert(now[before.len() as int] == w);
                            }
                        } else {
                            assert(words_before(all, i as int, k as int, w));
                            assert(before.contains(w));
                            let at = choose|at: int| 0 <= at < before.len() && before[at] == w;
                            assert(now[at] == w);
                        }
                    }
                    if now.contains(w) {
                        let at = choose|at: int| 0 <= at < now.len() && now[at] == w;
                        if at < before.len() {
                            assert(before[at] == w);
                            assert(before.contains(w));
                            assert(words_before(all, i as int, k as int, w));
                            let (a, b) = choose|a: int, b: int|
                                0 <= a < all.len() && 0 <= b < all[a].0.len() && (a < i || (a == i
                                    && b < k)) && #[trigger] all[a].0[b] == Element::Word(w);
                            assert(all[a].0[b] == Element::Word(w));
                        } else {
                            assert(all[i as int].0[k as int] == Element::Word(w));
                        }
                    }
                }
                k = k + 1;
            }
            assert forall|w: Seq<char>| #[trigger]
                strings_view(seen@).contains(w) == words_before(all, i + 1, 0, w) by {
                if words_before(all, i as int, k as int, w) {
                    let (a, b) = choose|a: int, b: int|
                        0 <= a < all.len() && 0 <= b < all[a].0.len() && (a < i || (a == i && b < k))
                            && #[trigger] all[a].0[b] == Element::Word(w);
                    assert(all[a].0[b] == Element::Word(w));
                }
                if words_before(all, i + 1, 0, w) {
                    let (a, b) = choose|a: int, b: int|
                        0 <= a < all.len() && 0 <= b < all[a].0.len() && (a < i + 1 || (a == i + 1
                            && b < 0)) && #[trigger] all[a].0[b] == Element::Word(w);
                    assert(all[a].0[b] == Element::Word(w));
                }
            }
            i = i + 1;
        }
        proof {
            let texts = strings_view(seen@);
            assert(texts.to_set() =~= store_words(all));
            texts.unique_seq_to_set();
        }
        seen.len()
    }
}

} // verus!
