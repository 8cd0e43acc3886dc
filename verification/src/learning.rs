//! What learning a line does to the counts of a store.
//!
//! A store only grows. Unless a neighbour list is full, learning a line adds
//! to every count the number of windows of the line that show that element
//! next to that state, and adds the states that the line shows. Learning the
//! same line again adds the same again, and no state. What a store learned
//! from lines alone, the lines show: every step of a walk over such a store
//! is found in one of them.

use vstd::prelude::*;
use crate::components::TransitionView;
use crate::config::ConfigView;
use crate::elements::{boundary, placeholder, Element, SentenceDirection};
use crate::generation::{context, lemma_followed_was_seen, may_follow};
use crate::store::{
    framed, ingest_windows, ingested, lemma_key_unique, lemma_observe_wf, lookup, observe,
    store_has, store_index, store_wf, weight, window_count, StoreView,
};
use crate::text::tokenize_spec;
use crate::weights::{
    lemma_bump, lemma_bump_entry, list_has, list_index, total_weight, WEIGHT_LIMIT,
};

verus! {

/// No neighbour list of `store` is full.
pub open spec fn unsaturated(store: StoreView) -> bool {
    forall|i: int|
        0 <= i < store.len() ==> total_weight((#[trigger] store[i]).1.prev) < WEIGHT_LIMIT
            && total_weight(store[i].1.next) < WEIGHT_LIMIT
}

/// The neighbour on the given side of a window.
pub open spec fn neighbour(direction: SentenceDirection, before: Element, after: Element) -> Element {
    match direction {
        SentenceDirection::Backward => before,
        SentenceDirection::Forward => after,
    }
}

/// What a window adds to the count of `e` on one side of `state`: one, where
/// the window shows `state` with `e` on that side and `e` is no placeholder.
pub open spec fn window_adds(
    key: Seq<Element>,
    before: Element,
    after: Element,
    state: Seq<Element>,
    direction: SentenceDirection,
    e: Element,
) -> nat {
    if state == key && e == neighbour(direction, before, after) && e != placeholder() {
        1
    } else {
        0
    }
}

/// What the first `upto` windows for states of `size` elements add to the
/// count of `e` on one side of `state`.
pub open spec fn windows_add(
    elements: Seq<Element>,
    size: nat,
    upto: nat,
    state: Seq<Element>,
    direction: SentenceDirection,
    e: Element,
) -> nat
    decreases upto,
{
    if upto == 0 {
        0
    } else {
        let at = upto - 1;
        windows_add(elements, size, at as nat, state, direction, e) + window_adds(
            elements.subrange(at + 1, at + 1 + size),
            elements[at],
            elements[at + size + 1],
            state,
            direction,
            e,
        )
    }
}

/// Whether one of the first `upto` windows for states of `size` elements
/// shows `state`.
pub open spec fn windows_show(elements: Seq<Element>, size: nat, upto: nat, state: Seq<Element>) -> bool
    decreases upto,
{
    if upto == 0 {
        false
    } else {
        let at = upto - 1;
        windows_show(elements, size, at as nat, state) || elements.subrange(
            at + 1,
            at + 1 + size,
        ) == state
    }
}

/// What a line adds to the count of `e` on one side of `state`, over all
/// state sizes up to `max_size`.
pub open spec fn line_adds(
    elements: Seq<Element>,
    max_size: nat,
    state: Seq<Element>,
    direction: SentenceDirection,
    e: Element,
) -> nat
    decreases max_size,
{
    if max_size == 0 {
        0
    } else {
        line_adds(elements, (max_size - 1) as nat, state, direction, e) + windows_add(
            elements,
            max_size,
            window_count(elements.len(), max_size),
            state,
            direction,
            e,
        )
    }
}

/// Whether a line shows `state`, over all state sizes up to `max_size`.
pub open spec fn line_shows(elements: Seq<Element>, max_size: nat, state: Seq<Element>) -> bool
    decreases max_size,
{
    if max_size == 0 {
        false
    } else {
        line_shows(elements, (max_size - 1) as nat, state) || windows_show(
            elements,
            max_size,
            window_count(elements.len(), max_size),
            state,
        )
    }
}

/// A store whose lists are not full after a window had none full before it.
pub proof fn lemma_observe_unsaturated(
    store: StoreView,
    key: Seq<Element>,
    before: Element,
    after: Element,
)
    requires
        store_wf(store),
        unsaturated(observe(store, key, before, after)),
    ensures
        unsaturated(store),
{
    let result = observe(store, key, before, after);
    assert forall|j: int| 0 <= j < store.len() implies total_weight((#[trigger] store[j]).1.prev)
        < WEIGHT_LIMIT && total_weight(store[j].1.next) < WEIGHT_LIMIT by {
        assert(store[j].1.wf());
        lemma_bump(store[j].1.prev, before);
        lemma_bump(store[j].1.next, after);
        assert(total_weight(result[j].1.prev) < WEIGHT_LIMIT);
    }
}

/// What one window does to one count and to the presence of one state.
///
/// The state of the window is in the store afterwards, and no state leaves.
/// No count shrinks. The count of the neighbour on its side of the state
/// grows by one unless the list is full; no other count changes.
pub proof fn lemma_observe_weight(
    store: StoreView,
    key: Seq<Element>,
    before: Element,
    after: Element,
    state: Seq<Element>,
    direction: SentenceDirection,
    e: Element,
)
    requires
        store_wf(store),
        key.len() >= 1,
    ensures
        store_has(observe(store, key, before, after), state) == (store_has(store, state) || state
            == key),
        weight(store, state, direction, e) <= weight(
            observe(store, key, before, after),
            state,
            direction,
            e,
        ) <= weight(store, state, direction, e) + window_adds(
            key,
            before,
            after,
            state,
            direction,
            e,
        ),
        unsaturated(observe(store, key, before, after)) ==> weight(
            observe(store, key, before, after),
            state,
            direction,
            e,
        ) == weight(store, state, direction, e) + window_adds(
            key,
            before,
            after,
            state,
            direction,
            e,
        ),
{
    let result = observe(store, key, before, after);
    lemma_observe_wf(store, key, before, after);
    let at: int = if store_has(store, key) {
        store_index(store, key)
    } else {
        store.len() as int
    };
    let prior = if store_has(store, key) {
        store[at].1
    } else {
        TransitionView::empty()
    };
    assert(result[at] == (key, framed(prior, before, after)));
    assert(forall|j: int| 0 <= j < store.len() && j != at ==> result[j] == store[j]);
    if state == key {
        lemma_key_unique(result, at);
        if store_has(store, key) {
            lemma_key_unique(store, at);
        }
        lemma_bump(Seq::empty(), before);
        lemma_bump(Seq::empty(), after);
        assert(prior.wf());
        lemma_bump(prior.prev, before);
        lemma_bump(prior.next, after);
        lemma_bump_entry(prior.prev, before, e);
        lemma_bump_entry(prior.next, after, e);
        assert(!list_has(Seq::<(Element, nat)>::empty(), e));
    } else if store_has(store, state) {
        let j = store_index(store, state);
        assert(result[j] == store[j]);
        lemma_key_unique(result, j);
        lemma_key_unique(store, j);
    } else {
        if store_has(result, state) {
            let j = store_index(result, state);
            assert(store[j].0 == state);
        }
    }
}

/// Windows keep a store well formed.
pub proof fn lemma_windows_wf(store: StoreView, elements: Seq<Element>, size: nat, upto: nat)
    requires
        store_wf(store),
        size >= 1,
        upto <= window_count(elements.len(), size),
    ensures
        store_wf(ingest_windows(store, elements, size, upto)),
    decreases upto,
{
    if upto > 0 {
        let at = upto - 1;
        lemma_windows_wf(store, elements, size, at as nat);
        lemma_observe_wf(
            ingest_windows(store, elements, size, at as nat),
            elements.subrange(at + 1, at + 1 + size),
            elements[at],
            elements[at + size + 1],
        );
    }
}

/// Learning a line keeps a store well formed.
pub proof fn lemma_ingested_wf(store: StoreView, elements: Seq<Element>, max_size: nat)
    requires
        store_wf(store),
    ensures
        store_wf(ingested(store, elements, max_size)),
    decreases max_size,
{
    if max_size > 0 {
        lemma_ingested_wf(store, elements, (max_size - 1) as nat);
        lemma_windows_wf(
            ingested(store, elements, (max_size - 1) as nat),
            elements,
            max_size,
            window_count(elements.len(), max_size),
        );
    }
}

/// What the windows of one state size do to one count and to the presence
/// of one state.
pub proof fn lemma_windows_weight(
    store: StoreView,
    elements: Seq<Element>,
    size: nat,
    upto: nat,
    state: Seq<Element>,
    direction: SentenceDirection,
    e: Element,
)
    requires
        store_wf(store),
        size >= 1,
        upto <= window_count(elements.len(), size),
    ensures
        store_has(ingest_windows(store, elements, size, upto), state) == (store_has(store, state)
            || windows_show(elements, size, upto, state)),
        weight(store, state, direction, e) <= weight(
            ingest_windows(store, elements, size, upto),
            state,
            direction,
            e,
        ) <= weight(store, state, direction, e) + windows_add(
            elements,
            size,
            upto,
            state,
            direction,
            e,
        ),
        unsaturated(ingest_windows(store, elements, size, upto)) ==> unsaturated(store) && weight(
            ingest_windows(store, elements, size, upto),
            state,
            direction,
            e,
        ) == weight(store, state, direction, e) + windows_add(
            elements,
            size,
            upto,
            state,
            direction,
            e,
        ),
    decreases upto,
{
    if upto > 0 {
        let at = upto - 1;
        let earlier = ingest_windows(store, elements, size, at as nat);
        let key = elements.subrange(at + 1, at + 1 + size);
        lemma_windows_wf(store, elements, size, at as nat);
        if unsaturated(ingest_windows(store, elements, size, upto)) {
            lemma_observe_unsaturated(earlier, key, elements[at], elements[at + size + 1]);
        }
        lemma_windows_weight(store, elements, size, at as nat, state, direction, e);
        lemma_observe_weight(
            earlier,
            key,
            elements[at],
            elements[at + size + 1],
            state,
            direction,
            e,
        );
    }
}

/// Learning a line adds to a count what the line shows.
///
/// A store only grows: no state leaves it and no count shrinks. A state is
/// in the store afterwards if it was before or the line shows it. The count
/// of `e` on one side of `state` grows by at most the number of windows of
/// the line that show `state` with `e` on that side, and by exactly that
/// number where no neighbour list is full afterwards.
pub proof fn lemma_ingested_weight(
    store: StoreView,
    elements: Seq<Element>,
    max_size: nat,
    state: Seq<Element>,
    direction: SentenceDirection,
    e: Element,
)
    requires
        store_wf(store),
    ensures
        store_has(ingested(store, elements, max_size), state) == (store_has(store, state)
            || line_shows(elements, max_size, state)),
        weight(store, state, direction, e) <= weight(
            ingested(store, elements, max_size),
            state,
            direction,
            e,
        ) <= weight(store, state, direction, e) + line_adds(
            elements,
            max_size,
            state,
            direction,
            e,
        ),
        unsaturated(ingested(store, elements, max_size)) ==> unsaturated(store) && weight(
            ingested(store, elements, max_size),
            state,
            direction,
            e,
        ) == weight(store, state, direction, e) + line_adds(
            elements,
            max_size,
            state,
            direction,
            e,
        ),
    decreases max_size,
{
    if max_size > 0 {
        let earlier = ingested(store, elements, (max_size - 1) as nat);
        let count = window_count(elements.len(), max_size);
        lemma_ingested_wf(store, elements, (max_size - 1) as nat);
        lemma_windows_weight(earlier, elements, max_size, count, state, direction, e);
        lemma_ingested_weight(store, elements, (max_size - 1) as nat, state, direction, e);
    }
}

/// Learning a line twice adds twice what learning it once adds.
///
/// Where no neighbour list is full afterwards, the second time adds no
/// state, and adds to every count what the first time added. From an empty
/// store every count is then twice what it was after the first time.
pub proof fn lemma_ingest_twice(
    store: StoreView,
    elements: Seq<Element>,
    max_size: nat,
    state: Seq<Element>,
    direction: SentenceDirection,
    e: Element,
)
    requires
        store_wf(store),
        unsaturated(ingested(ingested(store, elements, max_size), elements, max_size)),
    ensures
        ({
            let once = ingested(store, elements, max_size);
            let twice = ingested(once, elements, max_size);
            &&& store_has(twice, state) == store_has(once, state)
            &&& weight(twice, state, direction, e) - weight(once, state, direction, e) == weight(
                once,
                state,
                direction,
                e,
            ) - weight(store, state, direction, e)
            &&& store.len() == 0 ==> weight(twice, state, direction, e) == 2 * weight(
                once,
                state,
                direction,
                e,
            )
        }),
{
    let once = ingested(store, elements, max_size);
    lemma_ingested_wf(store, elements, max_size);
    lemma_ingested_weight(once, elements, max_size, state, direction, e);
    lemma_ingested_weight(store, elements, max_size, state, direction, e);
    if store.len() == 0 {
        assert(!store_has(store, state));
    }
}

/// The most that learning can have added to the total of a list of a state
/// of `size` elements, in a line of `len` elements, once the windows of all
/// state sizes up to `done` and the first `upto` windows of the next size
/// are learned: one for each window of the size of the state.
pub open spec fn growth(len: nat, done: nat, upto: nat, size: nat) -> nat {
    if 1 <= size <= done {
        window_count(len, size)
    } else if size == done + 1 {
        upto
    } else {
        0
    }
}

/// Whether the total of every list of `store` is at most `base` plus the
/// [`growth`] of its state.
pub open spec fn within(store: StoreView, base: nat, len: nat, done: nat, upto: nat) -> bool {
    forall|i: int|
        0 <= i < store.len() ==> total_weight((#[trigger] store[i]).1.prev) <= base + growth(
            len,
            done,
            upto,
            store[i].0.len(),
        ) && total_weight(store[i].1.next) <= base + growth(len, done, upto, store[i].0.len())
}

/// One window adds at most one to the totals of its state, and nothing to
/// any other.
pub proof fn lemma_observe_within(
    store: StoreView,
    key: Seq<Element>,
    before: Element,
    after: Element,
    base: nat,
    len: nat,
    done: nat,
    upto: nat,
)
    requires
        store_wf(store),
        key.len() == done + 1,
        within(store, base, len, done, upto),
    ensures
        within(observe(store, key, before, after), base, len, done, upto + 1),
{
    let result = observe(store, key, before, after);
    let at: int = if store_has(store, key) {
        store_index(store, key)
    } else {
        store.len() as int
    };
    let prior = if store_has(store, key) {
        store[at].1
    } else {
        TransitionView::empty()
    };
    assert(result[at] == (key, framed(prior, before, after)));
    assert(forall|j: int| 0 <= j < store.len() && j != at ==> result[j] == store[j]);
    lemma_bump(Seq::empty(), before);
    lemma_bump(Seq::empty(), after);
    assert forall|i: int| 0 <= i < result.len() implies total_weight(
        (#[trigger] result[i]).1.prev,
    ) <= base + growth(len, done, upto + 1, result[i].0.len()) && total_weight(result[i].1.next)
        <= base + growth(len, done, upto + 1, result[i].0.len()) by {
        if i == at {
            if store_has(store, key) {
                assert(store[at].1.wf());
                assert(total_weight(store[at].1.prev) <= base + growth(
                    len,
                    done,
                    upto,
                    store[at].0.len(),
                ));
            }
            lemma_bump(prior.prev, before);
            lemma_bump(prior.next, after);
        } else {
            assert(total_weight(store[i].1.prev) <= base + growth(
                len,
                done,
                upto,
                store[i].0.len(),
            ));
        }
    }
}

/// The windows of one state size add to the totals of the states of that
/// size at most their number, and nothing to any other.
pub proof fn lemma_windows_within(
    store: StoreView,
    elements: Seq<Element>,
    base: nat,
    done: nat,
    upto: nat,
)
    requires
        store_wf(store),
        upto <= window_count(elements.len(), done + 1),
        within(store, base, elements.len(), done, 0),
    ensures
        within(
            ingest_windows(store, elements, done + 1, upto),
            base,
            elements.len(),
            done,
            upto,
        ),
    decreases upto,
{
    if upto > 0 {
        let at = upto - 1;
        let size = done + 1;
        lemma_windows_within(store, elements, base, done, at as nat);
        lemma_windows_wf(store, elements, size, at as nat);
        lemma_observe_within(
            ingest_windows(store, elements, size, at as nat),
            elements.subrange(at + 1, at + 1 + size),
            elements[at],
            elements[at + size + 1],
            base,
            elements.len(),
            done,
            at as nat,
        );
    }
}

/// Learning a line adds to the total of a list at most the number of
/// windows that the line has for the size of its state.
pub proof fn lemma_ingested_within(
    store: StoreView,
    elements: Seq<Element>,
    max_size: nat,
    base: nat,
)
    requires
        store_wf(store),
        within(store, base, elements.len(), 0, 0),
    ensures
        within(ingested(store, elements, max_size), base, elements.len(), max_size, 0),
        within(ingested(store, elements, max_size), base + elements.len(), elements.len(), 0, 0),
    decreases max_size,
{
    let len = elements.len();
    let result = ingested(store, elements, max_size);
    if max_size > 0 {
        let done = (max_size - 1) as nat;
        let earlier = ingested(store, elements, done);
        lemma_ingested_within(store, elements, done, base);
        lemma_ingested_wf(store, elements, done);
        lemma_windows_within(earlier, elements, base, done, window_count(len, max_size));
        assert forall|i: int| 0 <= i < result.len() implies total_weight(
            (#[trigger] result[i]).1.prev,
        ) <= base + growth(len, max_size, 0, result[i].0.len()) && total_weight(result[i].1.next)
            <= base + growth(len, max_size, 0, result[i].0.len()) by {
            assert(growth(len, done, window_count(len, max_size), result[i].0.len()) == growth(
                len,
                max_size,
                0,
                result[i].0.len(),
            ));
        }
    }
    assert forall|i: int| 0 <= i < result.len() implies total_weight(
        (#[trigger] result[i]).1.prev,
    ) <= base + len + growth(len, 0, 0, result[i].0.len()) && total_weight(result[i].1.next)
        <= base + len + growth(len, 0, 0, result[i].0.len()) by {
        assert(growth(len, max_size, 0, result[i].0.len()) <= len);
    }
}

/// From an empty store, learning a line twice doubles every count.
///
/// A line of fewer than half of [`WEIGHT_LIMIT`] elements fills no list when
/// it is learned twice into an empty store. So the second time adds no
/// state, and every count afterwards is twice what it was after the first
/// time.
pub proof fn lemma_ingest_twice_from_empty(
    elements: Seq<Element>,
    max_size: nat,
    state: Seq<Element>,
    direction: SentenceDirection,
    e: Element,
)
    requires
        2 * elements.len() < WEIGHT_LIMIT,
    ensures
        ({
            let once = ingested(Seq::empty(), elements, max_size);
            let twice = ingested(once, elements, max_size);
            &&& unsaturated(twice)
            &&& store_has(twice, state) == store_has(once, state)
            &&& weight(twice, state, direction, e) == 2 * weight(once, state, direction, e)
        }),
{
    let empty: StoreView = Seq::empty();
    let once = ingested(empty, elements, max_size);
    let twice = ingested(once, elements, max_size);
    lemma_ingested_within(empty, elements, max_size, 0);
    lemma_ingested_wf(empty, elements, max_size);
    lemma_ingested_within(once, elements, max_size, elements.len());
    assert(unsaturated(twice)) by {
        assert forall|i: int| 0 <= i < twice.len() implies total_weight(
            (#[trigger] twice[i]).1.prev,
        ) < WEIGHT_LIMIT && total_weight(twice[i].1.next) < WEIGHT_LIMIT by {
            assert(growth(elements.len(), 0, 0, twice[i].0.len()) == 0);
        }
    }
    lemma_ingest_twice(empty, elements, max_size, state, direction, e);
}

/// `store` after learning `lines`, one after the other.
pub open spec fn ingested_lines(store: StoreView, lines: Seq<Seq<char>>, max_size: nat) -> StoreView
    decreases lines.len(),
{
    if lines.len() == 0 {
        store
    } else {
        ingested(
            ingested_lines(store, lines.drop_last(), max_size),
            tokenize_spec(lines.last()),
            max_size,
        )
    }
}

/// What the window at position `at` for states of `size` elements adds to
/// the count of `e` on one side of `state`.
pub open spec fn window_at_adds(
    elements: Seq<Element>,
    size: nat,
    at: int,
    state: Seq<Element>,
    direction: SentenceDirection,
    e: Element,
) -> nat {
    window_adds(
        elements.subrange(at + 1, at + 1 + size),
        elements[at],
        elements[at + size + 1],
        state,
        direction,
        e,
    )
}

/// Whether a window of `elements` shows `state` with `e` next to it on the
/// side of `direction`, for a state size up to `max_size`.
pub open spec fn shown_beside(
    elements: Seq<Element>,
    max_size: nat,
    state: Seq<Element>,
    direction: SentenceDirection,
    e: Element,
) -> bool {
    exists|size: nat, at: int|
        1 <= size <= max_size && 0 <= at < window_count(elements.len(), size)
            && #[trigger] window_at_adds(elements, size, at, state, direction, e) == 1
}

/// Whether one of `lines` shows `state` with `e` next to it on the side of
/// `direction`.
pub open spec fn lines_show_beside(
    lines: Seq<Seq<char>>,
    max_size: nat,
    state: Seq<Element>,
    direction: SentenceDirection,
    e: Element,
) -> bool {
    exists|j: int|
        0 <= j < lines.len() && shown_beside(
            tokenize_spec(#[trigger] lines[j]),
            max_size,
            state,
            direction,
            e,
        )
}

/// Windows that add to a count include one that shows the state with the
/// element beside it.
pub proof fn lemma_windows_add_shown(
    elements: Seq<Element>,
    size: nat,
    upto: nat,
    state: Seq<Element>,
    direction: SentenceDirection,
    e: Element,
)
    requires
        windows_add(elements, size, upto, state, direction, e) >= 1,
    ensures
        exists|at: int|
            0 <= at < upto && #[trigger] window_at_adds(elements, size, at, state, direction, e)
                == 1,
    decreases upto,
{
    if upto > 0 {
        let last = upto - 1;
        if window_at_adds(elements, size, last, state, direction, e) == 1 {
        } else {
            lemma_windows_add_shown(elements, size, last as nat, state, direction, e);
            let at = choose|at: int|
                0 <= at < last && #[trigger] window_at_adds(
                    elements,
                    size,
                    at,
                    state,
                    direction,
                    e,
                ) == 1;
            assert(0 <= at < upto);
        }
    }
}

/// A line that adds to a count shows the state with the element beside it.
pub proof fn lemma_line_adds_shown(
    elements: Seq<Element>,
    max_size: nat,
    state: Seq<Element>,
    direction: SentenceDirection,
    e: Element,
)
    requires
        line_adds(elements, max_size, state, direction, e) >= 1,
    ensures
        shown_beside(elements, max_size, state, direction, e),
    decreases max_size,
{
    if max_size > 0 {
        let count = window_count(elements.len(), max_size);
        if windows_add(elements, max_size, count, state, direction, e) >= 1 {
            lemma_windows_add_shown(elements, max_size, count, state, direction, e);
            let at = choose|at: int|
                0 <= at < count && #[trigger] window_at_adds(
                    elements,
                    max_size,
                    at,
                    state,
                    direction,
                    e,
                ) == 1;
            assert(1 <= max_size <= max_size && 0 <= at < window_count(elements.len(), max_size));
        } else {
            lemma_line_adds_shown(elements, (max_size - 1) as nat, state, direction, e);
            let (size, at) = choose|size: nat, at: int|
                1 <= size <= max_size - 1 && 0 <= at < window_count(elements.len(), size)
                    && #[trigger] window_at_adds(elements, size, at, state, direction, e) == 1;
            assert(1 <= size <= max_size && 0 <= at < window_count(elements.len(), size));
        }
    }
}

/// Learning lines keeps a store well formed.
pub proof fn lemma_ingested_lines_wf(store: StoreView, lines: Seq<Seq<char>>, max_size: nat)
    requires
        store_wf(store),
    ensures
        store_wf(ingested_lines(store, lines, max_size)),
    decreases lines.len(),
{
    if lines.len() > 0 {
        lemma_ingested_lines_wf(store, lines.drop_last(), max_size);
        lemma_ingested_wf(
            ingested_lines(store, lines.drop_last(), max_size),
            tokenize_spec(lines.last()),
            max_size,
        );
    }
}

/// What a store learned from lines alone, the lines show.
///
/// In a store that learned nothing but `lines`, every element counted on a
/// side of a state stands on that side of the state in one of the lines.
pub proof fn lemma_counted_is_shown(
    lines: Seq<Seq<char>>,
    max_size: nat,
    state: Seq<Element>,
    direction: SentenceDirection,
    e: Element,
)
    requires
        weight(ingested_lines(Seq::empty(), lines, max_size), state, direction, e) >= 1,
    ensures
        lines_show_beside(lines, max_size, state, direction, e),
    decreases lines.len(),
{
    let empty: StoreView = Seq::empty();
    if lines.len() == 0 {
        assert(!store_has(empty, state));
    } else {
        let rest = lines.drop_last();
        let earlier = ingested_lines(empty, rest, max_size);
        let tokens = tokenize_spec(lines.last());
        lemma_ingested_lines_wf(empty, rest, max_size);
        lemma_ingested_weight(earlier, tokens, max_size, state, direction, e);
        if line_adds(tokens, max_size, state, direction, e) >= 1 {
            lemma_line_adds_shown(tokens, max_size, state, direction, e);
            assert(lines[lines.len() - 1] == lines.last());
        } else {
            lemma_counted_is_shown(rest, max_size, state, direction, e);
            let j = choose|j: int|
                0 <= j < rest.len() && shown_beside(
                    tokenize_spec(#[trigger] rest[j]),
                    max_size,
                    state,
                    direction,
                    e,
                );
            assert(rest[j] == lines[j]);
        }
    }
}

/// Every step of a walk over a store that learned nothing but `lines` is
/// found in a line.
///
/// An element that may follow a sentence is the marker of its side, or one
/// of the lines shows it on that side of a context of the sentence. So
/// neighbours in a reply are neighbours in a line.
pub proof fn lemma_step_is_shown(
    lines: Seq<Seq<char>>,
    max_size: nat,
    config: ConfigView,
    direction: SentenceDirection,
    sentence: Seq<Element>,
    e: Element,
)
    requires
        may_follow(
            ingested_lines(Seq::empty(), lines, max_size),
            config,
            direction,
            sentence,
            e,
        ),
    ensures
        e == boundary(direction) || exists|size: nat|
            config.min_generation_state_size <= size < config.max_generation_state_size
                && lines_show_beside(
                lines,
                max_size,
                #[trigger] context(direction, sentence, size),
                direction,
                e,
            ),
{
    let empty: StoreView = Seq::empty();
    let store = ingested_lines(empty, lines, max_size);
    lemma_ingested_lines_wf(empty, lines, max_size);
    lemma_followed_was_seen(store, config, direction, sentence, e);
    if e != boundary(direction) {
        let size = choose|size: nat|
            config.min_generation_state_size <= size < config.max_generation_state_size && weight(
                store,
                #[trigger] context(direction, sentence, size),
                direction,
                e,
            ) >= 1;
        lemma_counted_is_shown(lines, max_size, context(direction, sentence, size), direction, e);
    }
}

/// No placeholder is ever counted: in a well-formed store, the count of the
/// placeholder is zero on both sides of every state.
pub proof fn lemma_no_placeholder(store: StoreView, state: Seq<Element>, direction: SentenceDirection)
    requires
        store_wf(store),
    ensures
        weight(store, state, direction, placeholder()) == 0,
        lookup(store, state) matches Some(transition) ==> !list_has(
            transition.side(direction),
            placeholder(),
        ),
{
    if store_has(store, state) {
        let i = store_index(store, state);
        let list = store[i].1.side(direction);
        assert(store[i].1.wf());
        if list_has(list, placeholder()) {
            let k = list_index(list, placeholder());
            assert(list[k].0 != placeholder());
        }
    }
}

} // verus!
