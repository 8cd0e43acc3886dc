//! What a brain replies, as mathematics.
//!
//! A reply is a walk over the store. It starts from one element, the seed,
//! and grows a sentence to the left until the start marker stands in front,
//! then to the right until the end marker stands at the end. Every choice
//! along the way is a draw of the generator, so the reply is a function of
//! the store, the settings, the input and the generator.

use vstd::prelude::*;
use crate::config::ConfigView;
use crate::elements::{boundary, Element, SentenceDirection};
use crate::prng::{is_permutation, permuted, PrngState};
use crate::store::{
    ingested, states_with, states_with_upto, store_has, store_index, store_wf, weight,
    StoreView,
};
use crate::text::{input_pieces, sentence_text, tokenize_spec};
use crate::weights::{list_has, list_index, weights_of};

verus! {

/// The most elements that a walk adds on one side. A side that has not met
/// its marker by then is left as it stands.
pub const WALK_LIMIT: usize = 4096;

/// The context of `size` elements for the next element: that many elements
/// from the end of `sentence` that is being extended, or all of them where
/// there are fewer.
pub open spec fn context(
    direction: SentenceDirection,
    sentence: Seq<Element>,
    size: nat,
) -> Seq<Element> {
    let taken = if size <= sentence.len() {
        size
    } else {
        sentence.len()
    };
    match direction {
        SentenceDirection::Backward => sentence.subrange(0, taken as int),
        SentenceDirection::Forward => sentence.subrange(
            sentence.len() - taken,
            sentence.len() as int,
        ),
    }
}

/// The position of the first context that is a state of `store`, trying the
/// sizes from `from` up to, and without, `upto` in ascending order.
pub open spec fn first_context(
    store: StoreView,
    direction: SentenceDirection,
    sentence: Seq<Element>,
    from: nat,
    upto: nat,
) -> Option<int>
    decreases upto - from,
{
    if from >= upto {
        None
    } else if store_has(store, context(direction, sentence, from)) {
        Some(store_index(store, context(direction, sentence, from)))
    } else {
        first_context(store, direction, sentence, from + 1, upto)
    }
}

/// The element that extends `sentence`, and the generator afterwards.
///
/// It is drawn by weight from the list that the first matching context
/// holds on the side of `direction`. Where no context matches, or that list
/// is empty, it is the marker that ends the sentence on that side.
pub open spec fn next_element(
    store: StoreView,
    config: ConfigView,
    direction: SentenceDirection,
    sentence: Seq<Element>,
    rng: PrngState,
) -> (Element, PrngState) {
    match first_context(
        store,
        direction,
        sentence,
        config.min_generation_state_size,
        config.max_generation_state_size,
    ) {
        None => (boundary(direction), rng),
        Some(i) => {
            let list = store[i].1.side(direction);
            if list.len() == 0 {
                (boundary(direction), rng)
            } else {
                let d = rng.weighted(weights_of(list));
                (list[d.0].0, d.1)
            }
        },
    }
}

/// Whether `sentence` is complete on the side of `direction`.
pub open spec fn at_boundary(direction: SentenceDirection, sentence: Seq<Element>) -> bool {
    match direction {
        SentenceDirection::Backward => sentence.first() == boundary(direction),
        SentenceDirection::Forward => sentence.last() == boundary(direction),
    }
}

/// `sentence` with `e` added on the side of `direction`.
pub open spec fn attach(
    direction: SentenceDirection,
    sentence: Seq<Element>,
    e: Element,
) -> Seq<Element> {
    match direction {
        SentenceDirection::Backward => seq![e] + sentence,
        SentenceDirection::Forward => sentence.push(e),
    }
}

/// Whether `e` may be the element that extends `sentence`.
///
/// Where a context matches and its list on the side of `direction` is not
/// empty, `e` is an element of that list. Otherwise `e` is the marker that
/// ends the sentence on that side.
pub open spec fn may_follow(
    store: StoreView,
    config: ConfigView,
    direction: SentenceDirection,
    sentence: Seq<Element>,
    e: Element,
) -> bool {
    match first_context(
        store,
        direction,
        sentence,
        config.min_generation_state_size,
        config.max_generation_state_size,
    ) {
        None => e == boundary(direction),
        Some(i) => {
            let list = store[i].1.side(direction);
            if list.len() == 0 {
                e == boundary(direction)
            } else {
                list_has(list, e)
            }
        },
    }
}

/// `sentence` without its outermost element on the side of `direction`.
pub open spec fn detached(direction: SentenceDirection, sentence: Seq<Element>) -> Seq<Element> {
    match direction {
        SentenceDirection::Backward => sentence.drop_first(),
        SentenceDirection::Forward => sentence.drop_last(),
    }
}

/// The outermost element of `sentence` on the side of `direction`.
pub open spec fn outermost(direction: SentenceDirection, sentence: Seq<Element>) -> Element {
    match direction {
        SentenceDirection::Backward => sentence.first(),
        SentenceDirection::Forward => sentence.last(),
    }
}

/// Whether `to` grew out of `from` on the side of `direction`, one element
/// at a time: every element added was added to a sentence that was not yet
/// complete on that side, and may follow that sentence.
pub open spec fn grown(
    store: StoreView,
    config: ConfigView,
    direction: SentenceDirection,
    from: Seq<Element>,
    to: Seq<Element>,
) -> bool
    decreases to.len(),
{
    if to.len() <= from.len() {
        to == from
    } else {
        let inner = detached(direction, to);
        &&& grown(store, config, direction, from, inner)
        &&& !at_boundary(direction, inner)
        &&& may_follow(store, config, direction, inner, outermost(direction, to))
    }
}

/// Whether a word of `words` occurs in the store.
pub open spec fn known(store: StoreView, words: Seq<Seq<char>>) -> bool {
    exists|k: int| 0 <= k < words.len() && word_occurs(store, #[trigger] words[k])
}

/// Whether `state` holds a word of `words`.
pub open spec fn holds_word_of(state: Seq<Element>, words: Seq<Seq<char>>) -> bool {
    exists|k: int| 0 <= k < words.len() && state.contains(Element::Word(#[trigger] words[k]))
}

/// Whether `start` may be the seed of a reply to an input with these words:
/// it is an element of a state of the store, and of a state that holds one
/// of the words where one of them occurs in the store.
pub open spec fn seeded(store: StoreView, words: Seq<Seq<char>>, start: Element) -> bool {
    exists|i: int|
        0 <= i < store.len() && (#[trigger] store[i]).0.contains(start) && (known(store, words)
            ==> holds_word_of(store[i].0, words))
}

/// Whether `full` is a sentence walked from the seed `start` for an input
/// with these words: `back` grew out of the seed backward, up to the start
/// marker or the limit, and `full` out of `back` forward, up to the end
/// marker or the limit.
pub open spec fn walked(
    store: StoreView,
    config: ConfigView,
    words: Seq<Seq<char>>,
    start: Element,
    back: Seq<Element>,
    full: Seq<Element>,
) -> bool {
    &&& seeded(store, words, start)
    &&& grown(store, config, SentenceDirection::Backward, seq![start], back)
    &&& at_boundary(SentenceDirection::Backward, back) || back.len() == 1 + WALK_LIMIT
    &&& grown(store, config, SentenceDirection::Forward, back, full)
    &&& at_boundary(SentenceDirection::Forward, full) || full.len() == back.len() + WALK_LIMIT
}

/// Whether `text` is a reply to `input`: the text of a sentence walked from
/// a seed for the pieces of the input.
pub open spec fn is_reply(
    store: StoreView,
    config: ConfigView,
    input: Seq<char>,
    text: Seq<char>,
) -> bool {
    exists|start: Element, back: Seq<Element>, full: Seq<Element>| #[trigger]
        walked(store, config, input_pieces(input), start, back, full) && text == sentence_text(
            full,
        )
}

/// Whether `longer` is `sentence` with elements added on the side of
/// `direction` only.
pub open spec fn kept(
    direction: SentenceDirection,
    sentence: Seq<Element>,
    longer: Seq<Element>,
) -> bool {
    &&& sentence.len() <= longer.len()
    &&& match direction {
        SentenceDirection::Backward => longer.subrange(
            longer.len() - sentence.len(),
            longer.len() as int,
        ) == sentence,
        SentenceDirection::Forward => longer.subrange(0, sentence.len() as int) == sentence,
    }
}

/// `sentence` extended on one side until it is complete there or `budget`
/// elements were added, and the generator afterwards.
pub open spec fn extended(
    store: StoreView,
    config: ConfigView,
    direction: SentenceDirection,
    sentence: Seq<Element>,
    rng: PrngState,
    budget: nat,
) -> (Seq<Element>, PrngState)
    decreases budget,
{
    if budget == 0 || at_boundary(direction, sentence) {
        (sentence, rng)
    } else {
        let step = next_element(store, config, direction, sentence, rng);
        extended(
            store,
            config,
            direction,
            attach(direction, sentence, step.0),
            step.1,
            (budget - 1) as nat,
        )
    }
}

/// One element of `state`, each with the same chance, and the generator
/// afterwards.
pub open spec fn element_of(state: Seq<Element>, rng: PrngState) -> (Element, PrngState) {
    let d = rng.index(state.len() as int);
    (state[d.0], d.1)
}

/// The seed that the words of the input give, if any of them occurs in the
/// store. The words are tried from the last to the first. For the first
/// that occurs in a state, one of the states that hold it is drawn, each
/// with the same chance, and then one element of that state.
pub open spec fn seed_from_words(store: StoreView, words: Seq<Seq<char>>, rng: PrngState) -> Option<
    Element,
>
    decreases words.len(),
{
    if words.len() == 0 {
        None
    } else {
        let matching = states_with(store, Element::Word(words.last()));
        if matching.len() == 0 {
            seed_from_words(store, words.drop_last(), rng)
        } else {
            let d = rng.index(matching.len() as int);
            Some(element_of(store[matching[d.0]].0, d.1).0)
        }
    }
}

/// The seed of a reply, and the generator afterwards.
///
/// A seed found through the words of the input is drawn on a copy of the
/// generator, which itself stays as it was. Where no word occurs in the
/// store, a state of the whole store is drawn, and one element of it.
pub open spec fn seed(store: StoreView, words: Seq<Seq<char>>, rng: PrngState) -> (
    Element,
    PrngState,
) {
    match seed_from_words(store, words, rng) {
        Some(e) => (e, rng),
        None => {
            let d = rng.index(store.len() as int);
            element_of(store[d.0].0, d.1)
        },
    }
}

/// The sentence that a brain walks for `input`, and the generator
/// afterwards: the pieces of the input are shuffled, a seed is taken, and
/// the sentence is extended backward and then forward.
pub open spec fn walk(store: StoreView, config: ConfigView, rng: PrngState, input: Seq<char>) -> (
    Seq<Element>,
    PrngState,
) {
    let pieces = input_pieces(input);
    let order = rng.order(pieces.len() as int);
    let start = seed(store, permuted(pieces, order.0), order.1);
    let back = extended(
        store,
        config,
        SentenceDirection::Backward,
        seq![start.0],
        start.1,
        WALK_LIMIT as nat,
    );
    extended(store, config, SentenceDirection::Forward, back.0, back.1, WALK_LIMIT as nat)
}

/// The store after a request for a reply to `input`: the line is learned
/// where training is on.
pub open spec fn learned(store: StoreView, config: ConfigView, input: Seq<char>) -> StoreView {
    if config.training {
        ingested(store, tokenize_spec(input), config.max_ingestion_state_size)
    } else {
        store
    }
}

/// What a request for a reply comes to.
pub struct Outcome {
    /// The text of the reply, if there is one.
    pub reply: Option<Seq<char>>,
    /// The store afterwards.
    pub store: StoreView,
    /// The generator afterwards.
    pub rng: PrngState,
}

/// What a request for a reply to `input` comes to.
///
/// An empty store gives no reply. Unless `bypass` is set, neither does a
/// mute brain, nor a brain whose draw at its reply rate fails. The draw is
/// made also where `bypass` is set. Otherwise the reply is the text of the
/// walk. In every case the input is learned afterwards where training is on.
pub open spec fn generation(
    store: StoreView,
    config: ConfigView,
    rng: PrngState,
    input: Seq<char>,
    bypass: bool,
) -> Outcome {
    if store.len() == 0 || (config.mute && !bypass) {
        Outcome { reply: None, store: learned(store, config, input), rng }
    } else {
        let gate = rng.ratio(
            config.reply_rate.numerator as int,
            config.reply_rate.denominator as int,
        );
        if !gate.0 && !bypass {
            Outcome { reply: None, store: learned(store, config, input), rng: gate.1 }
        } else {
            let walked = walk(store, config, gate.1, input);
            Outcome {
                reply: Some(sentence_text(walked.0)),
                store: learned(store, config, input),
                rng: walked.1,
            }
        }
    }
}

/// Whether `w` is an element of a state of `store`.
pub open spec fn word_occurs(store: StoreView, w: Seq<char>) -> bool {
    exists|i: int| 0 <= i < store.len() && (#[trigger] store[i]).0.contains(Element::Word(w))
}

/// The positions found for an element are positions of states that hold it,
/// and there is one if a state holds it.
pub proof fn lemma_states_with(store: StoreView, e: Element, upto: nat)
    requires
        upto <= store.len(),
    ensures
        forall|k: int|
            0 <= k < states_with_upto(store, e, upto).len() ==> 0 <= (
            #[trigger] states_with_upto(store, e, upto)[k]) < upto && store[states_with_upto(
                store,
                e,
                upto,
            )[k]].0.contains(e),
        states_with_upto(store, e, upto).len() > 0 <==> exists|i: int|
            0 <= i < upto && (#[trigger] store[i]).0.contains(e),
    decreases upto,
{
    if upto > 0 {
        lemma_states_with(store, e, (upto - 1) as nat);
        let before = states_with_upto(store, e, (upto - 1) as nat);
        if store[upto - 1].0.contains(e) {
            assert(states_with_upto(store, e, upto) == before.push(upto - 1));
        } else {
            assert(states_with_upto(store, e, upto) == before);
            if exists|i: int| 0 <= i < upto && (#[trigger] store[i]).0.contains(e) {
                let i = choose|i: int| 0 <= i < upto && (#[trigger] store[i]).0.contains(e);
                assert(0 <= i < upto - 1);
            }
        }
    }
}

/// The words of the input give a seed exactly where one of them occurs in
/// the store.
pub proof fn lemma_seed_from_words(store: StoreView, words: Seq<Seq<char>>, rng: PrngState)
    ensures
        seed_from_words(store, words, rng) is Some <==> exists|k: int|
            0 <= k < words.len() && word_occurs(store, #[trigger] words[k]),
    decreases words.len(),
{
    if words.len() > 0 {
        let rest = words.drop_last();
        lemma_seed_from_words(store, rest, rng);
        lemma_states_with(store, Element::Word(words.last()), store.len());
        if word_occurs(store, words.last()) {
            assert(word_occurs(store, words[words.len() - 1]));
        } else if exists|k: int| 0 <= k < rest.len() && word_occurs(store, #[trigger] rest[k]) {
            let k = choose|k: int| 0 <= k < rest.len() && word_occurs(store, #[trigger] rest[k]);
            assert(word_occurs(store, words[k]));
        } else if exists|k: int| 0 <= k < words.len() && word_occurs(store, #[trigger] words[k]) {
            let k = choose|k: int| 0 <= k < words.len() && word_occurs(store, #[trigger] words[k]);
            assert(rest[k] == words[k]);
        }
    }
}

/// A permutation reaches every index.
pub proof fn lemma_permutation_onto(order: Seq<int>, k: int)
    requires
        is_permutation(order, order.len() as int),
        0 <= k < order.len(),
    ensures
        exists|i: int| 0 <= i < order.len() && #[trigger] order[i] == k,
{
    let len = order.len() as int;
    assert(order.no_duplicates()) by {
        assert forall|i: int, j: int| 0 <= i < len && 0 <= j < len && i != j implies order[i]
            != order[j] by {
            if i < j {
                assert(order[i] != order[j]);
            } else {
                assert(order[j] != order[i]);
            }
        }
    }
    order.unique_seq_to_set();
    vstd::set_lib::lemma_int_range(0, len);
    let reached = order.to_set();
    let all = vstd::set_lib::set_int_range(0, len);
    assert(reached.subset_of(all)) by {
        assert forall|x: int| reached.contains(x) implies all.contains(x) by {
            let i = choose|i: int| 0 <= i < order.len() && order[i] == x;
            assert(0 <= order[i] < len);
        }
    }
    vstd::set_lib::lemma_len_subset(reached, all);
    vstd::set_lib::lemma_subset_equality(reached, all);
    assert(all.contains(k));
    assert(reached.contains(k));
}

/// Shuffling the input does not change whether its words give a seed.
///
/// However the pieces of the input are rearranged, the seed is taken from a
/// state that holds one of them if one of them occurs in the store, and
/// from the whole store only if none does.
pub proof fn lemma_seed_follows_input(
    store: StoreView,
    pieces: Seq<Seq<char>>,
    order: Seq<int>,
    rng: PrngState,
)
    requires
        is_permutation(order, pieces.len() as int),
    ensures
        seed_from_words(store, permuted(pieces, order), rng) is Some <==> exists|k: int|
            0 <= k < pieces.len() && word_occurs(store, #[trigger] pieces[k]),
{
    let shuffled = permuted(pieces, order);
    lemma_seed_from_words(store, shuffled, rng);
    if exists|k: int| 0 <= k < pieces.len() && word_occurs(store, #[trigger] pieces[k]) {
        let k = choose|k: int| 0 <= k < pieces.len() && word_occurs(store, #[trigger] pieces[k]);
        lemma_permutation_onto(order, k);
        let i = choose|i: int| 0 <= i < order.len() && #[trigger] order[i] == k;
        assert(shuffled[i] == pieces[k]);
        assert(word_occurs(store, shuffled[i]));
    }
    if exists|i: int| 0 <= i < shuffled.len() && word_occurs(store, #[trigger] shuffled[i]) {
        let i = choose|i: int| 0 <= i < shuffled.len() && word_occurs(store, #[trigger] shuffled[i]);
        assert(shuffled[i] == pieces[order[i]]);
        assert(word_occurs(store, pieces[order[i]]));
    }
}

/// The element of `to` that stands next to `from` on the side of
/// `direction`, where `to` is `from` with elements added on that side.
pub open spec fn next_outward(
    direction: SentenceDirection,
    from: Seq<Element>,
    to: Seq<Element>,
) -> Element {
    match direction {
        SentenceDirection::Backward => to[to.len() - from.len() - 1],
        SentenceDirection::Forward => to[from.len() as int],
    }
}

/// A sentence that grew is its origin, or grew out of the origin's first
/// step.
///
/// Where `to` grew out of `from`, it keeps `from`. Where it is longer, then
/// `from` was not complete, the element next to it may follow it, and `to`
/// grew out of `from` with that element attached. So a walk can be followed
/// from its seed outward, step by step.
pub proof fn lemma_grown_step(
    store: StoreView,
    config: ConfigView,
    direction: SentenceDirection,
    from: Seq<Element>,
    to: Seq<Element>,
)
    requires
        grown(store, config, direction, from, to),
    ensures
        kept(direction, from, to),
        to.len() <= from.len() ==> to == from,
        to.len() > from.len() ==> !at_boundary(direction, from) && may_follow(
            store,
            config,
            direction,
            from,
            next_outward(direction, from, to),
        ) && grown(
            store,
            config,
            direction,
            attach(direction, from, next_outward(direction, from, to)),
            to,
        ),
    decreases to.len(),
{
    if to.len() <= from.len() {
        assert(to.subrange(0, to.len() as int) =~= to);
    } else {
        let inner = detached(direction, to);
        let e = next_outward(direction, from, to);
        lemma_grown_step(store, config, direction, from, inner);
        match direction {
            SentenceDirection::Backward => {
                assert(to.subrange(to.len() - from.len(), to.len() as int) =~= inner.subrange(
                    inner.len() - from.len(),
                    inner.len() as int,
                ));
            },
            SentenceDirection::Forward => {
                assert(to.subrange(0, from.len() as int) =~= inner.subrange(0, from.len() as int));
            },
        }
        if inner.len() > from.len() {
            assert(next_outward(direction, from, inner) == e);
            assert(detached(direction, to) == inner);
        } else {
            assert(inner == from);
            assert(to =~= attach(direction, from, e));
        }
    }
}

/// The context that is used is the smallest that matches.
///
/// Where a context is found, it is the context of some size in the range,
/// and no smaller size in the range gives a state of the store. Where none
/// is found, no size in the range gives one.
pub proof fn lemma_first_context(
    store: StoreView,
    direction: SentenceDirection,
    sentence: Seq<Element>,
    from: nat,
    upto: nat,
)
    ensures
        match first_context(store, direction, sentence, from, upto) {
            Some(i) => exists|size: nat|
                from <= size < upto && store_has(
                    store,
                    #[trigger] context(direction, sentence, size),
                ) && i == store_index(store, context(direction, sentence, size)) && forall|
                    smaller: nat,
                |
                    from <= smaller < size ==> !store_has(
                        store,
                        #[trigger] context(direction, sentence, smaller),
                    ),
            None => forall|size: nat|
                from <= size < upto ==> !store_has(
                    store,
                    #[trigger] context(direction, sentence, size),
                ),
        },
    decreases upto - from,
{
    if from < upto {
        if store_has(store, context(direction, sentence, from)) {
            assert(from <= from < upto && store_has(store, context(direction, sentence, from)));
        } else {
            lemma_first_context(store, direction, sentence, from + 1, upto);
            match first_context(store, direction, sentence, from + 1, upto) {
                Some(i) => {
                    let size = choose|size: nat|
                        from + 1 <= size < upto && store_has(
                            store,
                            #[trigger] context(direction, sentence, size),
                        ) && i == store_index(store, context(direction, sentence, size))
                            && forall|smaller: nat|
                            from + 1 <= smaller < size ==> !store_has(
                                store,
                                #[trigger] context(direction, sentence, smaller),
                            );
                    assert forall|smaller: nat| from <= smaller < size implies !store_has(
                        store,
                        #[trigger] context(direction, sentence, smaller),
                    ) by {
                        if smaller > from {
                            assert(from + 1 <= smaller < size);
                        }
                    }
                    assert(from <= size < upto && store_has(
                        store,
                        context(direction, sentence, size),
                    ));
                },
                None => {
                    assert forall|size: nat| from <= size < upto implies !store_has(
                        store,
                        #[trigger] context(direction, sentence, size),
                    ) by {
                        if size > from {
                            assert(from + 1 <= size < upto);
                        }
                    }
                },
            }
        }
    }
}

/// An element that may follow a sentence is the marker of its side, or was
/// seen on that side of a context of the sentence.
pub proof fn lemma_followed_was_seen(
    store: StoreView,
    config: ConfigView,
    direction: SentenceDirection,
    sentence: Seq<Element>,
    e: Element,
)
    requires
        store_wf(store),
        may_follow(store, config, direction, sentence, e),
    ensures
        e == boundary(direction) || exists|size: nat|
            config.min_generation_state_size <= size < config.max_generation_state_size && weight(
                store,
                #[trigger] context(direction, sentence, size),
                direction,
                e,
            ) >= 1,
{
    let from = config.min_generation_state_size;
    let upto = config.max_generation_state_size;
    lemma_first_context(store, direction, sentence, from, upto);
    match first_context(store, direction, sentence, from, upto) {
        Some(i) => {
            let list = store[i].1.side(direction);
            if list.len() > 0 {
                let size = choose|size: nat|
                    from <= size < upto && store_has(
                        store,
                        #[trigger] context(direction, sentence, size),
                    ) && i == store_index(store, context(direction, sentence, size)) && forall|
                        smaller: nat,
                    |
                        from <= smaller < size ==> !store_has(
                            store,
                            #[trigger] context(direction, sentence, smaller),
                        );
                let key = context(direction, sentence, size);
                assert(store[i].0 == key);
                assert(store[i].1.wf());
                let k = list_index(list, e);
                assert(list[k].1 >= 1);
                assert(weight(store, key, direction, e) >= 1);
            }
        },
        None => {},
    }
}

/// A seed for the shuffled pieces of an input is a seed for the pieces.
pub proof fn lemma_seeded_shuffled(
    store: StoreView,
    pieces: Seq<Seq<char>>,
    order: Seq<int>,
    start: Element,
)
    requires
        is_permutation(order, pieces.len() as int),
        seeded(store, permuted(pieces, order), start),
    ensures
        seeded(store, pieces, start),
{
    let shuffled = permuted(pieces, order);
    let i = choose|i: int|
        0 <= i < store.len() && (#[trigger] store[i]).0.contains(start) && (known(store, shuffled)
            ==> holds_word_of(store[i].0, shuffled));
    if known(store, pieces) {
        let k = choose|k: int| 0 <= k < pieces.len() && word_occurs(store, #[trigger] pieces[k]);
        lemma_permutation_onto(order, k);
        let j = choose|j: int| 0 <= j < order.len() && #[trigger] order[j] == k;
        assert(shuffled[j] == pieces[k]);
        assert(word_occurs(store, shuffled[j]));
        assert(known(store, shuffled));
        let m = choose|m: int|
            0 <= m < shuffled.len() && store[i].0.contains(Element::Word(#[trigger] shuffled[m]));
        assert(shuffled[m] == pieces[order[m]]);
        assert(store[i].0.contains(Element::Word(pieces[order[m]])));
        assert(holds_word_of(store[i].0, pieces));
    }
    assert(store[i].0.contains(start));
}

/// Once a context holds the whole sentence and is no state, no larger
/// context is one either.
pub proof fn lemma_no_larger_context(
    store: StoreView,
    direction: SentenceDirection,
    sentence: Seq<Element>,
    from: nat,
    upto: nat,
)
    requires
        sentence.len() <= from,
        !store_has(store, context(direction, sentence, from)),
    ensures
        first_context(store, direction, sentence, from, upto) is None,
    decreases upto - from,
{
    if from < upto {
        assert(context(direction, sentence, from + 1) == context(direction, sentence, from));
        lemma_no_larger_context(store, direction, sentence, from + 1, upto);
    }
}

} // verus!
