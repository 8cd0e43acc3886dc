//! The brain: a store of transitions, its settings and its generator.

use vstd::prelude::*;
use vstd::slice::slice_subrange;
use crate::config::{default_config, BrainConfig, ConfigView};
use crate::elements::{
    boundary, elements_view, Element, SentenceDirection, SentenceMarker, StateElement,
};
use crate::error::Error;
use crate::learning::ingested_lines;
use crate::generation::{
    at_boundary, attach, context, detached, element_of, extended, first_context, generation,
    grown, holds_word_of, is_reply, kept, known, learned, lemma_no_larger_context,
    lemma_seed_from_words, lemma_seeded_shuffled, lemma_states_with, may_follow, next_element,
    outermost, seed, seed_from_words, seeded, walked, Outcome, WALK_LIMIT,
};
use crate::prng::{permuted, Prng, PrngState};
use crate::stats::BrainStats;
use crate::store::{
    indices_view, ingested, states_with, store_wf, StoreView, TransitionStore,
};
use crate::text::{
    input_pieces, input_words, join_words, strings_view, tokenize, tokenize_spec,
};
use crate::weights::{lemma_total_positive, weights_of};

verus! {

/// A brain, as a value.
pub struct BrainView {
    pub config: ConfigView,
    pub store: StoreView,
    pub rng: PrngState,
}

/// The brain holds the Markov chain and the settings that govern how it is
/// fed and walked.
#[derive(Debug)]
pub struct Brain {
    /// The settings. They can be changed between calls.
    pub config: BrainConfig,
    /// The Markov chain: every state seen so far, with the elements seen
    /// before and after it and how often.
    pub state_transitions: TransitionStore,
    /// The generator that every draw of the brain is made with.
    pub rng: Prng,
}

impl View for Brain {
    type V = BrainView;

    open spec fn view(&self) -> BrainView {
        BrainView { config: self.config@, store: self.state_transitions@, rng: self.rng@ }
    }
}

/// One request for a reply: the input, and whether the checks are bypassed.
pub struct Call {
    pub input: Seq<char>,
    pub bypass: bool,
}

/// What a request for a reply comes to for `brain`, see [`generation`].
pub open spec fn outcome(brain: BrainView, call: Call) -> Outcome {
    generation(brain.store, brain.config, brain.rng, call.input, call.bypass)
}

/// The brain after a request for a reply.
pub open spec fn after_call(brain: BrainView, call: Call) -> BrainView {
    BrainView {
        config: brain.config,
        store: outcome(brain, call).store,
        rng: outcome(brain, call).rng,
    }
}

/// The replies of `brain` to `calls`, made one after the other.
pub open spec fn replies(brain: BrainView, calls: Seq<Call>) -> Seq<Option<Seq<char>>>
    decreases calls.len(),
{
    if calls.len() == 0 {
        Seq::empty()
    } else {
        seq![outcome(brain, calls.first()).reply] + replies(
            after_call(brain, calls.first()),
            calls.drop_first(),
        )
    }
}

/// Whether two brains agree in all that a reply depends on: the store, the
/// generator, and every setting but the excluded words.
pub open spec fn alike(a: BrainView, b: BrainView) -> bool {
    &&& a.store == b.store
    &&& a.rng == b.rng
    &&& a.config.max_ingestion_state_size == b.config.max_ingestion_state_size
    &&& a.config.training == b.config.training
    &&& a.config.mute == b.config.mute
    &&& a.config.reply_rate == b.config.reply_rate
    &&& a.config.min_generation_state_size == b.config.min_generation_state_size
    &&& a.config.max_generation_state_size == b.config.max_generation_state_size
}

/// A walk reads no setting but the two context sizes.
pub proof fn lemma_extended_alike(
    store: StoreView,
    a: ConfigView,
    b: ConfigView,
    direction: SentenceDirection,
    sentence: Seq<Element>,
    rng: PrngState,
    budget: nat,
)
    requires
        a.min_generation_state_size == b.min_generation_state_size,
        a.max_generation_state_size == b.max_generation_state_size,
    ensures
        extended(store, a, direction, sentence, rng, budget) == extended(
            store,
            b,
            direction,
            sentence,
            rng,
            budget,
        ),
    decreases budget,
{
    if budget > 0 && !at_boundary(direction, sentence) {
        let step = next_element(store, a, direction, sentence, rng);
        lemma_extended_alike(
            store,
            a,
            b,
            direction,
            attach(direction, sentence, step.0),
            step.1,
            (budget - 1) as nat,
        );
    }
}

/// Two brains that are alike reply alike, and are alike afterwards.
pub proof fn lemma_outcome_alike(a: BrainView, b: BrainView, call: Call)
    requires
        alike(a, b),
    ensures
        outcome(a, call) == outcome(b, call),
        alike(after_call(a, call), after_call(b, call)),
{
    let pieces = input_pieces(call.input);
    let gate = a.rng.ratio(
        a.config.reply_rate.numerator as int,
        a.config.reply_rate.denominator as int,
    );
    let order = gate.1.order(pieces.len() as int);
    let start = seed(a.store, permuted(pieces, order.0), order.1);
    lemma_extended_alike(
        a.store,
        a.config,
        b.config,
        SentenceDirection::Backward,
        seq![start.0],
        start.1,
        WALK_LIMIT as nat,
    );
    let back = extended(
        a.store,
        a.config,
        SentenceDirection::Backward,
        seq![start.0],
        start.1,
        WALK_LIMIT as nat,
    );
    lemma_extended_alike(
        a.store,
        a.config,
        b.config,
        SentenceDirection::Forward,
        back.0,
        back.1,
        WALK_LIMIT as nat,
    );
}

/// Under one seed, one store and one sequence of calls, the replies are the
/// same.
///
/// A reply is a function of the store, the generator, the input and the
/// settings other than the excluded words, which nothing reads. So two
/// brains that start alike give the same replies to the same calls, call
/// after call.
pub proof fn lemma_replies_alike(a: BrainView, b: BrainView, calls: Seq<Call>)
    requires
        alike(a, b),
    ensures
        replies(a, calls) == replies(b, calls),
    decreases calls.len(),
{
    if calls.len() > 0 {
        lemma_outcome_alike(a, b, calls.first());
        lemma_replies_alike(
            after_call(a, calls.first()),
            after_call(b, calls.first()),
            calls.drop_first(),
        );
    }
}

/// The marker that ends a sentence on the given side.
fn boundary_element(direction: SentenceDirection) -> (r: StateElement)
    ensures
        r@ == boundary(direction),
{
    match direction {
        SentenceDirection::Backward => StateElement::Marker(SentenceMarker::Start),
        SentenceDirection::Forward => StateElement::Marker(SentenceMarker::End),
    }
}

/// Whether `sentence` is complete on the given side.
fn reached_boundary(direction: SentenceDirection, sentence: &Vec<StateElement>) -> (r: bool)
    requires
        sentence@.len() >= 1,
    ensures
        r == at_boundary(direction, elements_view(sentence@)),
{
    match direction {
        SentenceDirection::Backward => sentence[0].is_marker(SentenceMarker::Start),
        SentenceDirection::Forward => sentence[sentence.len() - 1].is_marker(SentenceMarker::End),
    }
}

impl Default for Brain {
    fn default() -> (r: Self)
        ensures
            r.wf(),
            r@.config == default_config(),
            r@.store.len() == 0,
            r@.rng.pos == 0,
    {
        Brain {
            config: BrainConfig::default(),
            state_transitions: TransitionStore::new(),
            rng: Prng::from_entropy(),
        }
    }
}

impl Clone for Brain {
    fn clone(&self) -> (r: Self)
        ensures
            r@ == self@,
    {
        Brain {
            config: self.config.clone(),
            state_transitions: self.state_transitions.clone(),
            rng: self.rng,
        }
    }
}

impl Brain {
    /// The invariant of a brain: the store is well formed and the reply rate
    /// is a probability.
    pub open spec fn wf(&self) -> bool {
        store_wf(self@.store) && self@.config.reply_rate.wf()
    }

    /// An empty brain with the default settings, whose generator is seeded
    /// by the operating system.
    pub fn new() -> (r: Brain)
        ensures
            r.wf(),
            r@.config == default_config(),
            r@.store.len() == 0,
            r@.rng.pos == 0,
    {
        Brain::default()
    }

    /// A copy of the brain, to end a chain of calls with.
    pub fn get(&mut self) -> (r: Brain)
        ensures
            r@ == old(self)@,
            final(self)@ == old(self)@,
    {
        self.clone()
    }

    /// Replaces the settings.
    pub fn config(&mut self, config: BrainConfig) -> (r: Result<&mut Self, Error>)
        ensures
            r matches Ok(brain) && (*brain)@ == (BrainView {
                config: config@,
                store: old(self)@.store,
                rng: old(self)@.rng,
            }) && *final(brain) == *final(self),
    {
        self.config = config;
        Ok(self)
    }

    /// Learns the lines of a dataset, one after the other.
    pub fn from_dataset(&mut self, lines: &[String]) -> (r: Result<&mut Self, Error>)
        requires
            store_wf(old(self)@.store),
        ensures
            r matches Ok(brain) && store_wf((*brain)@.store) && (*brain)@ == (BrainView {
                config: old(self)@.config,
                store: ingested_lines(
                    old(self)@.store,
                    strings_view(lines@),
                    old(self)@.config.max_ingestion_state_size,
                ),
                rng: old(self)@.rng,
            }) && *final(brain) == *final(self),
    {
        let ghost start = self@;
        let mut i: usize = 0;
        while i < lines.len()
            invariant
                i <= lines.len(),
                store_wf(self@.store),
                self@.config == start.config,
                self@.rng == start.rng,
                self@.store == ingested_lines(
                    start.store,
                    strings_view(lines@).subrange(0, i as int),
                    start.config.max_ingestion_state_size,
                ),
            decreases lines.len() - i,
        {
            assert(strings_view(lines@).subrange(0, i + 1).drop_last() =~= strings_view(
                lines@,
            ).subrange(0, i as int));
            self.ingest(lines[i].as_str());
            i = i + 1;
        }
        assert(strings_view(lines@).subrange(0, i as int) =~= strings_view(lines@));
        Ok(self)
    }

    /// The statistics of the brain.
    pub fn stats(&self) -> (r: BrainStats<'_>)
        ensures
            r@ == self@.store,
    {
        BrainStats::new(self)
    }

    /// An empty brain with the default settings, whose generator starts from
    /// `seed`.
    pub fn with_seed(seed: [u8; 32]) -> (r: Brain)
        ensures
            r.wf(),
            r@.config == default_config(),
            r@.store.len() == 0,
            r@.rng == (PrngState { seed: seed@, pos: 0 }),
    {
        Brain {
            config: BrainConfig::default(),
            state_transitions: TransitionStore::new(),
            rng: Prng::from_seed(seed),
        }
    }

    /// Learns one line of text.
    ///
    /// The line is lower-cased and split into words. For every state size
    /// from one to the configured maximum, every run of that many elements
    /// becomes a state, and the elements in front of it and behind it are
    /// counted in its transition.
    pub fn ingest(&mut self, line: &str)
        requires
            store_wf(old(self)@.store),
        ensures
            store_wf(final(self)@.store),
            final(self)@.config == old(self)@.config,
            final(self)@.rng == old(self)@.rng,
            final(self)@.store == ingested(
                old(self)@.store,
                tokenize_spec(line@),
                old(self)@.config.max_ingestion_state_size,
            ),
    {
        let elements = tokenize(line);
        self.state_transitions.ingest(elements.as_slice(), self.config.max_ingestion_state_size);
    }

    /// Learns `input` where training is on.
    fn learn(&mut self, input: &str)
        requires
            store_wf(old(self)@.store),
        ensures
            store_wf(final(self)@.store),
            final(self)@.config == old(self)@.config,
            final(self)@.rng == old(self)@.rng,
            final(self)@.store == learned(old(self)@.store, old(self)@.config, input@),
    {
        if self.config.training {
            self.ingest(input);
        }
    }

    /// The position of the state that serves as context for the next
    /// element of `sentence`: the first hit among the configured context
    /// sizes, tried in ascending order.
    pub fn context_position(&self, direction: SentenceDirection, sentence: &[StateElement]) -> (r:
        Option<usize>)
        requires
            self.wf(),
        ensures
            r matches Some(i) ==> i < self@.store.len(),
            match r {
                Some(i) => Some(i as int),
                None => None,
            } == first_context(
                self@.store,
                direction,
                elements_view(sentence@),
                self@.config.min_generation_state_size,
                self@.config.max_generation_state_size,
            ),
    {
        let ghost line = elements_view(sentence@);
        let upto = self.config.max_generation_state_size;
        let mut size = self.config.min_generation_state_size;
        while size < upto
            invariant
                self.wf(),
                line == elements_view(sentence@),
                upto == self.config.max_generation_state_size,
                first_context(self@.store, direction, line, size as nat, upto as nat)
                    == first_context(
                    self@.store,
                    direction,
                    line,
                    self@.config.min_generation_state_size,
                    upto as nat,
                ),
            decreases upto - size,
        {
            let taken = if size <= sentence.len() {
                size
            } else {
                sentence.len()
            };
            let key = match direction {
                SentenceDirection::Backward => slice_subrange(sentence, 0, taken),
                SentenceDirection::Forward => slice_subrange(
                    sentence,
                    sentence.len() - taken,
                    sentence.len(),
                ),
            };
            assert(elements_view(key@) =~= context(direction, line, size as nat));
            match self.state_transitions.position(key) {
                Some(i) => {
                    return Some(i);
                },
                None => {},
            }
            if size >= sentence.len() {
                proof {
                    lemma_no_larger_context(self@.store, direction, line, size as nat, upto as nat);
                }
                return None;
            }
            size = size + 1;
        }
        None
    }

    /// The element that extends `sentence` on the given side.
    ///
    /// It is drawn by weight among the elements seen on that side of the
    /// first matching context. Where no context matches, or nothing was seen
    /// on that side of it, it is the marker that ends the sentence there.
    pub fn get_element(&mut self, direction: SentenceDirection, sentence: &[StateElement]) -> (r:
        StateElement)
        requires
            old(self).wf(),
        ensures
            final(self).wf(),
            final(self)@.config == old(self)@.config,
            final(self)@.store == old(self)@.store,
            (r@, final(self)@.rng) == next_element(
                old(self)@.store,
                old(self)@.config,
                direction,
                elements_view(sentence@),
                old(self)@.rng,
            ),
            may_follow(
                old(self)@.store,
                old(self)@.config,
                direction,
                elements_view(sentence@),
                r@,
            ),
    {
        match self.context_position(direction, sentence) {
            None => boundary_element(direction),
            Some(i) => {
                let list = self.state_transitions.transition_at(i).side(direction);
                if list.len() == 0 {
                    boundary_element(direction)
                } else {
                    let ghost side = self@.store[i as int].1.side(direction);
                    let ghost drawn = self@.rng.weighted(weights_of(side));
                    proof {
                        assert(self@.store[i as int].1.wf());
                        lemma_total_positive(side);
                    }
                    let element = self.rng.pick_weighted(list.as_slice()).clone();
                    assert(side[drawn.0].0 == element@);
                    element
                }
            },
        }
    }

    /// Extends `sentence` on the given side until the marker of that side
    /// stands there, or [`WALK_LIMIT`] elements were added.
    pub fn extend(&mut self, direction: SentenceDirection, sentence: &mut Vec<StateElement>)
        requires
            old(self).wf(),
            old(sentence)@.len() >= 1,
        ensures
            final(self).wf(),
            final(self)@.config == old(self)@.config,
            final(self)@.store == old(self)@.store,
            (elements_view(final(sentence)@), final(self)@.rng) == extended(
                old(self)@.store,
                old(self)@.config,
                direction,
                elements_view(old(sentence)@),
                old(self)@.rng,
                WALK_LIMIT as nat,
            ),
            old(sentence)@.len() <= final(sentence)@.len() <= old(sentence)@.len() + WALK_LIMIT,
            kept(direction, elements_view(old(sentence)@), elements_view(final(sentence)@)),
            grown(
                old(self)@.store,
                old(self)@.config,
                direction,
                elements_view(old(sentence)@),
                elements_view(final(sentence)@),
            ),
            at_boundary(direction, elements_view(final(sentence)@)) || final(sentence)@.len()
                == old(sentence)@.len() + WALK_LIMIT,
    {
        let ghost store = self@.store;
        let ghost config = self@.config;
        let ghost goal = extended(
            store,
            config,
            direction,
            elements_view(sentence@),
            self@.rng,
            WALK_LIMIT as nat,
        );
        let ghost first = elements_view(sentence@);
        let mut budget: usize = WALK_LIMIT;
        assert(kept(direction, first, first)) by {
            assert(first.subrange(0, first.len() as int) =~= first);
        }
        while budget > 0 && !reached_boundary(direction, sentence)
            invariant
                self.wf(),
                self@.config == config,
                self@.store == store,
                first.len() >= 1,
                budget <= WALK_LIMIT,
                sentence@.len() == first.len() + (WALK_LIMIT - budget),
                kept(direction, first, elements_view(sentence@)),
                grown(store, config, direction, first, elements_view(sentence@)),
                extended(
                    store,
                    config,
                    direction,
                    elements_view(sentence@),
                    self@.rng,
                    budget as nat,
                ) == goal,
            decreases budget,
        {
            let ghost before = elements_view(sentence@);
            let element = self.get_element(direction, sentence.as_slice());
            match direction {
                SentenceDirection::Backward => {
                    sentence.insert(0, element);
                },
                SentenceDirection::Forward => {
                    sentence.push(element);
                },
            }
            assert(elements_view(sentence@) =~= attach(direction, before, element@));
            assert(grown(store, config, direction, first, elements_view(sentence@))) by {
                let now = elements_view(sentence@);
                assert(detached(direction, now) =~= before);
                assert(outermost(direction, now) == element@);
            }
            assert(kept(direction, first, elements_view(sentence@))) by {
                let now = elements_view(sentence@);
                match direction {
                    SentenceDirection::Backward => {
                        assert(now.subrange(now.len() - first.len(), now.len() as int)
                            =~= before.subrange(
                            before.len() - first.len(),
                            before.len() as int,
                        ));
                    },
                    SentenceDirection::Forward => {
                        assert(now.subrange(0, first.len() as int) =~= before.subrange(
                            0,
                            first.len() as int,
                        ));
                    },
                }
            }
            budget = budget - 1;
        }
    }

    /// The element from which a reply starts.
    ///
    /// The words are tried from the last to the first. For the first word
    /// that occurs in a state, one of the states that hold it is drawn, and
    /// one element of that state, on a copy of the generator. Where no word
    /// occurs in the store, a state of the whole store is drawn, and one
    /// element of it.
    pub fn seed_element(&mut self, words: Vec<String>) -> (r: StateElement)
        requires
            old(self).wf(),
            old(self)@.store.len() > 0,
        ensures
            final(self).wf(),
            final(self)@.config == old(self)@.config,
            final(self)@.store == old(self)@.store,
            (r@, final(self)@.rng) == seed(
                old(self)@.store,
                strings_view(words@),
                old(self)@.rng,
            ),
            seeded(old(self)@.store, strings_view(words@), r@),
    {
        let ghost store = self@.store;
        let ghost all = strings_view(words@);
        let mut rest = words;
        let mut scratch = self.rng;
        assert(strings_view(rest@) =~= all.subrange(0, rest@.len() as int));
        while rest.len() > 0
            invariant
                self.wf(),
                self@ == old(self)@,
                store == self@.store,
                all == strings_view(words@),
                rest@.len() <= all.len(),
                strings_view(rest@) == all.subrange(0, rest@.len() as int),
                scratch@ == self@.rng,
                seed_from_words(store, strings_view(rest@), self@.rng) == seed_from_words(
                    store,
                    all,
                    self@.rng,
                ),
            decreases rest.len(),
        {
            let ghost pending = strings_view(rest@);
            let word = rest.pop().unwrap();
            assert(strings_view(rest@) =~= pending.drop_last());
            assert(strings_view(rest@) =~= all.subrange(0, rest@.len() as int));
            assert(pending.last() == word@);
            let probe = StateElement::Word(word);
            let matching = self.state_transitions.state_with_element_vec(&probe);
            let ghost found = states_with(store, probe@);
            let ghost drawn = scratch@.index(found.len() as int);
            assert(indices_view(matching@).len() == matching@.len());
            match scratch.pick(matching.as_slice()) {
                Some(position) => {
                    assert(indices_view(matching@)[drawn.0] == *position as int);
                    let state = self.state_transitions.state_at(*position);
                    assert(store[*position as int].0.len() >= 1);
                    let element = state.random_element(&mut scratch).clone();
                    assert(seed_from_words(store, pending, self@.rng) == Some(
                        element_of(store[found[drawn.0]].0, drawn.1).0,
                    ));
                    proof {
                        let held = store[*position as int].0;
                        lemma_states_with(store, probe@, store.len());
                        assert(held.contains(element@));
                        assert(held.contains(Element::Word(all[pending.len() - 1])));
                        assert(holds_word_of(held, all));
                    }
                    return element;
                },
                None => {},
            }
        }
        let ghost drawn = self@.rng.index(store.len() as int);
        proof {
            assert(strings_view(rest@) =~= Seq::empty());
            lemma_seed_from_words(store, all, self@.rng);
            assert(!known(store, all));
        }
        let state = self.state_transitions.random_state(&mut self.rng);
        assert(state@.len() >= 1);
        let element = state.random_element(&mut self.rng).clone();
        assert(store[drawn.0].0.contains(element@));
        element
    }

    /// Replies to `input`, or does not, see [`generation`].
    ///
    /// A reply is the text of a sentence that was walked over the store as it
    /// was before the call, see [`is_reply`].
    pub fn _generate(&mut self, input: &str, bypass_checks: bool) -> (r: Result<
        Option<String>,
        Error,
    >)
        requires
            old(self).wf(),
        ensures
            final(self).wf(),
            final(self)@.config == old(self)@.config,
            r matches Ok(reply) && ({
                let outcome = generation(
                    old(self)@.store,
                    old(self)@.config,
                    old(self)@.rng,
                    input@,
                    bypass_checks,
                );
                &&& match reply {
                    Some(text) => Some(text@),
                    None => None,
                } == outcome.reply
                &&& final(self)@.store == outcome.store
                &&& final(self)@.rng == outcome.rng
            }),
            r matches Ok(Some(text)) ==> is_reply(
                old(self)@.store,
                old(self)@.config,
                input@,
                text@,
            ),
            old(self)@.store.len() == 0 ==> r == Ok::<Option<String>, Error>(None),
            old(self)@.store.len() > 0 && bypass_checks ==> r matches Ok(Some(_)),
            !bypass_checks && (old(self)@.config.mute || old(self)@.config.reply_rate.numerator
                == 0) ==> r == Ok::<Option<String>, Error>(None),
    {
        if self.state_transitions.is_empty() || (self.config.mute && !bypass_checks) {
            self.learn(input);
            return Ok(None);
        }
        let replies = self.rng.gen_ratio(
            self.config.reply_rate.numerator,
            self.config.reply_rate.denominator,
        );
        if !replies && !bypass_checks {
            self.learn(input);
            return Ok(None);
        }
        let ghost store = self@.store;
        let ghost config = self@.config;
        let mut words = input_words(input);
        let ghost pieces = strings_view(words@);
        let ghost order = self@.rng.order(pieces.len() as int);
        self.rng.shuffle(&mut words);
        assert(strings_view(words@) =~= permuted(pieces, order.0));
        let start = self.seed_element(words);
        proof {
            lemma_seeded_shuffled(store, pieces, order.0, start@);
        }
        let mut sentence: Vec<StateElement> = Vec::new();
        sentence.push(start);
        assert(elements_view(sentence@) =~= seq![start@]);
        self.extend(SentenceDirection::Backward, &mut sentence);
        let ghost back = elements_view(sentence@);
        self.extend(SentenceDirection::Forward, &mut sentence);
        let text = join_words(sentence.as_slice());
        assert(walked(store, config, input_pieces(input@), start@, back, elements_view(sentence@)));
        self.learn(input);
        Ok(Some(text))
    }

    /// Replies to `input`, unless the brain is empty, mute, or draws not to.
    pub fn generate(&mut self, input: &str) -> (r: Result<Option<String>, Error>)
        requires
            old(self).wf(),
        ensures
            final(self).wf(),
            final(self)@.config == old(self)@.config,
            r matches Ok(reply) && ({
                let outcome = generation(
                    old(self)@.store,
                    old(self)@.config,
                    old(self)@.rng,
                    input@,
                    false,
                );
                &&& match reply {
                    Some(text) => Some(text@),
                    None => None,
                } == outcome.reply
                &&& final(self)@.store == outcome.store
                &&& final(self)@.rng == outcome.rng
            }),
            r matches Ok(Some(text)) ==> is_reply(
                old(self)@.store,
                old(self)@.config,
                input@,
                text@,
            ),
            old(self)@.store.len() == 0 || old(self)@.config.mute
                || old(self)@.config.reply_rate.numerator == 0 ==> r == Ok::<
                Option<String>,
                Error,
            >(None),
    {
        self._generate(input, false)
    }

    /// Replies to `input` whatever the mute setting and the reply rate say.
    ///
    /// A brain that holds a state always replies, see [`is_reply`]. An empty
    /// brain has nothing to say: its reply is the empty text. In both cases
    /// the input is learned afterwards where training is on.
    pub fn generate_bypass_checks(&mut self, input: &str) -> (r: Result<String, Error>)
        requires
            old(self).wf(),
        ensures
            final(self).wf(),
            final(self)@.config == old(self)@.config,
            r matches Ok(text) && ({
                let outcome = generation(
                    old(self)@.store,
                    old(self)@.config,
                    old(self)@.rng,
                    input@,
                    true,
                );
                &&& text@ == match outcome.reply {
                    Some(reply) => reply,
                    None => Seq::<char>::empty(),
                }
                &&& final(self)@.store == outcome.store
                &&& final(self)@.rng == outcome.rng
            }),
            old(self)@.store.len() == 0 ==> (r matches Ok(text) && text@ == Seq::<char>::empty())
                && final(self)@.rng == old(self)@.rng && final(self)@.store == learned(
                old(self)@.store,
                old(self)@.config,
                input@,
            ),
            old(self)@.store.len() > 0 ==> (r matches Ok(text) && is_reply(
                old(self)@.store,
                old(self)@.config,
                input@,
                text@,
            )),
    {
        match self._generate(input, true) {
            Ok(Some(text)) => Ok(text),
            Ok(None) => Ok(String::new()),
            Err(e) => Err(e),
        }
    }
}

} // verus!
