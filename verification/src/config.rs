//! The settings of a brain.

use vstd::prelude::*;
use crate::text::strings_view;

verus! {

/// The probability of a reply, as a fraction.
#[derive(Debug, Clone, Copy, PartialEq, Eq, Structural)]
pub struct ReplyRate {
    pub numerator: u32,
    pub denominator: u32,
}

impl ReplyRate {
    /// A fraction between zero and one: the denominator is not zero and the
    /// numerator is not above it.
    pub open spec fn wf(self) -> bool {
        0 < self.denominator && self.numerator <= self.denominator
    }

    /// The rate `numerator / denominator`, if that is a probability.
    pub fn new(numerator: u32, denominator: u32) -> (r: Option<ReplyRate>)
        ensures
            r is Some == (0 < denominator && numerator <= denominator),
            r matches Some(rate) ==> rate == (ReplyRate { numerator, denominator }),
    {
        if 0 < denominator && numerator <= denominator {
            Some(ReplyRate { numerator, denominator })
        } else {
            None
        }
    }

    /// The rate of a brain that replies to every input.
    pub fn always() -> (r: ReplyRate)
        ensures
            r == (ReplyRate { numerator: 1, denominator: 1 }),
    {
        ReplyRate { numerator: 1, denominator: 1 }
    }

    /// The rate of a brain that replies to no input.
    pub fn never() -> (r: ReplyRate)
        ensures
            r == (ReplyRate { numerator: 0, denominator: 1 }),
    {
        ReplyRate { numerator: 0, denominator: 1 }
    }

    /// Whether this is a probability, see [`ReplyRate::wf`].
    pub fn is_valid(&self) -> (r: bool)
        ensures
            r == self.wf(),
    {
        0 < self.denominator && self.numerator <= self.denominator
    }
}

/// The settings of a brain, as a value.
pub struct ConfigView {
    pub max_ingestion_state_size: nat,
    pub training: bool,
    pub mute: bool,
    pub reply_rate: ReplyRate,
    pub min_generation_state_size: nat,
    pub max_generation_state_size: nat,
    pub excluded_words: Seq<Seq<char>>,
}

/// The settings of a brain. They can be changed between calls.
#[derive(Debug)]
pub struct BrainConfig {
    /// The largest number of elements that ingestion takes as one state.
    ///
    /// The greater it is, the bigger the store grows.
    pub max_ingestion_state_size: usize,
    /// Whether the brain learns from the inputs it is asked to reply to.
    pub training: bool,
    /// Whether the brain keeps silent.
    pub mute: bool,
    /// The probability with which the brain replies to an input.
    pub reply_rate: ReplyRate,
    /// The smallest number of elements that generation takes as context.
    pub min_generation_state_size: usize,
    /// The number of elements that generation stays below when it takes
    /// context.
    pub max_generation_state_size: usize,
    /// Words that are not to appear in replies. Generation does not read
    /// this list.
    pub excluded_words: Vec<String>,
}

impl View for BrainConfig {
    type V = ConfigView;

    open spec fn view(&self) -> ConfigView {
        ConfigView {
            max_ingestion_state_size: self.max_ingestion_state_size as nat,
            training: self.training,
            mute: self.mute,
            reply_rate: self.reply_rate,
            min_generation_state_size: self.min_generation_state_size as nat,
            max_generation_state_size: self.max_generation_state_size as nat,
            excluded_words: strings_view(self.excluded_words@),
        }
    }
}

/// The settings that a new brain starts with: states of up to five
/// elements are learned, contexts of two and three elements are tried, every
/// input gets a reply and none is learned.
pub open spec fn default_config() -> ConfigView {
    ConfigView {
        max_ingestion_state_size: 5,
        training: false,
        mute: false,
        reply_rate: ReplyRate { numerator: 1, denominator: 1 },
        min_generation_state_size: 2,
        max_generation_state_size: 4,
        excluded_words: Seq::empty(),
    }
}

impl Default for BrainConfig {
    fn default() -> (r: Self)
        ensures
            r@ == default_config(),
    {
        let r = BrainConfig {
            max_ingestion_state_size: 5,
            training: false,
            mute: false,
            reply_rate: ReplyRate::always(),
            min_generation_state_size: 2,
            max_generation_state_size: 4,
            excluded_words: Vec::new(),
        };
        assert(r@.excluded_words =~= Seq::empty());
        r
    }
}

impl Clone for BrainConfig {
    fn clone(&self) -> (r: Self)
        ensures
            r@ == self@,
    {
        let mut words: Vec<String> = Vec::new();
        let mut i: usize = 0;
        while i < self.excluded_words.len()
            invariant
                i <= self.excluded_words.len(),
                words.len() == i,
                forall|k: int| 0 <= k < i ==> words[k]@ == self.excluded_words[k]@,
            decreases self.excluded_words.len() - i,
        {
            words.push(self.excluded_words[i].clone());
            i = i + 1;
        }
        let r = BrainConfig {
            max_ingestion_state_size: self.max_ingestion_state_size,
            training: self.training,
            mute: self.mute,
            reply_rate: self.reply_rate,
            min_generation_state_size: self.min_generation_state_size,
            max_generation_state_size: self.max_generation_state_size,
            excluded_words: words,
        };
        assert(r@.excluded_words =~= self@.excluded_words);
        r
    }
}

impl BrainConfig {
    /// The context sizes that generation tries: from the smallest up to,
    /// and without, the largest.
    pub fn get_state_range(&self) -> (r: std::ops::Range<usize>)
        ensures
            r.start == self.min_generation_state_size,
            r.end == self.max_generation_state_size,
    {
        std::ops::Range {
            start: self.min_generation_state_size,
            end: self.max_generation_state_size,
        }
    }
}

} // verus!
