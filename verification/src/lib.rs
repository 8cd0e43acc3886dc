//! A variable-order Markov-chain text generator, for chatbots.
//!
//! A [`Brain`](brain::Brain) learns from lines of text. For every run of up
//! to a configured number of elements it counts which elements stand in
//! front of the run and which behind it. To reply to a line it picks an
//! element to start from, by the words of the line where it knows one of
//! them, and walks the counts at random, first back to the start of a
//! sentence and then on to its end.
//!
//! ```ignore
//! use rustkov::prelude::*;
//!
//! let mut brain = Brain::new();
//! brain.ingest("the cat sat on the mat");
//! brain.config.training = true;
//! if let Some(reply) = brain.generate("what about the cat")? {
//!     println!("{}", reply);
//! }
//! ```
//!
//! The modules, from the ground up:
//!
//! - [`elements`]: words and sentence markers;
//! - [`weights`]: neighbour lists with counts, as mathematical values;
//! - [`prng`]: the seeded generator behind every random choice;
//! - [`components`]: states and their transitions;
//! - [`text`]: from text to elements and back;
//! - [`store`]: the states seen so far, how a line is learned, and how a
//!   store is saved and restored;
//! - [`learning`]: what learning a line does to the counts;
//! - [`config`]: the settings of a brain;
//! - [`generation`]: what a brain replies, as mathematics;
//! - [`brain`]: the brain itself;
//! - [`stats`]: figures about a brain;
//! - [`error`]: what can go wrong.

pub mod elements;
pub mod weights;
pub mod prng;
pub mod components;
pub mod text;
pub mod store;
pub mod learning;
pub mod config;
pub mod generation;
pub mod brain;
pub mod stats;
pub mod error;
pub mod prelude;
