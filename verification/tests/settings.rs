use rustkov::brain::Brain;
use rustkov::config::{BrainConfig, ReplyRate};
use rustkov::elements::{SentenceMarker, StateElement};
use rustkov::error::Error;

#[test]
fn the_default_settings_are_those_of_a_new_brain() {
    let config = BrainConfig::default();
    assert_eq!(config.max_ingestion_state_size, 5);
    assert!(!config.training);
    assert!(!config.mute);
    assert_eq!(config.reply_rate, ReplyRate::always());
    assert_eq!(config.min_generation_state_size, 2);
    assert_eq!(config.max_generation_state_size, 4);
    assert!(config.excluded_words.is_empty());
    assert_eq!(config.get_state_range(), 2..4);
    let brain = Brain::new();
    assert_eq!(brain.config.max_ingestion_state_size, 5);
    assert!(brain.state_transitions.is_empty());
    assert!(Brain::default().state_transitions.is_empty());
}

#[test]
fn a_reply_rate_is_a_fraction_between_zero_and_one() {
    assert_eq!(ReplyRate::new(1, 3), Some(ReplyRate { numerator: 1, denominator: 3 }));
    assert_eq!(ReplyRate::new(0, 1), Some(ReplyRate::never()));
    assert_eq!(ReplyRate::new(5, 5).map(|r| r.is_valid()), Some(true));
    assert_eq!(ReplyRate::new(4, 3), None);
    assert_eq!(ReplyRate::new(0, 0), None);
    assert_eq!(ReplyRate::new(1, 0), None);
    assert!(!ReplyRate { numerator: 2, denominator: 1 }.is_valid());
    assert!(!ReplyRate { numerator: 0, denominator: 0 }.is_valid());
    assert!(ReplyRate::always().is_valid());
    assert!(ReplyRate::never().is_valid());
}

#[test]
fn config_replaces_the_settings_and_get_copies_the_brain() {
    let mut settings = BrainConfig::default();
    settings.training = true;
    settings.max_ingestion_state_size = 2;
    settings.excluded_words = vec!["never".to_string()];
    let copy = settings.clone();
    assert_eq!(copy.excluded_words, settings.excluded_words);
    let mut brain = Brain::with_seed([1; 32]);
    let built = brain.config(settings).unwrap().from_dataset(&["a b".to_string()]).unwrap().get();
    assert!(built.config.training);
    assert_eq!(built.config.max_ingestion_state_size, 2);
    assert_eq!(built.config.excluded_words, vec!["never".to_string()]);
    assert_eq!(built.state_transitions.len(), brain.state_transitions.len());
    assert_eq!(built.state_transitions.len(), 7);
}

#[test]
fn the_statistics_count_states_transitions_and_words() {
    let mut brain = Brain::with_seed([1; 32]);
    brain.config.max_ingestion_state_size = 2;
    brain.ingest("the cat sat");
    let stats = brain.stats();
    assert_eq!(stats.get_total_states(), 9);
    assert_eq!(stats.get_total_transitions(), 14);
    assert_eq!(stats.get_total_words(), 3);
}

#[test]
fn the_statistics_of_an_empty_brain_are_zero() {
    let brain = Brain::with_seed([1; 32]);
    let stats = brain.stats();
    assert_eq!(stats.get_total_states(), 0);
    assert_eq!(stats.get_total_transitions(), 0);
    assert_eq!(stats.get_total_words(), 0);
}

#[test]
fn the_transitions_are_the_entries_of_all_lists() {
    let mut brain = Brain::with_seed([1; 32]);
    brain.config.max_ingestion_state_size = 3;
    brain.ingest("a b a b c");
    brain.ingest("c b a");
    let records = brain.state_transitions.export();
    let expected: usize = records.iter().map(|r| r.prev.len() + r.next.len()).sum();
    assert_eq!(brain.stats().get_total_transitions(), expected);
    assert_eq!(brain.stats().get_total_states(), records.len());
    assert_eq!(brain.stats().get_total_words(), 3);
}

#[test]
fn an_element_is_a_marker_or_a_word() {
    let word = StateElement::Word("a".to_string());
    let start = StateElement::Marker(SentenceMarker::Start);
    let placeholder = StateElement::Marker(SentenceMarker::Placeholder);
    assert!(placeholder.is_placeholder());
    assert!(!start.is_placeholder());
    assert!(!word.is_placeholder());
    assert!(start.is_marker(SentenceMarker::Start));
    assert!(!start.is_marker(SentenceMarker::End));
    assert!(!word.is_marker(SentenceMarker::Start));
    assert_eq!(word.clone(), word);
    assert!(word != StateElement::Word("b".to_string()));
    assert!(word != start);
    assert!(start != placeholder);
}

#[test]
fn an_error_says_what_it_is() {
    let invalid = Error::InvalidStore;
    assert!(!invalid.message().is_empty());
    assert!(invalid.source().is_none());
    let io = Error::from(std::io::Error::new(std::io::ErrorKind::NotFound, "no such brain"));
    assert!(matches!(io, Error::Io(_)));
    assert!(io.message().contains("no such brain"));
    assert_eq!(io.source().map(|e| e.kind()), Some(std::io::ErrorKind::NotFound));
}
