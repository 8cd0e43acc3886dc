use rustkov::brain::Brain;
use rustkov::components::{State, Transistion};
use rustkov::elements::{SentenceDirection, SentenceMarker, StateElement};

fn word(text: &str) -> StateElement {
    StateElement::Word(text.to_string())
}

fn start() -> StateElement {
    StateElement::Marker(SentenceMarker::Start)
}

fn end() -> StateElement {
    StateElement::Marker(SentenceMarker::End)
}

fn placeholder() -> StateElement {
    StateElement::Marker(SentenceMarker::Placeholder)
}

fn brain_with(max_ingestion_state_size: usize) -> Brain {
    let mut brain = Brain::with_seed([3; 32]);
    brain.config.max_ingestion_state_size = max_ingestion_state_size;
    brain
}

fn transition<'a>(brain: &'a Brain, key: Vec<StateElement>) -> &'a Transistion {
    brain.state_transitions.get(&State::new(key)).expect("the state is in the store")
}

#[test]
fn the_cat_sat_gives_states_of_one_and_two_elements() {
    let mut brain = brain_with(2);
    brain.ingest("the cat sat");
    let store = &brain.state_transitions;
    assert_eq!(store.len(), 9);
    for key in [
        vec![word("the")],
        vec![word("cat")],
        vec![word("sat")],
        vec![word("the"), word("cat")],
        vec![word("cat"), word("sat")],
        vec![start()],
        vec![end()],
        vec![start(), word("the")],
        vec![word("sat"), end()],
    ] {
        assert!(store.get(&State::new(key)).is_some());
    }
    assert!(store.get(&State::new(vec![word("the"), word("cat"), word("sat")])).is_none());
    assert!(store.get(&State::new(vec![word("the"), word("sat")])).is_none());
}

#[test]
fn the_cat_sat_counts_the_neighbours_of_each_state() {
    let mut brain = brain_with(2);
    brain.ingest("the cat sat");
    let cat = transition(&brain, vec![word("cat")]);
    assert_eq!(cat.prev(), &vec![(word("the"), 1u64)]);
    assert_eq!(cat.next(), &vec![(word("sat"), 1u64)]);
    let the = transition(&brain, vec![word("the")]);
    assert_eq!(the.prev(), &vec![(start(), 1u64)]);
    assert_eq!(the.next(), &vec![(word("cat"), 1u64)]);
    let sat = transition(&brain, vec![word("sat")]);
    assert_eq!(sat.prev(), &vec![(word("cat"), 1u64)]);
    assert_eq!(sat.next(), &vec![(end(), 1u64)]);
    let the_cat = transition(&brain, vec![word("the"), word("cat")]);
    assert_eq!(the_cat.prev(), &vec![(start(), 1u64)]);
    assert_eq!(the_cat.next(), &vec![(word("sat"), 1u64)]);
    let cat_sat = transition(&brain, vec![word("cat"), word("sat")]);
    assert_eq!(cat_sat.prev(), &vec![(word("the"), 1u64)]);
    assert_eq!(cat_sat.next(), &vec![(end(), 1u64)]);
}

#[test]
fn a_neighbour_that_is_a_placeholder_is_not_counted() {
    let mut brain = brain_with(2);
    brain.ingest("the cat sat");
    let first = transition(&brain, vec![start()]);
    assert!(first.prev().is_empty());
    assert_eq!(first.next(), &vec![(word("the"), 1u64)]);
    let last = transition(&brain, vec![end()]);
    assert_eq!(last.prev(), &vec![(word("sat"), 1u64)]);
    assert!(last.next().is_empty());
}

#[test]
fn no_list_of_the_store_holds_a_placeholder() {
    let mut brain = brain_with(4);
    brain.ingest("one two three two one");
    brain.ingest("");
    brain.ingest("two");
    for record in brain.state_transitions.export() {
        assert!(!record.state.contains(&placeholder()));
        assert!(record.prev.iter().all(|(element, _)| *element != placeholder()));
        assert!(record.next.iter().all(|(element, _)| *element != placeholder()));
        assert!(record.prev.iter().all(|(_, count)| *count >= 1));
        assert!(record.next.iter().all(|(_, count)| *count >= 1));
    }
}

#[test]
fn ingesting_a_line_twice_doubles_every_count_and_adds_no_state() {
    let mut once = brain_with(3);
    once.ingest("the cat saw the cat");
    let mut twice = brain_with(3);
    twice.ingest("the cat saw the cat");
    twice.ingest("the cat saw the cat");
    let first = once.state_transitions.export();
    let second = twice.state_transitions.export();
    assert_eq!(first.len(), second.len());
    for (a, b) in first.iter().zip(second.iter()) {
        assert_eq!(a.state, b.state);
        assert_eq!(a.prev.len(), b.prev.len());
        assert_eq!(a.next.len(), b.next.len());
        for (x, y) in a.prev.iter().zip(b.prev.iter()).chain(a.next.iter().zip(b.next.iter())) {
            assert_eq!(x.0, y.0);
            assert_eq!(2 * x.1, y.1);
        }
    }
}

#[test]
fn a_repeated_neighbour_is_counted_not_listed_again() {
    let mut brain = brain_with(1);
    brain.ingest("a b a b a c");
    let a = transition(&brain, vec![word("a")]);
    assert_eq!(a.next(), &vec![(word("b"), 2u64), (word("c"), 1u64)]);
    assert_eq!(a.prev(), &vec![(start(), 1u64), (word("b"), 2u64)]);
}

#[test]
fn a_line_yields_one_state_per_window_and_size() {
    let mut brain = brain_with(5);
    brain.ingest("a b c");
    assert_eq!(brain.state_transitions.len(), 15);
    let whole = vec![start(), word("a"), word("b"), word("c"), end()];
    let t = transition(&brain, whole);
    assert!(t.prev().is_empty());
    assert!(t.next().is_empty());
}

#[test]
fn a_state_size_larger_than_the_line_adds_nothing() {
    let mut small = brain_with(5);
    small.ingest("a b c");
    let mut large = brain_with(usize::MAX);
    large.ingest("a b c");
    assert_eq!(small.state_transitions.len(), large.state_transitions.len());
}

#[test]
fn a_maximum_of_zero_learns_nothing() {
    let mut brain = brain_with(0);
    brain.ingest("a b c");
    assert!(brain.state_transitions.is_empty());
}

#[test]
fn an_empty_line_yields_the_markers_alone() {
    let mut brain = brain_with(5);
    brain.ingest("");
    assert_eq!(brain.state_transitions.len(), 3);
    let both = transition(&brain, vec![start(), end()]);
    assert!(both.prev().is_empty());
    assert!(both.next().is_empty());
    let first = transition(&brain, vec![start()]);
    assert_eq!(first.next(), &vec![(end(), 1u64)]);
}

#[test]
fn ingestion_lower_cases_the_line() {
    let mut brain = brain_with(1);
    brain.ingest("The CAT");
    assert!(brain.state_transitions.get(&State::new(vec![word("the")])).is_some());
    assert!(brain.state_transitions.get(&State::new(vec![word("cat")])).is_some());
    assert!(brain.state_transitions.get(&State::new(vec![word("The")])).is_none());
}

#[test]
fn increment_occurence_counts_on_the_side_it_is_told() {
    let mut t = Transistion::new();
    t.increment_occurence(SentenceDirection::Forward, &word("x"));
    t.increment_occurence(SentenceDirection::Forward, &word("y"));
    t.increment_occurence(SentenceDirection::Forward, &word("x"));
    t.increment_occurence(SentenceDirection::Backward, &start());
    t.increment_occurence(SentenceDirection::Backward, &placeholder());
    t.increment_occurence(SentenceDirection::Forward, &placeholder());
    assert_eq!(t.next(), &vec![(word("x"), 2u64), (word("y"), 1u64)]);
    assert_eq!(t.prev(), &vec![(start(), 1u64)]);
    assert_eq!(t.side(SentenceDirection::Forward), t.next());
    assert_eq!(t.side(SentenceDirection::Backward), t.prev());
}

#[test]
fn a_full_list_stays_as_it_is() {
    let full = vec![(word("x"), u64::MAX - 1), (word("y"), 1u64)];
    let mut t = Transistion::from_lists(full.clone(), vec![(word("z"), u64::MAX - 1)]).unwrap();
    t.increment_occurence(SentenceDirection::Backward, &word("x"));
    t.increment_occurence(SentenceDirection::Backward, &word("new"));
    assert_eq!(t.prev(), &full);
    t.increment_occurence(SentenceDirection::Forward, &word("z"));
    assert_eq!(t.next(), &vec![(word("z"), u64::MAX)]);
    t.increment_occurence(SentenceDirection::Forward, &word("z"));
    assert_eq!(t.next(), &vec![(word("z"), u64::MAX)]);
}

#[test]
fn from_dataset_learns_every_line_in_order() {
    let lines = vec!["the cat sat".to_string(), "the dog sat".to_string()];
    let mut whole = brain_with(2);
    whole.from_dataset(&lines).unwrap();
    let mut single = brain_with(2);
    single.ingest("the cat sat");
    single.ingest("the dog sat");
    let a = whole.state_transitions.export();
    let b = single.state_transitions.export();
    assert_eq!(a.len(), b.len());
    for (x, y) in a.iter().zip(b.iter()) {
        assert_eq!(x.state, y.state);
        assert_eq!(x.prev, y.prev);
        assert_eq!(x.next, y.next);
    }
    let the = transition(&whole, vec![word("the")]);
    assert_eq!(the.next(), &vec![(word("cat"), 1u64), (word("dog"), 1u64)]);
    assert_eq!(the.prev(), &vec![(start(), 2u64)]);
}
