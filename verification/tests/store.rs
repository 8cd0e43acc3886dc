use rustkov::brain::Brain;
use rustkov::components::{valid_list, State, Transistion};
use rustkov::elements::{SentenceMarker, StateElement};
use rustkov::error::Error;
use rustkov::store::{StateRecord, TransitionStore};

fn wd(text: &str) -> StateElement {
    StateElement::Word(text.to_string())
}

fn record(state: Vec<StateElement>, prev: Vec<(StateElement, u64)>, next: Vec<(StateElement, u64)>) -> StateRecord {
    StateRecord { state, prev, next }
}

fn same(a: &[StateRecord], b: &[StateRecord]) -> bool {
    a.len() == b.len()
        && a.iter().zip(b.iter()).all(|(x, y)| x.state == y.state && x.prev == y.prev && x.next == y.next)
}

fn refused(records: &[StateRecord]) -> bool {
    matches!(TransitionStore::import(records), Err(Error::InvalidStore))
}

#[test]
fn a_saved_store_is_restored_as_it_was() {
    let mut brain = Brain::with_seed([4; 32]);
    brain.ingest("the cat sat on the mat");
    brain.ingest("the cat sat on the cat");
    let saved = brain.state_transitions.export();
    let restored = TransitionStore::import(&saved).unwrap();
    assert_eq!(restored.len(), brain.state_transitions.len());
    assert!(same(&restored.export(), &saved));
    for r in &saved {
        let key = State::new(r.state.clone());
        let t = restored.get(&key).unwrap();
        assert_eq!(t.prev(), &r.prev);
        assert_eq!(t.next(), &r.next);
    }
}

#[test]
fn the_empty_store_is_restored_as_it_was() {
    let store = TransitionStore::new();
    let saved = store.export();
    assert!(saved.is_empty());
    let restored = TransitionStore::import(&saved).unwrap();
    assert!(restored.is_empty());
    assert_eq!(restored.len(), 0);
}

#[test]
fn a_restored_store_generates_as_the_saved_one() {
    let mut a = Brain::with_seed([12; 32]);
    for line in ["one two three", "two three four", "three four one two"] {
        a.ingest(line);
    }
    let mut b = Brain::with_seed([12; 32]);
    b.state_transitions = TransitionStore::import(&a.state_transitions.export()).unwrap();
    for _ in 0..40 {
        assert_eq!(
            a.generate_bypass_checks("two four").unwrap(),
            b.generate_bypass_checks("two four").unwrap()
        );
    }
}

#[test]
fn records_with_an_empty_state_are_refused() {
    assert!(refused(&[record(vec![], vec![], vec![])]));
    assert!(refused(&[record(vec![wd("a")], vec![], vec![]), record(vec![], vec![], vec![])]));
}

#[test]
fn records_with_a_state_twice_are_refused() {
    let one = record(vec![wd("a"), wd("b")], vec![], vec![(wd("c"), 1)]);
    let two = record(vec![wd("a"), wd("b")], vec![(wd("d"), 2)], vec![]);
    assert!(refused(&[one, record(vec![wd("x")], vec![], vec![]), two]));
}

#[test]
fn records_with_an_ill_formed_list_are_refused() {
    let placeholder = StateElement::Marker(SentenceMarker::Placeholder);
    assert!(refused(&[record(vec![wd("a")], vec![(placeholder.clone(), 1)], vec![])]));
    assert!(refused(&[record(vec![wd("a")], vec![], vec![(placeholder, 3)])]));
    assert!(refused(&[record(vec![wd("a")], vec![(wd("b"), 0)], vec![])]));
    assert!(refused(&[record(vec![wd("a")], vec![], vec![(wd("b"), 1), (wd("b"), 1)])]));
    assert!(refused(&[record(vec![wd("a")], vec![(wd("b"), u64::MAX), (wd("c"), 1)], vec![])]));
}

#[test]
fn records_of_a_well_formed_store_are_accepted() {
    let records = vec![
        record(vec![wd("a")], vec![(wd("b"), u64::MAX - 1), (wd("c"), 1)], vec![]),
        record(vec![wd("a"), wd("a")], vec![], vec![(wd("a"), 7)]),
        record(vec![StateElement::Marker(SentenceMarker::Placeholder)], vec![], vec![]),
    ];
    let store = TransitionStore::import(&records).unwrap();
    assert_eq!(store.len(), 3);
    assert!(same(&store.export(), &records));
    assert_eq!(store.position(&[wd("a"), wd("a")]), Some(1));
    assert_eq!(store.position(&[wd("b")]), None);
}

#[test]
fn valid_list_tells_well_formed_lists() {
    assert!(valid_list(&vec![]));
    assert!(valid_list(&vec![(wd("a"), 1), (wd("b"), 2)]));
    assert!(valid_list(&vec![(StateElement::Marker(SentenceMarker::Start), 1)]));
    assert!(!valid_list(&vec![(wd("a"), 1), (wd("a"), 2)]));
    assert!(!valid_list(&vec![(wd("a"), 0)]));
    assert!(!valid_list(&vec![(StateElement::Marker(SentenceMarker::Placeholder), 1)]));
    assert!(!valid_list(&vec![(wd("a"), u64::MAX), (wd("b"), 1)]));
    assert!(valid_list(&vec![(wd("a"), u64::MAX)]));
    assert!(Transistion::from_lists(vec![(wd("a"), 0)], vec![]).is_none());
    assert!(Transistion::from_lists(vec![], vec![(wd("a"), 0)]).is_none());
    assert!(Transistion::from_lists(vec![(wd("a"), 1)], vec![(wd("a"), 1)]).is_some());
}

#[test]
fn the_store_keeps_its_states_in_the_order_of_first_sight() {
    let mut brain = Brain::with_seed([4; 32]);
    brain.config.max_ingestion_state_size = 1;
    brain.ingest("b a b");
    let store = &brain.state_transitions;
    assert_eq!(store.len(), 4);
    assert_eq!(store.state_at(0), &State::new(vec![StateElement::Marker(SentenceMarker::Start)]));
    assert_eq!(store.state_at(1), &State::new(vec![wd("b")]));
    assert_eq!(store.state_at(2), &State::new(vec![wd("a")]));
    assert_eq!(store.state_at(3), &State::new(vec![StateElement::Marker(SentenceMarker::End)]));
    assert_eq!(store.transition_at(2).prev(), &vec![(wd("b"), 1u64)]);
    assert_eq!(store.state_with_element_vec(&wd("b")), vec![1]);
    assert_eq!(store.state_with_element_vec(&wd("zzz")), Vec::<usize>::new());
}

#[test]
fn states_that_hold_an_element_are_found_in_order() {
    let mut brain = Brain::with_seed([4; 32]);
    brain.config.max_ingestion_state_size = 2;
    brain.ingest("the cat sat");
    let found = brain.state_transitions.state_with_element_vec(&wd("cat"));
    assert_eq!(found.len(), 3);
    for i in &found {
        assert!(brain.state_transitions.state_at(*i).contains(&wd("cat")));
    }
    assert!(found.windows(2).all(|pair| pair[0] < pair[1]));
}

#[test]
fn a_state_is_its_elements_in_order() {
    let ab = State::new(vec![wd("a"), wd("b")]);
    assert_eq!(ab.len(), 2);
    assert_eq!(ab, State::new(vec![wd("a"), wd("b")]));
    assert!(ab != State::new(vec![wd("b"), wd("a")]));
    assert!(ab != State::new(vec![wd("a")]));
    assert!(ab != State::new(vec![wd("a"), wd("b"), wd("c")]));
    assert!(ab.matches(&[wd("a"), wd("b")]));
    assert!(!ab.matches(&[wd("a")]));
    assert!(ab.contains(&wd("b")));
    assert!(!ab.contains(&wd("c")));
    assert_eq!(ab.clone(), ab);
    assert_eq!(ab.elements(), &vec![wd("a"), wd("b")]);
}
