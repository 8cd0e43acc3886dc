use rustkov::brain::Brain;
use rustkov::config::ReplyRate;
use rustkov::elements::{SentenceDirection, SentenceMarker, StateElement};
use rustkov::generation::WALK_LIMIT;
use rustkov::store::{StateRecord, TransitionStore};

fn term(text: &str) -> StateElement {
    StateElement::Word(text.to_string())
}

fn cat_brain(seed: u8) -> Brain {
    let mut brain = Brain::with_seed([seed; 32]);
    brain.config.max_ingestion_state_size = 2;
    brain.ingest("the cat sat");
    brain.config.min_generation_state_size = 1;
    brain.config.max_generation_state_size = 2;
    brain
}

fn story_brain(seed: u8) -> Brain {
    let mut brain = Brain::with_seed([seed; 32]);
    for line in [
        "the cat sat on the mat",
        "the dog sat on the log",
        "a cat saw the dog",
        "the dog saw a cat on the mat",
        "a dog and a cat sat",
    ] {
        brain.ingest(line);
    }
    brain.config.min_generation_state_size = 1;
    brain.config.max_generation_state_size = 3;
    brain
}

#[test]
fn the_cat_sat_is_generated_from_cat() {
    let mut brain = cat_brain(1);
    assert_eq!(brain.generate_bypass_checks("cat").unwrap(), "the cat sat");
}

#[test]
fn the_cat_sat_is_generated_whatever_the_seed() {
    for seed in 0..40u8 {
        let mut brain = cat_brain(seed);
        assert_eq!(brain.generate_bypass_checks("cat").unwrap(), "the cat sat");
        assert_eq!(brain.generate_bypass_checks("no such word").unwrap(), "the cat sat");
        assert_eq!(brain.generate("sat the").unwrap(), Some("the cat sat".to_string()));
    }
}

#[test]
fn an_empty_store_gives_no_reply() {
    let mut brain = Brain::with_seed([9; 32]);
    assert_eq!(brain.generate("hello there").unwrap(), None);
    assert_eq!(brain._generate("hello there", true).unwrap(), None);
    assert_eq!(brain._generate("hello there", false).unwrap(), None);
    brain.config.mute = true;
    assert_eq!(brain._generate("hello there", true).unwrap(), None);
    assert!(brain.state_transitions.is_empty());
}

#[test]
fn an_empty_store_bypassing_the_checks_gives_the_empty_text() {
    let mut brain = Brain::with_seed([9; 32]);
    assert_eq!(brain.generate_bypass_checks("hello there").unwrap(), "");
    assert!(brain.state_transitions.is_empty());
    brain.config.training = true;
    assert_eq!(brain.generate_bypass_checks("hello there").unwrap(), "");
    assert_eq!(brain.state_transitions.len(), 10);
    assert_eq!(brain.generate_bypass_checks("there").unwrap(), "hello there");
}

#[test]
fn a_reply_does_not_depend_on_the_state_of_the_generator_where_every_list_has_one_entry() {
    let mut brain = cat_brain(13);
    brain.config.mute = true;
    brain.config.reply_rate = ReplyRate::never();
    for input in ["cat", "dog", "", "sat the cat", "  "] {
        for _ in 0..25 {
            assert_eq!(brain.generate_bypass_checks(input).unwrap(), "the cat sat");
        }
    }
}

#[test]
fn training_learns_the_input_after_the_reply_was_made() {
    let mut brain = cat_brain(3);
    brain.config.training = true;
    assert_eq!(brain._generate("dog", true).unwrap(), Some("the cat sat".to_string()));
    assert_eq!(brain.state_transitions.len(), 12);
    let dog = brain
        .state_transitions
        .get(&rustkov::components::State::new(vec![term("dog")]))
        .unwrap();
    assert_eq!(dog.prev(), &vec![(StateElement::Marker(SentenceMarker::Start), 1u64)]);
    assert_eq!(dog.next(), &vec![(StateElement::Marker(SentenceMarker::End), 1u64)]);
}

#[test]
fn the_seed_comes_from_a_state_that_holds_a_word_of_the_input() {
    let mut brain = Brain::with_seed([14; 32]);
    brain.config.max_ingestion_state_size = 1;
    for line in ["red", "green", "blue"] {
        brain.ingest(line);
    }
    brain.config.min_generation_state_size = 1;
    brain.config.max_generation_state_size = 2;
    for _ in 0..40 {
        assert_eq!(brain.generate_bypass_checks("unknown green words").unwrap(), "green");
        assert_eq!(brain.generate_bypass_checks("blue").unwrap(), "blue");
    }
}

#[test]
fn get_element_prefers_the_shorter_context() {
    let records = vec![
        StateRecord { state: vec![term("b")], prev: vec![], next: vec![(term("c"), 1)] },
        StateRecord { state: vec![term("a"), term("b")], prev: vec![], next: vec![(term("d"), 1)] },
    ];
    let mut brain = Brain::with_seed([2; 32]);
    brain.state_transitions = TransitionStore::import(&records).unwrap();
    brain.config.min_generation_state_size = 1;
    brain.config.max_generation_state_size = 3;
    let sentence = vec![term("a"), term("b")];
    for _ in 0..10 {
        assert_eq!(brain.get_element(SentenceDirection::Forward, &sentence), term("c"));
    }
    brain.config.min_generation_state_size = 2;
    assert_eq!(brain.get_element(SentenceDirection::Forward, &sentence), term("d"));
}

#[test]
fn get_element_clips_the_context_to_the_sentence() {
    let mut brain = cat_brain(1);
    brain.config.min_generation_state_size = 2;
    brain.config.max_generation_state_size = 3;
    let sentence = vec![term("cat")];
    assert_eq!(brain.get_element(SentenceDirection::Forward, &sentence), term("sat"));
    assert_eq!(brain.get_element(SentenceDirection::Backward, &sentence), term("the"));
    brain.config.min_generation_state_size = 1;
    brain.config.max_generation_state_size = 2;
    let longer = vec![term("cat"), term("sat")];
    assert_eq!(brain.get_element(SentenceDirection::Backward, &longer), term("the"));
    assert_eq!(
        brain.get_element(SentenceDirection::Forward, &longer),
        StateElement::Marker(SentenceMarker::End)
    );
}

#[test]
fn an_empty_store_learns_the_input_where_training_is_on() {
    let mut brain = Brain::with_seed([9; 32]);
    brain.config.training = true;
    assert_eq!(brain.generate("hello there").unwrap(), None);
    assert!(!brain.state_transitions.is_empty());
    assert_eq!(brain.generate_bypass_checks("hello").unwrap(), "hello there");
}

#[test]
fn a_reply_rate_of_zero_gives_no_reply() {
    let mut brain = cat_brain(2);
    brain.config.reply_rate = ReplyRate::never();
    for _ in 0..50 {
        assert_eq!(brain.generate("cat").unwrap(), None);
    }
}

#[test]
fn bypassing_the_checks_always_gives_a_reply() {
    let mut brain = cat_brain(2);
    brain.config.reply_rate = ReplyRate::never();
    brain.config.mute = true;
    for _ in 0..50 {
        assert_eq!(brain.generate_bypass_checks("cat").unwrap(), "the cat sat");
        assert_eq!(brain._generate("cat", true).unwrap(), Some("the cat sat".to_string()));
    }
}

#[test]
fn a_reply_rate_of_one_always_gives_a_reply() {
    let mut brain = cat_brain(5);
    brain.config.reply_rate = ReplyRate::always();
    for _ in 0..50 {
        assert_eq!(brain.generate("cat").unwrap(), Some("the cat sat".to_string()));
    }
}

#[test]
fn a_mute_brain_gives_no_reply_but_learns() {
    let mut brain = cat_brain(2);
    brain.config.mute = true;
    brain.config.training = true;
    let before = brain.state_transitions.len();
    assert_eq!(brain.generate("a new line").unwrap(), None);
    assert!(brain.state_transitions.len() > before);
}

#[test]
fn a_reply_rate_between_zero_and_one_gives_both_outcomes() {
    let mut brain = cat_brain(11);
    brain.config.reply_rate = ReplyRate::new(1, 2).unwrap();
    let mut replies = 0;
    for _ in 0..200 {
        if brain.generate("cat").unwrap().is_some() {
            replies += 1;
        }
    }
    assert!(replies > 50);
    assert!(replies < 150);
}

#[test]
fn without_training_generation_leaves_the_store_alone() {
    let mut brain = cat_brain(4);
    let before = brain.state_transitions.len();
    brain.generate_bypass_checks("something else entirely").unwrap();
    assert_eq!(brain.state_transitions.len(), before);
}

#[test]
fn with_training_generation_learns_the_input_after_replying() {
    let mut brain = cat_brain(4);
    brain.config.training = true;
    assert_eq!(brain.generate_bypass_checks("Dogs bark").unwrap(), "the cat sat");
    let reply = brain.generate_bypass_checks("dogs").unwrap();
    assert_eq!(reply, "dogs bark");
}

#[test]
fn the_input_is_matched_as_it_is_written() {
    let mut brain = Brain::with_seed([8; 32]);
    brain.config.max_ingestion_state_size = 1;
    brain.ingest("alpha");
    brain.ingest("beta");
    brain.config.min_generation_state_size = 1;
    brain.config.max_generation_state_size = 2;
    for _ in 0..30 {
        assert_eq!(brain.generate_bypass_checks("alpha").unwrap(), "alpha");
        assert_eq!(brain.generate_bypass_checks("beta   \n").unwrap(), "beta");
    }
    let mut upper = 0;
    for _ in 0..200 {
        if brain.generate_bypass_checks("ALPHA").unwrap() == "beta" {
            upper += 1;
        }
    }
    assert!(upper > 0);
}

#[test]
fn two_brains_with_one_seed_reply_alike() {
    let mut a = story_brain(21);
    let mut b = story_brain(21);
    a.config.training = true;
    b.config.training = true;
    a.config.reply_rate = ReplyRate::new(2, 3).unwrap();
    b.config.reply_rate = ReplyRate::new(2, 3).unwrap();
    for input in ["the cat", "dog", "nothing known", "", "a cat and a dog on the mat", "log"] {
        for _ in 0..20 {
            assert_eq!(a.generate(input).unwrap(), b.generate(input).unwrap());
            assert_eq!(
                a.generate_bypass_checks(input).unwrap(),
                b.generate_bypass_checks(input).unwrap()
            );
        }
    }
    assert_eq!(a.state_transitions.len(), b.state_transitions.len());
}

#[test]
fn a_copy_of_a_brain_replies_as_the_brain_does() {
    let mut a = story_brain(33);
    let mut b = a.get();
    for _ in 0..50 {
        assert_eq!(
            a.generate_bypass_checks("cat dog").unwrap(),
            b.generate_bypass_checks("cat dog").unwrap()
        );
    }
}

#[test]
fn replies_vary_with_the_draws() {
    let mut brain = story_brain(5);
    let first = brain.generate_bypass_checks("cat").unwrap();
    let mut varied = false;
    for _ in 0..200 {
        if brain.generate_bypass_checks("cat").unwrap() != first {
            varied = true;
        }
    }
    assert!(varied);
}

#[test]
fn every_reply_is_made_of_learned_words() {
    let mut brain = story_brain(6);
    let known = ["the", "cat", "sat", "on", "mat", "dog", "log", "a", "saw", "and"];
    for _ in 0..100 {
        let reply = brain.generate_bypass_checks("mat log").unwrap();
        assert!(!reply.is_empty());
        for piece in reply.split(' ') {
            assert!(known.contains(&piece));
        }
    }
}

#[test]
fn get_element_takes_the_shortest_context_that_matches() {
    let mut brain = Brain::with_seed([1; 32]);
    brain.config.max_ingestion_state_size = 2;
    brain.ingest("x y z");
    brain.config.min_generation_state_size = 1;
    brain.config.max_generation_state_size = 3;
    let sentence = vec![term("x"), term("y")];
    assert_eq!(brain.get_element(SentenceDirection::Forward, &sentence), term("z"));
    assert_eq!(
        brain.get_element(SentenceDirection::Backward, &sentence),
        StateElement::Marker(SentenceMarker::Start)
    );
    assert_eq!(brain.context_position(SentenceDirection::Forward, &sentence), Some(2));
    brain.config.min_generation_state_size = 2;
    assert_eq!(brain.context_position(SentenceDirection::Forward, &sentence), Some(6));
    assert_eq!(brain.get_element(SentenceDirection::Forward, &sentence), term("z"));
}

#[test]
fn get_element_gives_the_marker_where_no_context_matches() {
    let mut brain = cat_brain(1);
    let unknown = vec![term("dog")];
    assert_eq!(
        brain.get_element(SentenceDirection::Forward, &unknown),
        StateElement::Marker(SentenceMarker::End)
    );
    assert_eq!(
        brain.get_element(SentenceDirection::Backward, &unknown),
        StateElement::Marker(SentenceMarker::Start)
    );
    assert_eq!(brain.context_position(SentenceDirection::Forward, &unknown), None);
    brain.config.min_generation_state_size = 2;
    brain.config.max_generation_state_size = 2;
    let known = vec![term("cat")];
    assert_eq!(
        brain.get_element(SentenceDirection::Forward, &known),
        StateElement::Marker(SentenceMarker::End)
    );
}

#[test]
fn a_walk_that_meets_no_marker_stops_at_the_limit() {
    let record = StateRecord {
        state: vec![term("a")],
        prev: vec![(term("a"), 1)],
        next: vec![(term("a"), 1)],
    };
    let mut brain = Brain::with_seed([2; 32]);
    brain.state_transitions = TransitionStore::import(&[record]).unwrap();
    brain.config.min_generation_state_size = 1;
    brain.config.max_generation_state_size = 2;
    let reply = brain.generate_bypass_checks("a").unwrap();
    assert_eq!(reply.split(' ').count(), 1 + 2 * WALK_LIMIT);
    assert!(reply.split(' ').all(|piece| piece == "a"));
}

#[test]
fn an_empty_range_of_context_sizes_gives_the_seed_alone() {
    let mut brain = cat_brain(3);
    brain.config.min_generation_state_size = 2;
    brain.config.max_generation_state_size = 2;
    for _ in 0..20 {
        let reply = brain.generate_bypass_checks("cat").unwrap();
        assert!(["the", "cat", "sat"].contains(&reply.as_str()));
    }
}

#[test]
fn a_brain_replies_by_the_generator_it_is_given() {
    let mut a = story_brain(1);
    let mut b = story_brain(2);
    b.rng = rustkov::prng::Prng::from_seed([1; 32]);
    for _ in 0..50 {
        assert_eq!(
            a.generate_bypass_checks("the dog").unwrap(),
            b.generate_bypass_checks("the dog").unwrap()
        );
    }
}

#[test]
fn excluded_words_do_not_change_a_reply() {
    let mut a = story_brain(17);
    let mut b = story_brain(17);
    b.config.excluded_words = vec!["cat".to_string(), "dog".to_string()];
    for _ in 0..50 {
        assert_eq!(a.generate("cat").unwrap(), b.generate("cat").unwrap());
    }
}

#[test]
fn neighbours_in_a_reply_are_neighbours_in_a_line() {
    let lines = [
        "the cat sat on the mat",
        "the dog sat on the log",
        "a cat saw the dog",
        "the dog saw a cat on the mat",
        "a dog and a cat sat",
    ];
    let split: Vec<Vec<&str>> = lines.iter().map(|line| line.split(' ').collect()).collect();
    let mut brain = story_brain(44);
    for input in ["cat", "log and mat", "nothing", "the"] {
        for _ in 0..50 {
            let reply = brain.generate_bypass_checks(input).unwrap();
            let words: Vec<&str> = reply.split(' ').collect();
            assert!(split.iter().any(|line| line.first() == words.first()));
            assert!(split.iter().any(|line| line.last() == words.last()));
            for pair in words.windows(2) {
                assert!(split.iter().any(|line| line.windows(2).any(|other| other == pair)));
            }
        }
    }
}
