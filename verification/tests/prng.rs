use rustkov::components::State;
use rustkov::elements::StateElement;
use rustkov::prng::Prng;

fn item(text: &str) -> StateElement {
    StateElement::Word(text.to_string())
}

#[test]
fn gen_ratio_is_never_true_at_zero_and_always_true_at_one() {
    let mut rng = Prng::from_seed([1; 32]);
    for _ in 0..200 {
        assert!(!rng.gen_ratio(0, 7));
        assert!(rng.gen_ratio(7, 7));
        assert!(rng.gen_ratio(1, 1));
    }
}

#[test]
fn gen_ratio_follows_the_ratio() {
    let mut rng = Prng::from_seed([2; 32]);
    let mut hits = 0;
    for _ in 0..1000 {
        if rng.gen_ratio(1, 4) {
            hits += 1;
        }
    }
    assert!(hits > 150);
    assert!(hits < 350);
}

#[test]
fn pick_gives_an_item_of_the_slice() {
    let mut rng = Prng::from_seed([3; 32]);
    let items = [10usize, 20, 30, 40];
    let mut seen = [false; 4];
    for _ in 0..200 {
        let chosen = *rng.pick(&items).unwrap();
        seen[items.iter().position(|i| *i == chosen).unwrap()] = true;
    }
    assert_eq!(seen, [true; 4]);
    let none: [usize; 0] = [];
    assert!(rng.pick(&none).is_none());
}

#[test]
fn pick_of_nothing_leaves_the_generator_as_it_is() {
    let mut a = Prng::from_seed([5; 32]);
    let mut b = Prng::from_seed([5; 32]);
    let none: [usize; 0] = [];
    assert!(a.pick(&none).is_none());
    let items: Vec<usize> = (0..1000).collect();
    for _ in 0..20 {
        assert_eq!(a.pick(&items), b.pick(&items));
    }
}

#[test]
fn shuffle_rearranges_and_keeps_every_item() {
    let mut rng = Prng::from_seed([4; 32]);
    let ordered: Vec<u32> = (0..30).collect();
    let mut items = ordered.clone();
    rng.shuffle(&mut items);
    assert_ne!(items, ordered);
    let mut sorted = items.clone();
    sorted.sort();
    assert_eq!(sorted, ordered);
    let mut again = ordered.clone();
    rng.shuffle(&mut again);
    assert_ne!(again, items);
}

#[test]
fn pick_weighted_follows_the_counts() {
    let mut rng = Prng::from_seed([6; 32]);
    let list = vec![(item("rare"), 1u64), (item("common"), 99u64)];
    let mut common = 0;
    for _ in 0..500 {
        if *rng.pick_weighted(&list) == item("common") {
            common += 1;
        }
    }
    assert!(common > 450);
    assert!(common < 500);
    let single = vec![(item("only"), u64::MAX)];
    assert_eq!(*rng.pick_weighted(&single), item("only"));
}

#[test]
fn one_seed_gives_one_stream() {
    let mut a = Prng::from_seed([7; 32]);
    let mut b = Prng::from_seed([7; 32]);
    let mut c = Prng::from_seed([8; 32]);
    let items: Vec<usize> = (0..100_000).collect();
    let mut differs = false;
    for _ in 0..50 {
        let x = *a.pick(&items).unwrap();
        assert_eq!(x, *b.pick(&items).unwrap());
        if x != *c.pick(&items).unwrap() {
            differs = true;
        }
    }
    assert!(differs);
}

#[test]
fn a_copy_of_a_generator_goes_on_from_where_it_was_taken() {
    let mut a = Prng::from_seed([9; 32]);
    let items: Vec<usize> = (0..100_000).collect();
    let first = *a.pick(&items).unwrap();
    let mut copy = a;
    let second = *a.pick(&items).unwrap();
    assert_eq!(*copy.pick(&items).unwrap(), second);
    assert_ne!(first, second);
}

#[test]
fn generators_from_entropy_differ() {
    let mut a = Prng::from_entropy();
    let mut b = Prng::from_entropy();
    let items: Vec<usize> = (0..1_000_000).collect();
    let mut differs = false;
    for _ in 0..20 {
        if a.pick(&items) != b.pick(&items) {
            differs = true;
        }
    }
    assert!(differs);
}

#[test]
fn random_element_gives_an_element_of_the_state() {
    let state = State::new(vec![item("a"), item("b"), item("c")]);
    let mut rng = Prng::from_seed([10; 32]);
    let mut seen = [false; 3];
    for _ in 0..100 {
        let element = state.random_element(&mut rng);
        let at = state.elements().iter().position(|e| e == element).unwrap();
        seen[at] = true;
    }
    assert_eq!(seen, [true; 3]);
}
