use keyboard_layout_optimizer::algorithms::{Annealing, HillClimbing};
use keyboard_layout_optimizer::keyboard_layout::{
    Finger as F, LogicalLayout, PhysicalLayout, NUM_COLS, NUM_ROWS,
};

fn physical_layout() -> PhysicalLayout<f32> {
    let cost_matrix: [[f32; NUM_COLS]; NUM_ROWS] = [
        [3.0, 2.4, 2.0, 2.2, 3.2, 3.2, 2.2, 2.0, 2.4, 3.0],
        [1.6, 1.3, 1.1, 1.0, 2.9, 2.9, 1.0, 1.1, 1.3, 1.6],
        [3.2, 2.6, 2.3, 1.6, 3.0, 3.0, 1.6, 2.3, 2.6, 3.2],
    ];
    let finger_table: [[F; NUM_COLS]; NUM_ROWS] = [
        [F::R(), F::R(), F::M(), F::M(), F::I(), F::I(), F::M(), F::M(), F::R(), F::R()],
        [F::P(), F::R(), F::M(), F::I(), F::I(), F::I(), F::I(), F::M(), F::R(), F::P()],
        [F::P(), F::R(), F::M(), F::I(), F::I(), F::I(), F::I(), F::M(), F::R(), F::P()],
    ];
    PhysicalLayout::new(cost_matrix, finger_table, 5.0).unwrap()
}

fn qwerty() -> Vec<char> {
    "qwertyuiopasdfghjkl;zxcvbnm,./".chars().collect()
}

fn layout() -> LogicalLayout {
    LogicalLayout::from_usable_chars(&physical_layout(), qwerty())
}

fn is_permutation(layout: &LogicalLayout) -> bool {
    let mut chars = layout.clone().output();
    chars.sort();
    let mut alphabet = qwerty();
    alphabet.sort();
    chars == alphabet && (0..layout.len()).all(|i| layout.get_char_index(layout.get(i)) == i)
}

/// The cost of a layout for the tests: how far `/` and `.` are from slot 0.
fn toy_cost(layout: &LogicalLayout) -> u32 {
    (layout.get_char_index('/') + layout.get_char_index('.')) as u32
}

/// Another cost for the tests: how far `q` and `w` are from slot 0.
fn front_cost(layout: &LogicalLayout) -> u32 {
    (layout.get_char_index('q') + layout.get_char_index('w')) as u32
}

#[test]
fn hill_climbing_step_keeps_a_swap_that_lowers_the_cost() {
    let mut candidate = layout();
    assert_eq!(toy_cost(&candidate), 57);
    let best = HillClimbing::step(&mut candidate, 0, 29, &toy_cost, 57);
    assert_eq!(best, 28);
    let mut expected = qwerty();
    expected.swap(0, 29);
    assert_eq!(candidate.clone().output(), expected);
    assert!(is_permutation(&candidate));
}

#[test]
fn hill_climbing_step_takes_back_a_swap_that_does_not_lower_the_cost() {
    let mut candidate = layout();
    // the cost stays as it is
    assert_eq!(HillClimbing::step(&mut candidate, 0, 1, &toy_cost, 57), 57);
    assert_eq!(candidate.clone().output(), qwerty());
    // the cost rises
    assert_eq!(front_cost(&candidate), 1);
    assert_eq!(HillClimbing::step(&mut candidate, 0, 28, &front_cost, 1), 1);
    assert_eq!(candidate.clone().output(), qwerty());
    // the cost falls, but not below the best
    assert_eq!(HillClimbing::step(&mut candidate, 0, 29, &toy_cost, 28), 28);
    assert_eq!(candidate.clone().output(), qwerty());
    assert!(is_permutation(&candidate));
    assert_eq!(candidate.get_char_index('q'), 0);
    assert_eq!(candidate.get_char_index('/'), 29);
}

#[test]
fn annealing_step_keeps_a_better_layout_without_asking() {
    let mut candidate = layout();
    let never_asked = |_: u32, _: u32, _: usize| -> bool { panic!("asked about a better layout") };
    assert_eq!(Annealing::step(&mut candidate, 0, 29, &toy_cost, &never_asked, 57, 0), 28);
    let mut expected = qwerty();
    expected.swap(0, 29);
    assert_eq!(candidate.output(), expected);
}

#[test]
fn annealing_step_asks_about_a_layout_that_is_not_better() {
    let mut candidate = layout();
    let asked = |new_cost: u32, current_cost: u32, iteration: usize| {
        assert_eq!((new_cost, current_cost, iteration), (29, 1, 7));
        true
    };
    assert_eq!(Annealing::step(&mut candidate, 0, 28, &front_cost, &asked, 1, 7), 29);
    let mut expected = qwerty();
    expected.swap(0, 28);
    assert_eq!(candidate.clone().output(), expected);
    let refused = |new_cost: u32, current_cost: u32, iteration: usize| {
        assert_eq!((new_cost, current_cost, iteration), (55, 29, 8));
        false
    };
    assert_eq!(Annealing::step(&mut candidate, 1, 27, &front_cost, &refused, 29, 8), 29);
    assert_eq!(candidate.clone().output(), expected);
    assert!(is_permutation(&candidate));
}

#[test]
fn hill_climbing_never_ends_above_where_it_began() {
    let mut rng = rand::thread_rng();
    let mut candidate = layout();
    let initial = toy_cost(&candidate);
    assert_eq!(initial, 57);
    let best = HillClimbing::optimize(&mut candidate, &toy_cost, initial, 100_000, &mut rng);
    assert!(best <= initial);
    assert!(is_permutation(&candidate));
    assert_eq!(toy_cost(&candidate), if best < initial { best } else { initial });
    // so many swaps of thirty slots find the two cheapest slots
    assert_eq!(best, 1);
}

#[test]
fn hill_climbing_without_iterations_leaves_the_layout() {
    let mut rng = rand::thread_rng();
    let mut candidate = layout();
    let best = HillClimbing::optimize(&mut candidate, &toy_cost, 1000, 0, &mut rng);
    assert_eq!(best, 1000);
    assert_eq!(candidate.output(), qwerty());
}

#[test]
fn hill_climbing_keeps_no_swap_that_does_not_beat_the_best() {
    let mut rng = rand::thread_rng();
    let mut candidate = layout();
    let best = HillClimbing::optimize(&mut candidate, &toy_cost, 0, 500, &mut rng);
    assert_eq!(best, 0);
    assert_eq!(candidate.output(), qwerty());
}

#[test]
fn annealing_that_accepts_nothing_worse_only_descends() {
    let mut rng = rand::thread_rng();
    let mut candidate = layout();
    let never = |_: u32, _: u32, _: usize| false;
    let cost = Annealing::optimize(&mut candidate, &toy_cost, &never, 57, 2000, &mut rng);
    assert!(cost <= 57);
    assert_eq!(toy_cost(&candidate), cost);
    assert!(is_permutation(&candidate));
}

#[test]
fn annealing_that_accepts_everything_ends_on_the_last_proposal() {
    let mut rng = rand::thread_rng();
    let mut candidate = layout();
    let always = |_: u32, _: u32, _: usize| true;
    let cost = Annealing::optimize(&mut candidate, &toy_cost, &always, u32::MAX, 100, &mut rng);
    assert_eq!(toy_cost(&candidate), cost);
    assert!(is_permutation(&candidate));
}

#[test]
fn annealing_asks_only_about_swaps_that_do_not_lower_the_cost() {
    let mut rng = rand::thread_rng();
    let mut candidate = layout();
    let checked = |new_cost: u32, current_cost: u32, iteration: usize| {
        assert!(new_cost >= current_cost);
        assert!(iteration < 300);
        false
    };
    Annealing::optimize(&mut candidate, &toy_cost, &checked, u32::MAX, 300, &mut rng);
    assert!(is_permutation(&candidate));
}

#[test]
fn annealing_without_iterations_returns_the_initial_cost() {
    let mut rng = rand::thread_rng();
    let mut candidate = layout();
    let always = |_: u32, _: u32, _: usize| true;
    let cost = Annealing::optimize(&mut candidate, &toy_cost, &always, 77, 0, &mut rng);
    assert_eq!(cost, 77);
    assert_eq!(candidate.output(), qwerty());
}
