use keyboard_layout_optimizer::keyboard_layout::{
    Finger as F, LogicalLayout, PhysicalLayout, StrokeCost, NUM_COLS, NUM_ROWS,
};
use keyboard_layout_optimizer::n_gram::{LogicalNGram, PhysicalNGram};

fn physical_layout() -> PhysicalLayout<f32> {
    let cost_matrix: [[f32; NUM_COLS]; NUM_ROWS] = [
        [3.0, 2.4, 2.0, 2.2, 3.2, 3.2, 2.2, 2.0, 2.4, 3.0],
        [1.6, 1.3, 1.1, 1.0, 2.9, 2.9, 1.0, 1.1, 1.3, 1.6],
        [3.2, 2.6, 2.3, 1.6, 3.0, 3.0, 1.6, 2.3, 2.6, 3.2],
    ];
    let finger_table: [[F; NUM_COLS]; NUM_ROWS] = [
        [F::R(), F::R(), F::M(), F::M(), F::I(), F::I(), F::M(), F::M(), F::R(), F::R()],
        [F::P(), F::R(), F::M(), F::I(), F::I(), F::I(), F::I(), F::M(), F::R(), F::P()],
        [F::P(), F::R(), F::M(), F::I(), F::I(), F::I(), F::I(), F::M(), F::R(), F::P()],
    ];
    PhysicalLayout::new(cost_matrix, finger_table, 5.0).unwrap()
}

/// The index leads from the character of every slot back to that slot.
fn is_bijection(layout: &LogicalLayout) -> bool {
    let holds = (0..layout.len()).all(|i| layout.get_char_index(layout.get(i)) == i);
    assert_eq!(layout.check_bijection(), holds);
    holds
}

#[test]
fn test_from_usable_chars() {
    let cost_matrix: [[f32; NUM_COLS]; NUM_ROWS] = [
        [3.0, 2.4, 2.0, 2.2, 3.2, 3.2, 2.2, 2.0, 2.4, 3.0],
        [1.6, 1.3, 1.1, 1.0, 2.9, 2.9, 1.0, 1.1, 1.3, 1.6],
        [3.2, 2.6, 2.3, 1.6, 3.0, 3.0, 1.6, 2.3, 2.6, 3.2],
    ];
    let finger_table: [[F; NUM_COLS]; NUM_ROWS] = [
        [F::R(), F::R(), F::M(), F::M(), F::I(), F::I(), F::M(), F::M(), F::R(), F::R()],
        [F::P(), F::R(), F::M(), F::I(), F::I(), F::I(), F::I(), F::M(), F::R(), F::P()],
        [F::P(), F::R(), F::M(), F::I(), F::I(), F::I(), F::I(), F::M(), F::R(), F::P()],
    ];
    let physical_layout = PhysicalLayout::new(cost_matrix, finger_table, 5.0).unwrap();
    let logical_layout = LogicalLayout::from_usable_chars(&physical_layout, vec!['a', 'b', 'c']);
    assert_eq!(logical_layout.len(), 30);
    assert_eq!(logical_layout.char_nums(), 3);
}

#[test]
fn from_usable_chars_pads_with_the_first_free_characters() {
    let layout = LogicalLayout::from_usable_chars(&physical_layout(), vec!['a', 'b', 'c']);
    assert_eq!(layout.get(0), 'a');
    assert_eq!(layout.get(1), 'b');
    assert_eq!(layout.get(2), 'c');
    assert_eq!(layout.get(3), ' ');
    assert_eq!(layout.get(4), '!');
    assert_eq!(layout.get(29), ':');
    assert!(is_bijection(&layout));
}

#[test]
fn from_usable_chars_skips_placeholders_that_are_taken() {
    let layout = LogicalLayout::from_usable_chars(&physical_layout(), vec!['!', 'a', ' ', '#']);
    assert_eq!(layout.len(), 30);
    assert_eq!(layout.char_nums(), 4);
    assert_eq!(layout.get(4), '"');
    assert_eq!(layout.get(5), '$');
    assert_eq!(layout.get(6), '%');
    assert!(is_bijection(&layout));
}

#[test]
fn from_usable_chars_keeps_a_full_permutation_as_it_is() {
    let chars: Vec<char> = "qwertyuiopasdfghjkl;zxcvbnm,./".chars().collect();
    let layout = LogicalLayout::from_usable_chars(&physical_layout(), chars.clone());
    assert_eq!(layout.len(), 30);
    assert_eq!(layout.char_nums(), 30);
    assert!(is_bijection(&layout));
    assert_eq!(layout.output(), chars);
}

#[test]
fn from_usable_chars_takes_more_characters_than_slots() {
    let chars: Vec<char> = "abcdefghijklmnopqrstuvwxyz0123456789".chars().collect();
    let layout = LogicalLayout::from_usable_chars(&physical_layout(), chars.clone());
    assert_eq!(layout.len(), 36);
    assert_eq!(layout.char_nums(), 36);
    assert_eq!(layout.output(), chars);
}

#[test]
fn from_usable_chars_counts_a_repeated_character_once() {
    let layout = LogicalLayout::from_usable_chars(&physical_layout(), vec!['a', 'b', 'a']);
    assert_eq!(layout.char_nums(), 2);
    assert_eq!(layout.get_char_index('a'), 2);
    assert!(!is_bijection(&layout));
}

#[test]
fn get_char_index_gives_the_number_of_slots_for_an_unknown_character() {
    let layout = LogicalLayout::from_usable_chars(&physical_layout(), vec!['a', 'b', 'c']);
    assert_eq!(layout.get_char_index('a'), 0);
    assert_eq!(layout.get_char_index('c'), 2);
    assert_eq!(layout.get_char_index(' '), 3);
    assert_eq!(layout.get_char_index('z'), 30);
    assert_eq!(layout.get_char_index('é'), 30);
}

#[test]
fn swap_exchanges_two_slots_and_keeps_the_bijection() {
    let mut layout = LogicalLayout::from_usable_chars(&physical_layout(), vec!['a', 'b', 'c']);
    layout.swap(0, 12);
    assert_eq!(layout.get(0), ')');
    assert_eq!(layout.get(12), 'a');
    assert_eq!(layout.get_char_index('a'), 12);
    assert_eq!(layout.get_char_index(')'), 0);
    assert!(is_bijection(&layout));
    layout.swap(5, 5);
    assert!(is_bijection(&layout));
    layout.swap(12, 0);
    assert_eq!(layout.get(0), 'a');
    assert!(is_bijection(&layout));
    assert_eq!(layout.char_nums(), 3);
    assert_eq!(layout.len(), 30);
}

#[test]
fn any_run_of_swaps_keeps_the_bijection() {
    let chars: Vec<char> = "qwertyuiopasdfghjkl;zxcvbnm,./".chars().collect();
    let mut layout = LogicalLayout::from_usable_chars(&physical_layout(), chars.clone());
    let mut a = 7usize;
    let mut b = 3usize;
    for _ in 0..500 {
        a = (a * 11 + 5) % 30;
        b = (b * 17 + 1) % 30;
        layout.swap(a, b);
        assert!(is_bijection(&layout));
    }
    let mut sorted = layout.output();
    sorted.sort();
    let mut expected = chars;
    expected.sort();
    assert_eq!(sorted, expected);
}

#[test]
fn set_of_a_new_character_takes_the_displaced_one_out_of_the_index() {
    let mut layout = LogicalLayout::from_usable_chars(&physical_layout(), vec!['a', 'b', 'c']);
    layout.set(1, 'z');
    assert_eq!(layout.get(1), 'z');
    assert_eq!(layout.get_char_index('z'), 1);
    // no slot holds `b` any more
    assert_eq!(layout.get_char_index('b'), 30);
    assert!(is_bijection(&layout));
    layout.set(1, 'z');
    assert_eq!(layout.get(1), 'z');
    assert_eq!(layout.get_char_index('z'), 1);
    assert!(is_bijection(&layout));
    assert_eq!(layout.len(), 30);
    assert_eq!(layout.char_nums(), 3);
}

#[test]
fn set_of_a_character_that_sits_elsewhere_exchanges_the_slots() {
    let mut layout = LogicalLayout::from_usable_chars(&physical_layout(), vec!['a', 'b', 'c']);
    layout.set(0, 'b');
    assert_eq!(layout.get(0), 'b');
    assert_eq!(layout.get(1), 'a');
    assert_eq!(layout.get(2), 'c');
    assert_eq!(layout.get_char_index('b'), 0);
    assert_eq!(layout.get_char_index('a'), 1);
    assert!(is_bijection(&layout));
}

#[test]
fn any_run_of_sets_keeps_the_bijection_and_the_lookup() {
    let chars: Vec<char> = "qwertyuiopasdfghjkl;zxcvbnm,./".chars().collect();
    let mut layout = LogicalLayout::from_usable_chars(&physical_layout(), chars);
    let pool: Vec<char> = "qwertyuiopasdfghjkl;zxcvbnm,./0123456789".chars().collect();
    let mut a = 7usize;
    let mut b = 3usize;
    for _ in 0..500 {
        a = (a * 11 + 5) % 30;
        b = (b * 17 + 1) % 40;
        layout.set(a, pool[b]);
        assert_eq!(layout.get(a), pool[b]);
        assert!(is_bijection(&layout));
        for c in &pool {
            let held = (0..30).find(|&i| layout.get(i) == *c).unwrap_or(30);
            assert_eq!(layout.get_char_index(*c), held);
        }
    }
}

#[test]
fn physical_n_gram_maps_characters_to_their_slots() {
    let mut layout = LogicalLayout::from_usable_chars(&physical_layout(), vec!['a', 'b', 'c']);
    assert_eq!(
        layout.physical_n_gram(&LogicalNGram::new(['a', 'b', 'c'])),
        PhysicalNGram::new([0, 1, 2])
    );
    layout.swap(0, 12);
    assert_eq!(
        layout.physical_n_gram(&LogicalNGram::new(['c', 'a', 'x'])),
        PhysicalNGram::new([2, 12, 30])
    );
}

#[test]
fn evaluate_gives_the_stroke_cost_of_each_tri_gram() {
    let mut physical = physical_layout();
    physical.calculate_tri_gram_cost();
    let layout = LogicalLayout::from_usable_chars(&physical, vec!['a', 'b', 'c']);
    let tri_grams = vec![
        LogicalNGram::new(['a', 'b', 'c']),
        LogicalNGram::new(['b', 'c', 'a']),
        LogicalNGram::new(['c', 'a', 'z']),
    ];
    let costs = layout.evaluate(&physical, &tri_grams);
    assert_eq!(
        costs,
        vec![
            StrokeCost { base: 0, factor: 8, extra: None },
            StrokeCost { base: 1, factor: 8, extra: None },
            StrokeCost { base: 2, factor: 0, extra: Some(30) },
        ]
    );
}

#[test]
fn evaluate_gives_the_same_result_on_every_call() {
    let mut physical = physical_layout();
    physical.calculate_tri_gram_cost();
    let mut layout = LogicalLayout::from_usable_chars(&physical, vec!['a', 'b', 'c', 'd']);
    layout.swap(1, 17);
    let tri_grams = vec![
        LogicalNGram::new(['a', 'b', 'c']),
        LogicalNGram::new(['d', 'a', 'b']),
        LogicalNGram::new(['b', 'b', 'q']),
    ];
    let first = layout.evaluate(&physical, &tri_grams);
    let second = layout.evaluate(&physical, &tri_grams);
    assert_eq!(first, second);
    assert_eq!(layout.clone().evaluate(&physical, &tri_grams), first);
}

#[test]
fn evaluate_of_no_tri_grams_is_empty() {
    let mut physical = physical_layout();
    physical.calculate_tri_gram_cost();
    let layout = LogicalLayout::from_usable_chars(&physical, vec!['a']);
    assert!(layout.evaluate(&physical, &Vec::new()).is_empty());
}

#[test]
fn clone_is_independent_of_its_source() {
    let layout = LogicalLayout::from_usable_chars(&physical_layout(), vec!['a', 'b', 'c']);
    let mut copy = layout.clone();
    copy.swap(0, 1);
    assert_eq!(layout.get(0), 'a');
    assert_eq!(copy.get(0), 'b');
    assert_eq!(layout.get_char_index('a'), 0);
    assert_eq!(copy.get_char_index('a'), 1);
}

/// The position costs of the characters of every run of `n` characters of the text, added up.
fn position_cost_of_text(
    physical: &PhysicalLayout<f32>,
    layout: &LogicalLayout,
    text: &str,
    n: usize,
) -> f32 {
    keyboard_layout_optimizer::n_gram::generate_n_grams(text, n)
        .iter()
        .flat_map(|n_gram| n_gram.chars())
        .map(|c| physical.position_cost(layout.get_char_index(c)))
        .sum()
}

#[test]
fn position_costs_of_the_runs_of_a_text_add_up() {
    let physical = physical_layout();
    let mut layout = LogicalLayout::from_usable_chars(&physical, vec!['a', 'b', 'c']);
    assert!((position_cost_of_text(&physical, &layout, "abc", 1) - 7.4).abs() < 1e-5);
    assert!((position_cost_of_text(&physical, &layout, "abc", 2) - 9.8).abs() < 1e-5);
    // slot 12 lies in the second row and the third column
    layout.swap(0, 12);
    assert!((position_cost_of_text(&physical, &layout, "abc", 1) - 5.5).abs() < 1e-5);
    // a character that the layout does not hold costs what an unknown key costs
    assert!((position_cost_of_text(&physical, &layout, "abz", 1) - 8.5).abs() < 1e-5);
}
