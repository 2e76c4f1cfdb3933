use keyboard_layout_optimizer::keyboard_layout::{
    get_left_grams, get_left_keys, get_right_grams, get_right_keys, has_overlap, Finger as F, Hand,
    PhysicalLayout, StrokeCost, NUM_COLS, NUM_ROWS,
};
use keyboard_layout_optimizer::n_gram::PhysicalNGram;

fn finger_table() -> [[F; NUM_COLS]; NUM_ROWS] {
    [
        [F::R(), F::R(), F::M(), F::M(), F::I(), F::I(), F::M(), F::M(), F::R(), F::R()],
        [F::P(), F::R(), F::M(), F::I(), F::I(), F::I(), F::I(), F::M(), F::R(), F::P()],
        [F::P(), F::R(), F::M(), F::I(), F::I(), F::I(), F::I(), F::M(), F::R(), F::P()],
    ]
}

fn cost_matrix() -> [[f32; NUM_COLS]; NUM_ROWS] {
    [
        [3.0, 2.4, 2.0, 2.2, 3.2, 3.2, 2.2, 2.0, 2.4, 3.0],
        [1.6, 1.3, 1.1, 1.0, 2.9, 2.9, 1.0, 1.1, 1.3, 1.6],
        [3.2, 2.6, 2.3, 1.6, 3.0, 3.0, 1.6, 2.3, 2.6, 3.2],
    ]
}

fn layout() -> PhysicalLayout<f32> {
    PhysicalLayout::new(cost_matrix(), finger_table(), 5.0).unwrap()
}

#[test]
fn test_physical_layout() {
    let cost_matrix: [[f32; NUM_COLS]; NUM_ROWS] = [
        [3.0, 2.4, 2.0, 2.2, 3.2, 3.2, 2.2, 2.0, 2.4, 3.0],
        [1.6, 1.3, 1.1, 1.0, 2.9, 2.9, 1.0, 1.1, 1.3, 1.6],
        [3.2, 2.6, 2.3, 1.6, 3.0, 3.0, 1.6, 2.3, 2.6, 3.2],
    ];
    let finger_table: [[F; NUM_COLS]; NUM_ROWS] = [
        [F::R(), F::R(), F::M(), F::M(), F::I(), F::I(), F::M(), F::M(), F::R(), F::R()],
        [F::P(), F::R(), F::M(), F::I(), F::I(), F::I(), F::I(), F::M(), F::R(), F::P()],
        [F::P(), F::R(), F::M(), F::I(), F::I(), F::I(), F::I(), F::M(), F::R(), F::P()],
    ];
    let physical_layout = PhysicalLayout::new(cost_matrix, finger_table, 100.0).unwrap();
    assert_eq!(physical_layout.position_cost(0), 3.0);
    assert_eq!(physical_layout.position_cost(48), 100.0);
}

#[test]
fn position_cost_reads_the_matrix_row_by_row() {
    let physical = layout();
    assert_eq!(physical.position_cost(1), 2.4);
    assert_eq!(physical.position_cost(9), 3.0);
    assert_eq!(physical.position_cost(10), 1.6);
    assert_eq!(physical.position_cost(13), 1.0);
    assert_eq!(physical.position_cost(29), 3.2);
}

#[test]
fn position_cost_off_the_grid_is_the_cost_of_an_unknown_key() {
    let physical = layout();
    assert_eq!(physical.position_cost(30), 5.0);
    assert_eq!(physical.position_cost(48), 5.0);
    assert_eq!(physical.position_cost(usize::MAX), 5.0);
}

#[test]
fn position_cost_is_kept_when_the_table_is_calculated() {
    let mut physical = layout();
    physical.calculate_tri_gram_cost();
    assert_eq!(physical.position_cost(12), 1.1);
    assert_eq!(physical.position_cost(30), 5.0);
}

#[test]
fn costs_may_be_of_any_type() {
    let physical = PhysicalLayout::new([[7u8; NUM_COLS]; NUM_ROWS], finger_table(), 9u8).unwrap();
    assert_eq!(physical.position_cost(3), 7);
    assert_eq!(physical.position_cost(30), 9);
}

#[test]
fn hand_same_is_true_only_for_one_real_hand() {
    assert!(Hand::Left.same(Hand::Left));
    assert!(Hand::Right.same(Hand::Right));
    assert!(!Hand::Left.same(Hand::Right));
    assert!(!Hand::Right.same(Hand::Left));
    assert!(!Hand::Other.same(Hand::Other));
    assert!(!Hand::Other.same(Hand::Left));
    assert!(!Hand::Right.same(Hand::Other));
}

#[test]
fn finger_default_is_empty() {
    assert!(F::default().is_empty());
    assert!(F::empty().is_empty());
    assert_eq!(F::empty().union(F::P()), F::P());
}

#[test]
fn finger_groups_intersect_by_bits() {
    assert_eq!(F::I().bits(), 0b0001);
    assert_eq!(F::M().bits(), 0b0010);
    assert_eq!(F::R().bits(), 0b0100);
    assert_eq!(F::P().bits(), 0b1000);
    assert!(F::I().intersection(F::M()).is_empty());
    assert!(!F::I().intersects(F::M()));
    let both = F::I().union(F::M());
    assert_eq!(both.bits(), 0b0011);
    assert!(both.intersects(F::M()));
    assert_eq!(both.intersection(F::M()), F::M());
    assert!(!both.is_empty());
}

#[test]
fn new_layout_has_thirty_slots_and_no_table() {
    let physical = PhysicalLayout::new(cost_matrix(), finger_table(), 5.0);
    assert!(physical.is_ok());
    assert_eq!(physical.unwrap().len(), 30);
}

#[test]
fn coord_goes_row_by_row() {
    let physical = layout();
    assert_eq!(physical.coord(0), Some((0, 0)));
    assert_eq!(physical.coord(9), Some((0, 9)));
    assert_eq!(physical.coord(10), Some((1, 0)));
    assert_eq!(physical.coord(24), Some((2, 4)));
    assert_eq!(physical.coord(29), Some((2, 9)));
    assert_eq!(physical.coord(30), None);
    assert_eq!(physical.coord(48), None);
}

#[test]
fn hand_splits_each_row_in_the_middle() {
    let physical = layout();
    assert_eq!(physical.hand(0), Hand::Left);
    assert_eq!(physical.hand(4), Hand::Left);
    assert_eq!(physical.hand(5), Hand::Right);
    assert_eq!(physical.hand(14), Hand::Left);
    assert_eq!(physical.hand(25), Hand::Right);
    assert_eq!(physical.hand(30), Hand::Other);
}

#[test]
fn has_overlap_looks_at_neighbours_only() {
    assert!(!has_overlap(&[F::I()]));
    assert!(has_overlap(&[F::I(), F::I()]));
    assert!(!has_overlap(&[F::I(), F::M()]));
    assert!(!has_overlap(&[F::I(), F::M(), F::I()]));
    assert!(has_overlap(&[F::I(), F::M(), F::M()]));
    assert!(has_overlap(&[F::I().union(F::M()), F::M(), F::P()]));
}

#[test]
fn relative_cost_matches_hand_worked_values() {
    let physical = layout();
    // neighbours in one row on different fingers
    assert_eq!(physical.relative_cost(1, 2), 0);
    // neighbours in one row on one finger
    assert_eq!(physical.relative_cost(0, 1), 8);
    // one column, one finger
    assert_eq!(physical.relative_cost(1, 11), 16);
    // two rows and four columns apart
    assert_eq!(physical.relative_cost(0, 24), 3);
    // the same key twice
    assert_eq!(physical.relative_cost(3, 3), 16);
    // nine columns apart on one finger
    assert_eq!(physical.relative_cost(0, 9), 15);
}

#[test]
fn relative_cost_of_adjacent_keys_is_below_that_of_a_column_repeat() {
    let physical = layout();
    assert!(physical.relative_cost(1, 2) < physical.relative_cost(1, 11));
}

#[test]
fn relative_cost_is_symmetric() {
    let physical = layout();
    for a in 0..32 {
        for b in 0..32 {
            assert_eq!(physical.relative_cost(a, b), physical.relative_cost(b, a));
        }
    }
}

#[test]
fn relative_cost_off_the_grid_is_the_fixed_penalty() {
    let physical = layout();
    assert_eq!(physical.relative_cost(0, 30), 5);
    assert_eq!(physical.relative_cost(48, 0), 5);
    assert_eq!(physical.relative_cost(30, 31), 5);
}

#[test]
fn roll_cost_matches_hand_worked_values() {
    let physical = layout();
    assert_eq!(physical.roll_cost(0, 1, 2), 8);
    assert_eq!(physical.roll_cost(1, 2, 4), 0);
    assert_eq!(physical.roll_cost(4, 3, 1), 0);
    assert_eq!(physical.roll_cost(2, 1, 4), 8);
    assert_eq!(physical.roll_cost(1, 22, 3), 10);
    assert_eq!(physical.roll_cost(11, 11, 11), 16);
    assert_eq!(physical.roll_cost(1, 2, 30), 5);
}

#[test]
fn roll_cost_takes_either_direction_as_a_roll() {
    let physical = layout();
    // rising and falling columns on three different fingers
    assert_eq!(physical.roll_cost(1, 2, 3 + 10), 0);
    assert_eq!(physical.roll_cost(3 + 10, 2, 1), 0);
    // a change of direction
    assert_eq!(physical.roll_cost(1, 3 + 10, 2), 8);
}

#[test]
fn stroke_cost_follows_the_pattern_of_hands() {
    let physical = layout();
    assert_eq!(
        physical.stroke_cost(&PhysicalNGram::new([0, 1, 2])),
        StrokeCost { base: 0, factor: 8, extra: None }
    );
    assert_eq!(
        physical.stroke_cost(&PhysicalNGram::new([0, 1, 5])),
        StrokeCost { base: 0, factor: 8, extra: Some(5) }
    );
    assert_eq!(
        physical.stroke_cost(&PhysicalNGram::new([0, 5, 1])),
        StrokeCost { base: 0, factor: 8, extra: Some(5) }
    );
    assert_eq!(
        physical.stroke_cost(&PhysicalNGram::new([0, 5, 6])),
        StrokeCost { base: 5, factor: 0, extra: Some(0) }
    );
}

#[test]
fn stroke_cost_off_the_grid_uses_the_fixed_penalty() {
    let physical = layout();
    assert_eq!(
        physical.stroke_cost(&PhysicalNGram::new([30, 31, 32])),
        StrokeCost { base: 30, factor: 5, extra: None }
    );
    assert_eq!(
        physical.stroke_cost(&PhysicalNGram::new([0, 30, 1])),
        StrokeCost { base: 0, factor: 8, extra: Some(30) }
    );
    assert_eq!(
        physical.stroke_cost(&PhysicalNGram::new([30, 0, 1])),
        StrokeCost { base: 0, factor: 8, extra: Some(30) }
    );
}

#[test]
fn table_holds_the_stroke_cost_of_every_triple() {
    let mut physical = layout();
    physical.calculate_tri_gram_cost();
    for k1 in [0usize, 7, 13, 29] {
        for k2 in [0usize, 4, 5, 22] {
            for k3 in 0..30 {
                let n_gram = PhysicalNGram::new([k1, k2, k3]);
                assert_eq!(physical.get_tri_gram_cost(&n_gram), physical.stroke_cost(&n_gram));
            }
        }
    }
}

#[test]
fn table_lookup_off_the_grid_falls_back_to_the_formula() {
    let mut physical = layout();
    physical.calculate_tri_gram_cost();
    let n_gram = PhysicalNGram::new([30, 1, 2]);
    assert_eq!(
        physical.get_tri_gram_cost(&n_gram),
        StrokeCost { base: 1, factor: 0, extra: Some(30) }
    );
}

#[test]
fn left_and_right_keys_are_the_halves_of_each_row() {
    assert_eq!(get_left_keys(), vec![0, 1, 2, 3, 4, 10, 11, 12, 13, 14, 20, 21, 22, 23, 24]);
    assert_eq!(get_right_keys(), vec![5, 6, 7, 8, 9, 15, 16, 17, 18, 19, 25, 26, 27, 28, 29]);
}

#[test]
fn grams_of_one_hand_are_all_its_triples() {
    let left = get_left_grams();
    assert_eq!(left.len(), 3375);
    assert_eq!(left[0], PhysicalNGram::new([0, 0, 0]));
    assert_eq!(left[1], PhysicalNGram::new([0, 0, 1]));
    assert_eq!(left[15], PhysicalNGram::new([0, 1, 0]));
    assert_eq!(left[225], PhysicalNGram::new([1, 0, 0]));
    assert_eq!(left[3374], PhysicalNGram::new([24, 24, 24]));
    let right = get_right_grams();
    assert_eq!(right.len(), 3375);
    assert_eq!(right[0], PhysicalNGram::new([5, 5, 5]));
    assert_eq!(right[5 * 225 + 6 * 15 + 7], PhysicalNGram::new([15, 16, 17]));
    assert_eq!(right[3374], PhysicalNGram::new([29, 29, 29]));
}
