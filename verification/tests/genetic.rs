use keyboard_layout_optimizer::algorithms::genetic::sort_population;
use keyboard_layout_optimizer::algorithms::individual::{cycle_slots, take_slots};
use keyboard_layout_optimizer::algorithms::{Genetic, Individual};
use keyboard_layout_optimizer::keyboard_layout::{
    Finger as F, LogicalLayout, PhysicalLayout, NUM_COLS, NUM_ROWS,
};

fn physical_layout() -> PhysicalLayout<f32> {
    let cost_matrix: [[f32; NUM_COLS]; NUM_ROWS] = [
        [3.0, 2.4, 2.0, 2.2, 3.2, 3.2, 2.2, 2.0, 2.4, 3.0],
        [1.6, 1.3, 1.1, 1.0, 2.9, 2.9, 1.0, 1.1, 1.3, 1.6],
        [3.2, 2.6, 2.3, 1.6, 3.0, 3.0, 1.6, 2.3, 2.6, 3.2],
    ];
    let finger_table: [[F; NUM_COLS]; NUM_ROWS] = [
        [F::R(), F::R(), F::M(), F::M(), F::I(), F::I(), F::M(), F::M(), F::R(), F::R()],
        [F::P(), F::R(), F::M(), F::I(), F::I(), F::I(), F::I(), F::M(), F::R(), F::P()],
        [F::P(), F::R(), F::M(), F::I(), F::I(), F::I(), F::I(), F::M(), F::R(), F::P()],
    ];
    PhysicalLayout::new(cost_matrix, finger_table, 5.0).unwrap()
}

fn qwerty() -> Vec<char> {
    "qwertyuiopasdfghjkl;zxcvbnm,./".chars().collect()
}

fn individual_of(text: &str) -> Individual {
    Individual::new(LogicalLayout::from_usable_chars(&physical_layout(), text.chars().collect()))
}

fn scored(text: &str, score: u32) -> Individual {
    let mut individual = individual_of(text);
    individual.set_score(score);
    individual
}

fn sorted(mut chars: Vec<char>) -> Vec<char> {
    chars.sort();
    chars
}

fn is_permutation_of(individual: &Individual, alphabet: &[char]) -> bool {
    let layout = individual.logical_layout();
    sorted(individual.layout()) == sorted(alphabet.to_vec())
        && (0..layout.len()).all(|i| layout.get_char_index(layout.get(i)) == i)
}

/// The cost of a layout for the tests: the slots of `q` and `z`, weighted.
fn toy_cost(layout: &LogicalLayout) -> u32 {
    (layout.get_char_index('q') * 31 + layout.get_char_index('z')) as u32
}

fn scores(population: &[Individual]) -> Vec<u32> {
    population.iter().map(|individual| individual.score()).collect()
}

#[test]
fn new_individual_is_not_evaluated() {
    let individual = individual_of("qwertyuiopasdfghjkl;zxcvbnm,./");
    assert_eq!(individual.score(), 0);
    assert_eq!(individual.layout(), qwerty());
}

#[test]
fn individual_evaluate_records_the_cost_of_its_layout() {
    let mut individual = individual_of("qwertyuiopasdfghjkl;zxcvbnm,./");
    individual.evaluate(&toy_cost);
    assert_eq!(individual.score(), 20);
    individual.set_score(7);
    assert_eq!(individual.score(), 7);
    assert_eq!(individual.clone().score(), 7);
}

#[test]
fn individuals_are_equal_when_their_scores_are() {
    assert!(scored("abc", 3) == scored("cba", 3));
    assert!(scored("abc", 3) != scored("abc", 4));
}

#[test]
fn reverse_range_reverses_the_slots_of_the_range() {
    let mut individual = individual_of("qwertyuiopasdfghjkl;zxcvbnm,./");
    individual.reverse_range(1, 5);
    let expected: Vec<char> = "qtrewyuiopasdfghjkl;zxcvbnm,./".chars().collect();
    assert_eq!(individual.layout(), expected);
    assert!(is_permutation_of(&individual, &qwerty()));
    individual.reverse_range(0, 30);
    let expected: Vec<char> = "/.,mnbvcxz;lkjhgfdsapoiuywertq".chars().collect();
    assert_eq!(individual.layout(), expected);
}

#[test]
fn reverse_range_of_less_than_two_slots_changes_nothing() {
    let mut individual = individual_of("qwertyuiopasdfghjkl;zxcvbnm,./");
    individual.reverse_range(4, 4);
    individual.reverse_range(7, 8);
    individual.reverse_range(30, 30);
    assert_eq!(individual.layout(), qwerty());
}

#[test]
fn shift_range_moves_the_first_slot_of_the_range_to_its_end() {
    let mut individual = individual_of("qwertyuiopasdfghjkl;zxcvbnm,./");
    individual.shift_range(1, 5);
    let expected: Vec<char> = "qertwyuiopasdfghjkl;zxcvbnm,./".chars().collect();
    assert_eq!(individual.layout(), expected);
    assert!(is_permutation_of(&individual, &qwerty()));
    individual.shift_range(12, 12);
    individual.shift_range(29, 30);
    assert_eq!(individual.layout(), expected);
}

#[test]
fn mutations_keep_the_permutation_and_the_score() {
    let mut rng = fastrand::Rng::with_seed(7);
    let mut individual = scored("qwertyuiopasdfghjkl;zxcvbnm,./", 11);
    for _ in 0..200 {
        individual.reverse_mutation(&mut rng);
        assert!(is_permutation_of(&individual, &qwerty()));
        individual.shift_mutation(&mut rng);
        assert!(is_permutation_of(&individual, &qwerty()));
        individual.random_mutation(&mut rng);
        assert!(is_permutation_of(&individual, &qwerty()));
        individual.mutate(&mut rng);
        assert!(is_permutation_of(&individual, &qwerty()));
    }
    assert_eq!(individual.score(), 11);
    assert_eq!(individual.logical_layout().char_nums(), 30);
}

#[test]
fn apply_mutation_applies_the_operator_of_the_number() {
    let mut rng = fastrand::Rng::with_seed(19);
    let changed_by = |mutation_type: u8, rng: &mut fastrand::Rng| {
        let mut individual = scored("qwertyuiopasdfghjkl;zxcvbnm,./", 4);
        individual.apply_mutation(mutation_type, rng);
        assert!(is_permutation_of(&individual, &qwerty()));
        assert_eq!(individual.score(), 4);
        individual.layout().iter().zip(qwerty()).filter(|(a, b)| **a != *b).count()
    };
    let mut reversed = 0;
    let mut shifted = 0;
    for _ in 0..200 {
        assert_eq!(changed_by(0, &mut rng), 0);
        reversed = reversed.max(changed_by(1, &mut rng));
        shifted = shifted.max(changed_by(2, &mut rng));
        assert!(changed_by(3, &mut rng) <= 6);
        assert!(changed_by(200, &mut rng) <= 6);
    }
    // a reversal and a shift of a long range move more than six characters
    assert!(reversed > 6 && shifted > 6);
}

#[test]
fn mutate_draws_every_operator() {
    let mut rng = fastrand::Rng::with_seed(11);
    let mut unchanged = false;
    let mut wide = false;
    for _ in 0..400 {
        let mut individual = individual_of("qwertyuiopasdfghjkl;zxcvbnm,./");
        individual.mutate(&mut rng);
        let changed = individual.layout().iter().zip(qwerty()).filter(|(a, b)| **a != *b).count();
        unchanged = unchanged || changed == 0;
        // only a reversal or a shift moves more than six characters
        wide = wide || changed > 6;
    }
    assert!(unchanged && wide);
}

#[test]
fn reverse_mutation_reverses_one_range() {
    let mut rng = fastrand::Rng::with_seed(13);
    for _ in 0..100 {
        let mut individual = individual_of("qwertyuiopasdfghjkl;zxcvbnm,./");
        individual.reverse_mutation(&mut rng);
        let genes = individual.layout();
        let start = (0..30).find(|&i| genes[i] != qwerty()[i]).unwrap_or(0);
        let end = (0..30).rev().find(|&i| genes[i] != qwerty()[i]).map_or(0, |i| i + 1);
        let mut expected = qwerty();
        expected[start..end.max(start)].reverse();
        assert_eq!(genes, expected);
    }
}

#[test]
fn shift_mutation_shifts_one_range() {
    let mut rng = fastrand::Rng::with_seed(17);
    for _ in 0..100 {
        let mut individual = individual_of("qwertyuiopasdfghjkl;zxcvbnm,./");
        individual.shift_mutation(&mut rng);
        let genes = individual.layout();
        let start = (0..30).find(|&i| genes[i] != qwerty()[i]).unwrap_or(0);
        let end = (0..30).rev().find(|&i| genes[i] != qwerty()[i]).map_or(0, |i| i + 1);
        let mut expected = qwerty();
        expected[start..end.max(start)].rotate_left(if end > start { 1 } else { 0 });
        assert_eq!(genes, expected);
    }
}

#[test]
fn random_mutation_changes_at_most_six_slots() {
    let mut rng = fastrand::Rng::with_seed(3);
    for _ in 0..100 {
        let mut individual = individual_of("qwertyuiopasdfghjkl;zxcvbnm,./");
        individual.random_mutation(&mut rng);
        let changed = individual.layout().iter().zip(qwerty()).filter(|(a, b)| **a != *b).count();
        assert!(changed <= 6);
    }
}

fn layout_of(text: &str) -> LogicalLayout {
    LogicalLayout::from_usable_chars(&physical_layout(), text.chars().collect())
}

#[test]
fn cycle_slots_walks_until_the_cycle_closes() {
    let first = layout_of("qwertyuiopasdfghjkl;zxcvbnm,./");
    // the first five slots rotated, the last two exchanged
    let second = layout_of("wertqyuiopasdfghjkl;zxcvbnm,/.");
    assert_eq!(cycle_slots(&first, &second, 0), vec![0, 1, 2, 3, 4]);
    assert_eq!(cycle_slots(&first, &second, 3), vec![3, 4, 0, 1, 2]);
    assert_eq!(cycle_slots(&first, &second, 28), vec![28, 29]);
    assert_eq!(cycle_slots(&first, &second, 29), vec![29, 28]);
    assert_eq!(cycle_slots(&first, &second, 7), vec![7]);
    // seen from the other parent the walk goes the other way round
    assert_eq!(cycle_slots(&second, &first, 0), vec![0, 4, 3, 2, 1]);
}

#[test]
fn cycle_slots_of_one_long_cycle_are_all_slots() {
    let first = layout_of("qwertyuiopasdfghjkl;zxcvbnm,./");
    let second = layout_of("wertyuiopasdfghjkl;zxcvbnm,./q");
    let walk = cycle_slots(&first, &second, 12);
    assert_eq!(walk.len(), 30);
    assert_eq!(&walk[..4], &[12, 13, 14, 15]);
    assert_eq!(&walk[26..], &[8, 9, 10, 11]);
}

#[test]
fn take_slots_copies_the_characters_of_the_slots() {
    let first = layout_of("qwertyuiopasdfghjkl;zxcvbnm,./");
    let second = layout_of("wertqyuiopasdfghjkl;zxcvbnm,/.");
    let mut child = first.clone();
    take_slots(&mut child, &second, &cycle_slots(&first, &second, 2));
    let expected: Vec<char> = "wertqyuiopasdfghjkl;zxcvbnm,./".chars().collect();
    assert_eq!(child.clone().output(), expected);
    assert!(child.check_bijection());
    assert_eq!(child.get_char_index('q'), 4);
    assert_eq!(child.get_char_index('w'), 0);
    assert_eq!(child.get_char_index('/'), 29);
    take_slots(&mut child, &second, &Vec::new());
    assert_eq!(child.clone().output(), expected);
    // a part of a cycle leaves a character in two slots
    take_slots(&mut child, &second, &vec![28]);
    assert_eq!(child.get(28), '/');
    assert_eq!(child.get(29), '/');
    assert!(!child.check_bijection());
}

#[test]
fn cross_in_order_keeps_and_takes_the_cycles_in_turn() {
    let parent1 = individual_of("qwertyuiopasdfghjkl;zxcvbnm,./");
    // the first five slots rotated, the slots 10 and 11 and the last two exchanged
    let parent2 = individual_of("wertqyuiopsadfghjkl;zxcvbnm,/.");
    let child = |starts: Vec<usize>| -> String {
        let child = parent1.cross_in_order(&parent2, &starts);
        assert!(is_permutation_of(&child, &qwerty()));
        assert_eq!(child.score(), 0);
        child.layout().iter().collect()
    };
    assert_eq!(child(vec![]), "qwertyuiopasdfghjkl;zxcvbnm,./");
    // one cycle: kept
    assert_eq!(child(vec![0]), "qwertyuiopasdfghjkl;zxcvbnm,./");
    // the second cycle is taken
    assert_eq!(child(vec![0, 10]), "qwertyuiopsadfghjkl;zxcvbnm,./");
    assert_eq!(child(vec![10, 0]), "wertqyuiopasdfghjkl;zxcvbnm,./");
    // the third is kept again
    assert_eq!(child(vec![28, 3, 11]), "wertqyuiopasdfghjkl;zxcvbnm,./");
    assert_eq!(child(vec![7, 29, 11, 0]), "wertqyuiopasdfghjkl;zxcvbnm,/.");
    // a start slot on a cycle that was walked before is passed over
    assert_eq!(child(vec![0, 3, 4, 29]), "qwertyuiopasdfghjkl;zxcvbnm,/.");
    assert_eq!(child(vec![0, 0, 10, 11, 10, 28]), "qwertyuiopsadfghjkl;zxcvbnm,./");
}

#[test]
fn cyclic_crossover_of_two_cycles_takes_one_of_them() {
    let mut rng = rand::thread_rng();
    let parent1 = individual_of("qwertyuiopasdfghjkl;zxcvbnm,./");
    let parent2 = individual_of("wertqyuiopasdfghjkl;zxcvbnm,/.");
    let usable = vec!['q', 'w', '.', '/'];
    let mut first = false;
    let mut last = false;
    for _ in 0..200 {
        let genes: String = parent1.cyclic_crossover(&parent2, &usable, &mut rng).layout().iter().collect();
        // the usable characters lie on two cycles: one is kept and one is taken
        assert!(
            genes == "wertqyuiopasdfghjkl;zxcvbnm,./" || genes == "qwertyuiopasdfghjkl;zxcvbnm,/."
        );
        first = first || genes.starts_with("wertq");
        last = last || genes.ends_with("/.");
    }
    assert!(first && last);
}

#[test]
fn cyclic_crossover_yields_a_permutation_of_the_alphabet() {
    let mut rng = rand::thread_rng();
    let parent1 = individual_of("qwertyuiopasdfghjkl;zxcvbnm,./");
    let parent2 = individual_of("qlu;.fwrypeiao,ktnshzxcv/gdmjb");
    let first = parent1.layout();
    let second = parent2.layout();
    for _ in 0..200 {
        let child = parent1.cyclic_crossover(&parent2, &qwerty(), &mut rng);
        assert!(is_permutation_of(&child, &qwerty()));
        let genes = child.layout();
        for i in 0..30 {
            assert!(genes[i] == first[i] || genes[i] == second[i]);
        }
        assert_eq!(child.score(), 0);
    }
}

#[test]
fn cyclic_crossover_takes_from_both_parents() {
    let mut rng = rand::thread_rng();
    let parent1 = individual_of("qwertyuiopasdfghjkl;zxcvbnm,./");
    // two cycles: the first five slots rotated, the last two exchanged
    let parent2 = individual_of("wertqyuiopasdfghjkl;zxcvbnm,/.");
    let mut kept_first = false;
    let mut took_first = false;
    for _ in 0..200 {
        let genes = parent1.cyclic_crossover(&parent2, &qwerty(), &mut rng).layout();
        let head: String = genes[..5].iter().collect();
        let tail: String = genes[28..].iter().collect();
        assert!(head == "qwert" || head == "wertq");
        assert!(tail == "./" || tail == "/.");
        kept_first = kept_first || head == "qwert";
        took_first = took_first || head == "wertq";
    }
    assert!(kept_first && took_first);
}

#[test]
fn cyclic_crossover_of_equal_parents_is_the_parent() {
    let mut rng = rand::thread_rng();
    let parent1 = individual_of("qwertyuiopasdfghjkl;zxcvbnm,./");
    let parent2 = parent1.clone();
    let child = parent1.cyclic_crossover(&parent2, &qwerty(), &mut rng);
    assert_eq!(child.layout(), qwerty());
}

#[test]
fn cyclic_crossover_without_usable_characters_copies_the_first_parent() {
    let mut rng = rand::thread_rng();
    let parent1 = individual_of("qwertyuiopasdfghjkl;zxcvbnm,./");
    let parent2 = individual_of("qlu;.fwrypeiao,ktnshzxcv/gdmjb");
    let child = parent1.cyclic_crossover(&parent2, &Vec::new(), &mut rng);
    assert_eq!(child.layout(), qwerty());
}

#[test]
fn cyclic_crossover_walks_through_placeholders() {
    let mut rng = rand::thread_rng();
    let usable = vec!['a', 'b', 'c'];
    let parent1 = Individual::new(LogicalLayout::from_usable_chars(&physical_layout(), usable.clone()));
    let alphabet = parent1.layout();
    let mut parent2 = parent1.clone();
    parent2.reverse_range(0, 30);
    parent2.shift_range(2, 17);
    for _ in 0..100 {
        let child = parent1.cyclic_crossover(&parent2, &usable, &mut rng);
        assert!(is_permutation_of(&child, &alphabet));
        assert_eq!(child.logical_layout().char_nums(), 3);
    }
}

#[test]
fn cyclic_crossover_takes_layouts_whose_characters_were_set() {
    let mut rng = rand::thread_rng();
    let mut first =
        LogicalLayout::from_usable_chars(&physical_layout(), "qwertyuiopasdfghjkl;zxcvbnm,./".chars().collect());
    let mut second =
        LogicalLayout::from_usable_chars(&physical_layout(), "qlu;.fwrypeiao,ktnshzxcv/gdmjb".chars().collect());
    // the index of each layout still holds the slot where `/` was
    first.set(29, 'é');
    second.set(24, 'é');
    let alphabet: Vec<char> = "qwertyuiopasdfghjkl;zxcvbnm,.é".chars().collect();
    let parent1 = Individual::new(first);
    let parent2 = Individual::new(second);
    for _ in 0..100 {
        let child = parent1.cyclic_crossover(&parent2, &alphabet, &mut rng);
        assert!(is_permutation_of(&child, &alphabet));
    }
}

#[test]
fn genetic_new_wants_three_individuals() {
    assert!(Genetic::new(0, 1).is_err());
    assert_eq!(Genetic::new(2, 4).err(), Some("population_size must be greater than 2"));
    let genetic = Genetic::new(3, 4).unwrap();
    assert_eq!(genetic.population_size(), 3);
    assert_eq!(genetic.island_size(), 4);
}

#[test]
fn elite_num_is_two_for_an_even_population() {
    assert_eq!(Genetic::new(3, 1).unwrap().elite_num(), 1);
    assert_eq!(Genetic::new(4, 1).unwrap().elite_num(), 2);
    assert_eq!(Genetic::new(31, 1).unwrap().elite_num(), 1);
    assert_eq!(Genetic::new(32, 32).unwrap().elite_num(), 2);
}

#[test]
fn seed_pads_the_usable_characters() {
    let seed = Genetic::seed(&physical_layout(), &vec!['a', 'b', 'c']);
    let layout = seed.layout();
    assert_eq!(layout.len(), 30);
    assert_eq!(&layout[..4], &['a', 'b', 'c', ' ']);
    assert_eq!(seed.score(), 0);
}

#[test]
fn populate_without_shuffle_copies_the_seed() {
    let genetic = Genetic::new(5, 3).unwrap();
    let seed = Genetic::seed(&physical_layout(), &qwerty());
    let islands = genetic.populate(&physical_layout(), &seed, false);
    assert_eq!(islands.len(), 3);
    for island in &islands {
        assert_eq!(island.len(), 5);
        for individual in island {
            assert_eq!(individual.layout(), qwerty());
            assert_eq!(individual.score(), 0);
        }
    }
}

#[test]
fn populate_with_shuffle_gives_rearrangements_of_the_seed() {
    let genetic = Genetic::new(8, 2).unwrap();
    let seed = Genetic::seed(&physical_layout(), &vec!['a', 'b', 'c']);
    let alphabet = seed.layout();
    let islands = genetic.populate(&physical_layout(), &seed, true);
    assert_eq!(islands.len(), 2);
    let mut rearranged = false;
    for island in &islands {
        assert_eq!(island.len(), 8);
        for individual in island {
            assert!(is_permutation_of(individual, &alphabet));
            rearranged = rearranged || individual.layout() != alphabet;
        }
    }
    assert!(rearranged);
}

#[test]
fn populate_without_islands_is_empty() {
    let genetic = Genetic::new(3, 0).unwrap();
    let seed = Genetic::seed(&physical_layout(), &qwerty());
    assert!(genetic.populate(&physical_layout(), &seed, true).is_empty());
}

#[test]
fn breed_of_one_parent_twice_is_a_copy() {
    let mut rng = rand::thread_rng();
    let mut rng_fast = fastrand::Rng::with_seed(1);
    let population = vec![
        scored("qwertyuiopasdfghjkl;zxcvbnm,./", 5),
        scored("qlu;.fwrypeiao,ktnshzxcv/gdmjb", 9),
    ];
    let child = Genetic::breed(&population, 1, 1, &qwerty(), &mut rng, &mut rng_fast);
    assert_eq!(child.layout(), population[1].layout());
    assert_eq!(child.score(), 9);
}

#[test]
fn breed_of_two_parents_is_a_permutation() {
    let mut rng = rand::thread_rng();
    let mut rng_fast = fastrand::Rng::with_seed(1);
    let population = vec![
        scored("qwertyuiopasdfghjkl;zxcvbnm,./", 5),
        scored("qlu;.fwrypeiao,ktnshzxcv/gdmjb", 9),
    ];
    for _ in 0..100 {
        let child = Genetic::breed(&population, 0, 1, &qwerty(), &mut rng, &mut rng_fast);
        assert!(is_permutation_of(&child, &qwerty()));
        assert_eq!(child.score(), 0);
    }
}

#[test]
fn breed_children_fills_the_places_that_the_elite_leave() {
    let genetic = Genetic::new(7, 1).unwrap();
    let seed = Genetic::seed(&physical_layout(), &qwerty());
    let mut islands = genetic.populate(&physical_layout(), &seed, true);
    let mut population = islands.pop().unwrap();
    Genetic::evaluate_population(&mut population, &toy_cost);
    for individual in &population {
        assert_eq!(individual.score(), toy_cost(individual.logical_layout()));
    }
    let select = |population: &Vec<Individual>| (0usize, population.len() - 1);
    let mut rng = rand::thread_rng();
    let mut rng_fast = fastrand::Rng::with_seed(2);
    let children =
        genetic.breed_children(&population, &qwerty(), &toy_cost, &select, &mut rng, &mut rng_fast);
    assert_eq!(children.len(), 6);
    for child in &children {
        assert!(is_permutation_of(child, &qwerty()));
        assert_eq!(child.score(), toy_cost(child.logical_layout()));
    }
}

#[test]
fn sort_population_orders_by_rising_score() {
    let mut population = vec![
        scored("abc", 9),
        scored("bca", 2),
        scored("cab", 7),
        scored("acb", 2),
        scored("bac", 0),
    ];
    sort_population(&mut population);
    assert_eq!(scores(&population), vec![0, 2, 2, 7, 9]);
    let mut none: Vec<Individual> = Vec::new();
    sort_population(&mut none);
    assert!(none.is_empty());
    let mut one = vec![scored("abc", 4)];
    sort_population(&mut one);
    assert_eq!(scores(&one), vec![4]);
}

#[test]
fn sort_population_keeps_the_order_of_equal_scores() {
    let mut population = vec![
        scored("abc", 5),
        scored("bca", 2),
        scored("cab", 5),
        scored("acb", 2),
        scored("bac", 5),
        scored("cba", 1),
    ];
    sort_population(&mut population);
    assert_eq!(scores(&population), vec![1, 2, 2, 5, 5, 5]);
    let heads: Vec<String> =
        population.iter().map(|individual| individual.layout()[..3].iter().collect()).collect();
    assert_eq!(heads, vec!["cba", "bca", "acb", "abc", "cab", "bac"]);
}

#[test]
fn advance_keeps_the_elite_and_orders_the_rest() {
    let genetic = Genetic::new(4, 1).unwrap();
    let mut population = vec![scored("abc", 3), scored("bca", 5), scored("cab", 1), scored("acb", 8)];
    let children = vec![scored("bac", 9), scored("cba", 4)];
    genetic.advance(&mut population, children);
    // the elite are the two with the lowest scores, wherever they stood
    assert_eq!(scores(&population), vec![1, 3, 4, 9]);
    assert_eq!(&population[0].layout()[..3], &['c', 'a', 'b']);
    assert_eq!(&population[1].layout()[..3], &['a', 'b', 'c']);
    assert_eq!(&population[2].layout()[..3], &['c', 'b', 'a']);
}

#[test]
fn advance_of_an_odd_population_keeps_one() {
    let genetic = Genetic::new(3, 1).unwrap();
    let mut population = vec![scored("abc", 6), scored("bca", 2), scored("cab", 1)];
    let children = vec![scored("bac", 7), scored("cba", 3)];
    genetic.advance(&mut population, children);
    assert_eq!(scores(&population), vec![1, 3, 7]);
}

#[test]
fn best_score_of_an_island_never_rises() {
    let genetic = Genetic::new(6, 1).unwrap();
    let seed = Genetic::seed(&physical_layout(), &qwerty());
    let mut islands = genetic.populate(&physical_layout(), &seed, true);
    let mut population = islands.pop().unwrap();
    Genetic::evaluate_population(&mut population, &toy_cost);
    sort_population(&mut population);
    let select = |population: &Vec<Individual>| {
        (fastrand::usize(0..population.len()), fastrand::usize(0..population.len()))
    };
    let mut rng = rand::thread_rng();
    let mut rng_fast = fastrand::Rng::with_seed(5);
    let mut best = population[0].score();
    for _ in 0..50 {
        genetic.evolve_island(&mut population, &qwerty(), &toy_cost, &select, &mut rng, &mut rng_fast);
        assert_eq!(population.len(), 6);
        assert!(population[0].score() <= best);
        best = population[0].score();
        for pair in population.windows(2) {
            assert!(pair[0].score() <= pair[1].score());
        }
        for individual in &population {
            assert!(is_permutation_of(individual, &qwerty()));
            assert_eq!(individual.score(), toy_cost(individual.logical_layout()));
        }
    }
}

#[test]
fn migrate_sends_the_best_to_the_next_island() {
    let genetic = Genetic::new(3, 3).unwrap();
    let mut islands = vec![
        vec![scored("abc", 10), scored("abd", 11), scored("abe", 12)],
        vec![scored("bca", 20), scored("bcd", 21), scored("bce", 22)],
        vec![scored("cab", 30), scored("cad", 31), scored("cae", 32)],
    ];
    genetic.migrate(&mut islands);
    assert_eq!(scores(&islands[0]), vec![10, 11, 30]);
    assert_eq!(scores(&islands[1]), vec![20, 21, 10]);
    assert_eq!(scores(&islands[2]), vec![30, 31, 20]);
    assert_eq!(&islands[0][2].layout()[..3], &['c', 'a', 'b']);
    assert_eq!(&islands[1][2].layout()[..3], &['a', 'b', 'c']);
    assert_eq!(&islands[2][2].layout()[..3], &['b', 'c', 'a']);
}

#[test]
fn migrate_on_one_island_copies_its_best_to_its_end() {
    let genetic = Genetic::new(3, 1).unwrap();
    let mut islands = vec![vec![scored("abc", 10), scored("abd", 11), scored("abe", 12)]];
    genetic.migrate(&mut islands);
    assert_eq!(scores(&islands[0]), vec![10, 11, 10]);
    let mut none: Vec<Vec<Individual>> = Vec::new();
    genetic.migrate(&mut none);
    assert!(none.is_empty());
}

#[test]
fn best_island_is_the_first_with_the_lowest_score() {
    let islands = vec![
        vec![scored("abc", 10), scored("abd", 1)],
        vec![scored("bca", 4), scored("bcd", 21)],
        vec![scored("cab", 4), scored("cad", 31)],
    ];
    assert_eq!(Genetic::best_island(&islands), Some(1));
    assert_eq!(Genetic::best_island(&Vec::new()), None);
}

#[test]
fn update_best_takes_a_strictly_better_individual_only() {
    let islands = vec![
        vec![scored("abc", 10), scored("abd", 1)],
        vec![scored("bca", 4), scored("bcd", 21)],
        vec![scored("cab", 4), scored("cad", 31)],
    ];
    let mut best = scored("xyz", 4);
    Genetic::update_best(&islands, &mut best);
    assert_eq!(best.score(), 4);
    assert_eq!(&best.layout()[..3], &['x', 'y', 'z']);
    let mut best = scored("xyz", 5);
    Genetic::update_best(&islands, &mut best);
    assert_eq!(best.score(), 4);
    assert_eq!(&best.layout()[..3], &['b', 'c', 'a']);
    let mut best = scored("xyz", 5);
    Genetic::update_best(&Vec::new(), &mut best);
    assert_eq!(best.score(), 5);
}

#[test]
fn optimize_returns_an_evaluated_permutation() {
    let genetic = Genetic::new(8, 3).unwrap();
    let select = |population: &Vec<Individual>| {
        (fastrand::usize(0..population.len()), fastrand::usize(0..population.len()))
    };
    let mut rng = rand::thread_rng();
    let mut rng_fast = fastrand::Rng::with_seed(9);
    let best = genetic.optimize(
        &physical_layout(),
        &qwerty(),
        &toy_cost,
        &select,
        30,
        true,
        &mut rng,
        &mut rng_fast,
    );
    assert!(is_permutation_of(&best, &qwerty()));
    assert_eq!(best.score(), toy_cost(best.logical_layout()));
    // the seed has `q` in slot 0 and `z` in slot 20
    assert!(best.score() <= 20);
}

#[test]
fn optimize_without_iterations_returns_the_seed() {
    let genetic = Genetic::new(3, 2).unwrap();
    let select = |_: &Vec<Individual>| (0usize, 0usize);
    let mut rng = rand::thread_rng();
    let mut rng_fast = fastrand::Rng::with_seed(9);
    let best = genetic.optimize(
        &physical_layout(),
        &vec!['z', 'q'],
        &toy_cost,
        &select,
        0,
        true,
        &mut rng,
        &mut rng_fast,
    );
    assert_eq!(&best.layout()[..3], &['z', 'q', ' ']);
    assert_eq!(best.score(), 31);
}
