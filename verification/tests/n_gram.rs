use keyboard_layout_optimizer::n_gram::{generate_n_grams, LogicalNGram, PhysicalNGram};

#[test]
fn test_generate_n_grams() {
    let text = "abcde";

    // 1-gram
    let mono_grams = generate_n_grams(text, 1);
    assert_eq!(mono_grams.len(), 5);
    assert_eq!(mono_grams, vec!["a", "b", "c", "d", "e"]);

    // 2-gram
    let two_grams = generate_n_grams(text, 2);
    assert_eq!(two_grams.len(), 4);
    assert_eq!(two_grams, vec!["ab", "bc", "cd", "de"]);
}

#[test]
fn generate_n_grams_of_a_repeating_text() {
    assert_eq!(generate_n_grams("abcabc", 3), vec!["abc", "bca", "cab", "abc"]);
}

#[test]
fn generate_n_grams_of_a_text_as_long_as_the_run() {
    assert_eq!(generate_n_grams("abc", 3), vec!["abc"]);
}

#[test]
fn generate_n_grams_of_a_short_text_is_empty() {
    assert!(generate_n_grams("ab", 3).is_empty());
    assert!(generate_n_grams("", 1).is_empty());
}

#[test]
fn generate_n_grams_takes_a_wide_character_that_fills_a_run() {
    assert_eq!(generate_n_grams("é", 2), vec!["é"]);
}

#[test]
fn physical_n_gram_get_and_set() {
    let mut n_gram = PhysicalNGram::new([3, 14, 15]);
    assert_eq!(n_gram.get(0), 3);
    assert_eq!(n_gram.get(1), 14);
    assert_eq!(n_gram.get(2), 15);
    n_gram.set(1, 29);
    assert_eq!(n_gram.get(1), 29);
    assert_eq!(n_gram.get(0), 3);
    assert_eq!(n_gram, PhysicalNGram::new([3, 29, 15]));
    assert_ne!(n_gram, PhysicalNGram::new([3, 14, 15]));
}

#[test]
fn logical_n_gram_get_and_set() {
    let mut n_gram = LogicalNGram::new(['a', 'b', 'c']);
    assert_eq!(n_gram.get(0), 'a');
    assert_eq!(n_gram.get(2), 'c');
    n_gram.set(2, 'z');
    assert_eq!(n_gram.get(2), 'z');
    assert_eq!(n_gram, LogicalNGram::new(['a', 'b', 'z']));
    let single = LogicalNGram::new(['q']);
    assert_eq!(single.get(0), 'q');
}
