use bullsncows::baseline_algo::{generate_default_init_values_for_numbers, BaselineAlgo};
use bullsncows::game::Game;

fn codes(v: &[&str]) -> Vec<String> {
    v.iter().map(|s| s.to_string()).collect()
}

#[test]
fn legacy_baseline_guess_comes_from_the_numbers() {
    let numbers = codes(&["1234", "5678", "9012"]);
    let mut b = BaselineAlgo::new(numbers.clone());
    let g = b.guess();
    assert!(numbers.contains(&g));
    assert_eq!(*b.get_numbers(), numbers);
    assert!(b.get_past_guesses().is_empty());
}

#[test]
fn legacy_baseline_prunes_with_the_log() {
    let mut b = BaselineAlgo::new(codes(&["1234", "1243", "5678", "1256", "4321"]));
    b.add_guess(String::from("1234"), 2, 2);
    assert_eq!(b.get_past_guesses().len(), 1);
    assert_eq!(b.get_past_guesses()[0], (String::from("1234"), (2, 2)));
    // the guess itself goes; too few bulls or shared digits go too
    assert_eq!(b.find_valid_numbers(), codes(&["1243"]));
    assert_eq!(b.get_numbers().len(), 5);
    b.update_numbers();
    assert_eq!(*b.get_numbers(), codes(&["1243"]));
}

#[test]
fn legacy_baseline_keeps_numbers_with_more_matches() {
    let mut b = BaselineAlgo::new(codes(&["1234", "1235", "5678"]));
    b.add_guess(String::from("1239"), 1, 0);
    assert_eq!(b.find_valid_numbers(), codes(&["1234", "1235"]));
}

#[test]
fn legacy_universe_matches_the_default_one() {
    let u = generate_default_init_values_for_numbers();
    assert_eq!(u.len(), 5040);
    assert_eq!(u, bullsncows::algos::algos_utils::generate_default_init_values_for_numbers());
}

#[test]
fn game_secret_has_distinct_digits() {
    let g = Game::new(4);
    let a = g.get_answer().to_string();
    assert_eq!(a.len(), 4);
    assert_eq!(g.get_answer_length(), 4);
    assert!(a.chars().all(|c| c.is_ascii_digit()));
    let mut seen = std::collections::HashSet::new();
    for c in a.chars() {
        assert!(seen.insert(c));
    }
    assert_eq!(g.get_guess_count(), 0);
    assert_eq!(Game::new(12).get_answer_length(), 10);
    assert_eq!(Game::new(0).get_answer_length(), 0);
}

#[test]
fn game_scores_and_counts_guesses() {
    let mut g = Game::new(4);
    let a = g.get_answer().to_string();
    assert_eq!(g.make_guess(&a), Some((4, 0)));
    assert_eq!(g.get_guess_count(), 1);
    let rev: String = a.chars().rev().collect();
    assert_eq!(g.make_guess(&rev), Some((0, 4)));
    assert_eq!(g.get_guess_count(), 2);
}

#[test]
fn game_refuses_malformed_guesses() {
    let mut g = Game::new(4);
    assert_eq!(g.make_guess("123"), None);
    assert_eq!(g.make_guess("12345"), None);
    assert_eq!(g.make_guess("12-4"), None);
    assert_eq!(g.make_guess("12 4"), None);
    assert_eq!(g.get_guess_count(), 0);
    assert!(g.make_guess("abcd").is_some());
    assert_eq!(g.get_guess_count(), 1);
}
