use bullsncows::algos::algos_utils::generate_default_init_values_for_numbers;
use bullsncows::algos::baseline_algo::BaselineAlgo;

fn codes(v: &[&str]) -> Vec<String> {
    v.iter().map(|s| s.to_string()).collect()
}

#[test]
fn test_baseline_algo_new() {
    let numbers = generate_default_init_values_for_numbers();
    let ba = BaselineAlgo::new(numbers);
    assert_eq!(ba.as_ref().is_some(), true);
    assert!(ba.as_ref().unwrap().get_numbers().len() > 0);
    assert_eq!(ba.as_ref().unwrap().get_past_guesses().len(), 0);
    assert_eq!(ba.as_ref().unwrap().is_last_guess_updated(), true);
    assert_eq!(ba.as_ref().unwrap().get_ndigits(), 4);
    let numbers = generate_default_init_values_for_numbers();
    assert_eq!(*ba.as_ref().unwrap().get_numbers(), numbers);
}

#[test]
fn test_baseline_algo_get_numbers_count() {
    let numbers = generate_default_init_values_for_numbers();
    let ba = BaselineAlgo::new(numbers).unwrap();
    assert_eq!(ba.get_numbers_count(), 5040);
    let numbers = vec![String::from("1234"), String::from("5678")];
    let ba = BaselineAlgo::new(numbers).unwrap();
    assert_eq!(ba.get_numbers_count(), 2);
}

#[test]
fn test_basic_baseline_algo_guess() {
    let numbers = generate_default_init_values_for_numbers();
    let mut ba = BaselineAlgo::new(numbers).unwrap();
    let guess = ba.guess();
    assert_eq!(guess.as_ref().is_some(), true);
    assert_eq!(ba.get_numbers().len(), 5039);
    assert_eq!(ba.get_past_guesses().len(), 1);
    assert_eq!(ba.is_last_guess_updated(), false);
    assert_eq!(ba.get_past_guesses()[0].0, *guess.as_ref().unwrap());
    assert_eq!(ba.get_past_guesses()[0].1, (usize::MAX, usize::MAX));

    let guess = ba.guess();
    assert_eq!(guess.as_ref().is_some(), false);

    let numbers = vec![String::from("1234"), String::from("5678")];
    let mut ba = BaselineAlgo::new(numbers).unwrap();
    let guess = ba.guess();
    assert_eq!(guess.as_ref().is_some(), true);
    assert_eq!(ba.get_numbers().len(), 1);
    assert_eq!(ba.get_past_guesses().len(), 1);
    assert_eq!(ba.is_last_guess_updated(), false);
    assert_eq!(ba.get_past_guesses()[0].0, *guess.as_ref().unwrap());
    assert_eq!(ba.get_past_guesses()[0].1, (usize::MAX, usize::MAX));
}

#[test]
fn test_basic_baseline_algo_incorporate_guess_feedback() {
    let numbers = generate_default_init_values_for_numbers();
    let mut ba = BaselineAlgo::new(numbers).unwrap();
    let guess = ba.guess().unwrap();
    let res = ba.incorporate_guess_feedback(4, 0);
    assert_eq!(res.as_ref().is_some(), true);
    assert_eq!(res.unwrap(), true);
    assert_eq!(ba.get_numbers_count(), 0);
    assert_eq!(ba.get_past_guesses().len(), 1);
    assert_eq!(ba.is_last_guess_updated(), true);
    assert_eq!(ba.get_past_guesses()[0].0, guess);
    assert_eq!(ba.get_past_guesses()[0].1, (4, 0));

    let numbers = generate_default_init_values_for_numbers();
    let mut ba = BaselineAlgo::new(numbers).unwrap();
    let _guess = ba.guess().unwrap();
    let res = ba.incorporate_guess_feedback(5, 0);
    assert_eq!(res.as_ref().is_some(), false);
}

#[test]
fn baseline_new_refuses_empty_universe() {
    assert!(BaselineAlgo::new(Vec::new()).is_none());
}

#[test]
fn baseline_two_code_scenario() {
    let universe = codes(&["1234", "5678"]);
    let mut ba = BaselineAlgo::new(universe.clone()).unwrap();
    let g = ba.guess().unwrap();
    assert!(universe.contains(&g));
    assert_eq!(ba.get_numbers_count(), 1);
    assert!(!ba.get_numbers().contains(&g));
    assert!(!ba.is_last_guess_updated());
    assert_eq!(ba.guess(), None);
    assert_eq!(ba.get_numbers_count(), 1);
}

#[test]
fn baseline_guess_at_is_deterministic() {
    let mut ba = BaselineAlgo::new(codes(&["1234", "5678", "9012"])).unwrap();
    assert_eq!(ba.guess_at(3), None);
    assert_eq!(ba.guess_at(1), Some(String::from("5678")));
    assert_eq!(*ba.get_numbers(), codes(&["1234", "9012"]));
    assert_eq!(ba.guess_at(0), None);
    assert_eq!(ba.incorporate_guess_feedback(0, 0), Some(true));
    assert_eq!(*ba.get_numbers(), codes(&["1234", "9012"]));
    assert_eq!(ba.get_past_guesses()[0], (String::from("5678"), (0, 0)));
}

#[test]
fn baseline_feedback_without_pending_guess() {
    let mut ba = BaselineAlgo::new(codes(&["1234", "5678"])).unwrap();
    assert_eq!(ba.incorporate_guess_feedback(1, 1), Some(false));
    assert_eq!(ba.get_numbers_count(), 2);
    assert_eq!(ba.incorporate_guess_feedback(5, 0), None);
    assert_eq!(ba.incorporate_guess_feedback(2, 3), None);
    assert_eq!(ba.get_past_guesses().len(), 0);
}

#[test]
fn baseline_exhaustion_scenario() {
    let mut ba = BaselineAlgo::new(codes(&["1234"])).unwrap();
    assert_eq!(ba.guess(), Some(String::from("1234")));
    assert_eq!(ba.incorporate_guess_feedback(4, 0), Some(true));
    assert_eq!(ba.get_numbers_count(), 0);
    assert_eq!(ba.guess(), None);
}

#[test]
fn baseline_pool_shrinks_over_each_round() {
    let mut ba = BaselineAlgo::new(generate_default_init_values_for_numbers()).unwrap();
    let before = ba.get_numbers_count();
    let g = ba.guess().unwrap();
    assert_eq!(ba.get_numbers_count(), before - 1);
    let fb = if g == "1234" { (0, 0) } else { (1, 1) };
    assert_eq!(ba.incorporate_guess_feedback(fb.0, fb.1), Some(true));
    assert!(ba.get_numbers_count() <= before);
    assert!(ba.get_numbers_count() > 0);
}
