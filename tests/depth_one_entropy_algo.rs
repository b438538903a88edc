use bullsncows::algos::algos_utils::generate_default_init_values_for_numbers;
use bullsncows::algos::depth_one_entropy_algo::DepthOneEntropyAlgo;

fn codes(v: &[&str]) -> Vec<String> {
    v.iter().map(|s| s.to_string()).collect()
}

#[test]
#[allow(non_snake_case)]
fn test_DepthOneEntropyAlgo_new() {
    let numbers = generate_default_init_values_for_numbers();
    let doea = DepthOneEntropyAlgo::new(numbers);
    assert_eq!(doea.as_ref().is_some(), true);
    assert!(doea.as_ref().unwrap().get_numbers().len() > 0);
    assert!(doea.as_ref().unwrap().get_possible_feedbacks().len() > 0);
    assert_eq!(doea.as_ref().unwrap().get_past_guesses().len(), 0);
    assert_eq!(doea.as_ref().unwrap().is_last_guess_updated(), true);
    assert_eq!(doea.as_ref().unwrap().get_ndigits(), 4);
    let numbers = generate_default_init_values_for_numbers();
    assert_eq!(*doea.as_ref().unwrap().get_numbers(), numbers);
}

#[test]
#[allow(non_snake_case)]
fn test_DepthOneEntropyAlgo_get_numbers_count() {
    let numbers = generate_default_init_values_for_numbers();
    let doea = DepthOneEntropyAlgo::new(numbers).unwrap();
    assert_eq!(doea.get_numbers_count(), 5040);
    let numbers = vec![String::from("1234"), String::from("5678")];
    let doea = DepthOneEntropyAlgo::new(numbers).unwrap();
    assert_eq!(doea.get_numbers_count(), 2);
}

#[test]
#[allow(non_snake_case)]
fn test_basic_DepthOneEntropyAlgo_guess0() {
    let numbers = generate_default_init_values_for_numbers();
    let mut doea = DepthOneEntropyAlgo::new(numbers).unwrap();
    let guess = doea.guess();
    assert_eq!(guess.as_ref().is_some(), true);
    assert_eq!(doea.get_numbers().len(), 5039);
    assert_eq!(doea.get_past_guesses().len(), 1);
    assert_eq!(doea.is_last_guess_updated(), false);
    assert_eq!(doea.get_past_guesses()[0].0, *guess.as_ref().unwrap());
    assert_eq!(doea.get_past_guesses()[0].1, (usize::MAX, usize::MAX));

    let guess = doea.guess();
    assert_eq!(guess.as_ref().is_some(), false);
}

#[test]
#[allow(non_snake_case)]
fn test_basic_DepthOneEntropyAlgo_guess1() {
    let numbers = vec![String::from("1234"), String::from("5678")];
    let mut doea = DepthOneEntropyAlgo::new(numbers).unwrap();
    let guess = doea.guess();
    assert_eq!(guess.as_ref().is_some(), true);
    assert_eq!(doea.get_numbers().len(), 1);
    assert_eq!(doea.get_past_guesses().len(), 1);
    assert_eq!(doea.is_last_guess_updated(), false);
    assert_eq!(doea.get_past_guesses()[0].0, *guess.as_ref().unwrap());
    assert_eq!(doea.get_past_guesses()[0].1, (usize::MAX, usize::MAX));

    let numbers = vec![
        String::from("1234"),
        String::from("1256"),
        String::from("7325"),
        String::from("2091"),
        String::from("9012"),
        String::from("1324"),
        String::from("7891"),
    ];
    let mut doea = DepthOneEntropyAlgo::new(numbers).unwrap();
    let guess = doea.guess();
    assert_eq!(
        vec![String::from("1234"), String::from("1256"), String::from("1324")]
            .contains(guess.as_ref().unwrap()),
        true
    );
    assert_eq!(guess.as_ref().unwrap(), &String::from("1324"));
}

#[test]
#[allow(non_snake_case)]
fn test_basic_DepthOneEntropyAlgo_guess2() {
    let numbers = vec![
        String::from("1234"),
        String::from("1256"),
        String::from("7325"),
        String::from("2091"),
        String::from("9012"),
        String::from("1324"),
        String::from("7891"),
    ];
    let mut doea = DepthOneEntropyAlgo::new(numbers).unwrap();
    let guess = doea.guess();
    assert_eq!(
        vec![String::from("1234"), String::from("1256"), String::from("1324")]
            .contains(guess.as_ref().unwrap()),
        true
    );
    assert_eq!(guess.as_ref().unwrap(), &String::from("1324"));
}

#[test]
fn entropy_ties_go_to_the_first_candidate() {
    // both candidates score zero: the first one is guessed
    let mut doea = DepthOneEntropyAlgo::new(codes(&["1234", "5678"])).unwrap();
    assert_eq!(doea.guess(), Some(String::from("1234")));
    assert_eq!(*doea.get_numbers(), codes(&["5678"]));
    assert_eq!(doea.guess(), None);
}

#[test]
fn entropy_sole_candidate_is_guessed() {
    let mut doea = DepthOneEntropyAlgo::new(codes(&["4567"])).unwrap();
    assert_eq!(doea.guess(), Some(String::from("4567")));
    assert_eq!(doea.incorporate_guess_feedback(4, 0), Some(true));
    assert_eq!(doea.get_numbers_count(), 0);
    assert_eq!(doea.guess(), None);
}

#[test]
fn entropy_new_refuses_empty_universe() {
    assert!(DepthOneEntropyAlgo::new(Vec::new()).is_none());
}

#[test]
fn entropy_feedback_rules() {
    let mut doea = DepthOneEntropyAlgo::new(codes(&["1234", "1243", "5678"])).unwrap();
    assert_eq!(doea.incorporate_guess_feedback(5, 0), None);
    assert_eq!(doea.incorporate_guess_feedback(0, 0), Some(false));
    let g = doea.guess().unwrap();
    assert_eq!(doea.incorporate_guess_feedback(5, 0), None);
    assert_eq!(doea.incorporate_guess_feedback(usize::MAX, 1), None);
    assert!(!doea.is_last_guess_updated());
    assert_eq!(doea.incorporate_guess_feedback(2, 2), Some(true));
    assert_eq!(doea.get_past_guesses()[0], (g, (2, 2)));
    assert!(doea.is_last_guess_updated());
}

#[test]
fn entropy_feedback_space_for_four_digits() {
    let doea = DepthOneEntropyAlgo::new(codes(&["1234"])).unwrap();
    assert_eq!(doea.get_possible_feedbacks().len(), 14);
}
