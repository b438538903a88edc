use bullsncows::algos::algos_utils::{
    filter_candidates, generate_default_init_values_for_numbers, generate_possible_feedbacks,
    generate_universe, get_bulls_and_cows, remove_code,
};
use bullsncows::algos::fixed_log::log2_fixed;

#[test]
fn test_get_bulls_and_cows() {
    assert_eq!(get_bulls_and_cows(String::from("1234"), String::from("1234")), Some((4, 0)));
    assert_eq!(get_bulls_and_cows(String::from("1234"), String::from("4321")), Some((0, 4)));
    assert_eq!(get_bulls_and_cows(String::from("1234"), String::from("5678")), Some((0, 0)));
    assert_eq!(get_bulls_and_cows(String::from("1234"), String::from("1235")), Some((3, 0)));
    assert_eq!(get_bulls_and_cows(String::from("1234"), String::from("1256")), Some((2, 0)));
    assert_eq!(get_bulls_and_cows(String::from("1234"), String::from("1243")), Some((2, 2)));
}

#[test]
fn test_generate_default_init_values_for_numbers_output() {
    let numbers = generate_default_init_values_for_numbers();
    assert_eq!(numbers.len(), 5040);
    let numbers = generate_default_init_values_for_numbers();
    for number in numbers {
        let mut digits = std::collections::HashSet::new();
        for digit in number.chars() {
            digits.insert(digit);
        }
        assert_eq!(digits.len(), 4);
    }
}

#[test]
fn test_generate_possible_feedbacks() {
    let possible_feedbacks = generate_possible_feedbacks(1);
    assert_eq!(possible_feedbacks.len(), 1);
    let possible_feedbacks = generate_possible_feedbacks(4);
    assert_eq!(possible_feedbacks.len(), 14);
    let possible_feedbacks = generate_possible_feedbacks(5);
    assert_eq!(possible_feedbacks.len(), 6 * 7 / 2 - 1);
}

#[test]
fn score_length_mismatch_is_refused() {
    assert_eq!(get_bulls_and_cows(String::from("123"), String::from("1234")), None);
    assert_eq!(get_bulls_and_cows(String::from(""), String::from("")), Some((0, 0)));
}

#[test]
fn score_with_repeated_digits_uses_presence() {
    // every digit of the guess found in the code counts, repeats included
    assert_eq!(get_bulls_and_cows(String::from("1122"), String::from("1234")), Some((1, 3)));
    assert_eq!(get_bulls_and_cows(String::from("1234"), String::from("1122")), Some((1, 1)));
}

#[test]
fn feedback_space_exact_lists() {
    assert_eq!(generate_possible_feedbacks(1), vec![(1, 0)]);
    assert_eq!(
        generate_possible_feedbacks(2),
        vec![(0, 0), (0, 1), (0, 2), (1, 0), (2, 0)]
    );
    let four = generate_possible_feedbacks(4);
    assert!(!four.contains(&(3, 1)));
    assert!(four.contains(&(0, 4)));
    assert!(four.contains(&(2, 2)));
    assert!(four.contains(&(4, 0)));
    for w in four.windows(2) {
        assert!(w[0] < w[1]);
    }
}

#[test]
fn universe_is_ascending_with_distinct_digits() {
    let u = generate_universe(4);
    assert_eq!(u.len(), 5040);
    assert_eq!(u[0], "0123");
    assert_eq!(u[1], "0124");
    assert_eq!(u[5039], "9876");
    for w in u.windows(2) {
        assert!(w[0].parse::<u32>().unwrap() < w[1].parse::<u32>().unwrap());
    }
    assert_eq!(generate_universe(1).len(), 10);
    assert_eq!(generate_universe(2).len(), 90);
    assert_eq!(generate_universe(0), vec![String::new()]);
    assert_eq!(generate_default_init_values_for_numbers(), u);
}

#[test]
fn filter_keeps_code_consistent_with_own_feedback() {
    for c in ["1234", "5678", "9012"] {
        for g in ["1234", "4321", "1357", "0987"] {
            let fb = get_bulls_and_cows(String::from(g), String::from(c)).unwrap();
            let pool = vec![String::from(c)];
            assert_eq!(filter_candidates(&pool, &String::from(g), fb), pool);
        }
    }
}

#[test]
fn filter_keeps_order_and_only_matching_codes() {
    let pool: Vec<String> = ["1234", "1243", "5678", "2134", "1235"].iter().map(|s| s.to_string()).collect();
    let r = filter_candidates(&pool, &String::from("1234"), (2, 2));
    assert_eq!(r, vec![String::from("1243"), String::from("2134")]);
    let r = filter_candidates(&pool, &String::from("1234"), (0, 0));
    assert_eq!(r, vec![String::from("5678")]);
    let r = filter_candidates(&pool, &String::from("1234"), (1, 3));
    assert!(r.is_empty());
}

#[test]
fn remove_code_takes_out_every_copy() {
    let pool: Vec<String> = ["1234", "5678", "1234", "9012"].iter().map(|s| s.to_string()).collect();
    let r = remove_code(&pool, &String::from("1234"));
    assert_eq!(r, vec![String::from("5678"), String::from("9012")]);
}

#[test]
fn fixed_point_logarithm_values() {
    let one: u128 = 1 << 48;
    assert_eq!(log2_fixed(1), 0);
    assert_eq!(log2_fixed(2), one);
    assert_eq!(log2_fixed(8), 3 * one);
    assert_eq!(log2_fixed(3), 446127282977750);
    assert_eq!(log2_fixed(5039), 3461838710605641);
    let approx = log2_fixed(3) as f64 / one as f64;
    assert!((approx - 3f64.log2()).abs() < 1e-12);
}
