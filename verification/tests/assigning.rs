use ssam::assign::{assign, assign_from_pool, assign_picks, count_unassigned, distribute, settle};
use ssam::error::{ErrorKind, SampleError};
use ssam::random::generator;
use ssam::sizes::{
    check_sizes, digit, exceeds, find_remainder, get_size, read_count, read_size, SetSize, SizeText,
};

#[test]
fn sizes_resolve_to_their_targets() {
    assert_eq!(get_size(&SetSize::Absolute(7)), 7);
    assert_eq!(get_size(&SetSize::Absolute(0)), 0);
    assert_eq!(get_size(&SetSize::Remainder), 0);
}

#[test]
fn whole_fraction_of_ten_units_is_ten() {
    let units: usize = 10;
    let target = (1.0f64 * units as f64).floor() as usize;
    assert_eq!(target, 10);
    let sizes = vec![SetSize::Absolute(target)];
    assert_eq!(get_size(&sizes[0]), 10);
    let mut rng = generator(Some(1)).unwrap();
    let assignment = assign(&sizes, units, false, &mut rng).unwrap();
    assert_eq!(assignment, vec![vec![0usize]; 10]);
}

#[test]
fn sum_is_compared_without_overflow() {
    let sizes = vec![SetSize::Absolute(usize::MAX), SetSize::Remainder, SetSize::Absolute(2)];
    assert!(exceeds(&sizes, 10));
    assert!(exceeds(&sizes, usize::MAX));
    let sizes = vec![SetSize::Absolute(3), SetSize::Remainder, SetSize::Absolute(2)];
    assert!(exceeds(&sizes, 4));
    assert!(!exceeds(&sizes, 5));
    assert!(!exceeds(&vec![], 0));
}

#[test]
fn two_remainders_are_refused() {
    let sizes = vec![SetSize::Remainder, SetSize::Remainder];
    let err = check_sizes(&sizes, 4, false).unwrap_err();
    assert_eq!(err, SampleError::DuplicateRemainder);
    assert_eq!(err.kind(), ErrorKind::Config);
    assert_eq!(err.exit_code(), 1);
    assert_eq!(check_sizes(&sizes, 4, true), Err(SampleError::DuplicateRemainder));
    assert_eq!(find_remainder(&sizes), Err(SampleError::DuplicateRemainder));
    let mut rng = generator(Some(3)).unwrap();
    assert_eq!(assign(&sizes, 4, false, &mut rng), Err(SampleError::DuplicateRemainder));
}

#[test]
fn remainder_slot_is_found() {
    let sizes = vec![SetSize::Absolute(1), SetSize::Remainder, SetSize::Absolute(2)];
    assert_eq!(find_remainder(&sizes), Ok(Some(1)));
    assert_eq!(check_sizes(&sizes, 3, false), Ok(Some(1)));
    assert_eq!(find_remainder(&vec![SetSize::Absolute(1)]), Ok(None));
    assert_eq!(find_remainder(&vec![]), Ok(None));
}

#[test]
fn oversubscription_is_refused_without_replacement() {
    let sizes = vec![SetSize::Absolute(3), SetSize::Absolute(2)];
    let err = check_sizes(&sizes, 4, false).unwrap_err();
    assert_eq!(err, SampleError::Capacity { available: 4 });
    assert_eq!(err.kind(), ErrorKind::Capacity);
    assert_eq!(err.exit_code(), 1);
    assert_eq!(check_sizes(&sizes, 5, false), Ok(None));
    assert_eq!(check_sizes(&sizes, 4, true), Ok(None));
}

#[test]
fn capacity_is_checked_before_remainders() {
    let sizes = vec![SetSize::Remainder, SetSize::Absolute(9), SetSize::Remainder];
    assert_eq!(check_sizes(&sizes, 4, false), Err(SampleError::Capacity { available: 4 }));
    assert_eq!(check_sizes(&sizes, 4, true), Err(SampleError::DuplicateRemainder));
}

#[test]
fn sizes_beyond_a_machine_word_are_refused_with_replacement() {
    let sizes = vec![SetSize::Absolute(usize::MAX), SetSize::Absolute(1)];
    assert_eq!(check_sizes(&sizes, 4, true), Err(SampleError::Capacity { available: 4 }));
}

#[test]
fn no_units_nothing_to_assign() {
    let mut rng = generator(Some(3)).unwrap();
    let sizes = vec![SetSize::Remainder];
    assert_eq!(assign(&sizes, 0, false, &mut rng), Err(SampleError::EmptyData));
    assert_eq!(assign(&sizes, 0, true, &mut rng), Err(SampleError::EmptyData));
}

#[test]
fn sets_take_units_off_the_end_of_the_pool() {
    let sizes = vec![SetSize::Absolute(2), SetSize::Remainder, SetSize::Absolute(1)];
    let assignment = assign_from_pool(&sizes, 5, vec![4, 0, 3, 1, 2], Some(1));
    assert_eq!(assignment, vec![vec![1], vec![0], vec![0], vec![2], vec![1]]);
}

#[test]
fn draws_may_hit_a_unit_more_than_once() {
    let sizes = vec![SetSize::Absolute(2), SetSize::Absolute(3)];
    let assignment = distribute(&sizes, 3, &vec![1, 1, 0, 1, 0]);
    assert_eq!(assignment, vec![vec![1, 1], vec![0, 0, 1], vec![]]);
    let assignment = assign_picks(&sizes, 3, &vec![1, 1, 0, 1, 0], None);
    assert_eq!(assignment, vec![vec![1, 1], vec![0, 0, 1], vec![]]);
    assert_eq!(count_unassigned(&assignment), 1);
}

#[test]
fn remainder_takes_what_is_left() {
    let mut assignment = vec![vec![], vec![0, 2], vec![], vec![2]];
    settle(&mut assignment, Some(1));
    assert_eq!(assignment, vec![vec![1], vec![0, 2], vec![1], vec![2]]);
    assert_eq!(count_unassigned(&assignment), 0);
    let mut untouched = vec![vec![], vec![0]];
    settle(&mut untouched, None);
    assert_eq!(untouched, vec![vec![], vec![0]]);
    assert_eq!(count_unassigned(&untouched), 1);
}

#[test]
fn without_replacement_no_unit_is_drawn_twice() {
    let sizes = vec![SetSize::Absolute(30), SetSize::Absolute(50)];
    let mut rng = generator(Some(42)).unwrap();
    let assignment = assign(&sizes, 100, false, &mut rng).unwrap();
    assert_eq!(assignment.len(), 100);
    assert!(assignment.iter().all(|list| list.len() <= 1));
    assert_eq!(assignment.iter().filter(|list| list.as_slice() == [0]).count(), 30);
    assert_eq!(assignment.iter().filter(|list| list.as_slice() == [1]).count(), 50);
    assert_eq!(count_unassigned(&assignment), 20);
}

#[test]
fn without_replacement_the_units_are_shuffled() {
    let sizes = vec![SetSize::Absolute(50), SetSize::Remainder];
    let mut rng = generator(Some(7)).unwrap();
    let assignment = assign(&sizes, 100, false, &mut rng).unwrap();
    let last_fifty: Vec<Vec<usize>> = assignment[50..].to_vec();
    assert_ne!(last_fifty, vec![vec![0usize]; 50]);
    assert!(assignment.iter().all(|list| list.len() == 1));
    assert_eq!(assignment.iter().filter(|list| list[0] == 0).count(), 50);
    assert_eq!(assignment.iter().filter(|list| list[0] == 1).count(), 50);
}

#[test]
fn with_replacement_each_set_gets_its_target() {
    let sizes = vec![SetSize::Absolute(40), SetSize::Remainder, SetSize::Absolute(25)];
    let mut rng = generator(Some(42)).unwrap();
    let assignment = assign(&sizes, 10, true, &mut rng).unwrap();
    assert_eq!(assignment.len(), 10);
    let count = |set: usize| -> usize {
        assignment.iter().map(|list| list.iter().filter(|s| **s == set).count()).sum()
    };
    assert_eq!(count(0), 40);
    assert_eq!(count(2), 25);
    assert!(assignment.iter().any(|list| list.len() > 1));
    assert!(assignment.iter().all(|list| !list.is_empty()));
    assert_eq!(count(1), assignment.iter().filter(|list| list.as_slice() == [1]).count());
}

#[test]
fn with_replacement_draws_spread_over_the_units() {
    let sizes = vec![SetSize::Absolute(200)];
    let mut rng = generator(Some(5)).unwrap();
    let assignment = assign(&sizes, 4, true, &mut rng).unwrap();
    assert!(assignment.iter().all(|list| !list.is_empty()));
    assert_eq!(assignment.iter().map(|list| list.len()).sum::<usize>(), 200);
}

#[test]
fn same_seed_same_assignment() {
    let sizes = vec![SetSize::Absolute(20), SetSize::Remainder, SetSize::Absolute(20)];
    let mut first = generator(Some(2024)).unwrap();
    let mut second = generator(Some(2024)).unwrap();
    assert_eq!(assign(&sizes, 64, false, &mut first), assign(&sizes, 64, false, &mut second));
    assert_eq!(assign(&sizes, 64, true, &mut first), assign(&sizes, 64, true, &mut second));
}

#[test]
fn unseeded_generator_is_there() {
    let mut rng = generator(None).unwrap();
    let sizes = vec![SetSize::Absolute(2), SetSize::Remainder];
    let assignment = assign(&sizes, 4, false, &mut rng).unwrap();
    assert_eq!(assignment.iter().filter(|list| list.as_slice() == [0]).count(), 2);
    assert_eq!(assignment.iter().filter(|list| list.as_slice() == [1]).count(), 2);
}

#[test]
fn asterisk_is_the_remainder() {
    assert_eq!(read_size("*"), Ok(SizeText::Remainder));
    assert_eq!(read_size("**"), Err(SampleError::BadSize));
    assert_eq!(read_size("*."), Ok(SizeText::Fraction));
}

#[test]
fn text_with_a_dot_is_a_fraction() {
    assert_eq!(read_size("0.25"), Ok(SizeText::Fraction));
    assert_eq!(read_size("1."), Ok(SizeText::Fraction));
    assert_eq!(read_size("."), Ok(SizeText::Fraction));
    assert_eq!(read_size("a.b"), Ok(SizeText::Fraction));
}

#[test]
fn digits_are_a_count() {
    assert_eq!(read_size("1000"), Ok(SizeText::Count(1000)));
    assert_eq!(read_size("0"), Ok(SizeText::Count(0)));
    assert_eq!(read_size("007"), Ok(SizeText::Count(7)));
    assert_eq!(read_size("+42"), Ok(SizeText::Count(42)));
    assert_eq!(read_count("18446744073709551615"), "18446744073709551615".parse::<usize>().ok());
    assert_eq!(read_count("18446744073709551616"), "18446744073709551616".parse::<usize>().ok());
    assert_eq!(read_count("99999999999999999999999"), None);
}

#[test]
fn anything_else_is_a_bad_size() {
    for text in ["", "+", "-", "-5", " 5", "5 ", "1e3", "12a", "++1", "1+", "\u{0661}"] {
        assert_eq!(read_size(text), Err(SampleError::BadSize));
        assert_eq!(read_count(text), text.parse::<usize>().ok());
    }
    assert_eq!(SampleError::BadSize.kind(), ErrorKind::Config);
    assert_eq!(SampleError::BadSize.exit_code(), 1);
}

#[test]
fn digits_have_their_values() {
    assert_eq!(digit('0'), Some(0));
    assert_eq!(digit('7'), Some(7));
    assert_eq!(digit('9'), Some(9));
    assert_eq!(digit('a'), None);
    assert_eq!(digit('/'), None);
    assert_eq!(digit(':'), None);
}

#[test]
fn a_seed_fixes_the_generator() {
    let sizes = vec![SetSize::Absolute(200)];
    let mut first = generator(Some(77)).unwrap();
    let mut second = generator(Some(77)).unwrap();
    let mut other = generator(Some(78)).unwrap();
    let a = assign(&sizes, 1000, true, &mut first).unwrap();
    let b = assign(&sizes, 1000, true, &mut second).unwrap();
    let c = assign(&sizes, 1000, true, &mut other).unwrap();
    assert_eq!(a, b);
    assert_ne!(a, c);
}
