use rust_learning::input::assemble;
use rust_learning::reducer::{
    aggregate, combine, digit_of, order_partials, partition, reduce_chunk, run, ReduceError,
};

fn chars(s: &str) -> Vec<char> {
    s.chars().collect()
}

fn texts(chunks: &[Vec<char>]) -> Vec<String> {
    chunks.iter().map(|c| c.iter().collect()).collect()
}

#[test]
fn nine_digits_three_workers() {
    let s = chars("123456789");
    let parts = partition(&s, 3);
    assert_eq!(texts(&parts), vec!["123", "456", "789"]);
    let partials: Vec<u64> = parts.iter().map(|c| reduce_chunk(c).unwrap()).collect();
    assert_eq!(partials, vec![6, 15, 24]);
    assert_eq!(combine(&partials), Some(45));
    assert_eq!(run(&s, 3), Ok(45));
}

#[test]
fn remainder_goes_to_last_chunk() {
    let s = chars("12345");
    let parts = partition(&s, 2);
    assert_eq!(texts(&parts), vec!["12", "345"]);
    let partials: Vec<u64> = parts.iter().map(|c| reduce_chunk(c).unwrap()).collect();
    assert_eq!(partials, vec![3, 12]);
    assert_eq!(run(&s, 2), Ok(15));
}

#[test]
fn non_digit_fails_the_run() {
    let s = chars("12a45");
    assert_eq!(run(&s, 1), Err(ReduceError::InvalidDigitError));
    assert_eq!(run(&s, 2), Err(ReduceError::InvalidDigitError));
    assert_eq!(run(&s, 5), Err(ReduceError::InvalidDigitError));
    assert_eq!(reduce_chunk(&chars("a45")), Err(ReduceError::InvalidDigitError));
    assert_eq!(reduce_chunk(&chars("45")), Ok(9));
}

#[test]
fn one_worker_per_element() {
    let s = chars("90817");
    let parts = partition(&s, 5);
    assert_eq!(texts(&parts), vec!["9", "0", "8", "1", "7"]);
    assert_eq!(run(&s, 5), Ok(25));
}

#[test]
fn single_worker_takes_everything() {
    let s = chars("90817");
    let parts = partition(&s, 1);
    assert_eq!(parts, vec![s.clone()]);
    assert_eq!(run(&s, 1), Ok(25));
}

#[test]
fn worker_count_does_not_change_the_sum() {
    let s = chars("3141592653589793");
    for w in 1..=s.len() {
        assert_eq!(run(&s, w), Ok(80));
    }
}

#[test]
fn chunks_concatenate_back_and_are_non_empty() {
    let s = chars("2718281828459045");
    for w in 1..=s.len() {
        let parts = partition(&s, w);
        assert_eq!(parts.len(), w);
        assert!(parts.iter().all(|c| !c.is_empty()));
        let joined: Vec<char> = parts.concat();
        assert_eq!(joined, s);
    }
}

#[test]
fn chunk_sizes_follow_integer_division() {
    let s = chars("1234567890");
    let parts = partition(&s, 3);
    assert_eq!(texts(&parts), vec!["123", "456", "7890"]);
    let parts = partition(&s, 4);
    assert_eq!(texts(&parts), vec!["12", "34", "56", "7890"]);
}

#[test]
fn bad_worker_counts_are_configuration_errors() {
    let s = chars("123");
    assert_eq!(run(&s, 0), Err(ReduceError::ConfigurationError));
    assert_eq!(run(&s, 4), Err(ReduceError::ConfigurationError));
    assert_eq!(run(&[], 1), Err(ReduceError::ConfigurationError));
    assert_eq!(run(&chars("1a3"), 4), Err(ReduceError::ConfigurationError));
}

#[test]
fn repeated_runs_agree() {
    let s = chars("55555123");
    let first = run(&s, 3);
    for _ in 0..10 {
        assert_eq!(run(&s, 3), first);
    }
    assert_eq!(first, Ok(31));
}

#[test]
fn sample_data_with_ten_workers() {
    let data = "86967897737416471853297327050364959
11861322575564723963297542624962850
70856234701860851907960690014725639
38397966707106094172783238747669219
52380795257888236525459303330302837
58495327135744041048897885734297812
69920216438980873548808413720956532
16278424637452589860345374828574668";
    let s: Vec<char> = data.split_whitespace().collect::<String>().chars().collect();
    assert_eq!(s.len(), 280);
    assert_eq!(run(&s, 10), Ok(1342));
    assert_eq!(run(&s, 7), Ok(1342));
}

#[test]
fn digit_values() {
    assert_eq!(digit_of('0'), Some(0));
    assert_eq!(digit_of('7'), Some(7));
    assert_eq!(digit_of('9'), Some(9));
    assert_eq!(digit_of('a'), None);
    assert_eq!(digit_of('/'), None);
    assert_eq!(digit_of(':'), None);
    assert_eq!(digit_of(' '), None);
}

#[test]
fn combine_adds_in_order_and_detects_overflow() {
    assert_eq!(combine(&[]), Some(0));
    assert_eq!(combine(&[6, 15, 24]), Some(45));
    assert_eq!(combine(&[u64::MAX, 0]), Some(u64::MAX));
    assert_eq!(combine(&[u64::MAX, 1]), None);
}

#[test]
fn arrivals_in_any_order_give_chunk_order() {
    let a = [(2, 24), (0, 6), (1, 15)];
    let b = [(1, 15), (2, 24), (0, 6)];
    assert_eq!(order_partials(&a, 3), Some(vec![6, 15, 24]));
    assert_eq!(order_partials(&b, 3), Some(vec![6, 15, 24]));
    assert_eq!(aggregate(&a, 3), Some(45));
    assert_eq!(aggregate(&b, 3), Some(45));
}

#[test]
fn badly_tagged_arrivals_are_refused() {
    assert_eq!(order_partials(&[(0, 6), (0, 6)], 2), None);
    assert_eq!(order_partials(&[(0, 6), (2, 6)], 2), None);
    assert_eq!(order_partials(&[(1, 6)], 2), None);
    assert_eq!(order_partials(&[], 0), Some(vec![]));
    assert_eq!(aggregate(&[(1, u64::MAX), (0, 1)], 2), None);
    assert_eq!(aggregate(&[(1, 3)], 2), None);
}

#[test]
fn assemble_drops_white_space_only() {
    assert_eq!(assemble("12 34\n56\t7"), chars("1234567"));
    assert_eq!(assemble(""), Vec::<char>::new());
    assert_eq!(assemble("  \n"), Vec::<char>::new());
    assert_eq!(assemble("1a 2\u{3000}3"), chars("1a23"));
    assert_eq!(run(&assemble("123\n456\n789"), 3), Ok(45));
}
