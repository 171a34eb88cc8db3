use aocode21::common::ChallengeData;
use aocode21::sonar::{count_increases, day_one_challenge, SonarError};

fn data(text: &str) -> ChallengeData {
    ChallengeData::from_contents("input.txt".to_string(), text)
}

#[test]
fn example_has_seven_increases() {
    let d = data("199\n200\n208\n210\n200\n207\n240\n269\n260\n263\n");
    assert_eq!(day_one_challenge(&d), Ok(7));
}

#[test]
fn count_of_increases_on_values() {
    assert_eq!(count_increases(&vec![]), 0);
    assert_eq!(count_increases(&vec![5]), 0);
    assert_eq!(count_increases(&vec![1, 1, 1]), 0);
    assert_eq!(count_increases(&vec![3, 2, 1]), 0);
    assert_eq!(count_increases(&vec![-5, -4, i32::MAX, i32::MIN, 0]), 3);
}

#[test]
fn non_numeric_lines_fail_the_count() {
    let d = data("1\n2\nthree\n4\nfive\n");
    assert_eq!(day_one_challenge(&d), Err(SonarError::NotNumbers(2)));
}

#[test]
fn empty_input_counts_nothing() {
    assert_eq!(day_one_challenge(&data("\n\n")), Ok(0));
}
