use aocode21::common::ChallengeData;
use aocode21::navigation::{
    day_two_challenge, get_direction, part_one, part_two, Direction, DirectionError, DiveError,
};

fn data(text: &str) -> ChallengeData {
    ChallengeData::from_contents("input.txt".to_string(), text)
}

const EXAMPLE: &str = "forward 5\ndown 5\nforward 8\nup 3\ndown 8\nforward 2\n";

#[test]
fn directions_are_read() {
    assert_eq!(get_direction("forward 5".to_string()), Ok(Direction::Forward(5)));
    assert_eq!(get_direction("  up\t-3 ".to_string()), Ok(Direction::Up(-3)));
    assert_eq!(get_direction("down 8 and more".to_string()), Ok(Direction::Down(8)));
}

#[test]
fn direction_errors_name_the_culprit() {
    assert_eq!(
        get_direction("forward".to_string()),
        Err(DirectionError::MissingValue("forward".to_string()))
    );
    assert_eq!(
        get_direction("forward five".to_string()),
        Err(DirectionError::NotANumber("five".to_string()))
    );
    assert_eq!(
        get_direction("sideways 3".to_string()),
        Err(DirectionError::UnknownAction("sideways".to_string()))
    );
    assert_eq!(
        get_direction("Forward 3".to_string()),
        Err(DirectionError::UnknownAction("Forward".to_string()))
    );
}

#[test]
fn example_course_both_ways() {
    let r = day_two_challenge(&data(EXAMPLE)).unwrap();
    assert_eq!((r.plain.position, r.plain.depth, r.plain_result), (15, 10, 150));
    assert_eq!((r.aimed.position, r.aimed.depth, r.aimed.aim, r.aimed_result), (15, 60, 10, 900));
    assert_eq!(r.plain.compute(), 150);
}

#[test]
fn parts_follow_directions() {
    let ds = vec![Direction::Down(2), Direction::Forward(3), Direction::Up(1), Direction::Forward(4)];
    let one = part_one(&ds).unwrap();
    assert_eq!((one.position, one.depth, one.aim), (7, 1, 0));
    let two = part_two(&ds).unwrap();
    assert_eq!((two.position, two.depth, two.aim), (7, 10, 1));
    let none = part_one(&vec![]).unwrap();
    assert_eq!((none.position, none.depth, none.aim), (0, 0, 0));
}

#[test]
fn unknown_keyword_fails_the_whole_course() {
    let r = day_two_challenge(&data("forward 5\nbackward 2\ndown 1\nup\n"));
    assert_eq!(
        r,
        Err(DiveError::InvalidDirections(vec![
            DirectionError::UnknownAction("backward".to_string()),
            DirectionError::MissingValue("up".to_string()),
        ]))
    );
}

#[test]
fn overflow_is_reported() {
    assert_eq!(part_one(&vec![Direction::Forward(i32::MAX), Direction::Forward(1)]), None);
    assert_eq!(part_two(&vec![Direction::Down(65536), Direction::Forward(65536)]), None);
    let r = day_two_challenge(&data("forward 100000\ndown 100000\n"));
    assert_eq!(r, Err(DiveError::Overflow));
}
