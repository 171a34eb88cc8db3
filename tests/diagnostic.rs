use aocode21::common::ChallengeData;
use aocode21::diagnostic::{
    day_three_challenge, DiagnosticEntry, DiagnosticError, DiagnosticFeed, DiagnosticReport,
};

fn lines(v: &[&str]) -> Vec<String> {
    v.iter().map(|s| s.to_string()).collect()
}

const EXAMPLE: [&str; 12] = [
    "00100", "11110", "10110", "10111", "10101", "01111", "00111", "11100", "10000", "11001",
    "00010", "01010",
];

#[test]
fn example_rates_and_power() {
    let d = ChallengeData::from_contents("input.txt".to_string(), &EXAMPLE.join("\n"));
    let p = day_three_challenge(&d).unwrap();
    assert_eq!((p.gamma, p.epsilon, p.consumption), (22, 9, 198));
    assert_eq!(p.gamma ^ p.epsilon, 0b11111);
}

#[test]
fn ties_give_one_to_gamma_and_zero_to_epsilon() {
    let rep = DiagnosticReport::try_from(&lines(&["10", "01", "11", "00"])).unwrap();
    assert_eq!(rep.gamma(), Ok(0b11));
    assert_eq!(rep.epsilon(), Ok(0b00));
    assert_eq!(rep.gamma().unwrap() ^ rep.epsilon().unwrap(), 0b11);
}

#[test]
fn threshold_is_half_rounded_down() {
    // three entries: a single '1' in a column reaches the threshold of one
    let rep = DiagnosticReport::try_from(&lines(&["100", "000", "001"])).unwrap();
    assert_eq!(rep.width(), 3);
    assert_eq!(rep.gamma(), Ok(0b101));
    assert_eq!(rep.epsilon(), Ok(0b010));
}

#[test]
fn width_mismatch_is_reported() {
    let r = DiagnosticReport::try_from(&lines(&["101", "111", "10", "1"]));
    assert_eq!(
        r.unwrap_err(),
        DiagnosticError::WidthMismatch { expected: 3, entry: "10".to_string() }
    );
    let d = ChallengeData::from_contents("input.txt".to_string(), "01\n011\n");
    assert!(matches!(day_three_challenge(&d), Err(DiagnosticError::WidthMismatch { .. })));
}

#[test]
fn non_binary_lines_are_reported_first() {
    let r = DiagnosticReport::try_from(&lines(&["10", "1", "012", "+1"]));
    assert_eq!(r.unwrap_err(), DiagnosticError::NotBinary("012".to_string()));
    let r = DiagnosticReport::try_from(&lines(&["+1"]));
    assert_eq!(r.unwrap_err(), DiagnosticError::NotBinary("+1".to_string()));
}

#[test]
fn no_entries_make_no_report() {
    assert_eq!(DiagnosticReport::try_from(&[]).unwrap_err(), DiagnosticError::NoEntries);
}

#[test]
fn rates_wider_than_i32_are_refused() {
    let wide = "0".repeat(32);
    let rep = DiagnosticReport::try_from(&lines(&[&wide])).unwrap();
    assert_eq!(rep.gamma(), Err(DiagnosticError::TooWide));
    assert_eq!(rep.epsilon(), Ok(0));
}

#[test]
fn entries_read_bits_from_the_left() {
    let e = DiagnosticEntry::try_from(&"0110".to_string()).unwrap();
    assert_eq!(e.len(), 4);
    assert_eq!(e.value(), 6);
    assert_eq!((e.at(0), e.at(1), e.at(3), e.at(4)), (Some(0), Some(1), Some(0), None));
    assert!(DiagnosticEntry::try_from(&"".to_string()).is_err());
    assert!(DiagnosticEntry::try_from(&"1".repeat(32)).is_err());
    assert_eq!(DiagnosticEntry::try_from(&"1".repeat(31)).unwrap().value(), i32::MAX);
}

#[test]
fn feed_yields_none_past_an_entry_width() {
    let entries: Vec<DiagnosticEntry> = ["10", "1", "11"]
        .iter()
        .map(|s| DiagnosticEntry::try_from(&s.to_string()).unwrap())
        .collect();
    let mut f = DiagnosticFeed::new(&entries, 1);
    assert_eq!(f.size_hint(), (3, Some(3)));
    assert_eq!(f.next(), Some(0));
    assert_eq!(f.next(), None);
    assert_eq!(f.next(), Some(1));
    assert_eq!(f.next(), None);
    assert_eq!(f.size_hint(), (0, Some(0)));
    assert_eq!(DiagnosticFeed::new(&entries, 0).sum(), 3);
    assert_eq!(DiagnosticFeed::new(&entries, 1).sum(), 0);
}

#[test]
fn report_feed_past_the_width_is_all_none() {
    let rep = DiagnosticReport::try_from(&lines(&["10", "11"])).unwrap();
    let mut f = rep.feed(5);
    assert_eq!(f.size_hint(), (2, Some(2)));
    assert_eq!((f.next(), f.next(), f.next()), (None, None, None));
    assert_eq!(rep.feed(1).sum(), 1);
}
