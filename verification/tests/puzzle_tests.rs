use puzzle_core::cleanup::{either_is_subset, parse_pair, parse_range, ranges_overlap};
use puzzle_core::rucksack::{common_item, priority_value};
use puzzle_core::strategy::round_score;
use puzzle_core::signal::{find_signature_position, Tracker};
use puzzle_core::strategy::{
    adjust_for_desired_outcome, outcome, outcome_points, shape_points, Outcome,
};

#[test]
fn round_outcomes() {
    // A rock / Y paper: the response wins
    assert!(matches!(outcome("A Y"), Outcome::Win));
    // B paper / X rock: the response loses
    assert!(matches!(outcome("B X"), Outcome::Loss));
    // C scissors / Z scissors: a draw
    assert!(matches!(outcome("C Z"), Outcome::Draw));
}

#[test]
fn round_scores() {
    assert_eq!(outcome_points(Outcome::Loss), 0);
    assert_eq!(outcome_points(Outcome::Draw), 3);
    assert_eq!(outcome_points(Outcome::Win), 6);
    assert_eq!(shape_points("A Y"), 2);
    assert_eq!(outcome_points(outcome("A Y")) + shape_points("A Y"), 8);
    assert_eq!(outcome_points(outcome("B X")) + shape_points("B X"), 1);
    assert_eq!(outcome_points(outcome("C Z")) + shape_points("C Z"), 6);
}

#[test]
fn desired_outcome_rewrites() {
    // Y asks for a draw against rock: play rock
    let adjusted = adjust_for_desired_outcome("A Y");
    assert_eq!(adjusted, "A X");
    assert!(matches!(outcome(&adjusted), Outcome::Draw));
    // X asks for a loss against paper: play rock
    let adjusted = adjust_for_desired_outcome("B X");
    assert_eq!(adjusted, "B X");
    assert!(matches!(outcome(&adjusted), Outcome::Loss));
    // Z asks for a win against scissors: play rock
    let adjusted = adjust_for_desired_outcome("C Z");
    assert_eq!(adjusted, "C X");
    assert!(matches!(outcome(&adjusted), Outcome::Win));
}

#[test]
fn priorities() {
    assert_eq!(priority_value(b'a'), 1);
    assert_eq!(priority_value(b'z'), 26);
    assert_eq!(priority_value(b'A'), 27);
    assert_eq!(priority_value(b'Z'), 52);
    assert_eq!(priority_value(b'p'), 16);
    assert_eq!(priority_value(b'L'), 38);
}

#[test]
fn round_score_combines_points() {
    assert_eq!(round_score("A Y"), 8);
    assert_eq!(round_score("B X"), 1);
    assert_eq!(round_score("C Z"), 6);
}

#[test]
fn rucksack_common_item() {
    // "vJrwpWtwJgWrhcsFMMfFFhFp": halves share 'p'
    let line = "vJrwpWtwJgWrhcsFMMfFFhFp".as_bytes();
    let (l, r) = line.split_at(line.len() / 2);
    let item = common_item(l, r).expect("a shared item exists");
    assert_eq!(item, b'p');
    assert_eq!(priority_value(item), 16);
    assert_eq!(common_item(b"abc", b"xyz"), None);
}

#[test]
fn range_parsing() {
    assert_eq!(parse_range("2-4"), (2, 4));
    assert_eq!(parse_range("123-4567"), (123, 4567));
    assert_eq!(parse_pair("2-4,6-8"), ((2, 4), (6, 8)));
}

#[test]
fn range_relations() {
    assert!(either_is_subset(&(2, 8), &(3, 7)));
    assert!(either_is_subset(&(3, 7), &(2, 8)));
    assert!(!either_is_subset(&(2, 4), &(6, 8)));
    assert!(ranges_overlap(&(5, 7), &(7, 9)));
    assert!(ranges_overlap(&(6, 6), &(4, 6)));
    assert!(!ranges_overlap(&(2, 4), &(6, 8)));
}

#[test]
fn tracker_counts() {
    let mut t = Tracker::new("aab".as_bytes());
    assert!(!t.all_unique());
    t.pop(b'a');
    assert!(t.all_unique());
    t.push(b'b');
    assert!(!t.all_unique());
    t.pop(b'b');
    assert!(t.all_unique());
}

#[test]
fn signature_positions() {
    let line = "mjqjpqmgbljsphdztnvjfqwrcgsmlb".to_string();
    assert_eq!(find_signature_position(&line, 4), 7);
    assert_eq!(find_signature_position(&line, 14), 19);
    let line2 = "bvwbjplbgvbhsrlpgdmjqwftvncz".to_string();
    assert_eq!(find_signature_position(&line2, 4), 5);
    let line3 = "nppdvjthqldpwncqszvftbrmjlhg".to_string();
    assert_eq!(find_signature_position(&line3, 4), 6);
    // the only distinct window is the final one
    let line4 = "aabcd".to_string();
    assert_eq!(find_signature_position(&line4, 4), 5);
}
