use point24::solve_24;
use std::collections::HashSet;

/// Reads one operand of an expression: a number or a parenthesised
/// expression. Returns `None` when a division by a value within 1e-6 of
/// zero is met.
fn read_operand(text: &[u8], at: &mut usize) -> Option<f64> {
    if text[*at] == b'(' {
        *at += 1;
        let v = read_expression(text, at);
        assert_eq!(text[*at], b')');
        *at += 1;
        v
    } else {
        let start = *at;
        while *at < text.len() && (text[*at] == b'-' || text[*at].is_ascii_digit()) {
            *at += 1;
        }
        let number: f64 = std::str::from_utf8(&text[start..*at]).unwrap().parse().unwrap();
        Some(number)
    }
}

/// Reads `operand op operand`.
fn read_expression(text: &[u8], at: &mut usize) -> Option<f64> {
    let left = read_operand(text, at);
    assert_eq!(text[*at], b' ');
    let op = text[*at + 1];
    assert_eq!(text[*at + 2], b' ');
    *at += 3;
    let right = read_operand(text, at);
    let (a, b) = (left?, right?);
    match op {
        b'+' => Some(a + b),
        b'-' => Some(a - b),
        b'*' => Some(a * b),
        b'/' => {
            if b.abs() <= 1e-6 {
                None
            } else {
                Some(a / b)
            }
        }
        _ => panic!("unknown operator"),
    }
}

/// The value of a whole solution text in ordinary floating point.
fn evaluate(text: &str) -> Option<f64> {
    let bytes = text.as_bytes();
    let mut at = 0;
    let v = read_expression(bytes, &mut at);
    assert_eq!(at, bytes.len());
    v
}

/// The operands that occur in a solution text, sorted.
fn operands_of(text: &str) -> Vec<i32> {
    let cleaned: String = text
        .chars()
        .map(|c| if c == '(' || c == ')' { ' ' } else { c })
        .collect();
    let mut found: Vec<i32> = cleaned
        .split(' ')
        .filter_map(|word| word.parse::<i32>().ok())
        .collect();
    found.sort();
    found
}

fn solve_soundly(hand: [i32; 4]) -> Vec<String> {
    let solutions = solve_24(&hand);
    let mut sorted_hand = hand.to_vec();
    sorted_hand.sort();
    for s in &solutions {
        let v = evaluate(s);
        assert!(v.is_some(), "{} divides by zero", s);
        assert!((v.unwrap() - 24.0).abs() <= 1e-6, "{} is {:?}", s, v);
        assert_eq!(operands_of(s), sorted_hand, "{}", s);
    }
    let unique: HashSet<&String> = solutions.iter().collect();
    assert_eq!(unique.len(), solutions.len());
    solutions
}

#[test]
fn every_solution_evaluates_to_the_target() {
    let hands = [
        [1, 2, 3, 4],
        [4, 6, 8, 2],
        [8, 3, 3, 8],
        [1, 3, 4, 6],
        [13, 13, 13, 13],
        [1, 5, 5, 5],
        [3, 3, 7, 7],
        [2, 7, 11, 13],
        [12, 12, 12, 12],
    ];
    for hand in hands {
        solve_soundly(hand);
    }
}

#[test]
fn every_hand_of_low_cards_is_sound() {
    for a in 1..=5 {
        for b in a..=5 {
            for c in b..=5 {
                for d in c..=5 {
                    solve_soundly([a, b, c, d]);
                }
            }
        }
    }
}

#[test]
fn one_three_four_six_has_its_one_solution() {
    let solutions = solve_24(&[1, 3, 4, 6]);
    assert_eq!(solutions, vec![String::from("6 / (1 - (3 / 4))")]);
}

#[test]
fn four_six_eight_two_is_solved() {
    let solutions = solve_soundly([4, 6, 8, 2]);
    assert_eq!(solutions.len(), 148);
    assert_eq!(solutions[0], "(4 + (6 * 2)) + 8");
    assert_eq!(solutions[1], "4 + ((6 * 2) + 8)");
    assert!(solutions.contains(&String::from("((6 - 2) * 4) + 8")));
    // 12 and 22 are no solutions
    assert!(!solutions.contains(&String::from("(8 - 2) * (6 - 4)")));
    assert!(!solutions.contains(&String::from("((4 - 2) * 8) + 6")));
}

#[test]
fn solving_twice_gives_the_same() {
    for hand in [[1, 2, 3, 4], [8, 3, 3, 8], [1, 1, 1, 1], [5, 5, 5, 1], [13, 12, 11, 10]] {
        let first = solve_24(&hand);
        let second = solve_24(&hand);
        assert_eq!(first, second);
        let a: HashSet<String> = first.into_iter().collect();
        let b: HashSet<String> = second.into_iter().collect();
        assert_eq!(a, b);
    }
}

#[test]
fn no_solution_occurs_twice() {
    for hand in [[6, 6, 6, 6], [4, 4, 4, 4], [2, 2, 3, 3], [8, 3, 3, 8], [12, 12, 1, 1]] {
        let solutions = solve_24(&hand);
        for i in 0..solutions.len() {
            for j in 0..i {
                assert_ne!(solutions[i], solutions[j]);
            }
        }
    }
}

#[test]
fn equal_cards_give_each_text_once() {
    assert_eq!(
        solve_24(&[6, 6, 6, 6]),
        vec![
            String::from("(6 + 6) + (6 + 6)"),
            String::from("((6 + 6) + 6) + 6"),
            String::from("6 + (6 + (6 + 6))"),
            String::from("(6 + (6 + 6)) + 6"),
            String::from("6 + ((6 + 6) + 6)"),
            String::from("(6 * 6) - (6 + 6)"),
            String::from("((6 * 6) - 6) - 6"),
        ]
    );
    assert_eq!(
        solve_24(&[4, 4, 4, 4]),
        vec![
            String::from("(4 + 4) + (4 * 4)"),
            String::from("4 + (4 + (4 * 4))"),
            String::from("(4 + (4 * 4)) + 4"),
            String::from("4 + ((4 * 4) + 4)"),
            String::from("(4 * 4) + (4 + 4)"),
            String::from("((4 * 4) + 4) + 4"),
        ]
    );
}

#[test]
fn different_texts_of_equal_value_are_both_kept() {
    let solutions = solve_24(&[1, 5, 5, 5]);
    assert_eq!(
        solutions,
        vec![String::from("(5 - (1 / 5)) * 5"), String::from("5 * (5 - (1 / 5))")]
    );
    let solutions = solve_24(&[3, 3, 7, 7]);
    assert_eq!(
        solutions,
        vec![
            String::from("(3 + (3 / 7)) * 7"),
            String::from("((3 / 7) + 3) * 7"),
            String::from("7 * (3 + (3 / 7))"),
            String::from("7 * ((3 / 7) + 3)"),
        ]
    );
}

#[test]
fn all_ones_has_no_solution() {
    assert_eq!(solve_24(&[1, 1, 1, 1]), Vec::<String>::new());
}

#[test]
fn other_unsolvable_hands_are_empty() {
    assert!(solve_24(&[1, 1, 1, 2]).is_empty());
    assert!(solve_24(&[13, 13, 13, 13]).is_empty());
    assert!(solve_24(&[0, 0, 0, 0]).is_empty());
    assert!(solve_24(&[1, 1, 7, 7]).is_empty());
}

#[test]
fn eight_three_three_eight_is_solved() {
    let solutions = solve_24(&[8, 3, 3, 8]);
    assert!(solutions.contains(&String::from("8 / (3 - (8 / 3))")));
    assert_eq!(solutions.len(), 1);
}

#[test]
fn zero_divisors_never_reach_the_output() {
    for hand in [[24, 0, 0, 1], [0, 0, 24, 24], [24, 1, 1, 0], [12, 2, 0, 0], [24, 5, 5, 24]] {
        let solutions = solve_soundly(hand);
        assert!(!solutions.is_empty());
        for s in &solutions {
            assert!(!s.contains("/ 0"), "{}", s);
        }
    }
}

#[test]
fn extreme_cards_are_handled() {
    let solutions = solve_soundly([i32::MAX, i32::MAX, 24, 1]);
    assert!(solutions.contains(&String::from("((2147483647 - 2147483647) + 24) * 1")));
    let solutions = solve_24(&[i32::MIN, i32::MIN, i32::MIN, i32::MIN]);
    assert!(solutions.is_empty());
    let solutions = solve_24(&[i32::MIN, i32::MAX, i32::MIN, i32::MAX]);
    assert!(solutions.is_empty());
    let solutions = solve_24(&[-24, -1, 1, 1]);
    assert!(solutions.contains(&String::from("(-24 * -1) * (1 * 1)")));
}
