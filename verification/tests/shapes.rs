use point24::{
    find_solutions_for_permutation, try_struct1, try_struct2, try_struct3, try_struct4,
    try_struct5,
};

#[test]
fn test_try_struct1_success_and_failure() {
    let perm = [6, 2, 3, 4];
    // (6 * 2) + (3 * 4) == 24
    assert!(try_struct1(&perm, '*', '+', '*').is_some());
    println!(
        "Found expression: {}",
        try_struct1(&perm, '*', '+', '*').unwrap()
    );
    // wrong ops shouldn't match
    assert!(try_struct1(&perm, '+', '+', '+').is_none());
}

#[test]
fn test_try_struct2_success() {
    let perm = [2, 3, 4, 1];
    // ((2 * 3) * 4) * 1 == 24
    assert!(try_struct2(&perm, '*', '*', '*').is_some());
}

#[test]
fn test_try_struct3_success() {
    let perm = [3, 2, 4, 1];
    // 3 * (2 * (4 * 1)) == 24
    assert!(try_struct3(&perm, '*', '*', '*').is_some());
}

#[test]
fn test_try_struct4_success() {
    let perm = [2, 3, 4, 1];
    // (2 * (3 * 4)) * 1 == 24
    assert!(try_struct4(&perm, '*', '*', '*').is_some());
}

#[test]
fn test_try_struct5_success() {
    let perm = [3, 2, 2, 2];
    // 3 * ((2 * 2) * 2) == 24
    assert!(try_struct5(&perm, '*', '*', '*').is_some());
}

#[test]
fn each_shape_is_written_its_own_way() {
    assert_eq!(
        try_struct1(&[6, 2, 3, 4], '*', '+', '*'),
        Some(String::from("(6 * 2) + (3 * 4)"))
    );
    assert_eq!(
        try_struct2(&[2, 3, 4, 1], '*', '*', '*'),
        Some(String::from("((2 * 3) * 4) * 1"))
    );
    assert_eq!(
        try_struct3(&[3, 2, 4, 1], '*', '*', '*'),
        Some(String::from("3 * (2 * (4 * 1))"))
    );
    assert_eq!(
        try_struct4(&[2, 3, 4, 1], '*', '*', '*'),
        Some(String::from("(2 * (3 * 4)) * 1"))
    );
    assert_eq!(
        try_struct5(&[3, 2, 2, 2], '*', '*', '*'),
        Some(String::from("3 * ((2 * 2) * 2)"))
    );
}

#[test]
fn operators_stand_in_their_tree_positions() {
    // (13 - 1) * (4 - 2)
    assert_eq!(
        try_struct1(&[13, 1, 4, 2], '-', '*', '-'),
        Some(String::from("(13 - 1) * (4 - 2)"))
    );
    // ((10 + 2) * 4) / 2
    assert_eq!(
        try_struct2(&[10, 2, 4, 2], '+', '*', '/'),
        Some(String::from("((10 + 2) * 4) / 2"))
    );
    // 6 / (1 - (3 / 4))
    assert_eq!(
        try_struct3(&[6, 1, 3, 4], '/', '-', '/'),
        Some(String::from("6 / (1 - (3 / 4))"))
    );
    // (2 * (13 - 1)) / 1
    assert_eq!(
        try_struct4(&[2, 13, 1, 1], '*', '-', '/'),
        Some(String::from("(2 * (13 - 1)) / 1"))
    );
    // 2 + ((13 - 2) * 2)
    assert_eq!(
        try_struct5(&[2, 13, 2, 2], '+', '-', '*'),
        Some(String::from("2 + ((13 - 2) * 2)"))
    );
}

#[test]
fn shapes_differ_on_the_same_operands() {
    let perm = [6, 1, 3, 4];
    // only the right chain makes 6 / (1 - 3/4)
    assert_eq!(try_struct1(&perm, '/', '-', '/'), None);
    assert_eq!(try_struct2(&perm, '/', '-', '/'), None);
    assert!(try_struct3(&perm, '/', '-', '/').is_some());
    assert_eq!(try_struct4(&perm, '/', '-', '/'), None);
    assert_eq!(try_struct5(&perm, '/', '-', '/'), None);
}

#[test]
fn negative_and_large_operands_are_written_in_decimal() {
    assert_eq!(
        try_struct1(&[-6, -4, 0, 1], '*', '+', '*'),
        Some(String::from("(-6 * -4) + (0 * 1)"))
    );
    assert_eq!(
        try_struct2(&[2147483647, 2147483647, 24, 0], '-', '+', '+'),
        Some(String::from("((2147483647 - 2147483647) + 24) + 0"))
    );
    assert_eq!(
        try_struct2(&[-2147483648, -2147483648, 24, 0], '-', '+', '-'),
        Some(String::from("((-2147483648 - -2147483648) + 24) - 0"))
    );
    assert_eq!(
        try_struct3(&[100, 1000, 900, 24], '-', '-', '+'),
        Some(String::from("100 - (1000 - (900 + 24))"))
    );
    assert_eq!(
        try_struct1(&[10, 14, 90, 909], '+', '+', '-'),
        None
    );
}

#[test]
fn rejected_division_discards_the_candidate() {
    // 24 + (0 * (1 / 0)) would be 24 if the rejected quotient were dropped
    assert_eq!(try_struct3(&[24, 0, 1, 0], '+', '*', '/'), None);
    // (24 / (1 - 1)) * 0
    assert_eq!(try_struct4(&[24, 1, 1, 0], '/', '-', '*'), None);
    // (1 / 0) - (1 / 0)
    assert_eq!(try_struct1(&[1, 0, 1, 0], '/', '-', '/'), None);
    // a zero numerator is fine: (0 / 5) + (4 * 6)
    assert_eq!(
        try_struct1(&[0, 5, 4, 6], '/', '+', '*'),
        Some(String::from("(0 / 5) + (4 * 6)"))
    );
}

#[test]
fn unknown_operator_gives_nothing() {
    let perm = [6, 2, 3, 4];
    assert_eq!(try_struct1(&perm, 'x', '+', '*'), None);
    assert_eq!(try_struct1(&perm, '*', '?', '*'), None);
    assert_eq!(try_struct1(&perm, '*', '+', ' '), None);
    assert_eq!(try_struct2(&[2, 3, 4, 1], '*', '*', 'x'), None);
    assert_eq!(try_struct3(&[3, 2, 4, 1], 'x', '*', '*'), None);
    assert_eq!(try_struct4(&[2, 3, 4, 1], '*', 'x', '*'), None);
    assert_eq!(try_struct5(&[3, 2, 2, 2], '*', '*', '('), None);
}

#[test]
fn fractions_are_exact() {
    // 8 / (3 - (8 / 3)) is exactly 24
    assert_eq!(
        try_struct3(&[8, 3, 8, 3], '/', '-', '/'),
        Some(String::from("8 / (3 - (8 / 3))"))
    );
    // 7 / (3 - (8 / 3)) is 21
    assert_eq!(try_struct3(&[7, 3, 8, 3], '/', '-', '/'), None);
    // (3 + (3 / 7)) * 7 is exactly 24
    assert_eq!(
        try_struct4(&[3, 3, 7, 7], '+', '/', '*'),
        Some(String::from("(3 + (3 / 7)) * 7"))
    );
}

#[test]
fn enumerator_finds_all_of_one_ordering() {
    let found = find_solutions_for_permutation(&[6, 1, 3, 4]);
    assert_eq!(found, vec![String::from("6 / (1 - (3 / 4))")]);
}

#[test]
fn enumerator_keeps_the_order_of_the_candidates() {
    // every candidate over 1 2 3 4 that makes 24, operators + - * / slowest
    // first, shapes within each triple
    let found = find_solutions_for_permutation(&[1, 2, 3, 4]);
    assert_eq!(
        found,
        vec![
            String::from("((1 + 2) + 3) * 4"),
            String::from("(1 + (2 + 3)) * 4"),
            String::from("(1 * 2) * (3 * 4)"),
            String::from("((1 * 2) * 3) * 4"),
            String::from("1 * (2 * (3 * 4))"),
            String::from("(1 * (2 * 3)) * 4"),
            String::from("1 * ((2 * 3) * 4)"),
        ]
    );
}

#[test]
fn enumerator_of_an_unsolvable_ordering_is_empty() {
    assert!(find_solutions_for_permutation(&[1, 1, 1, 1]).is_empty());
}
