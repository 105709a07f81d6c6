use point24::permutations;
use std::collections::HashSet;

#[test]
fn test_permutations_count() {
    let nums = vec![1, 2, 3, 4];
    let perms = permutations(&nums);
    println!("Generated permutations: {:?}", perms);
    assert_eq!(perms.len(), 24); // 4! = 24
    let unique_perms: HashSet<_> = perms.into_iter().collect();
    assert_eq!(unique_perms.len(), 24); // all should be unique
}

#[test]
fn test_permutations_count_repeated() {
    let nums = vec![1, 2, 2];
    let perms = permutations(&nums);
    println!("Generated permutations with repeats: {:?}", perms);
    assert_eq!(perms.len(), 6); // 3! / 2! = 3
    let unique_perms: HashSet<_> = perms.into_iter().collect();
    assert_eq!(unique_perms.len(), 3); // only 3 unique
}

#[test]
fn permutations_of_nothing_is_one_empty_ordering() {
    let perms = permutations(&[]);
    assert_eq!(perms, vec![Vec::<i32>::new()]);
}

#[test]
fn permutations_of_one() {
    assert_eq!(permutations(&[7]), vec![vec![7]]);
}

#[test]
fn permutations_of_three_in_order() {
    assert_eq!(
        permutations(&[1, 2, 3]),
        vec![
            vec![1, 2, 3],
            vec![1, 3, 2],
            vec![2, 1, 3],
            vec![2, 3, 1],
            vec![3, 1, 2],
            vec![3, 2, 1],
        ]
    );
}

#[test]
fn permutations_keep_every_operand() {
    let hand = [8, 3, 3, 8];
    let mut sorted_hand = hand.to_vec();
    sorted_hand.sort();
    let perms = permutations(&hand);
    assert_eq!(perms.len(), 24);
    for p in &perms {
        let mut q = p.clone();
        q.sort();
        assert_eq!(q, sorted_hand);
    }
    let unique: HashSet<_> = perms.into_iter().collect();
    assert_eq!(unique.len(), 6); // 4! / (2! * 2!)
}

#[test]
fn permutations_of_five() {
    let perms = permutations(&[1, 2, 3, 4, 5]);
    assert_eq!(perms.len(), 120);
    assert_eq!(perms[0], vec![1, 2, 3, 4, 5]);
    assert_eq!(perms[119], vec![5, 4, 3, 2, 1]);
    let unique: HashSet<_> = perms.into_iter().collect();
    assert_eq!(unique.len(), 120);
}
