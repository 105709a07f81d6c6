use point24::{apply_op, Rational, EPSILON_INVERSE};

fn whole(n: i32) -> Rational {
    Rational::from_int(n)
}

fn is_value(r: Option<Rational>, n: i32) -> bool {
    match r {
        Some(v) => v.same_value(&whole(n)),
        None => false,
    }
}

#[test]
fn test_apply_op_basic() {
    assert_eq!(apply_op(whole(2), whole(3), '+'), Some(whole(5)));
    assert_eq!(apply_op(whole(5), whole(3), '-'), Some(whole(2)));
    assert_eq!(apply_op(whole(4), whole(3), '*'), Some(whole(12)));
    assert!(is_value(apply_op(whole(8), whole(2), '/'), 4));
    // division by (near) zero should return None
    assert_eq!(apply_op(whole(1), Rational::new(1, 1_000_000_000), '/'), None);
}

#[test]
fn quotient_is_kept_unreduced() {
    assert_eq!(apply_op(whole(8), whole(2), '/'), Some(Rational::new(8, 2)));
    assert_eq!(apply_op(whole(8), whole(3), '/'), Some(Rational::new(8, 3)));
    assert_eq!(
        apply_op(Rational::new(1, 2), Rational::new(3, 4), '/'),
        Some(Rational::new(4, 6))
    );
}

#[test]
fn sum_and_difference_of_fractions() {
    assert_eq!(
        apply_op(Rational::new(1, 2), Rational::new(1, 3), '+'),
        Some(Rational::new(5, 6))
    );
    assert_eq!(
        apply_op(Rational::new(1, 2), Rational::new(1, 3), '-'),
        Some(Rational::new(1, 6))
    );
    assert_eq!(
        apply_op(Rational::new(2, 3), Rational::new(5, 7), '*'),
        Some(Rational::new(10, 21))
    );
    assert_eq!(apply_op(whole(3), Rational::new(8, 3), '-'), Some(Rational::new(1, 3)));
}

#[test]
fn division_by_zero_is_rejected() {
    assert_eq!(apply_op(whole(5), whole(0), '/'), None);
    assert_eq!(apply_op(whole(0), whole(0), '/'), None);
    assert_eq!(apply_op(whole(5), Rational::new(0, -7), '/'), None);
}

#[test]
fn division_guard_is_inclusive_at_epsilon() {
    // a divisor of exactly one millionth is still rejected
    assert_eq!(apply_op(whole(1), Rational::new(1, 1_000_000), '/'), None);
    assert_eq!(apply_op(whole(1), Rational::new(-1, 1_000_000), '/'), None);
    assert_eq!(apply_op(whole(1), Rational::new(1, -1_000_000), '/'), None);
    // the next larger one is accepted
    assert_eq!(
        apply_op(whole(1), Rational::new(1, 999_999), '/'),
        Some(Rational::new(999_999, 1))
    );
    assert_eq!(
        apply_op(whole(1), Rational::new(-1, 999_999), '/'),
        Some(Rational::new(999_999, -1))
    );
}

#[test]
fn unknown_operator_is_rejected() {
    assert_eq!(apply_op(whole(2), whole(3), 'x'), None);
    assert_eq!(apply_op(whole(2), whole(3), '%'), None);
    assert_eq!(apply_op(whole(2), whole(3), ' '), None);
}

#[test]
fn negligible_means_within_a_millionth_of_zero() {
    assert_eq!(EPSILON_INVERSE, 1_000_000);
    assert!(whole(0).is_negligible());
    assert!(Rational::new(1, 1_000_000).is_negligible());
    assert!(Rational::new(-3, 3_000_000).is_negligible());
    assert!(!Rational::new(1, 999_999).is_negligible());
    assert!(!whole(1).is_negligible());
    assert!(!whole(-1).is_negligible());
    assert!(Rational::new(i128::MIN, i128::MIN).is_negligible() == false);
    assert!(Rational::new(1, i128::MIN).is_negligible());
}

#[test]
fn close_to_means_within_a_millionth() {
    assert!(whole(24).is_close_to(24));
    assert!(Rational::new(48, 2).is_close_to(24));
    assert!(Rational::new(-48, -2).is_close_to(24));
    assert!(!whole(23).is_close_to(24));
    assert!(!whole(25).is_close_to(24));
    assert!(Rational::new(24_000_001, 1_000_000).is_close_to(24));
    assert!(Rational::new(23_999_999, 1_000_000).is_close_to(24));
    assert!(!Rational::new(24_000_002, 1_000_000).is_close_to(24));
    assert!(!Rational::new(23_999_998, 1_000_000).is_close_to(24));
}

#[test]
fn same_value_ignores_the_representation() {
    assert!(Rational::new(8, 2).same_value(&whole(4)));
    assert!(Rational::new(-8, -2).same_value(&whole(4)));
    assert!(!Rational::new(8, 3).same_value(&whole(4)));
    assert!(Rational::new(2, 6).same_value(&Rational::new(1, 3)));
}

#[test]
fn from_int_has_denominator_one() {
    assert_eq!(whole(7), Rational::new(7, 1));
    assert_eq!(whole(-7), Rational { num: -7, den: 1 });
    assert_eq!(whole(i32::MIN).num, -2147483648);
}

#[test]
fn largest_operands_do_not_overflow() {
    let m = whole(i32::MIN);
    let p = apply_op(m, m, '*').unwrap();
    let q = apply_op(p, p, '*').unwrap();
    assert_eq!(q, Rational::new(1i128 << 124, 1));
    let s = apply_op(m, m, '/').unwrap();
    let t = apply_op(s, s, '+').unwrap();
    assert_eq!(t, Rational::new(1i128 << 63, 1i128 << 62));
}
