use clarith::Number;
use std::cmp::Ordering;

fn compare(n1: Number, n2: Number) -> Ordering {
    Number::compare(n1, n2).unwrap()
}

fn ratio(num: isize, den: isize) -> Number {
    Number::ratio(num, den).unwrap()
}

    fn neg_two() -> Number {
    ratio(-2, 1)
}

fn neg_one() -> Number {
    ratio(-1, 1)
}

fn neg_two_thirds() -> Number {
    ratio(-2, 3)
}

fn neg_one_half() -> Number {
    ratio(-1, 2)
}

fn neg_one_fourth() -> Number {
    ratio(-1, 4)
}

fn zero() -> Number {
    ratio(0, 1)
}

fn one_fourth() -> Number {
    ratio(1, 4)
}

fn one_half() -> Number {
    ratio(1, 2)
}

fn two_thirds() -> Number {
    ratio(2, 3)
}

fn one() -> Number {
    ratio(1, 1)
}

fn two() -> Number {
    ratio(2, 1)
}

#[test]
fn compare_negative_two() {
    assert_eq!(compare(neg_two(), neg_two()), Ordering::Equal);
    assert_eq!(compare(neg_two(), neg_one()), Ordering::Less);
    assert_eq!(compare(neg_two(), neg_two_thirds()), Ordering::Less);
    assert_eq!(compare(neg_two(), neg_one_half()), Ordering::Less);
    assert_eq!(compare(neg_two(), neg_one_fourth()), Ordering::Less);
    assert_eq!(compare(neg_two(), zero()), Ordering::Less);
    assert_eq!(compare(neg_two(), one_fourth()), Ordering::Less);
    assert_eq!(compare(neg_two(), one_half()), Ordering::Less);
    assert_eq!(compare(neg_two(), two_thirds()), Ordering::Less);
    assert_eq!(compare(neg_two(), one()), Ordering::Less);
    assert_eq!(compare(neg_two(), two()), Ordering::Less);
}

#[test]
fn compare_negative_one() {
    assert_eq!(compare(neg_one(), neg_two()), Ordering::Greater);
    assert_eq!(compare(neg_one(), neg_one()), Ordering::Equal);
    assert_eq!(compare(neg_one(), neg_two_thirds()), Ordering::Less);
    assert_eq!(compare(neg_one(), neg_one_half()), Ordering::Less);
    assert_eq!(compare(neg_one(), neg_one_fourth()), Ordering::Less);
    assert_eq!(compare(neg_one(), zero()), Ordering::Less);
    assert_eq!(compare(neg_one(), one_fourth()), Ordering::Less);
    assert_eq!(compare(neg_one(), one_half()), Ordering::Less);
    assert_eq!(compare(neg_one(), two_thirds()), Ordering::Less);
    assert_eq!(compare(neg_one(), one()), Ordering::Less);
    assert_eq!(compare(neg_one(), two()), Ordering::Less);
}

#[test]
fn compare_negative_two_thirds() {
    assert_eq!(compare(neg_two_thirds(), neg_two()), Ordering::Greater);
    assert_eq!(compare(neg_two_thirds(), neg_one()), Ordering::Greater);
    assert_eq!(compare(neg_two_thirds(), neg_two_thirds()), Ordering::Equal);
    assert_eq!(compare(neg_two_thirds(), neg_one_half()), Ordering::Less);
    assert_eq!(compare(neg_two_thirds(), neg_one_fourth()), Ordering::Less);
    assert_eq!(compare(neg_two_thirds(), zero()), Ordering::Less);
    assert_eq!(compare(neg_two_thirds(), one_fourth()), Ordering::Less);
    assert_eq!(compare(neg_two_thirds(), one_half()), Ordering::Less);
    assert_eq!(compare(neg_two_thirds(), two_thirds()), Ordering::Less);
    assert_eq!(compare(neg_two_thirds(), one()), Ordering::Less);
    assert_eq!(compare(neg_two_thirds(), two()), Ordering::Less);
}

#[test]
fn compare_negative_one_half() {
    assert_eq!(compare(neg_one_half(), neg_two()), Ordering::Greater);
    assert_eq!(compare(neg_one_half(), neg_one()), Ordering::Greater);
    assert_eq!(compare(neg_one_half(), neg_two_thirds()), Ordering::Greater);
    assert_eq!(compare(neg_one_half(), neg_one_half()), Ordering::Equal);
    assert_eq!(compare(neg_one_half(), neg_one_fourth()), Ordering::Less);
    assert_eq!(compare(neg_one_half(), zero()), Ordering::Less);
    assert_eq!(compare(neg_one_half(), one_fourth()), Ordering::Less);
    assert_eq!(compare(neg_one_half(), one_half()), Ordering::Less);
    assert_eq!(compare(neg_one_half(), two_thirds()), Ordering::Less);
    assert_eq!(compare(neg_one_half(), one()), Ordering::Less);
    assert_eq!(compare(neg_one_half(), two()), Ordering::Less);
}

#[test]
fn compare_negative_one_fourth() {
    assert_eq!(compare(neg_one_fourth(), neg_two()), Ordering::Greater);
    assert_eq!(compare(neg_one_fourth(), neg_one()), Ordering::Greater);
    assert_eq!(
        compare(neg_one_fourth(), neg_two_thirds()),
        Ordering::Greater
    );
    assert_eq!(compare(neg_one_fourth(), neg_one_half()), Ordering::Greater);
    assert_eq!(compare(neg_one_fourth(), neg_one_fourth()), Ordering::Equal);
    assert_eq!(compare(neg_one_fourth(), zero()), Ordering::Less);
    assert_eq!(compare(neg_one_fourth(), one_fourth()), Ordering::Less);
    assert_eq!(compare(neg_one_fourth(), one_half()), Ordering::Less);
    assert_eq!(compare(neg_one_fourth(), two_thirds()), Ordering::Less);
    assert_eq!(compare(neg_one_fourth(), one()), Ordering::Less);
    assert_eq!(compare(neg_one_fourth(), two()), Ordering::Less);
}

#[test]
fn compare_zero() {
    assert_eq!(compare(zero(), neg_two()), Ordering::Greater);
    assert_eq!(compare(zero(), neg_one()), Ordering::Greater);
    assert_eq!(compare(zero(), neg_two_thirds()), Ordering::Greater);
    assert_eq!(compare(zero(), neg_one_half()), Ordering::Greater);
    assert_eq!(compare(zero(), neg_one_fourth()), Ordering::Greater);
    assert_eq!(compare(zero(), zero()), Ordering::Equal);
    assert_eq!(compare(zero(), one_fourth()), Ordering::Less);
    assert_eq!(compare(zero(), one_half()), Ordering::Less);
    assert_eq!(compare(zero(), two_thirds()), Ordering::Less);
    assert_eq!(compare(zero(), one()), Ordering::Less);
    assert_eq!(compare(zero(), two()), Ordering::Less);
}

#[test]
fn compare_one_fourth() {
    assert_eq!(compare(one_fourth(), neg_two()), Ordering::Greater);
    assert_eq!(compare(one_fourth(), neg_one()), Ordering::Greater);
    assert_eq!(compare(one_fourth(), neg_two_thirds()), Ordering::Greater);
    assert_eq!(compare(one_fourth(), neg_one_half()), Ordering::Greater);
    assert_eq!(compare(one_fourth(), neg_one_fourth()), Ordering::Greater);
    assert_eq!(compare(one_fourth(), zero()), Ordering::Greater);
    assert_eq!(compare(one_fourth(), one_fourth()), Ordering::Equal);
    assert_eq!(compare(one_fourth(), one_half()), Ordering::Less);
    assert_eq!(compare(one_fourth(), two_thirds()), Ordering::Less);
    assert_eq!(compare(one_fourth(), one()), Ordering::Less);
    assert_eq!(compare(one_fourth(), two()), Ordering::Less);
}

#[test]
fn compare_one_half() {
    assert_eq!(compare(one_half(), neg_two()), Ordering::Greater);
    assert_eq!(compare(one_half(), neg_one()), Ordering::Greater);
    assert_eq!(compare(one_half(), neg_two_thirds()), Ordering::Greater);
    assert_eq!(compare(one_half(), neg_one_half()), Ordering::Greater);
    assert_eq!(compare(one_half(), neg_one_fourth()), Ordering::Greater);
    assert_eq!(compare(one_half(), zero()), Ordering::Greater);
    assert_eq!(compare(one_half(), one_fourth()), Ordering::Greater);
    assert_eq!(compare(one_half(), one_half()), Ordering::Equal);
    assert_eq!(compare(one_half(), two_thirds()), Ordering::Less);
    assert_eq!(compare(one_half(), one()), Ordering::Less);
    assert_eq!(compare(one_half(), two()), Ordering::Less);
}

#[test]
fn compare_two_thirds() {
    assert_eq!(compare(two_thirds(), neg_two()), Ordering::Greater);
    assert_eq!(compare(two_thirds(), neg_one()), Ordering::Greater);
    assert_eq!(compare(two_thirds(), neg_two_thirds()), Ordering::Greater);
    assert_eq!(compare(two_thirds(), neg_one_half()), Ordering::Greater);
    assert_eq!(compare(two_thirds(), neg_one_fourth()), Ordering::Greater);
    assert_eq!(compare(two_thirds(), zero()), Ordering::Greater);
    assert_eq!(compare(two_thirds(), one_fourth()), Ordering::Greater);
    assert_eq!(compare(two_thirds(), one_half()), Ordering::Greater);
    assert_eq!(compare(two_thirds(), two_thirds()), Ordering::Equal);
    assert_eq!(compare(two_thirds(), one()), Ordering::Less);
    assert_eq!(compare(two_thirds(), two()), Ordering::Less);
}

#[test]
fn compare_one() {
    assert_eq!(compare(one(), neg_two()), Ordering::Greater);
    assert_eq!(compare(one(), neg_one()), Ordering::Greater);
    assert_eq!(compare(one(), neg_two_thirds()), Ordering::Greater);
    assert_eq!(compare(one(), neg_one_half()), Ordering::Greater);
    assert_eq!(compare(one(), neg_one_fourth()), Ordering::Greater);
    assert_eq!(compare(one(), zero()), Ordering::Greater);
    assert_eq!(compare(one(), one_fourth()), Ordering::Greater);
    assert_eq!(compare(one(), one_half()), Ordering::Greater);
    assert_eq!(compare(one(), two_thirds()), Ordering::Greater);
    assert_eq!(compare(one(), one()), Ordering::Equal);
    assert_eq!(compare(one(), two()), Ordering::Less);
}

#[test]
fn compare_two() {
    assert_eq!(compare(two(), neg_two()), Ordering::Greater);
    assert_eq!(compare(two(), neg_one()), Ordering::Greater);
    assert_eq!(compare(two(), neg_two_thirds()), Ordering::Greater);
    assert_eq!(compare(two(), neg_one_half()), Ordering::Greater);
    assert_eq!(compare(two(), neg_one_fourth()), Ordering::Greater);
    assert_eq!(compare(two(), zero()), Ordering::Greater);
    assert_eq!(compare(two(), one_fourth()), Ordering::Greater);
    assert_eq!(compare(two(), one_half()), Ordering::Greater);
    assert_eq!(compare(two(), two_thirds()), Ordering::Greater);
    assert_eq!(compare(two(), one()), Ordering::Greater);
    assert_eq!(compare(two(), two()), Ordering::Equal);
}

