use clarith::Number;
use std::cmp::Ordering;

fn ratio(num: isize, den: isize) -> Number {
    Number::ratio(num, den).unwrap()
}

fn homographic_checked(x: Number, nx: isize, n: isize, dx: isize, d: isize) -> Number {
    Number::homographic(x, nx, n, dx, d).unwrap()
}

fn homographic_fails(x: Number, nx: isize, n: isize, dx: isize, d: isize) -> bool {
    matches!(
        Number::homographic(x, nx, n, dx, d),
        Err(clarith::Error::DivisionByZero)
    )
}

    // known well defined values from ratio unit tests

fn neg_two() -> Number {
    ratio(-2, 1)
}

fn neg_one() -> Number {
    ratio(-1, 1)
}

fn neg_two_thirds() -> Number {
    ratio(-2, 3)
}

fn neg_one_half() -> Number {
    ratio(-1, 2)
}

fn neg_one_fourth() -> Number {
    ratio(-1, 4)
}

fn zero() -> Number {
    ratio(0, 1)
}

fn one_fourth() -> Number {
    ratio(1, 4)
}

fn one_half() -> Number {
    ratio(1, 2)
}

fn two_thirds() -> Number {
    ratio(2, 3)
}

fn one() -> Number {
    ratio(1, 1)
}

fn two() -> Number {
    ratio(2, 1)
}

// Support

fn assert_eq(n1: Number, n2: Number) {
    assert_eq!(Number::compare(n1, n2).unwrap(), Ordering::Equal);
}

// Tests

#[test]
fn t_1111() {
    fn h(x: Number) -> Number {
        homographic_checked(x, 1, 1, 1, 1)
    }
    fn t(n1: Number, n2: Number) {
        assert_eq(h(n1), n2)
    }
    t(neg_two(), one());
    // t(neg_one(), one());
    t(neg_two_thirds(), one());
    t(neg_one_half(), one());
    t(neg_one_fourth(), one());
    t(zero(), one());
    t(one_fourth(), one());
    t(one_half(), one());
    t(two_thirds(), one());
    t(one(), one());
    t(two(), one());
}

#[test]
fn p_1111() {
    assert!(homographic_fails(neg_one(), 1, 1, 1, 1));
}

#[test]
fn t_1110() {
    fn h(x: Number) -> Number {
        homographic_checked(x, 1, 1, 1, 0)
    }
    fn t(n1: Number, n2: Number) {
        assert_eq(h(n1), n2)
    }
    t(neg_two(), one_half());
    t(neg_one(), zero());
    t(neg_two_thirds(), neg_one_half());
    t(neg_one_half(), neg_one());
    t(neg_one_fourth(), ratio(-3, 1));
    // t(zero(), inf());
    t(one_fourth(), ratio(5, 1));
    t(one_half(), ratio(3, 1));
    t(two_thirds(), ratio(5, 2));
    t(one(), two());
    t(two(), ratio(3, 2));
}

#[test]
fn p_1110() {
    assert!(homographic_fails(zero(), 1, 1, 1, 0));
}

#[test]
fn t_1101() {
    fn h(x: Number) -> Number {
        homographic_checked(x, 1, 1, 0, 1)
    }
    fn t(n1: Number, n2: Number) {
        assert_eq(h(n1), n2)
    }
    t(neg_two(), neg_one());
    t(neg_one(), zero());
    t(neg_two_thirds(), ratio(1, 3));
    t(neg_one_half(), one_half());
    t(neg_one_fourth(), ratio(3, 4));
    t(zero(), one());
    t(one_fourth(), ratio(5, 4));
    t(one_half(), ratio(3, 2));
    t(two_thirds(), ratio(5, 3));
    t(one(), two());
    t(two(), ratio(3, 1));
}

#[test]
fn t_1011() {
    fn h(x: Number) -> Number {
        homographic_checked(x, 1, 0, 1, 1)
    }
    fn t(n1: Number, n2: Number) {
        assert_eq(h(n1), n2)
    }
    t(neg_two(), two());
    // t(neg_one(), neg_inf());
    t(neg_two_thirds(), neg_two());
    t(neg_one_half(), neg_one());
    t(neg_one_fourth(), ratio(-1, 3));
    t(zero(), zero());
    t(one_fourth(), ratio(1, 5));
    t(one_half(), ratio(1, 3));
    t(two_thirds(), ratio(2, 5));
    t(one(), one_half());
    t(two(), two_thirds());
}

#[test]
fn p_1011() {
    assert!(homographic_fails(neg_one(), 1, 0, 1, 1));
}

#[test]
fn t_0111() {
    fn h(x: Number) -> Number {
        homographic_checked(x, 0, 1, 1, 1)
    }
    fn t(n1: Number, n2: Number) {
        assert_eq(h(n1), n2)
    }
    t(neg_two(), neg_one());
    // t(neg_one(), inf());
    t(neg_two_thirds(), ratio(3, 1));
    t(neg_one_half(), two());
    t(neg_one_fourth(), ratio(4, 3));
    t(zero(), one());
    t(one_fourth(), ratio(4, 5));
    t(one_half(), ratio(2, 3));
    t(two_thirds(), ratio(3, 5));
    t(one(), one_half());
    t(two(), ratio(1, 3));
}

#[test]
fn p_0111() {
    assert!(homographic_fails(neg_one(), 0, 1, 1, 1));
}

#[test]
fn t_0110() {
    fn h(x: Number) -> Number {
        homographic_checked(x, 0, 1, 1, 0)
    }
    fn t(n1: Number, n2: Number) {
        assert_eq(h(n1), n2)
    }
    t(neg_two(), neg_one_half());
    t(neg_one(), neg_one());
    t(neg_two_thirds(), ratio(-3, 2));
    t(neg_one_half(), neg_two());
    t(neg_one_fourth(), ratio(-4, 1));
    // t(zero(), inf());
    t(one_fourth(), ratio(4, 1));
    t(one_half(), two());
    t(two_thirds(), ratio(3, 2));
    t(one(), one());
    t(two(), one_half());
}

#[test]
fn p_0110() {
    assert!(homographic_fails(zero(), 0, 1, 1, 0));
}

#[test]
fn t_0101() {
    fn h(x: Number) -> Number {
        homographic_checked(x, 0, 1, 0, 1)
    }
    fn t(n1: Number, n2: Number) {
        assert_eq(h(n1), n2)
    }
    t(neg_two(), one());
    t(neg_one(), one());
    t(neg_two_thirds(), one());
    t(neg_one_half(), one());
    t(neg_one_fourth(), one());
    t(zero(), one());
    t(one_fourth(), one());
    t(one_half(), one());
    t(two_thirds(), one());
    t(one(), one());
    t(two(), one());
}

#[test]
fn t_0011() {
    fn h(x: Number) -> Number {
        homographic_checked(x, 0, 0, 1, 1)
    }
    fn t(n1: Number, n2: Number) {
        assert_eq(h(n1), n2)
    }
    t(neg_two(), zero());
    // t(neg_one(), zero());
    t(neg_two_thirds(), zero());
    t(neg_one_half(), zero());
    t(neg_one_fourth(), zero());
    t(zero(), zero());
    t(one_fourth(), zero());
    t(one_half(), zero());
    t(two_thirds(), zero());
    t(one(), zero());
    t(two(), zero());
}

#[test]
fn p_0011() {
    assert!(homographic_fails(neg_one(), 0, 0, 1, 1));
}

#[test]
fn t_0010() {
    fn h(x: Number) -> Number {
        homographic_checked(x, 0, 0, 1, 0)
    }
    fn t(n1: Number, n2: Number) {
        assert_eq(h(n1), n2)
    }
    t(neg_two(), zero());
    t(neg_one(), zero());
    t(neg_two_thirds(), zero());
    t(neg_one_half(), zero());
    t(neg_one_fourth(), zero());
    // t(zero(), zero());
    t(one_fourth(), zero());
    t(one_half(), zero());
    t(two_thirds(), zero());
    t(one(), zero());
    t(two(), zero());
}

#[test]
fn p_0010() {
    assert!(homographic_fails(zero(), 0, 0, 1, 0));
}

#[test]
fn t_0001() {
    fn h(x: Number) -> Number {
        homographic_checked(x, 0, 0, 0, 1)
    }
    fn t(n1: Number, n2: Number) {
        assert_eq(h(n1), n2)
    }
    t(neg_two(), zero());
    t(neg_one(), zero());
    t(neg_two_thirds(), zero());
    t(neg_one_half(), zero());
    t(neg_one_fourth(), zero());
    t(zero(), zero());
    t(one_fourth(), zero());
    t(one_half(), zero());
    t(two_thirds(), zero());
    t(one(), zero());
    t(two(), zero());
}

#[test]
fn t_0000() {
    assert!(homographic_fails(one(), 0, 0, 0, 0));
}

#[test]
fn p_0021() {
    assert!(homographic_fails(neg_one_half(), 0, 0, 2, 1));
}

#[test]
fn t_pppp() {
    fn h(x: Number) -> Number {
        homographic_checked(x, 2, 3, 4, 5)
    }
    fn t(n1: Number, n2: Number) {
        assert_eq(h(n1), n2)
    }
    t(neg_two(), ratio(1, 3));
    t(neg_one(), ratio(1, 1));
    t(neg_two_thirds(), ratio(5, 7));
    t(neg_one_half(), ratio(2, 3));
    t(neg_one_fourth(), ratio(5, 8));
    t(zero(), ratio(3, 5));
    t(one_fourth(), ratio(7, 12));
    t(one_half(), ratio(4, 7));
    t(two_thirds(), ratio(13, 23));
    t(one(), ratio(5, 9));
    t(two(), ratio(7, 13));
}

#[test]
fn t_pppn() {
    fn h(x: Number) -> Number {
        homographic_checked(x, 2, 3, 4, -5)
    }
    fn t(n1: Number, n2: Number) {
        assert_eq(h(n1), n2)
    }
    t(neg_two(), ratio(1, 13));
    t(neg_one(), ratio(-1, 9));
    t(neg_two_thirds(), ratio(-5, 23));
    t(neg_one_half(), ratio(-2, 7));
    t(neg_one_fourth(), ratio(-5, 12));
    t(zero(), ratio(-3, 5));
    t(one_fourth(), ratio(-7, 8));
    t(one_half(), ratio(-4, 3));
    t(two_thirds(), ratio(-13, 7));
    t(one(), ratio(-5, 1));
    t(two(), ratio(7, 3));
}

#[test]
fn t_ppnp() {
    fn h(x: Number) -> Number {
        homographic_checked(x, 2, 3, -4, 5)
    }
    fn t(n1: Number, n2: Number) {
        assert_eq(h(n1), n2)
    }
    t(neg_two(), ratio(-1, 13));
    t(neg_one(), ratio(1, 9));
    t(neg_two_thirds(), ratio(5, 23));
    t(neg_one_half(), ratio(2, 7));
    t(neg_one_fourth(), ratio(5, 12));
    t(zero(), ratio(3, 5));
    t(one_fourth(), ratio(7, 8));
    t(one_half(), ratio(4, 3));
    t(two_thirds(), ratio(13, 7));
    t(one(), ratio(5, 1));
    t(two(), ratio(-7, 3));
}

#[test]
fn t_pnpp() {
    fn h(x: Number) -> Number {
        homographic_checked(x, 2, -3, 4, 5)
    }
    fn t(n1: Number, n2: Number) {
        assert_eq(h(n1), n2)
    }
    t(neg_two(), ratio(7, 3));
    t(neg_one(), ratio(-5, 1));
    t(neg_two_thirds(), ratio(-13, 7));
    t(neg_one_half(), ratio(-4, 3));
    t(neg_one_fourth(), ratio(-7, 8));
    t(zero(), ratio(-3, 5));
    t(one_fourth(), ratio(-5, 12));
    t(one_half(), ratio(-2, 7));
    t(two_thirds(), ratio(-5, 23));
    t(one(), ratio(-1, 9));
    t(two(), ratio(1, 13));
}

#[test]
fn t_nppp() {
    fn h(x: Number) -> Number {
        homographic_checked(x, -2, 3, 4, 5)
    }
    fn t(n1: Number, n2: Number) {
        assert_eq(h(n1), n2)
    }
    t(neg_two(), ratio(-7, 3));
    t(neg_one(), ratio(5, 1));
    t(neg_two_thirds(), ratio(13, 7));
    t(neg_one_half(), ratio(4, 3));
    t(neg_one_fourth(), ratio(7, 8));
    t(zero(), ratio(3, 5));
    t(one_fourth(), ratio(5, 12));
    t(one_half(), ratio(2, 7));
    t(two_thirds(), ratio(5, 23));
    t(one(), ratio(1, 9));
    t(two(), ratio(-1, 13));
}

#[test]
fn t_nppn() {
    fn h(x: Number) -> Number {
        homographic_checked(x, -2, 3, 4, -5)
    }
    fn t(n1: Number, n2: Number) {
        assert_eq(h(n1), n2)
    }
    t(neg_two(), ratio(-7, 13));
    t(neg_one(), ratio(-5, 9));
    t(neg_two_thirds(), ratio(-13, 23));
    t(neg_one_half(), ratio(-4, 7));
    t(neg_one_fourth(), ratio(-7, 12));
    t(zero(), ratio(-3, 5));
    t(one_fourth(), ratio(-5, 8));
    t(one_half(), ratio(-2, 3));
    t(two_thirds(), ratio(-5, 7));
    t(one(), ratio(-1, 1));
    t(two(), ratio(-1, 3));
}

#[test]
fn t_npnp() {
    fn h(x: Number) -> Number {
        homographic_checked(x, -2, 3, -4, 5)
    }
    fn t(n1: Number, n2: Number) {
        assert_eq(h(n1), n2)
    }
    t(neg_two(), ratio(7, 13));
    t(neg_one(), ratio(5, 9));
    t(neg_two_thirds(), ratio(13, 23));
    t(neg_one_half(), ratio(4, 7));
    t(neg_one_fourth(), ratio(7, 12));
    t(zero(), ratio(3, 5));
    t(one_fourth(), ratio(5, 8));
    t(one_half(), ratio(2, 3));
    t(two_thirds(), ratio(5, 7));
    t(one(), ratio(1, 1));
    t(two(), ratio(1, 3));
}

#[test]
fn t_nnpp() {
    fn h(x: Number) -> Number {
        homographic_checked(x, -2, -3, 4, 5)
    }
    fn t(n1: Number, n2: Number) {
        assert_eq(h(n1), n2)
    }
    t(neg_two(), ratio(-1, 3));
    t(neg_one(), ratio(-1, 1));
    t(neg_two_thirds(), ratio(-5, 7));
    t(neg_one_half(), ratio(-2, 3));
    t(neg_one_fourth(), ratio(-5, 8));
    t(zero(), ratio(-3, 5));
    t(one_fourth(), ratio(-7, 12));
    t(one_half(), ratio(-4, 7));
    t(two_thirds(), ratio(-13, 23));
    t(one(), ratio(-5, 9));
    t(two(), ratio(-7, 13));
}

#[test]
fn t_nnpn() {
    fn h(x: Number) -> Number {
        homographic_checked(x, -2, -3, 4, -5)
    }
    fn t(n1: Number, n2: Number) {
        assert_eq(h(n1), n2)
    }
    t(neg_two(), ratio(-1, 13));
    t(neg_one(), ratio(1, 9));
    t(neg_two_thirds(), ratio(5, 23));
    t(neg_one_half(), ratio(2, 7));
    t(neg_one_fourth(), ratio(5, 12));
    t(zero(), ratio(3, 5));
    t(one_fourth(), ratio(7, 8));
    t(one_half(), ratio(4, 3));
    t(two_thirds(), ratio(13, 7));
    t(one(), ratio(5, 1));
    t(two(), ratio(-7, 3));
}

#[test]
fn t_nnnp() {
    fn h(x: Number) -> Number {
        homographic_checked(x, -2, -3, -4, 5)
    }
    fn t(n1: Number, n2: Number) {
        assert_eq(h(n1), n2)
    }
    t(neg_two(), ratio(1, 13));
    t(neg_one(), ratio(-1, 9));
    t(neg_two_thirds(), ratio(-5, 23));
    t(neg_one_half(), ratio(-2, 7));
    t(neg_one_fourth(), ratio(-5, 12));
    t(zero(), ratio(-3, 5));
    t(one_fourth(), ratio(-7, 8));
    t(one_half(), ratio(-4, 3));
    t(two_thirds(), ratio(-13, 7));
    t(one(), ratio(-5, 1));
    t(two(), ratio(7, 3));
}

#[test]
fn t_nnnn() {
    fn h(x: Number) -> Number {
        homographic_checked(x, -2, -3, -4, -5)
    }
    fn t(n1: Number, n2: Number) {
        assert_eq(h(n1), n2)
    }
    t(neg_two(), ratio(1, 3));
    t(neg_one(), ratio(1, 1));
    t(neg_two_thirds(), ratio(5, 7));
    t(neg_one_half(), ratio(2, 3));
    t(neg_one_fourth(), ratio(5, 8));
    t(zero(), ratio(3, 5));
    t(one_fourth(), ratio(7, 12));
    t(one_half(), ratio(4, 7));
    t(two_thirds(), ratio(13, 23));
    t(one(), ratio(5, 9));
    t(two(), ratio(7, 13));
}

#[test]
fn t_6342() {
    fn h(x: Number) -> Number {
        homographic_checked(x, 6, 3, 4, 2)
    }
    fn t(n1: Number, n2: Number) {
        assert_eq(h(n1), n2)
    }
    t(neg_two(), ratio(3, 2));
    t(neg_one(), ratio(3, 2));
    t(neg_two_thirds(), ratio(3, 2));
    // t(neg_one_half(), ratio(3, 2));
    t(neg_one_fourth(), ratio(3, 2));
    t(zero(), ratio(3, 2));
    t(one_fourth(), ratio(3, 2));
    t(one_half(), ratio(3, 2));
    t(two_thirds(), ratio(3, 2));
    t(one(), ratio(3, 2));
    t(two(), ratio(3, 2));
}

#[test]
fn p_6342() {
    assert!(homographic_fails(neg_one_half(), 6, 3, 4, 2));
}

fn consume(x: Number) {
    let (_, mut c) = x.unwrap_other();
    loop {
        match c.egest().unwrap() {
            None => {
                break;
            }
            _ => {}
        }
    }
}

#[test]
fn unity_does_not_overflow1() {
    consume(homographic_checked(
        ratio(isize::MAX, 1),
        1,
        0,
        0,
        1,
    ));
}

#[test]
fn unity_does_not_overflow2() {
    consume(homographic_checked(
        ratio(1, isize::MAX),
        1,
        0,
        0,
        1,
    ));
}

#[test]
fn mul_does_not_overflow1() {
    consume(homographic_checked(
        ratio(isize::MAX, 1),
        2,
        0,
        0,
        1,
    ));
}

#[test]
fn mul_does_not_overflow2() {
    consume(homographic_checked(
        ratio(1, isize::MAX),
        2,
        0,
        0,
        1,
    ));
}

#[test]
fn div_does_not_overflow1() {
    consume(homographic_checked(
        ratio(isize::MAX, 1),
        1,
        0,
        0,
        2,
    ));
}

#[test]
fn div_does_not_overflow2() {
    consume(homographic_checked(
        ratio(1, isize::MAX),
        1,
        0,
        0,
        2,
    ));
}

#[test]
fn rec_does_not_overflow1() {
    consume(homographic_checked(
        ratio(isize::MAX, 1),
        0,
        1,
        1,
        0,
    ));
}

#[test]
fn rec_does_not_overflow2() {
    consume(homographic_checked(
        ratio(1, isize::MAX),
        0,
        1,
        1,
        0,
    ));
}

#[test]
fn add_does_not_overflow2() {
    consume(homographic_checked(
        ratio(1, isize::MAX),
        1,
        1,
        0,
        1,
    ));
}

#[test]
fn rec_add_does_not_overflow2() {
    consume(homographic_checked(
        ratio(1, isize::MAX),
        0,
        1,
        1,
        1,
    ));
}

#[test]
fn incr_does_not_overflow1() {
    consume(homographic_checked(
        ratio(isize::MAX, 1),
        1,
        1,
        1,
        0,
    ));
}

#[test]
fn rec_incr_does_not_overflow1() {
    consume(homographic_checked(
        ratio(isize::MAX, 1),
        1,
        0,
        1,
        1,
    ));
}

