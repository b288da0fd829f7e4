use clarith::Number;
use std::cmp::Ordering;

fn ratio(num: isize, den: isize) -> Number {
    Number::ratio(num, den).unwrap()
}

fn combine_checked(
    x: Number, y: Number,
    nxy: isize, nx: isize, ny: isize, n: isize,
    dxy: isize, dx: isize, dy: isize, d: isize,
) -> Number {
    Number::combine(x, y, nxy, nx, ny, n, dxy, dx, dy, d).unwrap()
}

fn compare_ok(n1: Number, n2: Number) -> Ordering {
    Number::compare(n1, n2).unwrap()
}

    #[test]
fn mul() {
    fn t(xn: isize, xd: isize, yn: isize, yd: isize, rn: isize, rd: isize) -> bool {
        compare_ok(
            combine_checked(
                ratio(xn, xd),
                ratio(yn, yd),
                1,
                0,
                0,
                0,
                0,
                0,
                0,
                1,
            ),
            ratio(rn, rd),
        ) == Ordering::Equal
    }
    assert!(t(-2, 1, -2, 1, 4, 1));
    assert!(t(-2, 1, -1, 1, 2, 1));
    assert!(t(-2, 1, -2, 3, 4, 3));
    assert!(t(-2, 1, -1, 2, 1, 1));
    assert!(t(-2, 1, -1, 4, 1, 2));
    assert!(t(-2, 1, 0, 1, 0, 1));
    assert!(t(-2, 1, 1, 4, -1, 2));
    assert!(t(-2, 1, 1, 2, -1, 1));
    assert!(t(-2, 1, 2, 3, -4, 3));
    assert!(t(-2, 1, 1, 1, -2, 1));
    assert!(t(-2, 1, 2, 1, -4, 1));
    assert!(t(-1, 1, -2, 1, 2, 1));
    assert!(t(-1, 1, -1, 1, 1, 1));
    assert!(t(-1, 1, -2, 3, 2, 3));
    assert!(t(-1, 1, -1, 2, 1, 2));
    assert!(t(-1, 1, -1, 4, 1, 4));
    assert!(t(-1, 1, 0, 1, 0, 1));
    assert!(t(-1, 1, 1, 4, -1, 4));
    assert!(t(-1, 1, 1, 2, -1, 2));
    assert!(t(-1, 1, 2, 3, -2, 3));
    assert!(t(-1, 1, 1, 1, -1, 1));
    assert!(t(-1, 1, 2, 1, -2, 1));
    assert!(t(-2, 3, -2, 1, 4, 3));
    assert!(t(-2, 3, -1, 1, 2, 3));
    assert!(t(-2, 3, -2, 3, 4, 9));
    assert!(t(-2, 3, -1, 2, 1, 3));
    assert!(t(-2, 3, -1, 4, 1, 6));
    assert!(t(-2, 3, 0, 1, 0, 1));
    assert!(t(-2, 3, 1, 4, -1, 6));
    assert!(t(-2, 3, 1, 2, -1, 3));
    assert!(t(-2, 3, 2, 3, -4, 9));
    assert!(t(-2, 3, 1, 1, -2, 3));
    assert!(t(-2, 3, 2, 1, -4, 3));
    assert!(t(-1, 2, -2, 1, 1, 1));
    assert!(t(-1, 2, -1, 1, 1, 2));
    assert!(t(-1, 2, -2, 3, 1, 3));
    assert!(t(-1, 2, -1, 2, 1, 4));
    assert!(t(-1, 2, -1, 4, 1, 8));
    assert!(t(-1, 2, 0, 1, 0, 1));
    assert!(t(-1, 2, 1, 4, -1, 8));
    assert!(t(-1, 2, 1, 2, -1, 4));
    assert!(t(-1, 2, 2, 3, -1, 3));
    assert!(t(-1, 2, 1, 1, -1, 2));
    assert!(t(-1, 2, 2, 1, -1, 1));
    assert!(t(-1, 4, -2, 1, 1, 2));
    assert!(t(-1, 4, -1, 1, 1, 4));
    assert!(t(-1, 4, -2, 3, 1, 6));
    assert!(t(-1, 4, -1, 2, 1, 8));
    assert!(t(-1, 4, -1, 4, 1, 16));
    assert!(t(-1, 4, 0, 1, 0, 1));
    assert!(t(-1, 4, 1, 4, -1, 16));
    assert!(t(-1, 4, 1, 2, -1, 8));
    assert!(t(-1, 4, 2, 3, -1, 6));
    assert!(t(-1, 4, 1, 1, -1, 4));
    assert!(t(-1, 4, 2, 1, -1, 2));
    assert!(t(0, 1, -2, 1, 0, 1));
    assert!(t(0, 1, -1, 1, 0, 1));
    assert!(t(0, 1, -2, 3, 0, 1));
    assert!(t(0, 1, -1, 2, 0, 1));
    assert!(t(0, 1, -1, 4, 0, 1));
    assert!(t(0, 1, 0, 1, 0, 1));
    assert!(t(0, 1, 1, 4, 0, 1));
    assert!(t(0, 1, 1, 2, 0, 1));
    assert!(t(0, 1, 2, 3, 0, 1));
    assert!(t(0, 1, 1, 1, 0, 1));
    assert!(t(0, 1, 2, 1, 0, 1));
    assert!(t(1, 4, -2, 1, -1, 2));
    assert!(t(1, 4, -1, 1, -1, 4));
    assert!(t(1, 4, -2, 3, -1, 6));
    assert!(t(1, 4, -1, 2, -1, 8));
    assert!(t(1, 4, -1, 4, -1, 16));
    assert!(t(1, 4, 0, 1, 0, 1));
    assert!(t(1, 4, 1, 4, 1, 16));
    assert!(t(1, 4, 1, 2, 1, 8));
    assert!(t(1, 4, 2, 3, 1, 6));
    assert!(t(1, 4, 1, 1, 1, 4));
    assert!(t(1, 4, 2, 1, 1, 2));
    assert!(t(1, 2, -2, 1, -1, 1));
    assert!(t(1, 2, -1, 1, -1, 2));
    assert!(t(1, 2, -2, 3, -1, 3));
    assert!(t(1, 2, -1, 2, -1, 4));
    assert!(t(1, 2, -1, 4, -1, 8));
    assert!(t(1, 2, 0, 1, 0, 1));
    assert!(t(1, 2, 1, 4, 1, 8));
    assert!(t(1, 2, 1, 2, 1, 4));
    assert!(t(1, 2, 2, 3, 1, 3));
    assert!(t(1, 2, 1, 1, 1, 2));
    assert!(t(1, 2, 2, 1, 1, 1));
    assert!(t(2, 3, -2, 1, -4, 3));
    assert!(t(2, 3, -1, 1, -2, 3));
    assert!(t(2, 3, -2, 3, -4, 9));
    assert!(t(2, 3, -1, 2, -1, 3));
    assert!(t(2, 3, -1, 4, -1, 6));
    assert!(t(2, 3, 0, 1, 0, 1));
    assert!(t(2, 3, 1, 4, 1, 6));
    assert!(t(2, 3, 1, 2, 1, 3));
    assert!(t(2, 3, 2, 3, 4, 9));
    assert!(t(2, 3, 1, 1, 2, 3));
    assert!(t(2, 3, 2, 1, 4, 3));
    assert!(t(1, 1, -2, 1, -2, 1));
    assert!(t(1, 1, -1, 1, -1, 1));
    assert!(t(1, 1, -2, 3, -2, 3));
    assert!(t(1, 1, -1, 2, -1, 2));
    assert!(t(1, 1, -1, 4, -1, 4));
    assert!(t(1, 1, 0, 1, 0, 1));
    assert!(t(1, 1, 1, 4, 1, 4));
    assert!(t(1, 1, 1, 2, 1, 2));
    assert!(t(1, 1, 2, 3, 2, 3));
    assert!(t(1, 1, 1, 1, 1, 1));
    assert!(t(1, 1, 2, 1, 2, 1));
    assert!(t(2, 1, -2, 1, -4, 1));
    assert!(t(2, 1, -1, 1, -2, 1));
    assert!(t(2, 1, -2, 3, -4, 3));
    assert!(t(2, 1, -1, 2, -1, 1));
    assert!(t(2, 1, -1, 4, -1, 2));
    assert!(t(2, 1, 0, 1, 0, 1));
    assert!(t(2, 1, 1, 4, 1, 2));
    assert!(t(2, 1, 1, 2, 1, 1));
    assert!(t(2, 1, 2, 3, 4, 3));
    assert!(t(2, 1, 1, 1, 2, 1));
    assert!(t(2, 1, 2, 1, 4, 1));
}

#[test]
fn div() {
    fn t(xn: isize, xd: isize, yn: isize, yd: isize, rn: isize, rd: isize) -> bool {
        compare_ok(
            combine_checked(
                ratio(xn, xd),
                ratio(yn, yd),
                0,
                1,
                0,
                0,
                0,
                0,
                1,
                0,
            ),
            ratio(rn, rd),
        ) == Ordering::Equal
    }
    assert!(t(-2, 1, -2, 1, 1, 1));
    assert!(t(-2, 1, -1, 1, 2, 1));
    assert!(t(-2, 1, -2, 3, 3, 1));
    assert!(t(-2, 1, -1, 2, 4, 1));
    assert!(t(-2, 1, -1, 4, 8, 1));
    assert!(t(-2, 1, 1, 4, -8, 1));
    assert!(t(-2, 1, 1, 2, -4, 1));
    assert!(t(-2, 1, 2, 3, -3, 1));
    assert!(t(-2, 1, 1, 1, -2, 1));
    assert!(t(-2, 1, 2, 1, -1, 1));
    assert!(t(-1, 1, -2, 1, 1, 2));
    assert!(t(-1, 1, -1, 1, 1, 1));
    assert!(t(-1, 1, -2, 3, 3, 2));
    assert!(t(-1, 1, -1, 2, 2, 1));
    assert!(t(-1, 1, -1, 4, 4, 1));
    assert!(t(-1, 1, 1, 4, -4, 1));
    assert!(t(-1, 1, 1, 2, -2, 1));
    assert!(t(-1, 1, 2, 3, -3, 2));
    assert!(t(-1, 1, 1, 1, -1, 1));
    assert!(t(-1, 1, 2, 1, -1, 2));
    assert!(t(-2, 3, -2, 1, 1, 3));
    assert!(t(-2, 3, -1, 1, 2, 3));
    assert!(t(-2, 3, -2, 3, 1, 1));
    assert!(t(-2, 3, -1, 2, 4, 3));
    assert!(t(-2, 3, -1, 4, 8, 3));
    assert!(t(-2, 3, 1, 4, -8, 3));
    assert!(t(-2, 3, 1, 2, -4, 3));
    assert!(t(-2, 3, 2, 3, -1, 1));
    assert!(t(-2, 3, 1, 1, -2, 3));
    assert!(t(-2, 3, 2, 1, -1, 3));
    assert!(t(-1, 2, -2, 1, 1, 4));
    assert!(t(-1, 2, -1, 1, 1, 2));
    assert!(t(-1, 2, -2, 3, 3, 4));
    assert!(t(-1, 2, -1, 2, 1, 1));
    assert!(t(-1, 2, -1, 4, 2, 1));
    assert!(t(-1, 2, 1, 4, -2, 1));
    assert!(t(-1, 2, 1, 2, -1, 1));
    assert!(t(-1, 2, 2, 3, -3, 4));
    assert!(t(-1, 2, 1, 1, -1, 2));
    assert!(t(-1, 2, 2, 1, -1, 4));
    assert!(t(-1, 4, -2, 1, 1, 8));
    assert!(t(-1, 4, -1, 1, 1, 4));
    assert!(t(-1, 4, -2, 3, 3, 8));
    assert!(t(-1, 4, -1, 2, 1, 2));
    assert!(t(-1, 4, -1, 4, 1, 1));
    assert!(t(-1, 4, 1, 4, -1, 1));
    assert!(t(-1, 4, 1, 2, -1, 2));
    assert!(t(-1, 4, 2, 3, -3, 8));
    assert!(t(-1, 4, 1, 1, -1, 4));
    assert!(t(-1, 4, 2, 1, -1, 8));
    assert!(t(0, 1, -2, 1, 0, 1));
    assert!(t(0, 1, -1, 1, 0, 1));
    assert!(t(0, 1, -2, 3, 0, 1));
    assert!(t(0, 1, -1, 2, 0, 1));
    assert!(t(0, 1, -1, 4, 0, 1));
    assert!(t(0, 1, 1, 4, 0, 1));
    assert!(t(0, 1, 1, 2, 0, 1));
    assert!(t(0, 1, 2, 3, 0, 1));
    assert!(t(0, 1, 1, 1, 0, 1));
    assert!(t(0, 1, 2, 1, 0, 1));
    assert!(t(1, 4, -2, 1, -1, 8));
    assert!(t(1, 4, -1, 1, -1, 4));
    assert!(t(1, 4, -2, 3, -3, 8));
    assert!(t(1, 4, -1, 2, -1, 2));
    assert!(t(1, 4, -1, 4, -1, 1));
    assert!(t(1, 4, 1, 4, 1, 1));
    assert!(t(1, 4, 1, 2, 1, 2));
    assert!(t(1, 4, 2, 3, 3, 8));
    assert!(t(1, 4, 1, 1, 1, 4));
    assert!(t(1, 4, 2, 1, 1, 8));
    assert!(t(1, 2, -2, 1, -1, 4));
    assert!(t(1, 2, -1, 1, -1, 2));
    assert!(t(1, 2, -2, 3, -3, 4));
    assert!(t(1, 2, -1, 2, -1, 1));
    assert!(t(1, 2, -1, 4, -2, 1));
    assert!(t(1, 2, 1, 4, 2, 1));
    assert!(t(1, 2, 1, 2, 1, 1));
    assert!(t(1, 2, 2, 3, 3, 4));
    assert!(t(1, 2, 1, 1, 1, 2));
    assert!(t(1, 2, 2, 1, 1, 4));
    assert!(t(2, 3, -2, 1, -1, 3));
    assert!(t(2, 3, -1, 1, -2, 3));
    assert!(t(2, 3, -2, 3, -1, 1));
    assert!(t(2, 3, -1, 2, -4, 3));
    assert!(t(2, 3, -1, 4, -8, 3));
    assert!(t(2, 3, 1, 4, 8, 3));
    assert!(t(2, 3, 1, 2, 4, 3));
    assert!(t(2, 3, 2, 3, 1, 1));
    assert!(t(2, 3, 1, 1, 2, 3));
    assert!(t(2, 3, 2, 1, 1, 3));
    assert!(t(1, 1, -2, 1, -1, 2));
    assert!(t(1, 1, -1, 1, -1, 1));
    assert!(t(1, 1, -2, 3, -3, 2));
    assert!(t(1, 1, -1, 2, -2, 1));
    assert!(t(1, 1, -1, 4, -4, 1));
    assert!(t(1, 1, 1, 4, 4, 1));
    assert!(t(1, 1, 1, 2, 2, 1));
    assert!(t(1, 1, 2, 3, 3, 2));
    assert!(t(1, 1, 1, 1, 1, 1));
    assert!(t(1, 1, 2, 1, 1, 2));
    assert!(t(2, 1, -2, 1, -1, 1));
    assert!(t(2, 1, -1, 1, -2, 1));
    assert!(t(2, 1, -2, 3, -3, 1));
    assert!(t(2, 1, -1, 2, -4, 1));
    assert!(t(2, 1, -1, 4, -8, 1));
    assert!(t(2, 1, 1, 4, 8, 1));
    assert!(t(2, 1, 1, 2, 4, 1));
    assert!(t(2, 1, 2, 3, 3, 1));
    assert!(t(2, 1, 1, 1, 2, 1));
    assert!(t(2, 1, 2, 1, 1, 1));
}

#[test]
fn add() {
    fn t(xn: isize, xd: isize, yn: isize, yd: isize, rn: isize, rd: isize) -> bool {
        compare_ok(
            combine_checked(
                ratio(xn, xd),
                ratio(yn, yd),
                0,
                1,
                1,
                0,
                0,
                0,
                0,
                1,
            ),
            ratio(rn, rd),
        ) == Ordering::Equal
    }
    assert!(t(-2, 1, -2, 1, -4, 1));
    assert!(t(-2, 1, -1, 1, -3, 1));
    assert!(t(-2, 1, -2, 3, -8, 3));
    assert!(t(-2, 1, -1, 2, -5, 2));
    assert!(t(-2, 1, -1, 4, -9, 4));
    assert!(t(-2, 1, 0, 1, -2, 1));
    assert!(t(-2, 1, 1, 4, -7, 4));
    assert!(t(-2, 1, 1, 2, -3, 2));
    assert!(t(-2, 1, 2, 3, -4, 3));
    assert!(t(-2, 1, 1, 1, -1, 1));
    assert!(t(-2, 1, 2, 1, 0, 1));
    assert!(t(-1, 1, -2, 1, -3, 1));
    assert!(t(-1, 1, -1, 1, -2, 1));
    assert!(t(-1, 1, -2, 3, -5, 3));
    assert!(t(-1, 1, -1, 2, -3, 2));
    assert!(t(-1, 1, -1, 4, -5, 4));
    assert!(t(-1, 1, 0, 1, -1, 1));
    assert!(t(-1, 1, 1, 4, -3, 4));
    assert!(t(-1, 1, 1, 2, -1, 2));
    assert!(t(-1, 1, 2, 3, -1, 3));
    assert!(t(-1, 1, 1, 1, 0, 1));
    assert!(t(-1, 1, 2, 1, 1, 1));
    assert!(t(-2, 3, -2, 1, -8, 3));
    assert!(t(-2, 3, -1, 1, -5, 3));
    assert!(t(-2, 3, -2, 3, -4, 3));
    assert!(t(-2, 3, -1, 2, -7, 6));
    assert!(t(-2, 3, -1, 4, -11, 12));
    assert!(t(-2, 3, 0, 1, -2, 3));
    assert!(t(-2, 3, 1, 4, -5, 12));
    assert!(t(-2, 3, 1, 2, -1, 6));
    assert!(t(-2, 3, 2, 3, 0, 1));
    assert!(t(-2, 3, 1, 1, 1, 3));
    assert!(t(-2, 3, 2, 1, 4, 3));
    assert!(t(-1, 2, -2, 1, -5, 2));
    assert!(t(-1, 2, -1, 1, -3, 2));
    assert!(t(-1, 2, -2, 3, -7, 6));
    assert!(t(-1, 2, -1, 2, -1, 1));
    assert!(t(-1, 2, -1, 4, -3, 4));
    assert!(t(-1, 2, 0, 1, -1, 2));
    assert!(t(-1, 2, 1, 4, -1, 4));
    assert!(t(-1, 2, 1, 2, 0, 1));
    assert!(t(-1, 2, 2, 3, 1, 6));
    assert!(t(-1, 2, 1, 1, 1, 2));
    assert!(t(-1, 2, 2, 1, 3, 2));
    assert!(t(-1, 4, -2, 1, -9, 4));
    assert!(t(-1, 4, -1, 1, -5, 4));
    assert!(t(-1, 4, -2, 3, -11, 12));
    assert!(t(-1, 4, -1, 2, -3, 4));
    assert!(t(-1, 4, -1, 4, -1, 2));
    assert!(t(-1, 4, 0, 1, -1, 4));
    assert!(t(-1, 4, 1, 4, 0, 1));
    assert!(t(-1, 4, 1, 2, 1, 4));
    assert!(t(-1, 4, 2, 3, 5, 12));
    assert!(t(-1, 4, 1, 1, 3, 4));
    assert!(t(-1, 4, 2, 1, 7, 4));
    assert!(t(0, 1, -2, 1, -2, 1));
    assert!(t(0, 1, -1, 1, -1, 1));
    assert!(t(0, 1, -2, 3, -2, 3));
    assert!(t(0, 1, -1, 2, -1, 2));
    assert!(t(0, 1, -1, 4, -1, 4));
    assert!(t(0, 1, 0, 1, 0, 1));
    assert!(t(0, 1, 1, 4, 1, 4));
    assert!(t(0, 1, 1, 2, 1, 2));
    assert!(t(0, 1, 2, 3, 2, 3));
    assert!(t(0, 1, 1, 1, 1, 1));
    assert!(t(0, 1, 2, 1, 2, 1));
    assert!(t(1, 4, -2, 1, -7, 4));
    assert!(t(1, 4, -1, 1, -3, 4));
    assert!(t(1, 4, -2, 3, -5, 12));
    assert!(t(1, 4, -1, 2, -1, 4));
    assert!(t(1, 4, -1, 4, 0, 1));
    assert!(t(1, 4, 0, 1, 1, 4));
    assert!(t(1, 4, 1, 4, 1, 2));
    assert!(t(1, 4, 1, 2, 3, 4));
    assert!(t(1, 4, 2, 3, 11, 12));
    assert!(t(1, 4, 1, 1, 5, 4));
    assert!(t(1, 4, 2, 1, 9, 4));
    assert!(t(1, 2, -2, 1, -3, 2));
    assert!(t(1, 2, -1, 1, -1, 2));
    assert!(t(1, 2, -2, 3, -1, 6));
    assert!(t(1, 2, -1, 2, 0, 1));
    assert!(t(1, 2, -1, 4, 1, 4));
    assert!(t(1, 2, 0, 1, 1, 2));
    assert!(t(1, 2, 1, 4, 3, 4));
    assert!(t(1, 2, 1, 2, 1, 1));
    assert!(t(1, 2, 2, 3, 7, 6));
    assert!(t(1, 2, 1, 1, 3, 2));
    assert!(t(1, 2, 2, 1, 5, 2));
    assert!(t(2, 3, -2, 1, -4, 3));
    assert!(t(2, 3, -1, 1, -1, 3));
    assert!(t(2, 3, -2, 3, 0, 1));
    assert!(t(2, 3, -1, 2, 1, 6));
    assert!(t(2, 3, -1, 4, 5, 12));
    assert!(t(2, 3, 0, 1, 2, 3));
    assert!(t(2, 3, 1, 4, 11, 12));
    assert!(t(2, 3, 1, 2, 7, 6));
    assert!(t(2, 3, 2, 3, 4, 3));
    assert!(t(2, 3, 1, 1, 5, 3));
    assert!(t(2, 3, 2, 1, 8, 3));
    assert!(t(1, 1, -2, 1, -1, 1));
    assert!(t(1, 1, -1, 1, 0, 1));
    assert!(t(1, 1, -2, 3, 1, 3));
    assert!(t(1, 1, -1, 2, 1, 2));
    assert!(t(1, 1, -1, 4, 3, 4));
    assert!(t(1, 1, 0, 1, 1, 1));
    assert!(t(1, 1, 1, 4, 5, 4));
    assert!(t(1, 1, 1, 2, 3, 2));
    assert!(t(1, 1, 2, 3, 5, 3));
    assert!(t(1, 1, 1, 1, 2, 1));
    assert!(t(1, 1, 2, 1, 3, 1));
    assert!(t(2, 1, -2, 1, 0, 1));
    assert!(t(2, 1, -1, 1, 1, 1));
    assert!(t(2, 1, -2, 3, 4, 3));
    assert!(t(2, 1, -1, 2, 3, 2));
    assert!(t(2, 1, -1, 4, 7, 4));
    assert!(t(2, 1, 0, 1, 2, 1));
    assert!(t(2, 1, 1, 4, 9, 4));
    assert!(t(2, 1, 1, 2, 5, 2));
    assert!(t(2, 1, 2, 3, 8, 3));
    assert!(t(2, 1, 1, 1, 3, 1));
    assert!(t(2, 1, 2, 1, 4, 1));
}

#[test]
fn sub() {
    fn t(xn: isize, xd: isize, yn: isize, yd: isize, rn: isize, rd: isize) -> bool {
        compare_ok(
            combine_checked(
                ratio(xn, xd),
                ratio(yn, yd),
                0,
                1,
                -1,
                0,
                0,
                0,
                0,
                1,
            ),
            ratio(rn, rd),
        ) == Ordering::Equal
    }
    assert!(t(-2, 1, -2, 1, 0, 1));
    assert!(t(-2, 1, -1, 1, -1, 1));
    assert!(t(-2, 1, -2, 3, -4, 3));
    assert!(t(-2, 1, -1, 2, -3, 2));
    assert!(t(-2, 1, -1, 4, -7, 4));
    assert!(t(-2, 1, 0, 1, -2, 1));
    assert!(t(-2, 1, 1, 4, -9, 4));
    assert!(t(-2, 1, 1, 2, -5, 2));
    assert!(t(-2, 1, 2, 3, -8, 3));
    assert!(t(-2, 1, 1, 1, -3, 1));
    assert!(t(-2, 1, 2, 1, -4, 1));
    assert!(t(-1, 1, -2, 1, 1, 1));
    assert!(t(-1, 1, -1, 1, 0, 1));
    assert!(t(-1, 1, -2, 3, -1, 3));
    assert!(t(-1, 1, -1, 2, -1, 2));
    assert!(t(-1, 1, -1, 4, -3, 4));
    assert!(t(-1, 1, 0, 1, -1, 1));
    assert!(t(-1, 1, 1, 4, -5, 4));
    assert!(t(-1, 1, 1, 2, -3, 2));
    assert!(t(-1, 1, 2, 3, -5, 3));
    assert!(t(-1, 1, 1, 1, -2, 1));
    assert!(t(-1, 1, 2, 1, -3, 1));
    assert!(t(-2, 3, -2, 1, 4, 3));
    assert!(t(-2, 3, -1, 1, 1, 3));
    assert!(t(-2, 3, -2, 3, 0, 1));
    assert!(t(-2, 3, -1, 2, -1, 6));
    assert!(t(-2, 3, -1, 4, -5, 12));
    assert!(t(-2, 3, 0, 1, -2, 3));
    assert!(t(-2, 3, 1, 4, -11, 12));
    assert!(t(-2, 3, 1, 2, -7, 6));
    assert!(t(-2, 3, 2, 3, -4, 3));
    assert!(t(-2, 3, 1, 1, -5, 3));
    assert!(t(-2, 3, 2, 1, -8, 3));
    assert!(t(-1, 2, -2, 1, 3, 2));
    assert!(t(-1, 2, -1, 1, 1, 2));
    assert!(t(-1, 2, -2, 3, 1, 6));
    assert!(t(-1, 2, -1, 2, 0, 1));
    assert!(t(-1, 2, -1, 4, -1, 4));
    assert!(t(-1, 2, 0, 1, -1, 2));
    assert!(t(-1, 2, 1, 4, -3, 4));
    assert!(t(-1, 2, 1, 2, -1, 1));
    assert!(t(-1, 2, 2, 3, -7, 6));
    assert!(t(-1, 2, 1, 1, -3, 2));
    assert!(t(-1, 2, 2, 1, -5, 2));
    assert!(t(-1, 4, -2, 1, 7, 4));
    assert!(t(-1, 4, -1, 1, 3, 4));
    assert!(t(-1, 4, -2, 3, 5, 12));
    assert!(t(-1, 4, -1, 2, 1, 4));
    assert!(t(-1, 4, -1, 4, 0, 1));
    assert!(t(-1, 4, 0, 1, -1, 4));
    assert!(t(-1, 4, 1, 4, -1, 2));
    assert!(t(-1, 4, 1, 2, -3, 4));
    assert!(t(-1, 4, 2, 3, -11, 12));
    assert!(t(-1, 4, 1, 1, -5, 4));
    assert!(t(-1, 4, 2, 1, -9, 4));
    assert!(t(0, 1, -2, 1, 2, 1));
    assert!(t(0, 1, -1, 1, 1, 1));
    assert!(t(0, 1, -2, 3, 2, 3));
    assert!(t(0, 1, -1, 2, 1, 2));
    assert!(t(0, 1, -1, 4, 1, 4));
    assert!(t(0, 1, 0, 1, 0, 1));
    assert!(t(0, 1, 1, 4, -1, 4));
    assert!(t(0, 1, 1, 2, -1, 2));
    assert!(t(0, 1, 2, 3, -2, 3));
    assert!(t(0, 1, 1, 1, -1, 1));
    assert!(t(0, 1, 2, 1, -2, 1));
    assert!(t(1, 4, -2, 1, 9, 4));
    assert!(t(1, 4, -1, 1, 5, 4));
    assert!(t(1, 4, -2, 3, 11, 12));
    assert!(t(1, 4, -1, 2, 3, 4));
    assert!(t(1, 4, -1, 4, 1, 2));
    assert!(t(1, 4, 0, 1, 1, 4));
    assert!(t(1, 4, 1, 4, 0, 1));
    assert!(t(1, 4, 1, 2, -1, 4));
    assert!(t(1, 4, 2, 3, -5, 12));
    assert!(t(1, 4, 1, 1, -3, 4));
    assert!(t(1, 4, 2, 1, -7, 4));
    assert!(t(1, 2, -2, 1, 5, 2));
    assert!(t(1, 2, -1, 1, 3, 2));
    assert!(t(1, 2, -2, 3, 7, 6));
    assert!(t(1, 2, -1, 2, 1, 1));
    assert!(t(1, 2, -1, 4, 3, 4));
    assert!(t(1, 2, 0, 1, 1, 2));
    assert!(t(1, 2, 1, 4, 1, 4));
    assert!(t(1, 2, 1, 2, 0, 1));
    assert!(t(1, 2, 2, 3, -1, 6));
    assert!(t(1, 2, 1, 1, -1, 2));
    assert!(t(1, 2, 2, 1, -3, 2));
    assert!(t(2, 3, -2, 1, 8, 3));
    assert!(t(2, 3, -1, 1, 5, 3));
    assert!(t(2, 3, -2, 3, 4, 3));
    assert!(t(2, 3, -1, 2, 7, 6));
    assert!(t(2, 3, -1, 4, 11, 12));
    assert!(t(2, 3, 0, 1, 2, 3));
    assert!(t(2, 3, 1, 4, 5, 12));
    assert!(t(2, 3, 1, 2, 1, 6));
    assert!(t(2, 3, 2, 3, 0, 1));
    assert!(t(2, 3, 1, 1, -1, 3));
    assert!(t(2, 3, 2, 1, -4, 3));
    assert!(t(1, 1, -2, 1, 3, 1));
    assert!(t(1, 1, -1, 1, 2, 1));
    assert!(t(1, 1, -2, 3, 5, 3));
    assert!(t(1, 1, -1, 2, 3, 2));
    assert!(t(1, 1, -1, 4, 5, 4));
    assert!(t(1, 1, 0, 1, 1, 1));
    assert!(t(1, 1, 1, 4, 3, 4));
    assert!(t(1, 1, 1, 2, 1, 2));
    assert!(t(1, 1, 2, 3, 1, 3));
    assert!(t(1, 1, 1, 1, 0, 1));
    assert!(t(1, 1, 2, 1, -1, 1));
    assert!(t(2, 1, -2, 1, 4, 1));
    assert!(t(2, 1, -1, 1, 3, 1));
    assert!(t(2, 1, -2, 3, 8, 3));
    assert!(t(2, 1, -1, 2, 5, 2));
    assert!(t(2, 1, -1, 4, 9, 4));
    assert!(t(2, 1, 0, 1, 2, 1));
    assert!(t(2, 1, 1, 4, 7, 4));
    assert!(t(2, 1, 1, 2, 3, 2));
    assert!(t(2, 1, 2, 3, 4, 3));
    assert!(t(2, 1, 1, 1, 1, 1));
    assert!(t(2, 1, 2, 1, 0, 1));
}

#[test]
fn egest0() {
    assert_eq!(
        compare_ok(
            combine_checked(
                ratio(-2, 3),
                ratio(2, 3),
                0,
                0,
                0,
                1,
                0,
                0,
                1,
                1
            ),
            ratio(3, 5)
        ),
        Ordering::Equal
    );
}

