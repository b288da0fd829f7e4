use clarith::protocol::{Reduction, Special};
use clarith::{Error, Number};
use std::cmp::Ordering;

#[test]
fn two_thirds_stream_is_uncover_then_exhausted() {
    let (primer, mut c) = Number::ratio(2, 3).unwrap().unwrap_other();
    assert!(primer.is_none());
    assert_eq!(c.egest().unwrap(), Some(Reduction::Uncover));
    assert_eq!(c.egest().unwrap(), None);
    assert_eq!(c.egest().unwrap(), None);
}

#[test]
fn negative_two_thirds_is_less_than_two_thirds() {
    assert_eq!(
        Number::compare(Number::ratio(-2, 3).unwrap(), Number::ratio(2, 3).unwrap()).unwrap(),
        Ordering::Less
    );
}

#[test]
fn homographic_rejects_vanishing_numerator_and_denominator() {
    assert!(matches!(
        Number::homographic(Number::ratio(-1, 1).unwrap(), 1, 1, 1, 1),
        Err(Error::DivisionByZero)
    ));
}

#[test]
fn combine_reciprocal_of_y_plus_one() {
    assert_eq!(
        Number::compare(
            Number::combine(
                Number::ratio(-2, 3).unwrap(),
                Number::ratio(2, 3).unwrap(),
                0, 0, 0, 1, 0, 0, 1, 1
            )
            .unwrap(),
            Number::ratio(3, 5).unwrap()
        )
        .unwrap(),
        Ordering::Equal
    );
}

#[test]
fn extreme_ratios_pull_to_completion() {
    for num in [isize::MAX, 1] {
        let den = if num == 1 { isize::MAX } else { 1 };
        let (_, mut c) = Number::ratio(num, den).unwrap().unwrap_other();
        loop {
            match c.egest().unwrap() {
                None => break,
                Some(_) => {}
            }
        }
    }
}

#[test]
fn nested_transforms_compose_exactly() {
    let inner = Number::homographic(Number::ratio(1, 4).unwrap(), 2, 0, 0, 1).unwrap();
    let outer = Number::homographic(inner, 1, 1, 0, 2).unwrap();
    assert_eq!(
        Number::compare(outer, Number::ratio(3, 4).unwrap()).unwrap(),
        Ordering::Equal
    );
}

#[test]
fn zero_denominator_is_division_by_zero() {
    assert!(matches!(Number::ratio(1, 0), Err(Error::DivisionByZero)));
    assert!(matches!(Number::ratio(0, 0), Err(Error::DivisionByZero)));
    assert!(matches!(Number::ratio_u(false, 5, 0), Err(Error::DivisionByZero)));
}

#[test]
fn specials_unwrap() {
    assert_eq!(Number::ratio(0, 7).unwrap().unwrap_special(), Special::Zero);
    assert_eq!(Number::ratio(4, 4).unwrap().unwrap_special(), Special::PosOne);
    assert_eq!(Number::ratio(-4, 4).unwrap().unwrap_special(), Special::NegOne);
}

#[test]
fn consume_returns_exact_coefficients_for_small_ratio() {
    let (res, nx, n, dx, d) = Number::consume(Number::ratio(5, 8).unwrap()).unwrap();
    assert!(res.is_none());
    assert_eq!(
        Number::compare(
            Number::ratio(nx + 2 * n, dx + 2 * d).unwrap(),
            Number::ratio(5, 8).unwrap()
        )
        .unwrap(),
        Ordering::Equal
    );
}
