use clarith::Number;
use std::cmp::Ordering;

#[test]
fn t_none() {
    let (xo, nx, n, dx, d) = Number::consume(Number::ratio(2953, 7829).unwrap()).unwrap();
    assert!(xo.is_none());
    assert_eq!(
        Number::compare(
            Number::ratio(nx + 2 * n, dx + 2 * d).unwrap(),
            Number::ratio(2953, 7829).unwrap()
        )
        .unwrap(),
        Ordering::Equal
    );
}
