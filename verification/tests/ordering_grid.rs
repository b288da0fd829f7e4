use clarith::Number;
use std::cmp::Ordering;

fn reference_compare(mut n1: isize, mut d1: isize, mut n2: isize, mut d2: isize) -> Ordering {
    assert!(d1 != 0);
    assert!(d2 != 0);
    if d1 < 0 {
        n1 *= -1;
        d1 *= -1;
    }
    if d2 < 0 {
        n2 *= -1;
        d2 *= -1;
    }
    let dx = n1 * d2 - n2 * d1;
    if dx > 0 {
        Ordering::Greater
    } else if dx < 0 {
        Ordering::Less
    } else {
        Ordering::Equal
    }
}

#[test]
fn test_compare() {
    let range = 25;
    for n1 in -range..range {
        for d1 in -range..range {
            if d1 == 0 {
                continue;
            }
            for n2 in -range..range {
                for d2 in -range..range {
                    if d2 == 0 {
                        continue;
                    }
                    assert_eq!(
                        Number::compare(
                            Number::ratio(n1, d1).unwrap(),
                            Number::ratio(n2, d2).unwrap()
                        )
                        .unwrap(),
                        reference_compare(n1, d1, n2, d2)
                    );
                }
            }
        }
    }
}

#[test]
fn compare_ratios() {
    let range = 25;
    let mut n1 = -range;
    while n1 <= range {
        let mut d1 = -range;
        while d1 <= range {
            let mut n2 = -range;
            while n2 <= range {
                let mut d2 = -range;
                while d2 <= range {
                    if d1 != 0 && d2 != 0 {
                        assert_eq!(
                            Number::compare(
                                Number::ratio(n1, d1).unwrap(),
                                Number::ratio(n2, d2).unwrap()
                            )
                            .unwrap(),
                            reference_compare(n1, d1, n2, d2)
                        );
                    }
                    d2 += 1;
                    if n2 == 0 && d2 == 0 {
                        d2 += 1;
                    }
                }
                n2 += 1;
            }
            d1 += 1;
            if n1 == 0 && d1 == 0 {
                d1 += 1;
            }
        }
        n1 += 1;
    }
}
