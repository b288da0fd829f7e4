use clarith::protocol;
use clarith::strategy::ratio::new;

    #[test]
fn forbids_undefined_ratio() {
    assert!(new(true, 0, 0).is_err());
}

#[test]
fn forbids_negative_infinity() {
    assert!(new(false, 1, 0).is_err());
}

#[test]
fn forbids_positive_infinity() {
    assert!(new(true, 1, 0).is_err());
}

#[test]
fn supports_negative_two() {
    if let Ok((None, Some(protocol::Primer::Ground), Some(mut ratio))) = new(false, 2, 1) {
        if let None = ratio.egest() {
            return;
        }
    }
    panic!();
}

#[test]
fn supports_negative_one() {
    if let Ok((Some(protocol::Special::NegOne), None, None)) = new(false, 1, 1) {
        return;
    }
    panic!();
}

#[test]
fn supports_negative_two_thirds() {
    if let Ok((None, Some(protocol::Primer::Reflect), Some(mut ratio))) = new(false, 2, 3) {
        if let Some(protocol::Reduction::Uncover) = ratio.egest() {
            if let None = ratio.egest() {
                return;
            }
        }
    }
    panic!();
}

#[test]
fn supports_negative_one_half() {
    if let Ok((None, Some(protocol::Primer::Reflect), Some(mut ratio))) = new(false, 1, 2) {
        if let None = ratio.egest() {
            return;
        }
    }
    panic!();
}

#[test]
fn supports_negative_one_fourth() {
    if let Ok((None, Some(protocol::Primer::Reflect), Some(mut ratio))) = new(false, 1, 4) {
        if let Some(protocol::Reduction::Amplify) = ratio.egest() {
            if let None = ratio.egest() {
                return;
            }
        }
    }
    panic!();
}

#[test]
fn supports_zero() {
    if let Ok((Some(protocol::Special::Zero), None, None)) = new(true, 0, 1) {
        return;
    }
    panic!();
}

#[test]
fn supports_one_fourth() {
    if let Ok((None, None, Some(mut ratio))) = new(true, 1, 4) {
        if let Some(protocol::Reduction::Amplify) = ratio.egest() {
            if let None = ratio.egest() {
                return;
            }
        }
    }
    panic!();
}

#[test]
fn supports_one_half() {
    if let Ok((None, None, Some(mut ratio))) = new(true, 1, 2) {
        if let None = ratio.egest() {
            return;
        }
    }
    panic!();
}

#[test]
fn supports_two_thirds() {
    if let Ok((None, None, Some(mut ratio))) = new(true, 2, 3) {
        if let Some(protocol::Reduction::Uncover) = ratio.egest() {
            if let None = ratio.egest() {
                return;
            }
        }
    }
    panic!();
}

#[test]
fn supports_one() {
    if let Ok((Some(protocol::Special::PosOne), None, None)) = new(true, 1, 1) {
        return;
    }
    panic!();
}

#[test]
fn supports_two() {
    if let Ok((None, Some(protocol::Primer::Turn), Some(mut ratio))) = new(true, 2, 1) {
        if let None = ratio.egest() {
            return;
        }
    }
    panic!();
}

#[test]
fn one_half_is_final() {
    if let Ok((None, None, Some(mut ratio))) = new(true, 3, 6) {
        for _ in 1..10 {
            if let None = ratio.egest() {
                continue;
            }
            panic!();
        }
        return;
    }
    panic!();
}

#[test]
fn does_not_overflow() {
    if let Ok((None, None, Some(mut ratio))) = new(true, usize::MAX - 1, usize::MAX) {
        if let Some(protocol::Reduction::Uncover) = ratio.egest() {
            return;
        }
    }
    panic!();
}

