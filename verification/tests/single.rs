use rekey::single::Single;

fn s(x: f32) -> Single {
    Single { bits: x.to_bits() }
}

/// Values of every kind, among them the smallest and the largest of each.
fn values() -> Vec<f32> {
    let mut out = vec![
        0.0,
        -0.0,
        1.0,
        -1.0,
        0.4,
        1.5,
        -5.5,
        -7.0,
        3.5,
        1.0 / 3.0,
        f32::MIN_POSITIVE,
        -f32::MIN_POSITIVE,
        f32::MAX,
        f32::MIN,
        f32::EPSILON,
        f32::INFINITY,
        f32::NEG_INFINITY,
        f32::NAN,
        f32::from_bits(1),
        f32::from_bits(0x8000_0001),
        f32::from_bits(0x007f_ffff),
        16_777_216.0,
        16_777_217.0,
        123_456_79.0,
    ];
    let mut state: u32 = 12345;
    for _ in 0..120 {
        state = state.wrapping_mul(1_664_525).wrapping_add(1_013_904_223);
        out.push(f32::from_bits(state));
    }
    out
}

fn agrees(mine: Single, machine: f32) -> bool {
    if machine.is_nan() {
        mine.is_nan()
    } else {
        mine.bits == machine.to_bits()
    }
}

#[test]
fn sums_round_as_the_machine_does() {
    for a in values() {
        for b in values() {
            assert!(agrees(s(a).plus(s(b)), a + b), "{a:e} + {b:e}");
            assert!(agrees(s(a).minus(s(b)), a - b), "{a:e} - {b:e}");
        }
    }
}

#[test]
fn products_round_as_the_machine_does() {
    for a in values() {
        for b in values() {
            assert!(agrees(s(a).times(s(b)), a * b), "{a:e} * {b:e}");
        }
    }
}

#[test]
fn quotients_round_as_the_machine_does() {
    for a in values() {
        for b in values() {
            assert!(agrees(s(a).divided_by(s(b)), a / b), "{a:e} / {b:e}");
        }
    }
}

#[test]
fn comparisons_are_those_of_the_machine() {
    for a in values() {
        for b in values() {
            assert_eq!(s(a).less_than(s(b)), a < b, "{a:e} < {b:e}");
            assert_eq!(s(a).at_least(s(b)), a >= b, "{a:e} >= {b:e}");
        }
        assert_eq!(s(a).is_nan(), a.is_nan());
    }
}

#[test]
fn counts_are_those_of_the_machine() {
    for n in [
        0usize,
        1,
        2,
        3,
        10,
        16_777_215,
        16_777_216,
        16_777_217,
        16_777_219,
        4_294_967_295,
    ] {
        assert_eq!(Single::from_count(n).bits, (n as f32).to_bits(), "{n}");
    }
}

#[test]
fn order_and_sums_agree_with_the_values() {
    let numbers = [-3.5f32, -0.0, 0.0, 1.0e-45, 1.5, 2.75, 3.0e38];
    for a in numbers {
        for b in numbers {
            let (x, y) = (Single { bits: a.to_bits() }, Single { bits: b.to_bits() });
            assert_eq!(x.less_than(y), a < b);
            assert_eq!(x.at_least(y), a >= b);
            assert_eq!(x.plus(y), y.plus(x));
        }
    }
}
