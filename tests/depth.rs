use rusterizer::depth::depth_less;

fn samples() -> Vec<f32> {
    vec![
        0.0,
        -0.0,
        1.0,
        -1.0,
        0.25,
        0.5,
        0.75,
        1.5,
        -2.5,
        f32::MIN_POSITIVE,
        -f32::MIN_POSITIVE,
        f32::from_bits(1),
        f32::from_bits(0x8000_0001),
        f32::MAX,
        f32::MIN,
        f32::INFINITY,
        f32::NEG_INFINITY,
        f32::NAN,
        -f32::NAN,
        f32::from_bits(0x7f80_0001),
    ]
}

#[test]
fn depth_less_agrees_with_float_order() {
    let values = samples();
    for &a in &values {
        for &b in &values {
            assert_eq!(depth_less(a.to_bits(), b.to_bits()), a < b, "{} < {}", a, b);
        }
    }
}

#[test]
fn depth_less_agrees_on_scattered_bit_patterns() {
    let mut state: u64 = 0x2545_f491_4f6c_dd1d;
    let mut next = || {
        state = state.wrapping_mul(6364136223846793005).wrapping_add(1442695040888963407);
        (state >> 32) as u32
    };
    for _ in 0..20000 {
        let a = next();
        let b = next();
        assert_eq!(
            depth_less(a, b),
            f32::from_bits(a) < f32::from_bits(b),
            "{:#x} < {:#x}",
            a,
            b
        );
    }
}

#[test]
fn signed_zeros_are_equal() {
    assert!(!depth_less(0.0f32.to_bits(), (-0.0f32).to_bits()));
    assert!(!depth_less((-0.0f32).to_bits(), 0.0f32.to_bits()));
}

#[test]
fn nearer_depth_passes() {
    assert!(depth_less(0.25f32.to_bits(), 1.0f32.to_bits()));
    assert!(!depth_less(1.0f32.to_bits(), 1.0f32.to_bits()));
    assert!(!depth_less(0.75f32.to_bits(), 0.25f32.to_bits()));
}
