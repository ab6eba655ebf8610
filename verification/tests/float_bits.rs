use needle::bits::{f16_to_f32, f32_gt, total_key};

fn half(bits: u16) -> f32 {
    f32::from_bits(f16_to_f32(bits))
}

#[test]
fn known_values() {
    assert_eq!(half(0x0000), 0.0);
    assert_eq!(half(0x8000), -0.0);
    assert_eq!(half(0x3C00), 1.0);
    assert_eq!(half(0xBC00), -1.0);
    assert_eq!(half(0x4000), 2.0);
    assert_eq!(half(0x3555), 0.33325195);
    assert_eq!(half(0x7BFF), 65504.0);
    assert_eq!(half(0x0001), 5.9604645e-8);
    assert_eq!(half(0x03FF), 6.0975552e-5);
    assert_eq!(half(0x0400), 6.1035156e-5);
    assert!(half(0x7C00).is_infinite() && half(0x7C00) > 0.0);
    assert!(half(0xFC00).is_infinite() && half(0xFC00) < 0.0);
    assert!(half(0x7E00).is_nan());
}

fn f32_to_f16_bits(v: f32) -> u16 {
    let x = v.to_bits();
    let sign = ((x >> 31) as u16) << 15;
    let exp = ((x >> 23) & 0xFF) as i32;
    let mant = x & 0x7F_FFFF;
    if exp == 0xFF {
        return sign | 0x7C00 | ((mant >> 13) as u16);
    }
    let unbiased = exp - 127;
    if unbiased < -24 {
        return sign;
    }
    if unbiased < -14 {
        let shift = (-14 - unbiased) as u32;
        let m = (mant | 0x80_0000) >> (shift + 13);
        return sign | m as u16;
    }
    if unbiased > 15 {
        return sign | 0x7C00;
    }
    sign | (((unbiased + 15) as u16) << 10) | ((mant >> 13) as u16)
}

#[test]
fn every_finite_half_round_trips() {
    for bits in 0u32..=0xFFFF {
        let b = bits as u16;
        let v = half(b);
        if v.is_nan() {
            continue;
        }
        let back = f32_to_f16_bits(v);
        assert_eq!(back, b, "bits={b:#06x} value={v}");
    }
}

#[test]
fn comparisons_on_bits_are_those_of_floats() {
    let v = [
        f32::NEG_INFINITY, -3.5, -1e-40, -0.0, 0.0, 1e-40, 0.25, 7.0, f32::INFINITY, f32::NAN,
        -f32::NAN,
    ];
    for &a in &v {
        for &b in &v {
            assert_eq!(f32_gt(a.to_bits(), b.to_bits()), a > b, "{a} {b}");
            assert_eq!(
                total_key(a.to_bits()) > total_key(b.to_bits()),
                a.total_cmp(&b) == std::cmp::Ordering::Greater,
                "{a} {b}"
            );
        }
    }
}
