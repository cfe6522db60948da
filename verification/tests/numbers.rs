//! Arithmetic against the machine's floating point.
use sglang_mm_core::binary32::Binary32;
use sglang_mm_core::binary64::Binary64;
use sglang_mm_core::common::grid::normalize_lut;
use sglang_mm_core::qwen_vl::smart_resize::round_half_even;
use sglang_mm_core::qwen_vl::Resampler;
use sglang_mm_core::text::decimal_text;

fn double(x: Binary64) -> f64 {
    f64::from_bits((((x.exp + 1075) as u64) << 52) | (x.mant - (1 << 52)))
}

fn positive(v: f64) -> Binary64 {
    let bits = v.to_bits();
    Binary64 {
        mant: (bits & ((1 << 52) - 1)) | (1 << 52),
        exp: (bits >> 52) as i32 - 1075,
    }
}

struct Numbers(u64);

impl Numbers {
    fn next(&mut self) -> u64 {
        self.0 ^= self.0 << 13;
        self.0 ^= self.0 >> 7;
        self.0 ^= self.0 << 17;
        self.0
    }

    /// A positive number with an exponent near 0.
    fn number(&mut self) -> f64 {
        let exp = 1023 - 200 + self.next() % 400;
        f64::from_bits((exp << 52) | (self.next() >> 12))
    }
}

#[test]
fn binary64_agrees_with_the_machine() {
    let mut numbers = Numbers(0xfeed_beef_1234_5679);
    for _ in 0..20_000 {
        let (a, b) = (numbers.number(), numbers.number());
        let (x, y) = (positive(a), positive(b));
        assert_eq!(double(x), a);
        assert_eq!(double(x.div(y)), a / b);
        assert_eq!(double(x.mul(y)), a * b);
        assert_eq!(double(x.sqrt()), a.sqrt());
        assert_eq!(x.floor_to_usize(), a.floor() as usize);
        assert_eq!(x.ceil_to_usize(), a.ceil() as usize);
        assert_eq!(x.less_than(y), a < b);
        assert_eq!(double(x.min(y)), a.min(b));
        let shift = numbers.next() % 128;
        let n = (((numbers.next() as u128) << 64) | numbers.next() as u128) >> shift;
        if n > 0 {
            assert_eq!(double(Binary64::from_int(n)), n as f64);
        }
    }
}

#[test]
fn binary64_rounds_halves_to_even() {
    // 2^53 + 1 lies between two numbers, and 2^53 + 3 too.
    let base = 1u128 << 53;
    assert_eq!(double(Binary64::from_int(base + 1)), base as f64);
    assert_eq!(double(Binary64::from_int(base + 3)), (base + 4) as f64);
    assert_eq!(double(Binary64::from_int(u128::MAX)), 2f64.powi(128));
    let one = Binary64::from_int(1);
    let three = Binary64::from_int(3);
    assert_eq!(double(one.div(three)), 1.0 / 3.0);
    assert_eq!(double(Binary64::from_int(2).sqrt()), std::f64::consts::SQRT_2);
    assert_eq!(one.floor_to_usize(), 1);
    assert_eq!(one.div(three).ceil_to_usize(), 1);
    assert_eq!(one.div(three).floor_to_usize(), 0);
    assert_eq!(Binary64::from_int(u128::MAX).floor_to_usize(), usize::MAX);
}

fn check(found: Binary32, expected: f32) {
    if expected.is_nan() {
        assert!(f32::from_bits(found.bits).is_nan());
    } else {
        assert_eq!(found.bits, expected.to_bits());
    }
}

#[test]
fn binary32_agrees_with_the_machine() {
    let mut numbers = Numbers(0x0bad_cafe_dead_1235);
    let mut values: Vec<f32> = vec![
        0.0,
        -0.0,
        1.0,
        -1.0,
        0.5,
        255.0,
        f32::MIN_POSITIVE,
        f32::MAX,
        f32::MIN,
        f32::INFINITY,
        f32::NEG_INFINITY,
        f32::NAN,
        f32::from_bits(1),
        f32::from_bits(0x007f_ffff),
        f32::from_bits(0x8000_0001),
        1.0 / 3.0,
    ];
    for _ in 0..150 {
        values.push(f32::from_bits(numbers.next() as u32));
        let near = f32::from_bits(0x3f00_0000 + (numbers.next() as u32 & 0x01ff_ffff));
        values.push(near);
        values.push(-near);
    }
    for &a in &values {
        let x = Binary32 { bits: a.to_bits() };
        assert_eq!(x.is_finite(), a.is_finite());
        assert_eq!(x.is_zero(), a == 0.0);
        for &b in &values {
            let y = Binary32 { bits: b.to_bits() };
            check(x.div(y), a / b);
            check(x.mul(y), a * b);
            check(x.sub(y), a - b);
        }
    }
    for v in 0..=255u8 {
        check(Binary32::from_byte(v), v as f32);
    }
}

#[test]
fn normalization_agrees_with_the_machine() {
    let pairs: [(f32, f32); 7] = [
        (0.5, 0.5),
        (0.481_454_66, 0.268_629_54),
        (0.457_827_5, 0.261_302_6),
        (0.408_210_73, 0.275_777_1),
        (0.0, 1.0),
        (-3.25e-20, 7.5e-39),
        (0.5, 0.0),
    ];
    for (mean, std) in pairs {
        let number = |v: f32| Binary32 { bits: v.to_bits() };
        let pil = normalize_lut(Resampler::Pil, number(mean), number(std));
        let aten = normalize_lut(Resampler::AtenU8, number(mean), number(std));
        for v in 0..256 {
            check(pil[v], (v as f32 / 255.0 - mean) / std);
            check(aten[v], (v as f32 - mean * 255.0) / (std * 255.0));
        }
    }
}

#[test]
fn quotients_round_to_even() {
    for d in 1..60usize {
        for n in 0..300usize {
            let x = n as f64 / d as f64;
            let expected = if (x - x.trunc()).abs() == 0.5 {
                (x / 2.0).round() * 2.0
            } else {
                x.round()
            };
            assert_eq!(round_half_even(n, d), expected as u128);
        }
    }
}

#[test]
fn decimals_are_written_out() {
    for n in [0, 7, 10, 99, 100, 1234567890, usize::MAX] {
        assert_eq!(decimal_text(n), n.to_string());
    }
}
