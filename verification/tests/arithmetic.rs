use chimy2::float::Float32;

fn single(value: f32) -> Float32 {
    Float32 { bits: value.to_bits() }
}

fn native(value: Float32) -> f32 {
    f32::from_bits(value.bits)
}

fn same(actual: Float32, expected: f32) -> bool {
    if expected.is_nan() {
        native(actual).is_nan()
    } else {
        actual.bits == expected.to_bits()
    }
}

struct Random(u64);

impl Random {
    fn next(&mut self) -> u64 {
        self.0 ^= self.0 << 13;
        self.0 ^= self.0 >> 7;
        self.0 ^= self.0 << 17;
        self.0
    }

    fn float(&mut self) -> f32 {
        let raw = self.next();
        match raw % 4 {
            0 => f32::from_bits((raw >> 16) as u32),
            1 => (((raw >> 20) % 2_000_001) as f32 - 1_000_000.0) / 1024.0,
            2 => f32::from_bits(((raw >> 16) as u32) & 0x80ff_ffff),
            _ => f32::from_bits((((raw >> 16) as u32) & 0x81ff_ffff) + 0x3f00_0000),
        }
    }
}

const SPECIAL: [f32; 14] = [
    0.0,
    -0.0,
    1.0,
    -1.0,
    f32::MIN_POSITIVE,
    -f32::MIN_POSITIVE,
    1.0e-45,
    -1.0e-45,
    f32::MAX,
    f32::MIN,
    f32::INFINITY,
    f32::NEG_INFINITY,
    f32::NAN,
    16_777_216.0,
];

fn check_pair(a: f32, b: f32) {
    assert!(same(single(a) + single(b), a + b), "{a:e} + {b:e}");
    assert!(same(single(a) - single(b), a - b), "{a:e} - {b:e}");
    assert!(same(single(a) * single(b), a * b), "{a:e} * {b:e}");
    assert!(same(single(a) / single(b), a / b), "{a:e} / {b:e}");
}

#[test]
fn operations_agree_with_the_machine() {
    for a in SPECIAL {
        for b in SPECIAL {
            check_pair(a, b);
        }
        assert!(same(single(a).sqrt(), a.sqrt()), "sqrt {a:e}");
        assert!(same(-single(a), -a));
    }
    let mut random = Random(0x9e37_79b9_7f4a_7c15);
    for _ in 0..300_000 {
        let a = random.float();
        let b = random.float();
        check_pair(a, b);
        assert!(same(single(a).sqrt(), a.sqrt()), "sqrt {a:e}");
    }
}

#[test]
fn exact_results() {
    assert_eq!(single(0.1) + single(0.2), single(0.3));
    assert_eq!(single(1.0) / single(3.0), single(0.333_333_34));
    assert_eq!(single(2.0).sqrt(), single(1.414_213_5));
    assert_eq!(single(1.0e30) * single(1.0e30), single(f32::INFINITY));
    assert_eq!(single(1.0e-30) * single(1.0e-30), single(0.0));
    assert_eq!(single(5.0) - single(5.0), single(0.0));
    assert_eq!(single(7.0) + single(0.0), single(7.0));
    assert_eq!(single(7.25) * single(1.0), single(7.25));
    assert_eq!(single(0.1) * single(7.0), single(7.0) * single(0.1));
    assert_eq!(single(0.1) + single(7.0), single(7.0) + single(0.1));
}

#[test]
fn integers_agree_with_the_machine() {
    let mut random = Random(88_172_645_463_325_252);
    for _ in 0..2_000 {
        let value = random.next() >> (random.next() % 64);
        assert_eq!(Float32::from_integer(false, value), single(value as f32));
        assert_eq!(Float32::from_integer(true, value), single(-(value as f32)));
    }
}
