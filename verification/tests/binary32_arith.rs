use system_runtime::binary32;

fn same(ours: u32, theirs: f32) -> bool {
    if theirs.is_nan() {
        ours == binary32::CANONICAL_NAN
    } else {
        ours == theirs.to_bits()
    }
}

fn samples() -> Vec<u32> {
    let mut v: Vec<u32> = vec![
        0x0000_0000, 0x8000_0000, 0x0000_0001, 0x8000_0001, 0x0000_0002, 0x007f_ffff, 0x0080_0000,
        0x0080_0001, 0x00ff_ffff, 0x0100_0000, 0x3f00_0000, 0x3f80_0000, 0x3f80_0001, 0x3f7f_ffff,
        0x4000_0000, 0x4040_0000, 0x41a0_0000, 0x447a_0000, 0x7f7f_ffff, 0x7f7f_fffe, 0x7f00_0000,
        0x7f80_0000, 0xff80_0000, 0x7fc0_0000, 0x7f80_0001, 0xffc0_0000, 0x3eaa_aaab, 0x3dcc_cccd,
        0x4b00_0000, 0x4b7f_ffff, 0x4b80_0000, 0x3380_0000, 0x3400_0000, 0x3300_0000, 0x6000_0000,
        0x1f80_0000, 0x2000_0000, 0x5f80_0000, 0x0040_0000, 0x0020_0001,
    ];
    let n = v.len();
    for i in 0..n {
        v.push(v[i] ^ 0x8000_0000);
    }
    let mut state: u64 = 0x9e37_79b9_7f4a_7c15;
    for _ in 0..400 {
        state ^= state << 13;
        state ^= state >> 7;
        state ^= state << 17;
        v.push((state >> 16) as u32);
    }
    v
}

#[test]
fn add_agrees_with_hardware() {
    let v = samples();
    for &a in v.iter() {
        for &b in v.iter() {
            let theirs = f32::from_bits(a) + f32::from_bits(b);
            assert!(same(binary32::add(a, b), theirs), "{:#x} + {:#x}", a, b);
        }
    }
}

#[test]
fn sub_agrees_with_hardware() {
    let v = samples();
    for &a in v.iter() {
        for &b in v.iter() {
            let theirs = f32::from_bits(a) - f32::from_bits(b);
            assert!(same(binary32::sub(a, b), theirs), "{:#x} - {:#x}", a, b);
        }
    }
}

#[test]
fn mul_agrees_with_hardware() {
    let v = samples();
    for &a in v.iter() {
        for &b in v.iter() {
            let theirs = f32::from_bits(a) * f32::from_bits(b);
            assert!(same(binary32::mul(a, b), theirs), "{:#x} * {:#x}", a, b);
        }
    }
}

#[test]
fn halve_agrees_with_hardware() {
    for &a in samples().iter() {
        let theirs = f32::from_bits(a) / 2.0;
        assert!(same(binary32::halve(a), theirs), "{:#x} / 2", a);
    }
}

#[test]
fn comparisons_agree_with_hardware() {
    let v = samples();
    for &a in v.iter() {
        for &b in v.iter() {
            let (x, y) = (f32::from_bits(a), f32::from_bits(b));
            assert_eq!(binary32::lt(a, b), x < y, "{:#x} < {:#x}", a, b);
            assert_eq!(binary32::ge(a, b), x >= y, "{:#x} >= {:#x}", a, b);
        }
    }
}

#[test]
fn neg_flips_the_sign_bit() {
    for &a in samples().iter() {
        assert_eq!(binary32::neg(a), (-f32::from_bits(a)).to_bits());
    }
}

#[test]
fn zero_test_sees_both_zeros() {
    assert!(binary32::is_zero_value(0.0f32.to_bits()));
    assert!(binary32::is_zero_value((-0.0f32).to_bits()));
    assert!(!binary32::is_zero_value(f32::MIN_POSITIVE.to_bits()));
    assert!(!binary32::is_zero_value(1));
}

#[test]
fn named_constants_are_the_numbers() {
    assert_eq!(binary32::ONE, 1.0f32.to_bits());
    assert_eq!(binary32::HALF, 0.5f32.to_bits());
    assert_eq!(binary32::ZERO, 0.0f32.to_bits());
    assert_eq!(binary32::INFINITY, f32::INFINITY.to_bits());
    assert_eq!(binary32::SIGN_BIT, (-0.0f32).to_bits());
    assert!(f32::from_bits(binary32::CANONICAL_NAN).is_nan());
}

#[test]
fn sums_round_to_nearest_and_ties_go_to_even() {
    let one = 1.0f32.to_bits();
    assert_eq!(binary32::add(one, 2.0f32.to_bits()), 3.0f32.to_bits());
    // 2^24 + 1 lies half way between 2^24 and 2^24 + 2: the even one wins
    assert_eq!(binary32::add(0x4b80_0000, one), 0x4b80_0000);
    // 2^24 + 2 + 1 lies half way between 2^24 + 2 and 2^24 + 4
    assert_eq!(binary32::add(0x4b80_0001, one), 0x4b80_0002);
    // 2^24 + 1.5 is nearer to 2^24 + 2
    assert_eq!(binary32::add(0x4b80_0000, 1.5f32.to_bits()), 0x4b80_0001);
    // the largest finite number and half its last place more is infinity
    assert_eq!(binary32::add(0x7f7f_ffff, 0x7300_0000), binary32::INFINITY);
    assert_eq!(binary32::add(0x7f7f_ffff, 0x72ff_ffff), 0x7f7f_ffff);
    // subnormal numbers add exactly and carry into the normal range
    assert_eq!(binary32::add(0x007f_ffff, 0x0000_0001), 0x0080_0000);
}

#[test]
fn sums_of_zeros_and_infinities() {
    let (zero, minus_zero) = (0u32, binary32::SIGN_BIT);
    let (inf, minus_inf) = (binary32::INFINITY, 0xff80_0000u32);
    assert_eq!(binary32::add(zero, minus_zero), zero);
    assert_eq!(binary32::add(minus_zero, minus_zero), minus_zero);
    assert_eq!(binary32::add(0x4128_0000, 0xc128_0000), zero);
    assert_eq!(binary32::sub(0x4128_0000, 0x4128_0000), zero);
    assert_eq!(binary32::add(inf, 0x4128_0000), inf);
    assert_eq!(binary32::add(0x4128_0000, minus_inf), minus_inf);
    assert_eq!(binary32::add(inf, inf), inf);
    assert_eq!(binary32::add(inf, minus_inf), binary32::CANONICAL_NAN);
    assert_eq!(binary32::sub(inf, inf), binary32::CANONICAL_NAN);
    assert_eq!(binary32::add(0x7fc0_1234, 0x4128_0000), binary32::CANONICAL_NAN);
    assert_eq!(binary32::add(0x4128_0000, 0xff80_0001), binary32::CANONICAL_NAN);
}

#[test]
fn products_round_overflow_and_underflow() {
    assert_eq!(binary32::mul(3.0f32.to_bits(), 0.5f32.to_bits()), 1.5f32.to_bits());
    assert_eq!(binary32::mul((-3.0f32).to_bits(), 7.0f32.to_bits()), (-21.0f32).to_bits());
    // (1 + 2^-23)^2 = 1 + 2^-22 + 2^-46 rounds down
    assert_eq!(binary32::mul(0x3f80_0001, 0x3f80_0001), 0x3f80_0002);
    // (1 + 3 * 2^-23) * (1 + 2^-1) = 1.5 + 4.5 * 2^-23 is a tie that goes to the even side
    assert_eq!(binary32::mul(0x3f80_0003, 0x3fc0_0000), 0x3fc0_0004);
    assert_eq!(binary32::mul(0x7f00_0000, 0x4080_0000), binary32::INFINITY);
    assert_eq!(binary32::mul(0xff00_0000, 0x4080_0000), 0xff80_0000);
    // the smallest subnormal, halved, is a tie between zero and itself
    assert_eq!(binary32::mul(0x0000_0001, binary32::HALF), 0);
    assert_eq!(binary32::mul(0x0000_0003, binary32::HALF), 0x0000_0002);
    assert_eq!(binary32::mul(0x8000_0001, 0x0000_0001), binary32::SIGN_BIT);
    assert_eq!(binary32::mul(0, 0xc128_0000), binary32::SIGN_BIT);
    assert_eq!(binary32::mul(binary32::INFINITY, 0), binary32::CANONICAL_NAN);
    assert_eq!(binary32::mul(binary32::INFINITY, 0xc128_0000), 0xff80_0000);
    assert_eq!(binary32::mul(0x7f80_0001, 0x3f80_0000), binary32::CANONICAL_NAN);
}

#[test]
fn halving_is_exact_until_the_last_bit_falls_off() {
    assert_eq!(binary32::halve(20.0f32.to_bits()), 10.0f32.to_bits());
    assert_eq!(binary32::halve(0x0080_0000), 0x0040_0000);
    assert_eq!(binary32::halve(0x0080_0001), 0x0040_0000);
    assert_eq!(binary32::halve(0x0080_0003), 0x0040_0002);
    assert_eq!(binary32::halve(binary32::INFINITY), binary32::INFINITY);
}

#[test]
fn the_order_knows_signs_zeros_and_nan() {
    let (zero, minus_zero) = (0u32, binary32::SIGN_BIT);
    let nan = binary32::CANONICAL_NAN;
    assert!(binary32::lt((-1.0f32).to_bits(), zero));
    assert!(binary32::lt((-2.0f32).to_bits(), (-1.0f32).to_bits()));
    assert!(binary32::lt(0xff80_0000, 0x7f80_0000));
    assert!(!binary32::lt(minus_zero, zero));
    assert!(!binary32::lt(zero, minus_zero));
    assert!(binary32::ge(minus_zero, zero));
    assert!(binary32::ge(zero, minus_zero));
    assert!(binary32::ge(1000.0f32.to_bits(), 1000.0f32.to_bits()));
    assert!(!binary32::ge(999.0f32.to_bits(), 1000.0f32.to_bits()));
    assert!(!binary32::lt(nan, zero) && !binary32::lt(zero, nan));
    assert!(!binary32::ge(nan, zero) && !binary32::ge(zero, nan) && !binary32::ge(nan, nan));
}

#[test]
fn neg_keeps_the_magnitude() {
    assert_eq!(binary32::neg(0), binary32::SIGN_BIT);
    assert_eq!(binary32::neg(binary32::SIGN_BIT), 0);
    assert_eq!(binary32::neg(0x4128_0000), 0xc128_0000);
    assert_eq!(binary32::neg(0xff80_0000), binary32::INFINITY);
    assert_eq!(binary32::neg(0x7fc0_0001), 0xffc0_0001);
}

struct Shuffle(u64);

impl Shuffle {
    fn next(&mut self) -> u32 {
        self.0 ^= self.0 << 13;
        self.0 ^= self.0 >> 7;
        self.0 ^= self.0 << 17;
        (self.0 >> 20) as u32
    }

    /// A finite pattern whose exponent field lies within `spread` of `around`.
    fn near(&mut self, around: i32, spread: i32) -> u32 {
        let step = (self.next() % (2 * spread as u32 + 1)) as i32 - spread;
        let field = (around + step).clamp(0, 254) as u32;
        let sign = self.next() & 0x8000_0000;
        let fraction = match self.next() % 4 {
            0 => 0,
            1 => 0x7f_ffff,
            2 => self.next() & 0x7f_fff0,
            _ => self.next() & 0x7f_ffff,
        };
        sign | (field << 23) | fraction
    }
}

#[test]
fn sums_of_neighbours_agree_with_hardware() {
    let mut shuffle = Shuffle(0x1234_5678_9abc_def1);
    for around in [0, 1, 2, 23, 24, 25, 100, 127, 128, 150, 230, 253, 254] {
        for _ in 0..4000 {
            let a = shuffle.near(around, 2);
            let b = shuffle.near(around, 27);
            let (x, y) = (f32::from_bits(a), f32::from_bits(b));
            assert!(same(binary32::add(a, b), x + y), "{:#x} + {:#x}", a, b);
            assert!(same(binary32::sub(a, b), x - y), "{:#x} - {:#x}", a, b);
            assert_eq!(binary32::lt(a, b), x < y, "{:#x} < {:#x}", a, b);
            assert_eq!(binary32::ge(a, b), x >= y, "{:#x} >= {:#x}", a, b);
        }
    }
}

#[test]
fn products_at_the_ends_of_the_range_agree_with_hardware() {
    let mut shuffle = Shuffle(0x0fed_cba9_8765_4321);
    for (left, right) in [(127, 127), (0, 127), (1, 126), (10, 100), (60, 50), (64, 40), (127, 254), (200, 181), (190, 190), (0, 0), (254, 254), (3, 124)] {
        for _ in 0..4000 {
            let a = shuffle.near(left, 3);
            let b = shuffle.near(right, 24);
            let (x, y) = (f32::from_bits(a), f32::from_bits(b));
            assert!(same(binary32::mul(a, b), x * y), "{:#x} * {:#x}", a, b);
            assert!(same(binary32::halve(a), x / 2.0), "{:#x} / 2", a);
        }
    }
}

#[test]
fn many_pairs_agree_with_hardware() {
    let mut shuffle = Shuffle(0x2545_f491_4f6c_dd1d);
    for round in 0..300_000u32 {
        let a = shuffle.next() ^ (shuffle.next() << 12);
        let b = if round % 3 == 0 {
            shuffle.next() ^ (shuffle.next() << 12)
        } else {
            // an exponent near the first one's, so that the bits of both count
            let field = ((a >> 23) & 0xff) as i32;
            shuffle.near(field, 26)
        };
        let (x, y) = (f32::from_bits(a), f32::from_bits(b));
        assert!(same(binary32::add(a, b), x + y), "{:#x} + {:#x}", a, b);
        assert!(same(binary32::sub(a, b), x - y), "{:#x} - {:#x}", a, b);
        assert!(same(binary32::mul(a, b), x * y), "{:#x} * {:#x}", a, b);
        assert_eq!(binary32::lt(a, b), x < y, "{:#x} < {:#x}", a, b);
        assert_eq!(binary32::ge(a, b), x >= y, "{:#x} >= {:#x}", a, b);
    }
}
