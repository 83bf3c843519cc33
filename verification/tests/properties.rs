use soft_f32::Float32;

const POS_ZERO: u32 = 0x0000_0000;
const NEG_ZERO: u32 = 0x8000_0000;
const POS_INF: u32 = 0x7F80_0000;
const NEG_INF: u32 = 0xFF80_0000;
const QUIET_NAN: u32 = 0x7FC0_0000;
const ONE: u32 = 0x3F80_0000;
const MAX_FINITE: u32 = 0x7F7F_FFFF;
const MIN_NORMAL: u32 = 0x0080_0000;

fn sum(a: u32, b: u32) -> u32 {
    (Float32::from_bits(a) + Float32::from_bits(b)).raw()
}

fn bits(x: f32) -> u32 {
    x.to_bits()
}

#[test]
fn fields_of_a_pattern() {
    let v = Float32::from_bits(0xC148_0000); // -12.5
    assert_eq!(v.raw(), 0xC148_0000);
    assert_eq!(v.sign(), 1);
    assert_eq!(v.exp(), 130);
    assert_eq!(v.frac(), 0x48_0000);
    let w = Float32::from_bits(0x0000_0001);
    assert_eq!((w.sign(), w.exp(), w.frac()), (0, 0, 1));
    let x = Float32::from_bits(0xFFFF_FFFF);
    assert_eq!((x.sign(), x.exp(), x.frac()), (1, 255, 0x7F_FFFF));
}

#[test]
fn from_parts_places_the_fields() {
    assert_eq!(Float32::from_parts(1, 130, 0x48_0000).raw(), 0xC148_0000);
    assert_eq!(Float32::from_parts(0, 127, 0).raw(), ONE);
    assert_eq!(Float32::from_parts(0, 255, 0).raw(), POS_INF);
    assert_eq!(Float32::from_parts(1, 0, 0).raw(), NEG_ZERO);
}

#[test]
fn from_parts_keeps_each_field_to_its_width() {
    assert_eq!(Float32::from_parts(3, 0x17F, 0xFF80_0001).raw(), 0xBF80_0001);
    assert_eq!(Float32::from_parts(2, 256, 0x80_0000).raw(), 0);
}

#[test]
fn round_trip_through_raw_bits() {
    for &p in [0u32, 1, ONE, 0x8000_0000, 0x7FC0_0000, 0xFFFF_FFFF, 0x1234_5678].iter() {
        let v = Float32::from_bits(p);
        assert_eq!(Float32::from_bits(v.raw()).raw(), p);
    }
}

#[test]
fn round_trip_through_fields() {
    let mut p: u32 = 1;
    for _ in 0..10_000 {
        p = p.wrapping_mul(1_664_525).wrapping_add(1_013_904_223);
        let v = Float32::from_bits(p);
        assert_eq!(Float32::from_parts(v.sign(), v.exp(), v.frac()).raw(), p);
    }
}

#[test]
fn classification() {
    assert!(Float32::from_bits(QUIET_NAN).is_nan());
    assert!(Float32::from_bits(0x7F80_0001).is_nan());
    assert!(!Float32::from_bits(POS_INF).is_nan());
    assert!(Float32::from_bits(POS_INF).is_infinite());
    assert!(Float32::from_bits(NEG_INF).is_infinite());
    assert!(!Float32::from_bits(MAX_FINITE).is_infinite());
    assert!(Float32::from_bits(POS_ZERO).is_zero());
    assert!(Float32::from_bits(NEG_ZERO).is_zero());
    assert!(!Float32::from_bits(1).is_zero());
}

#[test]
fn commutes_on_chosen_values() {
    let values = [
        bits(1.0), bits(-1.0), bits(0.1), bits(-2.5e30), bits(3.0e38), 1, 0x807F_FFFF,
        MIN_NORMAL, POS_INF, NEG_INF, QUIET_NAN, POS_ZERO, bits(16777216.0), bits(-1.0e-40),
    ];
    for &a in values.iter() {
        for &b in values.iter() {
            assert_eq!(sum(a, b), sum(b, a), "{:#010x} and {:#010x}", a, b);
        }
    }
}

#[test]
fn two_zeros_give_the_second() {
    assert_eq!(sum(POS_ZERO, POS_ZERO), POS_ZERO);
    assert_eq!(sum(NEG_ZERO, NEG_ZERO), NEG_ZERO);
    assert_eq!(sum(NEG_ZERO, POS_ZERO), POS_ZERO);
    assert_eq!(sum(POS_ZERO, NEG_ZERO), NEG_ZERO);
}

#[test]
fn positive_zero_is_neutral() {
    let values = [
        bits(1.0), bits(-1.0), bits(10.3), 1, 0x8000_0001, 0x007F_FFFF, MIN_NORMAL, MAX_FINITE,
        0xFF7F_FFFF, POS_INF, NEG_INF, POS_ZERO,
    ];
    for &a in values.iter() {
        assert_eq!(sum(a, POS_ZERO), a);
        assert_eq!(sum(POS_ZERO, a), a);
    }
    assert_eq!(sum(POS_ZERO, NEG_ZERO), NEG_ZERO);
}

#[test]
fn nan_operand_gives_the_canonical_nan() {
    for &nan in [QUIET_NAN, 0xFFC0_0000, 0x7F80_0001, 0xFFFF_FFFF, 0x7FA0_0000].iter() {
        for &other in [bits(1.0), POS_ZERO, NEG_INF, POS_INF, QUIET_NAN, 1].iter() {
            assert_eq!(sum(nan, other), QUIET_NAN);
            assert_eq!(sum(other, nan), QUIET_NAN);
        }
    }
}

#[test]
fn invalid_operation() {
    assert_eq!(sum(POS_INF, NEG_INF), QUIET_NAN);
    assert_eq!(sum(NEG_INF, POS_INF), QUIET_NAN);
    let r = Float32::from_bits(POS_INF) + Float32::from_bits(NEG_INF);
    assert!(r.is_nan());
    assert_eq!(r.frac() >> 22, 1, "quiet bit");
}

#[test]
fn infinity_absorbs() {
    assert_eq!(sum(POS_INF, POS_INF), POS_INF);
    assert_eq!(sum(NEG_INF, NEG_INF), NEG_INF);
    assert_eq!(sum(POS_INF, bits(-3.0e38)), POS_INF);
    assert_eq!(sum(bits(1.0), NEG_INF), NEG_INF);
    assert_eq!(sum(NEG_INF, POS_ZERO), NEG_INF);
    assert_eq!(sum(1, POS_INF), POS_INF);
}

#[test]
fn overflow() {
    assert_eq!(sum(MAX_FINITE, MAX_FINITE), POS_INF);
    assert_eq!(sum(0xFF7F_FFFF, 0xFF7F_FFFF), NEG_INF);
}

#[test]
fn overflow_starts_halfway_to_the_next_power() {
    // the largest finite value is 2^128 - 2^104; half a unit above it is 2^103
    let half_unit = 0x7300_0000;
    let below_half = 0x72FF_FFFF;
    assert_eq!(sum(MAX_FINITE, half_unit), POS_INF);
    assert_eq!(sum(MAX_FINITE, below_half), MAX_FINITE);
    assert_eq!(sum(0xFF7F_FFFF, half_unit | 0x8000_0000), NEG_INF);
    assert_eq!(sum(0xFF7F_FFFF, below_half | 0x8000_0000), 0xFF7F_FFFF);
}

#[test]
fn rounding_boundary() {
    let next_up = ONE + 1;
    let two_up = ONE + 2;
    let half_unit = bits(5.9604645e-8); // 2^-24
    let quarter_unit = bits(2.9802322e-8); // 2^-25
    assert_eq!(half_unit, 0x3380_0000);
    assert_eq!(quarter_unit, 0x3300_0000);
    // halfway between 1 and the next value: the tie goes to the even fraction
    assert_eq!(sum(ONE, half_unit), ONE);
    assert_eq!(sum(ONE, half_unit), bits(1.0 + f32::from_bits(half_unit)));
    // halfway between the next value and the one after: even is up
    assert_eq!(sum(next_up, half_unit), two_up);
    // anything above halfway goes up, anything below goes down
    assert_eq!(sum(ONE, half_unit + 1), next_up);
    assert_eq!(sum(ONE, half_unit - 1), ONE);
    assert_eq!(sum(ONE, quarter_unit), ONE);
}

#[test]
fn sticky_bit_breaks_the_tie() {
    // 2^24 + (1 + 2^-23): guard set, every bit but the last one clear below
    let big = bits(16777216.0);
    assert_eq!(sum(big, ONE), big);
    assert_eq!(sum(big, ONE + 1), big + 1);
    // the same with the smaller operand 60 places down: only a sticky bit is left
    let a = 0x5F00_0001; // 2^63 * (1 + 2^-23)
    let tiny = bits(1.0);
    assert_eq!(sum(a, tiny), a);
    assert_eq!(sum(a, tiny | 0x8000_0000), a);
    // exactly half a unit less a little, through a difference
    let half = 0x5280_0000; // 2^38, half a unit of `a`
    assert_eq!(sum(sum(a, half), tiny | 0x8000_0000), sum(a, half));
}

#[test]
fn carry_after_rounding() {
    // 1.9999999 + 1.9999999 and 1.9999999 + 2^-24: the significand rounds up to 2^24
    let almost_two = 0x3FFF_FFFF;
    assert_eq!(sum(almost_two, almost_two), 0x407F_FFFF);
    assert_eq!(sum(almost_two, 0x3380_0000), 0x4000_0000);
    assert_eq!(sum(almost_two, 0x3400_0000), 0x4000_0000);
}

#[test]
fn cancellation() {
    assert_eq!(sum(bits(1.5), bits(-1.5)), POS_ZERO);
    assert_eq!(sum(bits(-1.5), bits(1.5)), POS_ZERO);
    assert_eq!(sum(1, 0x8000_0001), POS_ZERO);
    assert_eq!(sum(ONE + 1, ONE | 0x8000_0000), bits(1.1920929e-7)); // 2^-23
    assert_eq!(sum(bits(3.0), bits(-2.75)), bits(0.25));
    assert_eq!(sum(bits(-8.0), bits(7.9999995)), bits(-4.7683716e-7));
}

#[test]
fn subnormal_operands_and_results() {
    assert_eq!(sum(1, 1), 2);
    assert_eq!(sum(0x007F_FFFF, 1), MIN_NORMAL);
    assert_eq!(sum(0x007F_FFFF, 0x007F_FFFF), 0x00FF_FFFE);
    assert_eq!(sum(MIN_NORMAL, 0x8000_0001), 0x007F_FFFF);
    assert_eq!(sum(0x0100_0000, 0x8080_0001), 0x007F_FFFF);
    assert_eq!(sum(0x8000_0003, 1), 0x8000_0002);
    assert_eq!(sum(0x0080_0001, 0x8080_0000), 1);
}

#[test]
fn sign_follows_the_larger_magnitude() {
    assert_eq!(sum(bits(1.0), bits(-3.0)), bits(-2.0));
    assert_eq!(sum(bits(-3.0), bits(1.0)), bits(-2.0));
    assert_eq!(sum(bits(-1.0), bits(3.0)), bits(2.0));
    assert_eq!(sum(bits(-1.0), bits(-3.0)), bits(-4.0));
    // equal exponents: the significand decides
    assert_eq!(sum(bits(1.25), bits(-1.75)), bits(-0.5));
}

#[test]
fn literal_sums() {
    assert_eq!(sum(bits(1.0), bits(2.0)), bits(3.0));
    assert_eq!(sum(bits(1.5), bits(2.0)), bits(3.5));
    assert_eq!(sum(bits(1.25), bits(7.5)), bits(8.75));
    assert_eq!(sum(bits(10.2), bits(0.1)), bits(10.3));
    assert_eq!(sum(bits(10.2), bits(0.1)), 0x4124_CCCD);
}
