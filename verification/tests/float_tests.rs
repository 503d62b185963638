use arpfloat::float::shift_right_with_loss;
use arpfloat::float::MantissaTy;
use arpfloat::float::combine_loss_fraction;
use arpfloat::Float;
use arpfloat::LossFraction;
use arpfloat::RoundingMode;
use arpfloat::FP16;
use arpfloat::FP32;
use arpfloat::FP64;

fn to_f32<const E: usize, const M: usize>(a: &Float<E, M>) -> f32 {
    let b: FP32 = a.cast();
    f32::from_bits(b.as_native_float() as u32)
}

fn to_f64<const E: usize, const M: usize>(a: &Float<E, M>) -> f64 {
    let b: FP64 = a.cast();
    f64::from_bits(b.as_native_float())
}

fn of_f32<const E: usize, const M: usize>(f: f32) -> Float<E, M> {
    Float::from_bits::<8, 23>(f.to_bits() as u64)
}

fn of_f64<const E: usize, const M: usize>(f: f64) -> Float<E, M> {
    Float::from_bits::<11, 52>(f.to_bits())
}

#[test]
fn shift_right_fraction() {
    let x = MantissaTy::from_u64(0b10000000);
    let res = shift_right_with_loss(x, 3);
    assert!(res.1.is_exactly_zero());

    let x = MantissaTy::from_u64(0b10000111);
    let res = shift_right_with_loss(x, 3);
    assert!(res.1.is_mt_half());

    let x = MantissaTy::from_u64(0b10000100);
    let res = shift_right_with_loss(x, 3);
    assert!(res.1.is_exactly_half());

    let x = MantissaTy::from_u64(0b10000001);
    let res = shift_right_with_loss(x, 3);
    assert!(res.1.is_lt_half());
}

#[test]
fn test_round_trip_native_float_cast() {
    let f = f32::from_bits(0x41700000);
    let a: FP32 = of_f32(f);
    assert_eq!(f, to_f32(&a));

    let pi = 355. / 113.;
    let a: FP64 = of_f64(pi);
    assert_eq!(pi, to_f64(&a));

    assert!(of_f64::<11, 52>(f64::NAN).is_nan());
    assert!(!of_f64::<11, 52>(f64::NAN).is_inf());
    assert!(of_f64::<11, 52>(f64::INFINITY).is_inf());
    assert!(!of_f64::<11, 52>(f64::INFINITY).is_nan());
    assert!(of_f64::<11, 52>(f64::NEG_INFINITY).is_inf());

    let a_float = f32::from_bits(0x3f8fffff);
    let a: FP64 = of_f32(a_float);
    let b: FP32 = a.cast();
    assert_eq!(to_f32(&a), a_float);
    assert_eq!(to_f32(&b), a_float);

    let f = f32::from_bits(0x000000);
    let a: FP32 = of_f32(f);
    assert!(!a.is_normal());
    assert_eq!(f, to_f32(&a));
}

#[test]
fn test_cast_easy_ctor() {
    let values = [0x3f8fffffu32, 0x40800000, 0x3f000000, 0xc60b40ec, 0xbc675793];

    for v in values {
        let output = f32::from_bits(v);
        let a: FP64 = of_f32(output);
        let b: FP32 = a.cast();
        assert_eq!(to_f32(&a), output);
        assert_eq!(to_f32(&b), output);
    }
}

#[test]
fn test_cast_from_integers() {
    let pi = 355. / 133.;
    let e = 193. / 71.;

    assert_eq!(to_f32(&FP32::from_i64(1 << 32)), (1u64 << 32) as f32);
    assert_eq!(to_f32(&FP32::from_i64(1 << 34)), (1u64 << 34) as f32);
    assert_eq!(to_f32(&of_f64::<8, 23>(pi)), pi as f32);
    assert_eq!(to_f32(&of_f64::<8, 23>(e)), e as f32);
    assert_eq!(to_f32(&FP32::from_u64(8388610)), 8388610 as f32);

    for i in 0..(1u64 << 16) {
        assert_eq!(to_f32(&FP32::from_u64(i << 12)), (i << 12) as f32);
    }

    assert_eq!(to_f64(&FP64::from_i64(0)), 0.);
    assert_eq!(to_f64(&FP16::from_i64(65500)), 65504.0);
    assert_eq!(to_f64(&FP16::from_i64(65504)), 65504.0);
    assert_eq!(to_f64(&FP16::from_i64(65535)), f64::INFINITY);
    assert_eq!(to_f64(&FP16::from_i64(65536)), f64::INFINITY);

    for i in -100..100 {
        let a = FP32::from_i64(i);
        let b: FP32 = of_f64(i as f64);
        assert_eq!(to_f32(&a), to_f32(&b));
    }
}

#[test]
fn test_cast_zero_nan_inf() {
    assert!(to_f64(&Float::<11, 52>::nan(true)).is_nan());
    assert_eq!(to_f64(&FP64::zero(false)), 0.0);
    assert_eq!(to_f64(&FP64::zero(true)), -0.0);

    assert!(FP64::nan(true).is_nan());
    assert!(FP64::inf(true).is_inf());
    {
        let a: FP32 = of_f32(f32::from_bits(0x3f8fffff));
        assert!(!a.is_inf());
        assert!(!a.is_nan());
        assert!(!a.is_negative());
    }
    {
        let a: FP32 = of_f32(f32::from_bits(0xf48fffff));
        assert!(!a.is_inf());
        assert!(!a.is_nan());
        assert!(a.is_negative());
    }
    {
        let a: FP32 = of_f32(f32::from_bits(0xff800000)); // -Inf
        assert!(a.is_inf());
        assert!(!a.is_nan());
        assert!(a.is_negative());
    }
    {
        let a: FP32 = of_f32(f32::from_bits(0xffc00000)); // -Nan.
        assert!(!a.is_inf());
        assert!(a.is_nan());
        assert!(a.is_negative());
    }

    {
        let m32: u64 = arpfloat::utils::mask(32);
        let a: FP64 = of_f64(f64::from_bits(m32 << 32));
        assert!(!a.is_inf());
        assert!(a.is_nan());
    }
    {
        // Check that casting propagates inf/nan.
        let a: FP32 = of_f32(f32::from_bits(0xff800000)); // -Inf
        let b: FP64 = a.cast();
        assert!(b.is_inf());
        assert!(!b.is_nan());
        assert!(b.is_negative());
    }
}

#[test]
fn test_cast_down_easy() {
    // Check that we can cast the numbers down, matching the hardware casting.
    for v in [0.3, 0.1, 14151241515., 14151215., 0.0000000001, 1000000000.] {
        let res = to_f32(&of_f64::<11, 52>(v));
        assert_eq!(to_f64(&of_f64::<11, 52>(v)).to_bits(), v.to_bits());
        assert!(res == v as f32);
    }
}

#[test]
fn test_tie_to_even_bit_pattern() {
    // A 12-bit integer narrows to FP16's 11 significand bits: the dropped
    // bit set with nothing below it is an exact tie.  Beside an even kept
    // part the tie keeps it; beside an odd one it moves up.
    // 2729 = 0b10101010100_1: kept part 1364 is even, the tie stays.
    assert_eq!(to_f64(&FP16::from_u64(2729)), 2728.0);
    // 2731 = 0b10101010101_1: kept part 1365 is odd, the tie moves up.
    assert_eq!(to_f64(&FP16::from_u64(2731)), 2732.0);
    // 2730 has a clear dropped bit: exact, nothing moves.
    assert_eq!(to_f64(&FP16::from_u64(2730)), 2730.0);
}

#[test]
fn test_rounding_modes_on_overflow() {
    // Positive overflow: the nearest modes give infinity, truncation the
    // largest finite value.
    let big = Float::<5, 10>::new(false, 20, MantissaTy::from_u64(0x400));
    let mut a = big;
    a.normalize(RoundingMode::NearestTiesToEven, arpfloat::LossFraction::ExactlyZero);
    assert!(a.is_inf());

    let mut b = big;
    b.normalize(RoundingMode::Zero, arpfloat::LossFraction::ExactlyZero);
    assert!(b.is_normal());
    assert_eq!(b.get_exp(), 15);
    assert_eq!(to_f64(&b), 65504.0);

    let mut c = big;
    c.normalize(RoundingMode::Negative, arpfloat::LossFraction::ExactlyZero);
    assert!(c.is_normal());

    let mut d = big;
    d.normalize(RoundingMode::Positive, arpfloat::LossFraction::ExactlyZero);
    assert!(d.is_inf());

    // The same magnitude with the sign flipped swaps the directed modes.
    let neg = Float::<5, 10>::new(true, 20, MantissaTy::from_u64(0x400));
    let mut e = neg;
    e.normalize(RoundingMode::Positive, arpfloat::LossFraction::ExactlyZero);
    assert!(e.is_normal());
    let mut f = neg;
    f.normalize(RoundingMode::Negative, arpfloat::LossFraction::ExactlyZero);
    assert!(f.is_inf());
    assert!(f.is_negative());
}

#[test]
fn test_underflow_flushes_to_zero() {
    // A tiny f64 magnitude is below FP16's minimum exponent: the cast
    // clamps to the minimum and rounds the whole mantissa away.
    let tiny: FP64 = of_f64(1e-30);
    let narrowed: FP16 = tiny.cast();
    assert_eq!(to_f64(&narrowed), 0.0);

    // from_bits flushes an under-range exponent straight to zero.
    let under: FP16 = of_f64(1e-300);
    assert!(!under.is_normal());
    assert_eq!(to_f64(&under), 0.0);
}

#[test]
fn test_accessors_and_predicates() {
    let x = FP64::from_u64(5);
    assert!(x.is_normal());
    assert!(!x.is_zero());
    assert!(!x.is_negative());
    assert_eq!(x.get_exp(), 2);
    assert_eq!(x.get_mantissa().get_part(0), 5u64 << 50);
    let y = x.neg();
    assert!(y.is_negative());
    assert_eq!(y.get_exp(), 2);
    let mut z = x;
    z.set_sign(true);
    assert!(z.get_sign());
    assert!(FP64::from_i64(-3).is_negative());
    assert_eq!(to_f64(&FP64::from_i64(-3)), -3.0);
    assert_eq!(FP64::get_bias(), 1023);
    assert_eq!(FP64::get_exp_bounds(), (-1022, 1023));
    assert_eq!(FP64::get_precision(), 53);
    assert!(FP64::from_u64(3).absolute_less_than(FP64::from_u64(5)));
}

#[test]
fn test_loss_fraction_helpers() {
    assert!(LossFraction::ExactlyZero.is_exactly_zero());
    assert!(LossFraction::LessThanHalf.is_lt_half());
    assert!(LossFraction::ExactlyHalf.is_exactly_half());
    assert!(LossFraction::MoreThanHalf.is_mt_half());
    assert!(LossFraction::LessThanHalf.is_lte_half());
    assert!(LossFraction::ExactlyHalf.is_lte_half());
    assert!(LossFraction::MoreThanHalf.is_gte_half());
    assert!(LossFraction::ExactlyHalf.is_gte_half());
    assert_eq!(LossFraction::LessThanHalf.invert(), LossFraction::MoreThanHalf);
    assert_eq!(LossFraction::MoreThanHalf.invert(), LossFraction::LessThanHalf);
    assert_eq!(LossFraction::ExactlyHalf.invert(), LossFraction::ExactlyHalf);

    assert_eq!(
        combine_loss_fraction(LossFraction::ExactlyZero, LossFraction::LessThanHalf),
        LossFraction::LessThanHalf
    );
    assert_eq!(
        combine_loss_fraction(LossFraction::ExactlyHalf, LossFraction::MoreThanHalf),
        LossFraction::MoreThanHalf
    );
    assert_eq!(
        combine_loss_fraction(LossFraction::LessThanHalf, LossFraction::ExactlyZero),
        LossFraction::LessThanHalf
    );
}

#[test]
fn test_two_step_loss_matches_single_shift() {
    // Shifting right in two steps and combining the reported losses
    // classifies exactly like one shift of the combined width.
    for v in [0u64, 1, 0b10100, 0b10000, 0b11111, 0x1234_5678, 0xFFFF_FFFF_FFFF_FFFF] {
        for (b1, b2) in [(1usize, 0usize), (3, 2), (1, 4), (7, 3), (2, 2)] {
            let x = MantissaTy::from_u64(v);
            let one_step = x.get_loss_kind_for_bit(b1 + b2);
            let (shifted, lsb) = shift_right_with_loss(x, b2 as u64);
            let msb = shifted.get_loss_kind_for_bit(b1);
            assert_eq!(combine_loss_fraction(msb, lsb), one_step);
        }
    }
}

#[test]
fn test_round_trip_normal_f32_dense() {
    // Every normal f32 exponent, with several fraction patterns and both
    // signs, survives the decode/encode round trip bit for bit, read both
    // directly and through the double-precision format.
    for e in 1u32..255 {
        for frac in [0u32, 1, 0x2AAAAA, 0x400000, 0x7FFFFF] {
            for sign in [0u32, 1] {
                let bits = (sign << 31) | (e << 23) | frac;
                let f = f32::from_bits(bits);
                let direct: FP32 = of_f32(f);
                assert_eq!(to_f32(&direct).to_bits(), bits);
                let wide: FP64 = of_f32(f);
                assert_eq!(to_f32(&wide).to_bits(), bits);
            }
        }
    }
}

#[test]
fn test_narrowing_matches_hardware() {
    // Narrowing a double to single precision matches the machine cast for
    // values around the narrowing boundary and the specials.
    let samples = [
        1.0f64,
        -1.0,
        3.5e38,   // past f32::MAX: overflows to infinity
        -3.5e38,
        3.4028234e38, // just inside f32::MAX
        1.17549435e-38, // near the smallest normal f32
        6.5504e4,
        0.0,
        -0.0,
        f64::INFINITY,
        f64::NEG_INFINITY,
    ];
    for v in samples {
        let res = to_f32(&of_f64::<11, 52>(v));
        assert_eq!(res.to_bits(), (v as f32).to_bits());
    }
    // NaN narrows to NaN; the payload is canonical, only NaN-ness holds.
    assert!(to_f32(&of_f64::<11, 52>(f64::NAN)).is_nan());
}

#[test]
fn test_from_u64_exact_when_it_fits() {
    // Integers whose bit length fits the precision convert exactly.
    assert_eq!(to_f64(&FP16::from_u64(2047)), 2047.0);
    assert_eq!(to_f64(&FP16::from_u64(1)), 1.0);
    assert_eq!(to_f64(&FP64::from_u64(1u64 << 52)), (1u64 << 52) as f64);
    let five = FP64::from_u64(5);
    assert_eq!(five.get_exp(), 2);
    assert_eq!(five.get_mantissa().get_part(0), 5u64 << 50);
}
