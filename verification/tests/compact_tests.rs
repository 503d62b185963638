use arpfloat::compact::Float;
use arpfloat::compact::RoundMode;

type CFP16 = Float<5, 10>;
type CFP32 = Float<8, 23>;
type CFP64 = Float<11, 52>;

fn compact_to_f32<const E: usize, const M: usize>(a: &Float<E, M>) -> f32 {
    let b: CFP32 = a.cast();
    f32::from_bits(b.as_native_float() as u32)
}

fn compact_to_f64<const E: usize, const M: usize>(a: &Float<E, M>) -> f64 {
    let b: CFP64 = a.cast();
    f64::from_bits(b.as_native_float())
}

fn compact_of_f32<const E: usize, const M: usize>(f: f32) -> Float<E, M> {
    Float::from_bits::<8, 23>(f.to_bits() as u64)
}

fn compact_of_f64<const E: usize, const M: usize>(f: f64) -> Float<E, M> {
    Float::from_bits::<11, 52>(f.to_bits())
}

#[test]
fn test_round_trip_native_float_conversion() {
    let f = f32::from_bits(0x41700000);
    let a: CFP32 = compact_of_f32(f);
    assert_eq!(f, compact_to_f32(&a));

    let pi = 355. / 113.;
    let a: CFP64 = compact_of_f64(pi);
    assert_eq!(pi, compact_to_f64(&a));

    assert!(compact_of_f64::<11, 52>(f64::NAN).is_nan());
    assert!(!compact_of_f64::<11, 52>(f64::NAN).is_inf());
    assert!(compact_of_f64::<11, 52>(f64::INFINITY).is_inf());
    assert!(!compact_of_f64::<11, 52>(f64::INFINITY).is_nan());
    assert!(compact_of_f64::<11, 52>(f64::NEG_INFINITY).is_inf());

    let a_float = f32::from_bits(0x3f8fffff);
    let a: CFP64 = compact_of_f32(a_float);
    let b: CFP32 = a.cast();
    assert_eq!(compact_to_f32(&a), a_float);
    assert_eq!(compact_to_f32(&b), a_float);

    let f = f32::from_bits(0x000000);
    let a: CFP32 = compact_of_f32(f);
    assert!(!a.is_normal());
    assert_eq!(f, compact_to_f32(&a));
}

#[test]
fn setter_test() {
    assert_eq!(CFP16::get_bias(), 15);
    assert_eq!(CFP32::get_bias(), 127);
    assert_eq!(CFP64::get_bias(), 1023);

    let a: Float<6, 10> = Float::new(false, 2, 12);
    let mut b = a;
    b.set_exp(b.get_exp());
    assert_eq!(a.get_exp(), b.get_exp());
}

#[test]
fn constructor_test() {
    let values: [u32; 5] = [0x3f8fffff, 0x40800000, 0x3f000000, 0xc60b40ec, 0xbc675793];

    for v in values {
        let output = f32::from_bits(v);
        let a: CFP64 = compact_of_f32(output);
        let b: CFP32 = a.cast();
        assert_eq!(compact_to_f32(&a), output);
        assert_eq!(compact_to_f32(&b), output);
    }
}

#[test]
fn test_from_integers() {
    let pi = 355. / 133.;
    let e = 193. / 71.;

    assert_eq!(compact_to_f32(&CFP32::from_i64(1 << 32)), (1u64 << 32) as f32);
    assert_eq!(compact_to_f32(&CFP32::from_i64(1 << 34)), (1u64 << 34) as f32);
    assert_eq!(compact_to_f32(&compact_of_f64::<8, 23>(pi)), pi as f32);
    assert_eq!(compact_to_f32(&compact_of_f64::<8, 23>(e)), e as f32);
    assert_eq!(compact_to_f32(&CFP32::from_u64(8388610)), 8388610 as f32);

    for i in 0..(1u64 << 16) {
        assert_eq!(compact_to_f32(&CFP32::from_u64(i << 12)), (i << 12) as f32);
    }

    assert_eq!(compact_to_f64(&CFP64::from_i64(0)), 0.);
    assert_eq!(compact_to_f64(&CFP16::from_i64(65500)), 65504.0);
    assert_eq!(compact_to_f64(&CFP16::from_i64(65504)), 65504.0);
    assert_eq!(compact_to_f64(&CFP16::from_i64(65535)), f64::INFINITY);
    assert_eq!(compact_to_f64(&CFP16::from_i64(65536)), f64::INFINITY);

    for i in -100..100 {
        let a = CFP32::from_i64(i);
        let b: CFP32 = compact_of_f64(i as f64);
        assert_eq!(compact_to_f32(&a), compact_to_f32(&b));
    }
}

#[test]
fn test_nan_inf() {
    assert!(compact_to_f64(&CFP64::nan(true)).is_nan());
    assert_eq!(compact_to_f64(&CFP64::zero(false)), 0.0);
    assert_eq!(compact_to_f64(&CFP64::zero(true)), -0.0);

    assert!(CFP64::nan(true).is_nan());
    assert!(CFP64::inf(true).is_inf());
    {
        let a: CFP32 = compact_of_f32(f32::from_bits(0x3f8fffff));
        assert!(!a.is_inf());
        assert!(!a.is_nan());
        assert!(!a.is_negative());
    }
    {
        let a: CFP32 = compact_of_f32(f32::from_bits(0xf48fffff));
        assert!(!a.is_inf());
        assert!(!a.is_nan());
        assert!(a.is_negative());
    }
    {
        let a: CFP32 = compact_of_f32(f32::from_bits(0xff800000)); // -Inf
        assert!(a.is_inf());
        assert!(!a.is_nan());
        assert!(a.is_negative());
    }
    {
        let a: CFP32 = compact_of_f32(f32::from_bits(0xffc00000)); // -Nan.
        assert!(!a.is_inf());
        assert!(a.is_nan());
        assert!(a.is_negative());
    }

    {
        let m32: u64 = arpfloat::utils::mask(32);
        let mut a: CFP64 = compact_of_f64(f64::from_bits(m32 << 32));
        assert!(!a.is_inf());
        assert!(a.is_nan());
        a.set_mantissa(0);
        assert!(a.is_inf());
        assert!(!a.is_nan());
        assert!(a.is_negative());
    }
    {
        // Check that casting propagates inf/nan.
        let a: CFP32 = compact_of_f32(f32::from_bits(0xff800000)); // -Inf
        let b: CFP64 = a.cast();
        assert!(b.is_inf());
        assert!(!b.is_nan());
        assert!(b.is_negative());
    }
}

#[test]
fn test_cast_down() {
    // Check that we can cast the numbers down, matching the hardware casting.
    let vals = [0.3, 0.1, 14151241515., 14151215.];
    for v in vals {
        let res = compact_to_f32(&compact_of_f64::<11, 52>(v));
        assert_eq!(compact_to_f64(&compact_of_f64::<11, 52>(v)).to_bits(), v.to_bits());
        assert!(res == v as f32);
    }
}

#[test]
fn test_round() {
    let a = 0b100001000001010010110111101011001111001010110000000000000000000;
    let b = 0b100001000001010010110111101011001111001011000000000000000000000;
    let mut val = CFP64::default();
    val.set_mantissa(a);
    val.round(44, RoundMode::Even);
    assert_eq!(val.get_mantissa(), b);

    let a = 0b101111;
    let b = 0b110000;
    let c = 0b100000;
    let mut val = CFP64::default();
    val.set_mantissa(a);
    val.round(60, RoundMode::Even);
    assert_eq!(val.get_mantissa(), b);

    let mut val = CFP64::default();
    val.set_mantissa(a);
    val.round(60, RoundMode::Trunc);
    assert_eq!(val.get_mantissa(), c);
}

#[test]
fn test_compact_predicates() {
    let z = CFP32::zero(true);
    assert!(z.is_zero());
    assert!(z.is_negative());
    assert!(!z.is_normal());
    let i = CFP32::inf(false);
    assert!(i.in_special_exp());
    assert!(i.is_inf());
    assert!(!i.is_nan());
    let n = CFP32::nan(false);
    assert!(n.in_special_exp());
    assert!(n.is_nan());
    assert!(!n.is_inf());
    let v = CFP32::from_u64(6);
    assert!(v.is_normal());
    assert_eq!(v.get_exp(), 2);
    assert_eq!(v.get_mantissa(), 0b11 << 62);
    let w = v.neg();
    assert!(w.is_negative());
    assert_eq!(w.get_exp(), 2);
    assert_eq!(CFP32::get_exp_bounds(), (-127, 127));
}
