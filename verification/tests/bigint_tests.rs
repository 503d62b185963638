use arpfloat::BigInt;

struct Lfsr {
    state: u64,
}

impl Lfsr {
    fn new() -> Self {
        Lfsr { state: 0x2545F4914F6CDD1D }
    }

    fn get64(&mut self) -> u64 {
        let mut x = self.state;
        x ^= x << 13;
        x ^= x >> 7;
        x ^= x << 17;
        self.state = x;
        x
    }
}

fn test_with_random_values(
    correct: fn(u128, u128) -> (u128, bool),
    test: fn(u128, u128) -> (u128, bool),
) {
    let mut lfsr = Lfsr::new();

    for _ in 0..500 {
        let v0 = lfsr.get64();
        let v1 = lfsr.get64();
        let v2 = lfsr.get64();
        let v3 = lfsr.get64();

        let n1 = (v0 as u128) + ((v1 as u128) << 64);
        let n2 = (v2 as u128) + ((v3 as u128) << 64);

        let r1 = correct(n1, n2);
        let r2 = test(n1, n2);
        assert_eq!(r1.0, r2.0, "Incorrect value");
        assert_eq!(r1.1, r2.1, "Incorrect carry");
    }
}

#[test]
fn test_shl() {
    let mut x = BigInt::<4>::from_u64(0xff00ff);
    assert_eq!(x.get_part(0), 0xff00ff);
    x.shift_left(17);
    assert_eq!(x.get_part(0), 0x1fe01fe0000);
    x.shift_left(17);
    assert_eq!(x.get_part(0), 0x3fc03fc00000000);
    x.shift_left(64);
    assert_eq!(x.get_part(1), 0x3fc03fc00000000);
}

#[test]
fn test_shr() {
    let mut x = BigInt::<4>::from_u64(0xff00ff);
    x.shift_left(128);
    assert_eq!(x.get_part(2), 0xff00ff);
    x.shift_right(17);
    assert_eq!(x.get_part(1), 0x807f800000000000);
    x.shift_right(17);
    assert_eq!(x.get_part(1), 0x03fc03fc0000000);
    x.shift_right(64);
    assert_eq!(x.get_part(0), 0x03fc03fc0000000);
}

#[test]
fn test_add_basic() {
    let mut x = BigInt::<2>::from_u64(0xffffffff00000000);
    let y = BigInt::<2>::from_u64(0xffffffff);
    let z = BigInt::<2>::from_u64(0xf);
    let c1 = x.inplace_add(&y);
    assert!(!c1);
    assert_eq!(x.get_part(0), 0xffffffffffffffff);
    let c2 = x.inplace_add(&z);
    assert!(!c2);
    assert_eq!(x.get_part(0), 0xe);
    assert_eq!(x.get_part(1), 0x1);
}

#[test]
fn test_sub_basic() {
    let mut x = BigInt::<2>::from_parts(&[0x0, 0x1]);
    let y = BigInt::<2>::from_u64(0x1);
    let c1 = x.inplace_sub(&y);
    assert!(!c1);
    assert_eq!(x.get_part(0), 0xffffffffffffffff);
    assert_eq!(x.get_part(1), 0);
}

#[test]
fn test_mask_basic() {
    let mut x = BigInt::<3>::from_parts(&[0b11111, 0b10101010101010, 0b111]);
    x.mask(69);
    assert_eq!(x.get_part(0), 0b11111); // No change
    assert_eq!(x.get_part(1), 0b01010); // Keep the bottom 5 bits.
    assert_eq!(x.get_part(2), 0b0); // Zero.
}

#[test]
fn test_basic_operations() {
    fn correct_sub(a: u128, b: u128) -> (u128, bool) {
        a.overflowing_sub(b)
    }
    fn correct_add(a: u128, b: u128) -> (u128, bool) {
        a.overflowing_add(b)
    }
    fn correct_mul(a: u128, b: u128) -> (u128, bool) {
        a.overflowing_mul(b)
    }
    fn test_sub(a: u128, b: u128) -> (u128, bool) {
        let mut a = BigInt::<2>::from_u128(a);
        let b = BigInt::<2>::from_u128(b);
        let c = a.inplace_sub(&b);
        (a.to_u128(), c)
    }
    fn test_add(a: u128, b: u128) -> (u128, bool) {
        let mut a = BigInt::<2>::from_u128(a);
        let b = BigInt::<2>::from_u128(b);
        let c = a.inplace_add(&b);
        (a.to_u128(), c)
    }
    fn test_mul(a: u128, b: u128) -> (u128, bool) {
        let mut a = BigInt::<2>::from_u128(a);
        let b = BigInt::<2>::from_u128(b);
        let c = a.inplace_mul::<4>(b);
        (a.to_u128(), c)
    }

    fn correct_cmp(a: u128, b: u128) -> (u128, bool) {
        (
            match a.cmp(&b) {
                std::cmp::Ordering::Less => 1,
                std::cmp::Ordering::Equal => 2,
                std::cmp::Ordering::Greater => 3,
            } as u128,
            false,
        )
    }
    fn test_cmp(a: u128, b: u128) -> (u128, bool) {
        let a = BigInt::<2>::from_u128(a);
        let b = BigInt::<2>::from_u128(b);

        (
            match a.partial_cmp(&b).unwrap() {
                std::cmp::Ordering::Less => 1,
                std::cmp::Ordering::Equal => 2,
                std::cmp::Ordering::Greater => 3,
            } as u128,
            false,
        )
    }

    test_with_random_values(correct_mul, test_mul);
    test_with_random_values(correct_add, test_add);
    test_with_random_values(correct_sub, test_sub);
    test_with_random_values(correct_cmp, test_cmp);
}

#[test]
fn test_msb() {
    let x = BigInt::<5>::from_u64(0xffffffff00000000);
    assert_eq!(x.msb_index(), 64);

    let x = BigInt::<5>::from_u64(0x0);
    assert_eq!(x.msb_index(), 0);

    let x = BigInt::<5>::from_u64(0x1);
    assert_eq!(x.msb_index(), 1);

    let mut x = BigInt::<5>::from_u64(0x1);
    x.shift_left(189);
    assert_eq!(x.msb_index(), 189 + 1);

    for i in 0..256 {
        let mut x = BigInt::<5>::from_u64(0x1);
        x.shift_left(i);
        assert_eq!(x.msb_index(), i + 1);
    }
}

#[test]
fn test_bigint_operators() {
    type BI = BigInt<2>;
    let x = BI::from_u64(10);
    let y = BI::from_u64(1);

    let c = (x - y) * x;
    assert_eq!(c.to_u64(), 90);
    assert_eq!((y + y).to_u64(), 2);
}

#[test]
fn test_two_word_overflow_wrap() {
    // The wrapped sum: low word rolls over to zero, high word takes the
    // carry, and the flag stays clear because two words still fit it.
    let mut x = BigInt::<2>::from_u64(0xFFFFFFFFFFFFFFFF);
    let one = BigInt::<2>::from_u64(1);
    let overflow = x.inplace_add(&one);
    assert!(!overflow);
    assert_eq!(x.get_part(0), 0);
    assert_eq!(x.get_part(1), 1);

    // At the full width the flag reports the wrap.
    let mut y = BigInt::<1>::from_u64(0xFFFFFFFFFFFFFFFF);
    let one1 = BigInt::<1>::from_u64(1);
    let overflow1 = y.inplace_add(&one1);
    assert!(overflow1);
    assert_eq!(y.get_part(0), 0);
}

#[test]
fn test_two_word_sub_no_borrow() {
    let mut x = BigInt::<2>::from_u64(0xffffffffffffffff);
    let y = BigInt::<2>::from_u64(1);
    let borrow = x.inplace_sub(&y);
    assert!(!borrow);
    assert_eq!(x.get_part(0), 0xfffffffffffffffe);
    assert_eq!(x.get_part(1), 0);
}

#[test]
fn test_shift_round_trip_masks_top_bits() {
    // shift_right(shift_left(x, n), n) clears the top n bits.
    let mut x = BigInt::<2>::from_u128(0xDEAD_BEEF_0123_4567_89AB_CDEF_FEDC_BA98);
    let mut expected = x;
    x.shift_left(24);
    x.shift_right(24);
    expected.mask(128 - 24);
    assert_eq!(x.to_u128(), expected.to_u128());

    // A one-word case with an exact value.
    let mut y = BigInt::<1>::from_u64(0xFF00_0000_0000_00FF);
    y.shift_left(8);
    y.shift_right(8);
    assert_eq!(y.get_part(0), 0x0000_0000_0000_00FF);
}

#[test]
fn test_loss_kinds() {
    let x = BigInt::<2>::from_u64(0b10000000);
    assert!(x.get_loss_kind_for_bit(3).is_exactly_zero());
    let x = BigInt::<2>::from_u64(0b10000111);
    assert!(x.get_loss_kind_for_bit(3).is_mt_half());
    let x = BigInt::<2>::from_u64(0b10000100);
    assert!(x.get_loss_kind_for_bit(3).is_exactly_half());
    let x = BigInt::<2>::from_u64(0b10000001);
    assert!(x.get_loss_kind_for_bit(3).is_lt_half());
    // past the representable width, a non-zero value reads less-than-half
    let x = BigInt::<2>::from_u64(5);
    assert!(x.get_loss_kind_for_bit(129).is_lt_half());
    let x = BigInt::<2>::from_u64(0);
    assert!(x.get_loss_kind_for_bit(129).is_exactly_zero());
}

#[test]
fn test_trunc_and_conversions() {
    let x = BigInt::<4>::from_u128(0x1_0000_0000_0000_0002);
    let t: BigInt<2> = x.trunc();
    assert_eq!(t.to_u128(), 0x1_0000_0000_0000_0002);
    let t1: BigInt<1> = x.trunc();
    assert_eq!(t1.get_part(0), 2);

    assert_eq!(BigInt::<3>::from_u64(77).to_u64(), 77);
    assert!(BigInt::<3>::from_u64(0).is_zero());
    assert!(BigInt::<3>::from_u64(4).is_even());
    assert!(BigInt::<3>::from_u64(5).is_odd());
    assert_eq!(BigInt::<2>::all1s(10).to_u64(), 1023);
    assert_eq!(BigInt::<2>::one().to_u64(), 1);
    assert_eq!(BigInt::<2>::default().to_u64(), 0);
    assert!(BigInt::<2>::from_u64(3).lt(&BigInt::<2>::from_u64(4)));
    assert!(!BigInt::<2>::from_u64(4).lt(&BigInt::<2>::from_u64(4)));
}
