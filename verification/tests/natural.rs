use rkn::natural::Natural;

#[test]
fn test_add_small_small() {
    assert_eq!(Natural::from(0u64).add(Natural::from(0u64)), Natural::from(0u64));
    assert_eq!(Natural::from(0u64).add(Natural::from(1u64)), Natural::from(1u64));
    assert_eq!(Natural::from(1u64).add(Natural::from(0u64)), Natural::from(1u64));
    assert_eq!(Natural::from(1u64).add(Natural::from(1u64)), Natural::from(2u64));
    assert_eq!(Natural::from(123u64).add(Natural::from(456u64)), Natural::from(579u64));
}

#[test]
fn test_add_small_small_overflow() {
    assert_eq!(
        Natural::from(u64::MAX).add(Natural::one()),
        Natural::from_limbs(&[0, 1])
    );
    assert_eq!(
        Natural::from(u64::MAX).add(Natural::from(u64::MAX)),
        Natural::from_limbs(&[u64::MAX - 1, 1])
    );
}

#[test]
fn test_add_small_large() {
    let small = Natural::from(123u64);
    let large = Natural::from_limbs(&[456, 1]);
    assert_eq!(small.add(large), Natural::from_limbs(&[579, 1]));

    let small = Natural::from(42u64);
    let large = Natural::from_limbs(&[100, 200, 300]);
    assert_eq!(small.add(large), Natural::from_limbs(&[142, 200, 300]));
}

#[test]
fn test_add_small_large_overflow() {
    let small = Natural::from(1u64);
    let large = Natural::from_limbs(&[u64::MAX, 0]);
    assert_eq!(small.add(large), Natural::from_limbs(&[0, 1]));

    let small = Natural::from(5u64);
    let large = Natural::from_limbs(&[u64::MAX - 3, u64::MAX]);
    assert_eq!(small.add(large), Natural::from_limbs(&[1, 0, 1]));
}

#[test]
fn test_add_large_small() {
    let large = Natural::from_limbs(&[100, 200]);
    let small = Natural::from(50u64);
    assert_eq!(large.add(small), Natural::from_limbs(&[150, 200]));

    let large = Natural::from_limbs(&[1000, 2000, 3000]);
    let small = Natural::from(234u64);
    assert_eq!(large.add(small), Natural::from_limbs(&[1234, 2000, 3000]));
}

#[test]
fn test_add_large_small_overflow() {
    let large = Natural::from_limbs(&[u64::MAX, 10]);
    let small = Natural::from(1u64);
    assert_eq!(large.add(small), Natural::from_limbs(&[0, 11]));

    let large = Natural::from_limbs(&[u64::MAX, u64::MAX]);
    let small = Natural::from(1u64);
    assert_eq!(large.add(small), Natural::from_limbs(&[0, 0, 1]));
}

#[test]
fn test_add_large_large() {
    let a = Natural::from_limbs(&[123, 456]);
    let b = Natural::from_limbs(&[789, 123]);
    assert_eq!(a.add(b), Natural::from_limbs(&[912, 579]));

    let a = Natural::from_limbs(&[100, 200, 300]);
    let b = Natural::from_limbs(&[400, 500]);
    assert_eq!(a.add(b), Natural::from_limbs(&[500, 700, 300]));
}

#[test]
fn test_add_large_large_overflow() {
    let a = Natural::from_limbs(&[u64::MAX, 10]);
    let b = Natural::from_limbs(&[1, 5]);
    assert_eq!(a.add(b), Natural::from_limbs(&[0, 16]));

    let a = Natural::from_limbs(&[u64::MAX, u64::MAX]);
    let b = Natural::from_limbs(&[1, 0]);
    assert_eq!(a.add(b), Natural::from_limbs(&[0, 0, 1]));

    let a = Natural::from_limbs(&[u64::MAX, u64::MAX, u64::MAX]);
    let b = Natural::from_limbs(&[1, 0, 0]);
    assert_eq!(a.add(b), Natural::from_limbs(&[0, 0, 0, 1]));
}

#[test]
fn test_mul_small_small() {
    assert_eq!(Natural::from(0u64).mul(Natural::from(0u64)), Natural::from(0u64));
    assert_eq!(Natural::from(1u64).mul(Natural::from(0u64)), Natural::from(0u64));
    assert_eq!(Natural::from(0u64).mul(Natural::from(1u64)), Natural::from(0u64));
    assert_eq!(Natural::from(1u64).mul(Natural::from(1u64)), Natural::from(1u64));
    assert_eq!(Natural::from(0u64).mul(Natural::from(5u64)), Natural::from(0u64));
    assert_eq!(Natural::from(5u64).mul(Natural::from(0u64)), Natural::from(0u64));
    assert_eq!(Natural::from(1u64).mul(Natural::from(5u64)), Natural::from(5u64));
    assert_eq!(Natural::from(5u64).mul(Natural::from(1u64)), Natural::from(5u64));
    assert_eq!(Natural::from(2u64).mul(Natural::from(3u64)), Natural::from(6u64));
    assert_eq!(Natural::from(10u64).mul(Natural::from(20u64)), Natural::from(200u64));
    assert_eq!(Natural::from(123u64).mul(Natural::from(456u64)), Natural::from(56088u64));
}

#[test]
fn test_mul_small_small_overflow() {
    assert_eq!(
        Natural::from(u64::MAX).mul(Natural::from(2u64)),
        Natural::from_limbs(&[0xFFFF_FFFF_FFFF_FFFE, 1])
    );

    let half_max = Natural::from(u64::MAX / 2 + 1);
    assert_eq!(
        half_max.clone().mul(half_max),
        Natural::from_limbs(&[0, 0x4000_0000_0000_0000])
    );

    assert_eq!(
        Natural::from(u64::MAX).mul(Natural::from(u64::MAX)),
        Natural::from_limbs(&[0x1, 0xfffffffffffffffe])
    );
}

#[test]
fn test_from_limbs_shapes() {
    assert_eq!(Natural::from_limbs(&[]), Natural::from(0u64));
    assert_eq!(Natural::from_limbs(&[7]), Natural::from(7u64));
    assert_ne!(Natural::from_limbs(&[7, 0]), Natural::from(7u64));
}

#[test]
fn test_constants() {
    assert_eq!(Natural::zero(), Natural::from(0u64));
    assert_eq!(Natural::one(), Natural::from(1u64));
}

#[test]
fn test_add_assign_matches_add() {
    let mut a = Natural::from_limbs(&[u64::MAX, 10]);
    a.add_assign(Natural::from(1u64));
    assert_eq!(a, Natural::from_limbs(&[0, 11]));
}

#[test]
fn test_mul_assign_matches_mul() {
    let mut a = Natural::from_limbs(&[1, 2]);
    a.mul_assign(Natural::from(3u64));
    assert_eq!(a, Natural::from_limbs(&[3, 6]));
}

#[test]
fn test_add_commutes() {
    let cases: [(Natural, Natural); 3] = [
        (Natural::from(17u64), Natural::from(25u64)),
        (Natural::from(9u64), Natural::from_limbs(&[4, 5])),
        (Natural::from_limbs(&[u64::MAX, 2]), Natural::from_limbs(&[7, 8, 9])),
    ];
    for (a, b) in cases {
        assert_eq!(a.clone().add(b.clone()), b.add(a));
    }
}

#[test]
fn test_mul_commutes() {
    let cases: [(Natural, Natural); 3] = [
        (Natural::from(17u64), Natural::from(25u64)),
        (Natural::from(9u64), Natural::from_limbs(&[4, 5])),
        (Natural::from_limbs(&[u64::MAX, 2]), Natural::from_limbs(&[7, 8])),
    ];
    for (a, b) in cases {
        assert_eq!(a.clone().mul(b.clone()), b.mul(a));
    }
}

#[test]
fn test_add_identity() {
    let a = Natural::from(42u64);
    assert_eq!(a.clone().add(Natural::zero()), a);
    let b = Natural::from_limbs(&[3, 4, 5]);
    assert_eq!(b.clone().add(Natural::zero()), b);
}

#[test]
fn test_mul_identity_and_absorption() {
    let a = Natural::from(42u64);
    assert_eq!(a.clone().mul(Natural::one()), a);
    assert_eq!(a.mul(Natural::zero()), Natural::zero());
    let b = Natural::from_limbs(&[3, 4, 5]);
    assert_eq!(b.clone().mul(Natural::one()), b);
    assert_eq!(b.mul(Natural::zero()), Natural::zero());
}

#[test]
fn test_carry_ripple_all_max() {
    let a = Natural::from_limbs(&[u64::MAX, u64::MAX, u64::MAX]);
    assert_eq!(a.add(Natural::one()), Natural::from_limbs(&[0, 0, 0, 1]));
}

#[test]
fn test_widening_multiply() {
    assert_eq!(
        Natural::from(u64::MAX).mul(Natural::from(u64::MAX)),
        Natural::from_limbs(&[1, u64::MAX - 1])
    );
}

#[test]
fn test_mul_large_large() {
    // (2 + 3*2^64) * (5 + 7*2^64) = 10 + 29*2^64 + 21*2^128, no carries.
    let a = Natural::from_limbs(&[2, 3]);
    let b = Natural::from_limbs(&[5, 7]);
    assert_eq!(a.mul(b), Natural::from_limbs(&[10, 29, 21, 0]));

    // 2^64 * 2^64 = 2^128.
    let a = Natural::from_limbs(&[0, 1]);
    let b = Natural::from_limbs(&[0, 1]);
    assert_eq!(a.mul(b), Natural::from_limbs(&[0, 0, 1, 0]));

    // (2^128 - 1)^2 = 2^256 - 2^129 + 1.
    let a = Natural::from_limbs(&[u64::MAX, u64::MAX]);
    let b = Natural::from_limbs(&[u64::MAX, u64::MAX]);
    assert_eq!(
        a.mul(b),
        Natural::from_limbs(&[1, 0, u64::MAX - 1, u64::MAX])
    );
}

#[test]
fn test_mul_swap_reduction() {
    let small = Natural::from(3u64);
    let large = Natural::from_limbs(&[1, 2]);
    let left = small.clone().mul(large.clone());
    let right = large.mul(small);
    assert_eq!(left, Natural::from_limbs(&[3, 6]));
    assert_eq!(left, right);
}

#[test]
fn test_mul_large_small_overflow() {
    // (MAX + MAX*2^64) * 2 ripples a carry into a third limb.
    let a = Natural::from_limbs(&[u64::MAX, u64::MAX]);
    assert_eq!(
        a.mul(Natural::from(2u64)),
        Natural::from_limbs(&[u64::MAX - 1, u64::MAX, 1])
    );
}

#[test]
fn test_end_to_end_double_max() {
    assert_eq!(
        Natural::from(u64::MAX).add(Natural::from(u64::MAX)),
        Natural::from_limbs(&[u64::MAX - 1, 1])
    );
}
