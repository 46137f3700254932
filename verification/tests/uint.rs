use txqueue::uint::{H256, U256};

fn big(hi: u128, lo: u128) -> U256 {
    U256 { hi, lo }
}

#[test]
fn sums_carry() {
    assert_eq!(big(0, u128::MAX).plus(U256::one()), big(1, 0));
    assert_eq!(big(3, 0).minus(U256::one()), big(2, u128::MAX));
    assert_eq!(U256::max_value().overflowing_add(U256::one()), (U256::zero(), true));
    assert_eq!(big(1, 2).overflowing_add(big(3, 4)), (big(4, 6), false));
}

#[test]
fn products_reach_the_high_word() {
    assert_eq!(U256::from(6).times(U256::from(7)), U256::from(42));
    assert_eq!(big(0, u128::MAX).times(big(0, u128::MAX)), big(u128::MAX - 1, 1));
    assert_eq!(big(5, 7).times(U256::from(3)), big(15, 21));
}

#[test]
fn quotients_take_the_remainder_down() {
    assert_eq!(big(3, 0).div_u64(2), big(1, 1 << 127));
    assert_eq!(U256::from(100).div_u64(7), U256::from(14));
    assert_eq!(U256::max_value().div_u64(10).hi, u128::MAX / 10);
}

#[test]
fn words_are_compared_from_the_high_one() {
    assert!(big(1, 0) > big(0, u128::MAX));
    assert!(big(1, 1) < big(1, 2));
    assert_eq!(H256 { hi: 1, lo: 2 }, H256 { hi: 1, lo: 2 });
    assert_eq!(U256::default(), U256::zero());
}
