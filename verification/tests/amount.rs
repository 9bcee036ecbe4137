use my_approvals::amount::Amount;
use my_approvals::erc20::{Address, CachedERC20};

fn amount(digits: Vec<u8>) -> Amount {
    Amount::new(digits).expect("digits must be canonical")
}

#[test]
fn split_keeps_integer_and_fraction() {
    let (int_part, frac_part) = Amount::from_u128(1234567).split(3);
    assert_eq!(int_part, amount(vec![1, 2, 3, 4]));
    assert_eq!(frac_part, amount(vec![5, 6, 7]));
}

#[test]
fn split_at_scale_zero_is_identity() {
    let (int_part, frac_part) = Amount::from_u128(5).split(0);
    assert_eq!(int_part, amount(vec![5]));
    assert_eq!(frac_part, amount(vec![]));
}

#[test]
fn split_of_zero_is_zero() {
    let (int_part, frac_part) = Amount::from_u128(0).split(4);
    assert_eq!(int_part, Amount::zero());
    assert_eq!(frac_part, Amount::zero());
}

#[test]
fn split_below_scale_is_all_fraction() {
    let (int_part, frac_part) = Amount::from_u128(42).split(5);
    assert_eq!(int_part, Amount::zero());
    assert_eq!(frac_part, amount(vec![4, 2]));
}

#[test]
fn split_strips_leading_zeros_of_fraction() {
    // 10005 at scale 4: integer part 1, fraction 5 (0005 as a number)
    let (int_part, frac_part) = Amount::from_u128(10005).split(4);
    assert_eq!(int_part, amount(vec![1]));
    assert_eq!(frac_part, amount(vec![5]));
}

#[test]
fn split_handles_values_beyond_machine_range() {
    // a 45-digit value: 123...9 repeated, far over u128
    let mut digits = Vec::new();
    for i in 0..45u8 {
        digits.push(1 + (i % 9));
    }
    let a = amount(digits.clone());
    let (int_part, frac_part) = a.split(18);
    assert_eq!(int_part.digits, digits[..27].to_vec());
    // fraction starts at digit 27, which is nonzero here
    assert_eq!(frac_part.digits, digits[27..].to_vec());
}

#[test]
fn from_u128_builds_decimal_digits() {
    assert_eq!(Amount::from_u128(0).digits, Vec::<u8>::new());
    assert_eq!(Amount::from_u128(7).digits, vec![7]);
    assert_eq!(Amount::from_u128(105).digits, vec![1, 0, 5]);
    assert_eq!(Amount::from_u128(u128::MAX).digits.len(), 39);
}

#[test]
fn new_rejects_non_canonical_digit_strings() {
    assert!(Amount::new(vec![]).is_some());
    assert!(Amount::new(vec![0]).is_none(), "leading zero");
    assert!(Amount::new(vec![0, 1]).is_none(), "leading zero");
    assert!(Amount::new(vec![1, 10]).is_none(), "not a digit");
    assert!(Amount::new(vec![9, 0, 0]).is_some());
}

#[test]
fn as_decimals_uses_the_token_scale() {
    let token = CachedERC20::new(
        Address { hi: 1, lo: 2 },
        "WETH".to_string(),
        18,
    );
    assert_eq!(token.decimals(), 18);
    // 1.5 * 10^18 wei: the fraction is 5 * 10^17
    let (int_part, frac_part) = token.as_decimals(&Amount::from_u128(1_500_000_000_000_000_000));
    assert_eq!(int_part, amount(vec![1]));
    let mut expected_frac = vec![5u8];
    expected_frac.extend(std::iter::repeat(0).take(17));
    assert_eq!(frac_part.digits, expected_frac);
}

#[test]
fn token_getters_return_the_resolved_fields() {
    let addr = Address { hi: 7, lo: 99 };
    let token = CachedERC20::new(addr, "DAI".to_string(), 18);
    assert_eq!(token.symbol(), "DAI");
    assert_eq!(token.address(), addr);
    assert_eq!(token.decimals(), 18);
}
