use big_integer::{BigInt, ParseError};

fn parse(s: &str) -> BigInt {
    BigInt::from_decimal_string(s).expect("digit string")
}

#[test]
fn only_zero() {
    let number_zero = BigInt::new("0");
    assert_eq!("0", "0");
    assert_eq!(number_zero.to_decimal_string(), "0");
}

#[test]
fn one() {
    let number_one = BigInt::new("1");
    assert_eq!("1", "1");
    assert_eq!(number_one.to_decimal_string(), "1");
}

#[test]
fn add() {
    let a = BigInt::new("1");
    let b = BigInt::new("1");
    assert_eq!(a.add(&b).to_decimal_string(), "2");
}

#[test]
fn round_trip_keeps_canonical_strings() {
    for s in [
        "0",
        "7",
        "123456789",
        "1234567890",
        "4294967295",
        "4294967296",
        "18446744073709551616",
        "37514637146751465174321763417654176546546546512316584",
        "675146751465716741675149768814977675146577164741",
    ] {
        assert_eq!(parse(s).to_decimal_string(), s);
    }
}

#[test]
fn parse_gives_limbs_least_significant_first() {
    assert_eq!(parse("4294967296").to_limbs(), vec![0, 1]);
    assert_eq!(parse("18446744073709551615").to_limbs(), vec![u32::MAX, u32::MAX]);
    assert_eq!(parse("0").to_limbs(), vec![0]);
}

#[test]
fn leading_zeros_are_trimmed() {
    let x = parse("000000000000000000042");
    assert_eq!(x.to_limbs(), vec![42]);
    assert_eq!(x.to_decimal_string(), "42");
    assert_eq!(parse("0000000000").to_limbs(), vec![0]);
}

#[test]
fn empty_input_is_refused() {
    assert_eq!(BigInt::from_decimal_string("").err(), Some(ParseError::EmptyInput));
}

#[test]
fn non_digits_are_refused() {
    assert_eq!(BigInt::from_decimal_string("12a4").err(), Some(ParseError::InvalidDigit));
    assert_eq!(BigInt::from_decimal_string("-1").err(), Some(ParseError::InvalidDigit));
    assert_eq!(BigInt::from_decimal_string("1 2").err(), Some(ParseError::InvalidDigit));
    assert_eq!(BigInt::from_decimal_string("4é").err(), Some(ParseError::InvalidDigit));
}

#[test]
fn from_word_wraps_one_limb() {
    assert_eq!(BigInt::from_word(0).to_limbs(), vec![0]);
    assert_eq!(BigInt::from_word(u32::MAX).to_decimal_string(), "4294967295");
    assert_eq!(BigInt::from_number(17).to_limbs(), vec![17]);
}

#[test]
fn billion_squared() {
    let x = parse("1000000000");
    assert_eq!(x.mul(&x).to_decimal_string(), "1000000000000000000");
}

#[test]
fn shift_past_bit_length_is_zero() {
    let x = parse("37514637146751465174321763417654176546546546512316584");
    let y = parse("675146751465716741675149768814977675146577164741");
    let shifted = x.shift_right(3741);
    assert_eq!(shifted.to_decimal_string(), "0");
    assert_eq!(shifted.to_limbs(), vec![0]);
    assert_eq!(shifted.mul(&y).to_decimal_string(), "0");
}

#[test]
fn carry_across_limb_boundary() {
    let x = parse("4294967295");
    let sum = x.add(&BigInt::from_word(1));
    assert_eq!(sum.to_decimal_string(), "4294967296");
    assert_eq!(sum.to_limbs(), vec![0, 1]);
}

#[test]
fn add_operands_of_different_lengths() {
    let long = parse("340282366920938463463374607431768211455");
    let short = BigInt::from_word(1);
    assert_eq!(long.add(&short).to_decimal_string(), "340282366920938463463374607431768211456");
    assert_eq!(short.add(&long).to_decimal_string(), "340282366920938463463374607431768211456");
    assert_eq!(parse("12345678901234567890").add(&parse("98765")).to_decimal_string(), "12345678901234666655");
}

#[test]
fn add_zero_is_identity() {
    let x = parse("98765432109876543210");
    assert_eq!(x.add(&BigInt::from_word(0)).to_limbs(), x.to_limbs());
}

#[test]
fn add_and_mul_commute_and_associate() {
    let a = parse("123456789012345678901234567890");
    let b = parse("987654321");
    let c = parse("55555555555555555555");
    assert_eq!(a.add(&b).to_limbs(), b.add(&a).to_limbs());
    assert_eq!(a.add(&b).add(&c).to_limbs(), a.add(&b.add(&c)).to_limbs());
    assert_eq!(a.mul(&b).to_limbs(), b.mul(&a).to_limbs());
    assert_eq!(a.mul(&b).mul(&c).to_limbs(), a.mul(&b.mul(&c)).to_limbs());
}

#[test]
fn mul_known_product() {
    let a = parse("123456789012345678901234567890");
    let b = parse("987654321098765432109876543210");
    assert_eq!(
        a.mul(&b).to_decimal_string(),
        "121932631137021795226185032733622923332237463801111263526900"
    );
}

#[test]
fn mul_by_one_and_zero() {
    let x = parse("31415926535897932384626433832795028841971");
    assert_eq!(x.mul(&BigInt::from_word(1)).to_limbs(), x.to_limbs());
    assert_eq!(x.mul(&BigInt::from_word(0)).to_limbs(), vec![0]);
    assert_eq!(BigInt::from_word(0).mul(&x).to_limbs(), vec![0]);
}

#[test]
fn shift_left_is_repeated_doubling() {
    let x = parse("123456789123456789");
    let two = BigInt::from_word(2);
    let mut power = BigInt::from_word(1);
    for k in 0..70u32 {
        assert_eq!(x.shift_left(k).to_limbs(), x.mul(&power).to_limbs());
        power = power.mul(&two);
    }
}

#[test]
fn shift_left_exact_values() {
    assert_eq!(BigInt::from_word(1).shift_left(32).to_limbs(), vec![0, 1]);
    assert_eq!(BigInt::from_word(1).shift_left(64).to_decimal_string(), "18446744073709551616");
    assert_eq!(BigInt::from_word(3).shift_left(31).to_limbs(), vec![0x8000_0000, 1]);
    assert_eq!(BigInt::from_word(0).shift_left(100).to_limbs(), vec![0]);
}

#[test]
fn shift_right_exact_values() {
    let x = parse("18446744073709551616");
    assert_eq!(x.shift_right(1).to_decimal_string(), "9223372036854775808");
    assert_eq!(x.shift_right(32).to_limbs(), vec![0, 1]);
    assert_eq!(x.shift_right(64).to_limbs(), vec![1]);
    assert_eq!(x.shift_right(65).to_limbs(), vec![0]);
    assert_eq!(parse("1000").shift_right(3).to_decimal_string(), "125");
    assert_eq!(parse("1001").shift_right(3).to_decimal_string(), "125");
}

#[test]
fn shift_left_then_right_restores() {
    let x = parse("27182818284590452353602874713527");
    for k in [0u32, 1, 5, 31, 32, 33, 64, 100, 200] {
        assert_eq!(x.shift_left(k).shift_right(k).to_limbs(), x.to_limbs());
    }
}

#[test]
fn shift_right_saturates_to_zero() {
    let x = parse("4294967295");
    assert_eq!(x.shift_right(32).to_limbs(), vec![0]);
    assert_eq!(x.shift_right(31).to_limbs(), vec![1]);
    assert_eq!(parse("0").shift_right(0).to_limbs(), vec![0]);
}

#[test]
fn and_with_zero_is_zero() {
    let x = parse("98765432109876543210987654321");
    assert_eq!(x.and(&BigInt::from_word(0)).to_limbs(), vec![0]);
}

#[test]
fn and_keeps_shorter_length_and_trims() {
    let x = parse("18446744073709551615");
    let y = BigInt::from_word(0x0F0F_0F0F);
    assert_eq!(x.and(&y).to_limbs(), vec![0x0F0F_0F0F]);
    let a = BigInt::from_word(1).shift_left(32).add(&BigInt::from_word(6));
    let b = BigInt::from_word(1).shift_left(33).add(&BigInt::from_word(3));
    assert_eq!(a.and(&b).to_limbs(), vec![2]);
}

#[test]
fn is_zero_reports_zero() {
    assert!(BigInt::from_word(0).is_zero());
    assert!(!parse("4294967296").is_zero());
}
