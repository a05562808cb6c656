use field_expr::{FieldElement, Natural};

const P: u64 = 1_000_000_007;
const Q: u64 = 18_446_744_073_709_551_557;

#[test]
fn a_run_of_digits_is_a_number() {
    assert!(Natural::from_decimal(b"0").is_some());
    assert!(Natural::from_decimal(b"42").is_some());
    assert!(Natural::from_decimal(b"123456789012345678901234567890").is_some());
}

#[test]
fn other_text_is_no_number() {
    assert_eq!(Natural::from_decimal(b""), None);
    assert_eq!(Natural::from_decimal(b"12a"), None);
    assert_eq!(Natural::from_decimal(b"-1"), None);
    assert_eq!(Natural::from_decimal(b"+1"), None);
    assert_eq!(Natural::from_decimal(b" 1"), None);
    assert_eq!(Natural::from_decimal(b"1 "), None);
    assert_eq!(Natural::from_decimal(b"1_000"), None);
    assert_eq!(Natural::from_decimal(b"0x10"), None);
    assert_eq!(Natural::from_decimal("٣".as_bytes()), None);
}

#[test]
fn leading_zeros_do_not_count() {
    assert_eq!(Natural::from_decimal(b"007"), Natural::from_decimal(b"7"));
    assert_eq!(Natural::from_decimal(b"000"), Natural::from_decimal(b"0"));
    assert_ne!(Natural::from_decimal(b"70"), Natural::from_decimal(b"7"));
    assert_eq!(Natural::from_decimal(b"0010").unwrap().reduce::<P>().value(), 10);
}

#[test]
fn reduction_of_small_numbers() {
    assert_eq!(Natural::from_decimal(b"0").unwrap().reduce::<P>().value(), 0);
    assert_eq!(Natural::from_decimal(b"22").unwrap().reduce::<P>().value(), 22);
    assert_eq!(Natural::from_decimal(b"22").unwrap().reduce::<7>().value(), 1);
    assert_eq!(Natural::from_decimal(b"1000000007").unwrap().reduce::<P>().value(), 0);
    assert_eq!(Natural::from_decimal(b"1000000008").unwrap().reduce::<P>().value(), 1);
    assert_eq!(Natural::from_decimal(b"5").unwrap().reduce::<1>().value(), 0);
}

#[test]
fn reduction_of_numbers_beyond_the_machine_word() {
    let big = Natural::from_decimal(b"123456789012345678901234567890").unwrap();
    assert_eq!(big.reduce::<P>().value(), 197_434_842);
    let power = Natural::from_decimal(b"340282366920938463463374607431768211456").unwrap();
    assert_eq!(power.reduce::<Q>().value(), 3481);
    let long = Natural::from_decimal(b"98765432109876543210987654321098765432109876543210")
        .unwrap();
    assert_eq!(long.reduce::<Q>().value(), 16_820_804_092_120_842_381);
    assert_eq!(
        Natural::from_decimal(b"18446744073709551557").unwrap().reduce::<Q>(),
        FieldElement::<Q>::zero()
    );
}

#[test]
fn a_copy_is_the_same_number() {
    let number = Natural::from_decimal(b"314159265358979323846").unwrap();
    let copy = number.clone();
    assert_eq!(copy, number);
    assert_eq!(copy.reduce::<P>(), number.reduce::<P>());
}

#[test]
fn the_digits_of_a_number() {
    assert_eq!(Natural::from_decimal(b"1024").unwrap().digits(), &b"1024".to_vec());
    assert_eq!(Natural::from_decimal(b"0001024").unwrap().digits(), &b"1024".to_vec());
    assert_eq!(Natural::from_decimal(b"0").unwrap().digits(), &b"0".to_vec());
    assert_eq!(Natural::from_decimal(b"000").unwrap().digits(), &b"0".to_vec());
}
