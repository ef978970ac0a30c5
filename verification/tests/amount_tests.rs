use paygate::amount::Amount;

#[test]
fn dec_string_round_trip() {
    let a = Amount::from_u64(0);
    assert_eq!(a.to_dec_string(), "0");
    let b = Amount::from_u64(1_000_000_000_000_000_000);
    assert_eq!(b.to_dec_string(), "1000000000000000000");
    let c = Amount::from_dec_str("1000000000000000000").unwrap();
    assert_eq!(c, b);
    let max = Amount::from_dec_str(
        "115792089237316195423570985008687907853269984665640564039457584007913129639935",
    )
    .unwrap();
    assert_eq!(max, Amount::from_limbs(u64::MAX, u64::MAX, u64::MAX, u64::MAX));
    assert!(Amount::from_dec_str(
        "115792089237316195423570985008687907853269984665640564039457584007913129639936"
    )
    .is_none());
    assert!(Amount::from_dec_str("").is_none());
    assert!(Amount::from_dec_str("12a").is_none());
}

#[test]
fn hex_parsing() {
    assert_eq!(Amount::from_hex_str("ff").unwrap(), Amount::from_u64(255));
    assert_eq!(
        Amount::from_hex_str("de0b6b3a7640000").unwrap(),
        Amount::from_u64(1_000_000_000_000_000_000)
    );
    assert_eq!(Amount::from_hex_str("DE0B6B3A7640000").unwrap().to_dec_string(), "1000000000000000000");
    assert!(Amount::from_hex_str("").is_none());
    assert!(Amount::from_hex_str("0x12").is_none());
    assert!(Amount::from_hex_str("xyz").is_none());
}

#[test]
fn format_units_trims_and_pads() {
    let one_token = Amount::from_u64(1_000_000_000_000_000_000);
    assert_eq!(one_token.format_units(18), "1");
    let four_tenths = Amount::from_u64(400_000_000_000_000_000);
    assert_eq!(four_tenths.format_units(18), "0.4");
    let tiny = Amount::from_u64(1);
    assert_eq!(tiny.format_units(18), "0.000000000000000001");
    let micro = Amount::from_u64(1_234_567);
    assert_eq!(micro.format_units(6), "1.234567");
    assert_eq!(Amount::from_u64(1_000_001).format_units(6), "1.000001");
    assert_eq!(Amount::from_u64(123).format_units(0), "123");
    assert_eq!(Amount::zero().format_units(18), "0");
}

#[test]
fn checked_add_and_compare() {
    let a = Amount::from_u64(u64::MAX);
    let b = Amount::from_u64(1);
    let sum = a.checked_add(&b).unwrap();
    assert_eq!(sum, Amount::from_limbs(0, 1, 0, 0));
    let max = Amount::from_limbs(u64::MAX, u64::MAX, u64::MAX, u64::MAX);
    assert!(max.checked_add(&b).is_none());
    assert!(sum.ge(&a));
    assert!(!b.ge(&a));
    assert!(a.ge(&a));
    assert!(Amount::zero().is_zero());
    assert!(!b.is_zero());
}
