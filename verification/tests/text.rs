use pdms_io::text::{decimal, refno_text};

#[test]
fn reference_numbers_print_as_their_two_halves() {
    assert_eq!(refno_text((17496u64 << 32) | 171606), "17496_171606");
    assert_eq!(refno_text(0), "0_0");
    assert_eq!(refno_text(u64::MAX), "4294967295_4294967295");
}

#[test]
fn decimals_have_no_leading_zeros() {
    assert_eq!(decimal(0), "0");
    assert_eq!(decimal(1020), "1020");
    assert_eq!(decimal(u64::MAX), "18446744073709551615");
}
