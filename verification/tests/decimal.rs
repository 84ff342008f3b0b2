use crulz::decimal::{i64_to_decimal, push_decimal, usize_to_decimal};

#[test]
fn decimal_of_unsigned() {
    assert_eq!(usize_to_decimal(0), b"0".to_vec());
    assert_eq!(usize_to_decimal(7), b"7".to_vec());
    assert_eq!(usize_to_decimal(10), b"10".to_vec());
    assert_eq!(usize_to_decimal(1234567890), b"1234567890".to_vec());
    assert_eq!(usize_to_decimal(usize::MAX), usize::MAX.to_string().into_bytes());
    let mut out = b"x".to_vec();
    push_decimal(&mut out, 305);
    assert_eq!(out, b"x305".to_vec());
}

#[test]
fn decimal_of_signed() {
    assert_eq!(i64_to_decimal(0), b"0".to_vec());
    assert_eq!(i64_to_decimal(42), b"42".to_vec());
    assert_eq!(i64_to_decimal(-1), b"-1".to_vec());
    assert_eq!(i64_to_decimal(i64::MAX), b"9223372036854775807".to_vec());
    assert_eq!(i64_to_decimal(i64::MIN), b"-9223372036854775808".to_vec());
}
