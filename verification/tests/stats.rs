use tensor_kernel::magnet::bitstring_to_int;
use tensor_kernel::magnet::count_set_bits;
use tensor_kernel::magnet::partial_magnetization;
use tensor_kernel::magnet::Measurement;

#[test]
fn test_bitstring_to_int_values() {
    assert_eq!(bitstring_to_int("0110"), Ok(6));
    assert_eq!(bitstring_to_int("0"), Ok(0));
    assert_eq!(bitstring_to_int("1111"), Ok(15));
    assert_eq!(bitstring_to_int("0000"), Ok(0));
}

#[test]
fn test_bitstring_to_int_wraps_to_signed() {
    let ones: String = "1".repeat(64);
    assert_eq!(bitstring_to_int(&ones), Ok(-1));
}

#[test]
fn test_bitstring_to_int_leading_zeros() {
    let mut s = "0".repeat(70);
    s.push('1');
    assert_eq!(bitstring_to_int(&s), Ok(1));
}

#[test]
fn test_bitstring_to_int_errors() {
    assert!(bitstring_to_int("").is_err());
    assert!(bitstring_to_int("01x2").is_err());
    assert!(bitstring_to_int("0121").is_err());
    let too_big: String = "1".repeat(65);
    assert!(bitstring_to_int(&too_big).is_err());
}

#[test]
fn test_count_set_bits() {
    assert_eq!(count_set_bits(0), 0);
    assert_eq!(count_set_bits(0xFF), 8);
    assert_eq!(count_set_bits(u64::MAX), 64);
    assert_eq!(count_set_bits(0b0101), 2);
}

#[test]
fn test_partial_magnetization_values() {
    assert_eq!(partial_magnetization(4, 0b0101, 3), 0);
    assert_eq!(partial_magnetization(4, 0b0001, 5), -10);
    assert_eq!(partial_magnetization(2, 0b0011, 7), 14);
}

#[test]
fn test_total_magnetization_sums() {
    let counts = vec![
        ("0000".to_string(), 12),
        ("0101".to_string(), 3),
        ("0110".to_string(), 5),
    ];
    let m = Measurement::new(4, counts);
    assert_eq!(m.total_magnetization(), Ok((-48, 20)));
}

#[test]
fn test_total_magnetization_bad_key() {
    let counts = vec![("0000".to_string(), 2), ("01x2".to_string(), 1)];
    let m = Measurement::new(4, counts);
    assert!(m.total_magnetization().is_err());
}

#[test]
fn test_total_magnetization_empty() {
    let m = Measurement::new(4, Vec::new());
    assert_eq!(m.total_magnetization(), Ok((0, 0)));
}
