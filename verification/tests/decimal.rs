use surveillance::decimal::{
    decimal_text, parse_i32, parse_u16, parse_u32, signed_text, wide_decimal_text,
};

#[test]
fn numbers_are_written_in_decimal() {
    for n in [0u64, 7, 10, 99, 100, 65535, u64::MAX] {
        assert_eq!(decimal_text(n), n.to_string());
    }
    assert_eq!(wide_decimal_text(u128::MAX), u128::MAX.to_string());
    for v in [0i32, 1, -1, 42, i32::MAX, i32::MIN] {
        assert_eq!(signed_text(v), v.to_string());
    }
}

#[test]
fn numbers_are_read_as_the_standard_library_reads_them() {
    for s in [
        "", "+", "-", "0", "-0", "+0", "00012", "12a", " 12", "12 ", "--1", "+-1", "65535", "65536",
        "4294967295", "4294967296", "2147483647", "2147483648", "-2147483648", "-2147483649", "٣",
        "99999999999999999999999999", "-1", "+7", "0x10", "1.0",
    ] {
        assert_eq!(parse_u16(s), s.parse::<u16>().ok(), "{s}");
        assert_eq!(parse_u32(s), s.parse::<u32>().ok(), "{s}");
        assert_eq!(parse_i32(s), s.parse::<i32>().ok(), "{s}");
    }
}

#[test]
fn written_numbers_are_read_back() {
    for v in [i32::MIN, -1, 0, 1, 1920, i32::MAX] {
        assert_eq!(parse_i32(&signed_text(v)), Some(v));
    }
    for v in [0u32, 9, 10, u32::MAX] {
        assert_eq!(parse_u32(&decimal_text(v as u64)), Some(v));
    }
}
