//! Number literals, held against the standard library's own reading of them.

use zerosyntax::numbers::{is_not_positive, parse_i64, parse_u64, parses_as_real};

fn agrees(text: &str) {
    let read = text.parse::<f64>();
    assert_eq!(parses_as_real(text), read.is_ok(), "{text}");
    assert_eq!(is_not_positive(text), read.is_ok_and(|n| n <= 0.0), "{text}");
}

/// The decimal digits of five to the power of `e`.
fn power_of_five(e: usize) -> String {
    let mut digits = vec![1u8];
    for _ in 0..e {
        let mut carry = 0;
        for d in digits.iter_mut() {
            let n = *d * 5 + carry;
            *d = n % 10;
            carry = n / 10;
        }
        if carry > 0 {
            digits.push(carry);
        }
    }
    digits.iter().rev().map(|d| char::from(b'0' + d)).collect()
}

#[test]
fn reals_are_read_as_the_standard_library_reads_them() {
    for text in [
        "", ".", "+", "-", "e5", "1e", "1e+", "1.5", "1.", ".5", "-.5", "+3", "1e5", "1E-5", "inf",
        "-inf", "+Infinity", "nan", "-NaN", "0", "-0", "0.0", "00.000e7", "0e999999999999", "1e400",
        "1 ", " 1", "1_000", "0x10", "1e5.5", "--1", "infinit", "5%",
    ] {
        agrees(text);
    }
}

#[test]
fn literals_too_small_for_a_real_are_not_positive() {
    let zeros = "0".repeat(400);
    let many = "9".repeat(500);
    for text in [
        "4.9e-324".to_string(),
        "2.4703282292062328e-324".to_string(),
        "2.4703282292062327e-324".to_string(),
        "1e-323".to_string(),
        "1e-324".to_string(),
        "1e-400".to_string(),
        "1e-99999999999999999999999999999999999999999".to_string(),
        "1e+99999999999999999999999999999999999999999".to_string(),
        format!("0.{zeros}1"),
        format!("0.{zeros}1e400"),
        format!("{many}e-900"),
        format!("{many}e-824"),
        format!("{many}e-823"),
        format!("{many}.{many}e-500"),
    ] {
        agrees(&text);
    }
    assert!(is_not_positive("1e-400"));
    assert!(!is_not_positive("4.9e-324"));
}

#[test]
fn the_limit_itself_is_read_as_zero() {
    let limit = power_of_five(1075);
    assert_eq!(limit.len(), 752);
    agrees(&format!("{limit}e-1075"));
    agrees(&format!("{limit}0000000001e-1085"));
    agrees(&format!("0.{limit}e-323"));
    assert!(is_not_positive(&format!("{limit}e-1075")));
    assert!(!is_not_positive(&format!("{limit}1e-1076")));
}

#[test]
fn integers_are_read_as_the_standard_library_reads_them() {
    for text in [
        "", "0", "-0", "+7", "-9223372036854775808", "9223372036854775807", "9223372036854775808",
        "18446744073709551615", "18446744073709551616", "-1", "+", "1.0", " 1",
    ] {
        assert_eq!(parse_i64(text), text.parse::<i64>().ok(), "{text}");
        assert_eq!(parse_u64(text), text.parse::<u64>().ok(), "{text}");
    }
}
