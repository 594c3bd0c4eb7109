use route_registry::float::{is_float, OVERFLOW_THRESHOLD};
use route_registry::magnitude::below;
use route_registry::number::parse_int;

fn finite(text: &str) -> bool {
    match text.parse::<f64>() {
        Ok(value) => value.is_finite(),
        Err(_) => false,
    }
}

#[test]
fn integers_that_are_read() {
    assert_eq!(parse_int("0"), Some(0));
    assert_eq!(parse_int("33"), Some(33));
    assert_eq!(parse_int("-33"), Some(-33));
    assert_eq!(parse_int("007"), Some(7));
    assert_eq!(parse_int("-0"), Some(0));
    assert_eq!(parse_int("-000"), Some(0));
    assert_eq!(parse_int("9223372036854775807"), Some(i64::MAX));
    assert_eq!(parse_int("-9223372036854775808"), Some(i64::MIN));
    assert_eq!(parse_int("-9223372036854775807"), Some(i64::MIN + 1));
    assert_eq!(parse_int("0000000000000000000000000000009223372036854775807"), Some(i64::MAX));
    assert_eq!(parse_int("-00000000000000000000000000009223372036854775808"), Some(i64::MIN));
}

#[test]
fn integers_that_are_not_read() {
    for text in [
        "",
        "-",
        "+",
        "+33",
        "+0",
        "--1",
        "-+1",
        "1-",
        "3.14",
        "3.",
        ".3",
        "1e3",
        "active",
        "33a",
        "a33",
        " 33",
        "33 ",
        "3 3",
        "0x10",
        "1_000",
        "\u{663}",
        "9223372036854775808",
        "-9223372036854775809",
        "18446744073709551616",
        "99999999999999999999999999999999999999999999",
        "-99999999999999999999999999999999999999999999",
    ] {
        assert_eq!(parse_int(text), None, "{:?}", text);
    }
}

#[test]
fn integers_agree_with_the_standard_parser() {
    let digits = ["", "0", "7", "00", "42", "-", "9223372036854775807", "9223372036854775808", "x"];
    for sign in ["", "-"] {
        for first in digits {
            for second in digits {
                let text = format!("{}{}{}", sign, first, second);
                assert_eq!(parse_int(&text), text.parse::<i64>().ok(), "{:?}", text);
            }
        }
    }
}

#[test]
fn floats_that_are_read() {
    for text in [
        "0", "3", "33", "3.14", "-3.14", "+3.14", "3.", ".5", "-.5", "+.5", "1e5", "1E5", "1e+5",
        "1e-5", "1.e5", ".5e5", "1.5E-10", "007.500", "0.0", "-0", "+0", "0e0", "1e308",
        "1.7976931348623157e308", "1.7976931348623158e308", "4.9e-324", "1e-400", "0e999999",
        "0.0e99999999999999999999999999999999999", "1e-99999999999999999999999999999999999",
    ] {
        assert!(is_float(text), "{:?}", text);
        assert!(finite(text), "{:?}", text);
    }
    let largest = format!("17976931348623157{}", "0".repeat(292));
    assert_eq!(largest.len(), 309);
    assert!(is_float(&largest));
    assert!(finite(&largest));
    let too_large = format!("17976931348623159{}", "0".repeat(292));
    assert!(!is_float(&too_large));
    assert!(!finite(&too_large));
    let longer = format!("17976931348623157{}", "0".repeat(293));
    assert!(!is_float(&longer));
    assert!(!finite(&longer));
}

#[test]
fn floats_that_are_not_read() {
    for text in [
        "", ".", "+", "-", "+.", "-.", "e5", ".e5", "1e", "1e+", "1e-", "1e5.0", "1.2.3", "1..2",
        "--1", "+-1", "1+", "1e5e5", "1ee5", "active", "NaN", "nan", "inf", "Inf", "-inf",
        "infinity", "+infinity", "1f", "1.0f", "0x10", "1_0", " 1", "1 ", "1 .0", "\u{663}.5",
        "1e999", "1e309", "1.7976931348623159e308", "2e308", "-1e999", "-2e308",
        "1e99999999999999999999999999999999999", "0.1e310",
    ] {
        assert!(!is_float(text), "{:?}", text);
        assert!(!finite(text), "{:?}", text);
    }
}

#[test]
fn the_threshold_is_the_first_number_too_large() {
    assert_eq!(OVERFLOW_THRESHOLD.len(), 309);
    assert!(!finite(OVERFLOW_THRESHOLD));
    assert!(!is_float(OVERFLOW_THRESHOLD));
    // One less: the last digit of the threshold is a 2.
    let mut less = OVERFLOW_THRESHOLD.to_string();
    assert_eq!(less.pop(), Some('2'));
    less.push('1');
    assert!(finite(&less));
    assert!(is_float(&less));
    assert_eq!(less.parse::<f64>(), Ok(f64::MAX));
    // The same two numbers, written with a fraction and an exponent.
    let at = format!("{}.{}e308", &OVERFLOW_THRESHOLD[..1], &OVERFLOW_THRESHOLD[1..]);
    let under = format!("{}.{}e308", &less[..1], &less[1..]);
    assert!(!finite(&at));
    assert!(!is_float(&at));
    assert!(finite(&under));
    assert!(is_float(&under));
    // And with digits after the decimal point of the whole number.
    let just_over = format!("{}.0000000001", OVERFLOW_THRESHOLD);
    let just_under = format!("{}.9999999999", less);
    assert!(!is_float(&just_over));
    assert!(!finite(&just_over));
    assert!(is_float(&just_under));
    assert!(finite(&just_under));
    let shifted = format!("0.000{}e312", OVERFLOW_THRESHOLD);
    assert!(!is_float(&shifted));
    assert!(!finite(&shifted));
    let shifted_under = format!("000.000{}e312", less);
    assert!(is_float(&shifted_under));
    assert!(finite(&shifted_under));
    let scaled = format!("{}000e-3", OVERFLOW_THRESHOLD);
    assert!(!is_float(&scaled));
    assert!(!finite(&scaled));
    let scaled_under = format!("{}999e-3", less);
    assert!(is_float(&scaled_under));
    assert!(finite(&scaled_under));
}

#[test]
fn floats_agree_with_the_standard_parser() {
    let signs = ["", "+", "-"];
    let wholes = ["", "0", "1", "17", "000", "179769313486231580793", "9".repeat(309).as_str().to_owned().leak()];
    let fractions = ["", ".", ".0", ".5", ".000", ".79769313486231580793", ".x", ".."];
    let exponents = [
        "", "e", "e0", "e5", "E5", "e+5", "e-5", "e308", "e309", "e-309", "e288", "e289", "e-324",
        "e-1", "e+", "e5x", "e00000000000000000000000000000308", "e-0000000000000000000000000001",
        "e1000000000000000000000000000000", "e-1000000000000000000000000000000", "f",
    ];
    let mut checked = 0;
    for sign in signs {
        for whole in wholes {
            for fraction in fractions {
                for exponent in exponents {
                    let text = format!("{}{}{}{}", sign, whole, fraction, exponent);
                    assert_eq!(is_float(&text), finite(&text), "{:?}", text);
                    checked += 1;
                }
            }
        }
    }
    assert_eq!(checked, 3 * 7 * 8 * 21);
}

#[test]
fn floats_agree_with_the_standard_parser_near_the_threshold() {
    let heads = [
        "1797693134862315",
        "17976931348623157",
        "17976931348623158",
        "179769313486231580",
        "1797693134862315807",
        "1797693134862315808",
        "17976931348623158079",
        "17976931348623158080",
        "17976931348623159",
        "1797693134862316",
        "18",
        "2",
        "1",
    ];
    for head in heads {
        for zeros in 0..3 {
            for shift in 0..20i32 {
                let digits = format!("{}{}", head, "0".repeat(zeros));
                let exponent = 309 - digits.len() as i32;
                // The point after the first `shift` digits, and the
                // exponent less by as much as the point moved left.
                let point = (shift as usize).min(digits.len());
                let text = format!(
                    "{}.{}e{}",
                    &digits[..point],
                    &digits[point..],
                    exponent + (digits.len() - point) as i32
                );
                assert_eq!(is_float(&text), finite(&text), "{:?}", text);
                let lower = format!(
                    "{}.{}e{}",
                    &digits[..point],
                    &digits[point..],
                    exponent - 1 + (digits.len() - point) as i32
                );
                assert_eq!(is_float(&lower), finite(&lower), "{:?}", lower);
                assert!(is_float(&lower));
            }
        }
    }
}

fn chars(text: &str) -> Vec<char> {
    text.chars().collect()
}

#[test]
fn below_compares_magnitudes() {
    assert!(below(&chars("123"), 0, &chars("124")));
    assert!(!below(&chars("124"), 0, &chars("124")));
    assert!(!below(&chars("125"), 0, &chars("124")));
    assert!(below(&chars("99"), 0, &chars("124")));
    assert!(!below(&chars("1000"), 0, &chars("124")));
    assert!(below(&chars("0001"), 0, &chars("124")));
    assert!(below(&chars("12"), 1, &chars("124")));
    assert!(!below(&chars("13"), 1, &chars("124")));
    assert!(!below(&chars("1"), 3, &chars("124")));
    assert!(below(&chars("1239"), -1, &chars("124")));
    assert!(!below(&chars("1240"), -1, &chars("124")));
    assert!(!below(&chars("12400000"), -5, &chars("124")));
    assert!(below(&chars("12399999"), -5, &chars("124")));
    assert!(!below(&chars("1240001"), -4, &chars("124")));
    assert!(below(&chars(""), 0, &chars("1")));
    assert!(below(&chars("000"), 1000, &chars("1")));
    assert!(!below(&chars("1"), 0, &chars("1")));
    assert!(below(&chars("9"), -1, &chars("1")));
    assert!(!below(&chars("10"), -1, &chars("1")));
}

// Decimal digits, least significant first.
fn doubled(digits: &[u8]) -> Vec<u8> {
    let mut out = Vec::new();
    let mut carry = 0;
    for digit in digits {
        let twice = digit * 2 + carry;
        out.push(twice % 10);
        carry = twice / 10;
    }
    if carry > 0 {
        out.push(carry);
    }
    out
}

fn two_to(power: usize) -> Vec<u8> {
    let mut digits = vec![1];
    for _ in 0..power {
        digits = doubled(&digits);
    }
    digits
}

fn less(large: &[u8], small: &[u8]) -> Vec<u8> {
    let mut out = Vec::new();
    let mut borrow = 0i8;
    for i in 0..large.len() {
        let mut digit = large[i] as i8 - borrow - if i < small.len() { small[i] as i8 } else { 0 };
        borrow = 0;
        if digit < 0 {
            digit += 10;
            borrow = 1;
        }
        out.push(digit as u8);
    }
    assert_eq!(borrow, 0);
    while out.len() > 1 && out[out.len() - 1] == 0 {
        out.pop();
    }
    out
}

#[test]
fn the_threshold_is_halfway_to_the_next_power_of_two() {
    let difference = less(&two_to(1024), &two_to(970));
    let written: String = difference.iter().rev().map(|d| (b'0' + d) as char).collect();
    assert_eq!(written, OVERFLOW_THRESHOLD);
    // The largest finite double is two to the power 1024 less two to the
    // power 971; the threshold lies in the middle between it and two to the
    // power 1024.
    let largest = less(&two_to(1024), &two_to(971));
    let largest: String = largest.iter().rev().map(|d| (b'0' + d) as char).collect();
    assert_eq!(largest.parse::<f64>(), Ok(f64::MAX));
    assert_eq!(format!("{:.0}", f64::MAX), largest);
    assert!(is_float(&largest));
}
