use read_test::key::Key;
use read_test::parse::{parse_i32, parse_key, parse_usize, check_float, ParseError};
use read_test::record::LineItem;

fn chars(s: &str) -> Vec<char> {
    s.chars().collect()
}

#[test]
fn parse_i32_plain() {
    assert_eq!(parse_i32(&chars("5")), Some(5));
    assert_eq!(parse_i32(&chars("-17")), Some(-17));
    assert_eq!(parse_i32(&chars("+17")), Some(17));
    assert_eq!(parse_i32(&chars("2147483647")), Some(i32::MAX));
    assert_eq!(parse_i32(&chars("-2147483648")), Some(i32::MIN));
}

#[test]
fn parse_i32_rejects() {
    assert_eq!(parse_i32(&chars("")), None);
    assert_eq!(parse_i32(&chars("-")), None);
    assert_eq!(parse_i32(&chars("12a")), None);
    assert_eq!(parse_i32(&chars("2147483648")), None);
    assert_eq!(parse_i32(&chars("-2147483649")), None);
    assert_eq!(parse_i32(&chars("99999999999999999999")), None);
}

#[test]
fn parse_usize_plain() {
    assert_eq!(parse_usize(&chars("0")), Some(0));
    assert_eq!(parse_usize(&chars("+400")), Some(400));
    assert_eq!(parse_usize(&chars("18446744073709551615")), Some(usize::MAX));
}

#[test]
fn parse_usize_rejects() {
    assert_eq!(parse_usize(&chars("")), None);
    assert_eq!(parse_usize(&chars("-1")), None);
    assert_eq!(parse_usize(&chars("18446744073709551616")), None);
}

#[test]
fn parse_key_decodes_fields() {
    let tok = format!("{:032x}{:032x}{:01x}", 0xabcdu128, 7u128, 0xf);
    let k = parse_key(&chars(&tok)).unwrap();
    assert_eq!(
        k,
        Key {
            upper: 0xabcd,
            lower: 7,
            tail: 0xf
        }
    );
}

#[test]
fn parse_key_rejects_bad_tokens() {
    assert_eq!(parse_key(&chars("00")), None);
    let short = "0".repeat(64);
    assert_eq!(parse_key(&chars(&short)), None);
    let long = "0".repeat(66);
    assert_eq!(parse_key(&chars(&long)), None);
    let mut bad = "0".repeat(65);
    bad.replace_range(10..11, "g");
    assert_eq!(parse_key(&chars(&bad)), None);
}

#[test]
fn float_tokens_accepted() {
    for t in [
        "3.14", "-3.14", "+0.5", ".5", "5.", "1e5", "-2.5E-3", "inf", "-inf", "INFINITY", "NaN",
        "0", "123",
    ] {
        assert!(check_float(&chars(t)), "{}", t);
        assert!(t.parse::<f32>().is_ok(), "{}", t);
    }
}

#[test]
fn float_tokens_rejected() {
    for t in ["", "1.2.3", "e5", "1e", "abc", "+", "--1", "1e+", "in", "infx"] {
        assert!(!check_float(&chars(t)), "{}", t);
        assert!(t.parse::<f32>().is_err(), "{}", t);
    }
}

#[test]
fn try_from_single_insert_line() {
    let line = format!("5 0 0 1 3.14 {}1", "0".repeat(64));
    let item = LineItem::try_from(&line).unwrap();
    assert_eq!(item.keys.len(), 1);
    assert_eq!(
        item.keys[0],
        Key {
            upper: 0,
            lower: 0,
            tail: 1
        }
    );
    assert_eq!(item.values.len(), 1);
    assert_eq!(item.values[0].b, 5);
    let amount: String = item.values[0].amount.iter().collect();
    assert_eq!(amount.parse::<f32>().unwrap(), 3.14);
    assert!(item.del_keys.is_empty());
}

#[test]
fn try_from_delete_line() {
    let line = format!("0 0 1 0 {}1", "0".repeat(64));
    let item = LineItem::try_from(&line).unwrap();
    assert!(item.keys.is_empty());
    assert!(item.values.is_empty());
    assert_eq!(item.del_keys.len(), 1);
    assert_eq!(
        item.del_keys[0],
        Key {
            upper: 0,
            lower: 0,
            tail: 1
        }
    );
}

#[test]
fn try_from_trims_and_skips_reserved_token() {
    let line = format!("  -3 999 0 1 2.5 {}a \r\n", "0".repeat(64));
    let item = LineItem::try_from(&line).unwrap();
    assert_eq!(item.values[0].b, -3);
    assert_eq!(item.keys[0].tail, 0xa);
}

#[test]
fn try_from_bad_header_is_integer_error() {
    assert_eq!(LineItem::try_from("x 0 0 0").unwrap_err(), ParseError::IntegerError);
    assert_eq!(LineItem::try_from("").unwrap_err(), ParseError::IntegerError);
    assert_eq!(LineItem::try_from("1 0 y 0").unwrap_err(), ParseError::IntegerError);
    assert_eq!(LineItem::try_from("1 0 0").unwrap_err(), ParseError::IntegerError);
}

#[test]
fn try_from_bad_key_is_integer_error() {
    let line = format!("1 0 1 0 {}g", "0".repeat(64));
    assert_eq!(LineItem::try_from(&line).unwrap_err(), ParseError::IntegerError);
}

#[test]
fn try_from_bad_float_is_float_error() {
    let line = format!("1 0 0 1 zz {}1", "0".repeat(64));
    assert_eq!(LineItem::try_from(&line).unwrap_err(), ParseError::FloatError);
}

#[test]
fn try_from_wrong_token_count_is_integer_error() {
    let line = format!("1 0 0 1 3.14 {}1 extra", "0".repeat(64));
    assert_eq!(LineItem::try_from(&line).unwrap_err(), ParseError::IntegerError);
}
