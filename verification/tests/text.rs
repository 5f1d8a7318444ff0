use zkicao::text::{decimal_string, parse_unsigned, split_tokens};

#[test]
fn writes_decimal_numbers() {
    assert_eq!(decimal_string(0), "0");

    assert_eq!(decimal_string(1234567890), "1234567890");

    assert_eq!(
        decimal_string(u128::MAX),
        "340282366920938463463374607431768211455"
    );
}

#[test]
fn parses_like_from_str_radix() {
    let digits = |s: &str| s.chars().collect::<Vec<char>>();

    assert_eq!(parse_unsigned(&digits("255"), 10, 255), Some(255));

    assert_eq!(parse_unsigned(&digits("256"), 10, 255), None);

    assert_eq!(parse_unsigned(&digits("fF"), 16, u64::MAX as u128), Some(255));

    assert_eq!(parse_unsigned(&digits("+"), 10, 255), None);

    assert_eq!(parse_unsigned(&digits(""), 10, 255), None);

    assert_eq!(parse_unsigned(&digits("-1"), 10, 255), None);

    assert_eq!(parse_unsigned(&digits("0009"), 10, 9), Some(9));
}

#[test]
fn splits_at_separators() {
    let chars: Vec<char> = " (a,[b]) c\t".chars().collect();

    assert_eq!(split_tokens(&chars), vec!["a", "b", "c"]);
}
