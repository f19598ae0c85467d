use rust_sqlite::decimal::{scan_digits, Decimal};
use rust_sqlite::text::{chars_of, compare_text, find_name, string_of, Relation};

fn dec(text: &str) -> Decimal {
    Decimal::parse(text).unwrap()
}

#[test]
fn test_from_digits_drops_padding() {
    let a = Decimal::from_digits(false, vec![0, 0, 1, 2], vec![5, 0, 0]).unwrap();
    let b = Decimal::from_digits(false, vec![1, 2], vec![5]).unwrap();
    assert_eq!(a, b);
    assert_eq!(a.to_text(), "12.5");
    let zero = Decimal::from_digits(true, vec![0], vec![0]).unwrap();
    assert_eq!(zero, Decimal::zero());
    assert!(!zero.is_negative());
    assert_eq!(zero.to_text(), "0");
}

#[test]
fn test_from_digits_refuses_what_is_no_digit() {
    assert_eq!(Decimal::from_digits(false, vec![1, 10], vec![]), None);
    assert_eq!(Decimal::from_digits(false, vec![], vec![255]), None);
}

#[test]
fn test_to_text() {
    assert_eq!(dec("19.99").to_text(), "19.99");
    assert_eq!(dec("-0.50").to_text(), "-0.5");
    assert_eq!(dec("+7").to_text(), "7");
    assert_eq!(dec("100").to_text(), "100");
    assert_eq!(dec(".25").to_text(), "0.25");
    assert_eq!(dec("-0").to_text(), "0");
    assert_eq!(dec("3.").to_text(), "3");
}

#[test]
fn test_parse_accepts_and_refuses() {
    for good in ["0", "12", "-12", "+12", "1.5", "-1.5", ".5", "5.", "-.5", "000.000"] {
        assert!(Decimal::parse(good).is_some(), "{}", good);
    }
    for bad in ["", "-", "+", ".", "-.", "1e5", "1.2.3", " 1", "1 ", "--1", "1,5", "abc", "1a", "\u{661}"] {
        assert_eq!(Decimal::parse(bad), None, "{}", bad);
    }
    for good in ["0", "12", "-12", "+12", "007"] {
        assert_eq!(Decimal::parse_integer(good), Decimal::parse(good), "{}", good);
    }
    for bad in ["", "-", "1.0", "1.", ".5", "1e5"] {
        assert_eq!(Decimal::parse_integer(bad), None, "{}", bad);
    }
}

#[test]
fn test_compare() {
    let cases = [
        ("1", "2", Relation::Less),
        ("2", "1", Relation::Greater),
        ("2", "2.0", Relation::Equal),
        ("10", "9", Relation::Greater),
        ("9.99", "10", Relation::Less),
        ("0.1", "0.09", Relation::Greater),
        ("0.10", "0.1", Relation::Equal),
        ("1.05", "1.5", Relation::Less),
        ("-1", "1", Relation::Less),
        ("1", "-1", Relation::Greater),
        ("-2", "-1", Relation::Less),
        ("-1.5", "-1.25", Relation::Less),
        ("-0", "0", Relation::Equal),
        ("0", "0.001", Relation::Less),
        ("-0.001", "0", Relation::Less),
        ("123456789012345678901234567890", "123456789012345678901234567891", Relation::Less),
        ("0.30000000000000000001", "0.3", Relation::Greater),
    ];
    for (a, b, expected) in cases {
        assert_eq!(dec(a).compare(&dec(b)), expected, "{} ? {}", a, b);
        assert_eq!(dec(b).compare(&dec(a)), expected.reversed(), "{} ? {}", b, a);
    }
}

#[test]
fn test_is_integer_and_sign() {
    assert!(dec("5.000").is_integer());
    assert!(!dec("5.001").is_integer());
    assert!(dec("-3").is_negative());
    assert!(!dec("3").is_negative());
}

#[test]
fn test_clone_is_equal() {
    let a = dec("-12.5");
    assert_eq!(a.clone(), a);
}

#[test]
fn test_scanning_digits() {
    let chars = chars_of("ab123.45");
    assert_eq!(scan_digits(&chars, 0), 0);
    assert_eq!(scan_digits(&chars, 2), 5);
    assert_eq!(scan_digits(&chars, 6), 8);
    assert_eq!(scan_digits(&chars, 8), 8);
}

#[test]
fn test_text_helpers() {
    let chars = chars_of("h\u{e9}llo");
    assert_eq!(chars, vec!['h', '\u{e9}', 'l', 'l', 'o']);
    assert_eq!(string_of(&chars, 1, 4), "\u{e9}ll");
    assert_eq!(string_of(&chars, 2, 2), "");
    let names = vec!["a".to_string(), "b".to_string(), "a".to_string()];
    assert_eq!(find_name(&names, "a"), 0);
    assert_eq!(find_name(&names, "b"), 1);
    assert_eq!(find_name(&names, "c"), 3);
}

#[test]
fn test_text_order_is_the_order_of_strings() {
    let words = ["", "a", "ab", "b", "B", "\u{e9}", "z", "\u{10000}", "\u{ffff}", "aa"];
    for a in words {
        for b in words {
            let expected = match a.cmp(b) {
                std::cmp::Ordering::Less => Relation::Less,
                std::cmp::Ordering::Equal => Relation::Equal,
                std::cmp::Ordering::Greater => Relation::Greater,
            };
            assert_eq!(compare_text(&chars_of(a), &chars_of(b)), expected, "{:?} ? {:?}", a, b);
        }
    }
}
