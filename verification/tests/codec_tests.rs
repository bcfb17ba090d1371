use spotbook::codec::parse_decimal;
use spotbook::codec::parse_levels;
use spotbook::codec::SCALE;

#[test]
fn parses_whole_numbers() {
    assert_eq!(parse_decimal("0"), Some(0));
    assert_eq!(parse_decimal("7"), Some(7 * SCALE));
    assert_eq!(parse_decimal("101"), Some(101 * SCALE));
    assert_eq!(parse_decimal("000101"), Some(101 * SCALE));
}

#[test]
fn parses_fractions_at_fixed_scale() {
    assert_eq!(parse_decimal("0.0653"), Some(6_530_000));
    assert_eq!(parse_decimal("27123.50"), Some(27123 * SCALE + 50_000_000));
    assert_eq!(parse_decimal("1.00000001"), Some(SCALE + 1));
    assert_eq!(parse_decimal("9.9"), Some(9 * SCALE + 90_000_000));
}

#[test]
fn numeric_order_not_string_order() {
    // "10" sorts before "9" as strings; numerically it must not
    let nine = parse_decimal("9").unwrap();
    let ten = parse_decimal("10").unwrap();
    assert!(nine < ten);
}

#[test]
fn rejects_malformed_strings() {
    assert_eq!(parse_decimal(""), None);
    assert_eq!(parse_decimal("abc"), None);
    assert_eq!(parse_decimal("1x2"), None);
    assert_eq!(parse_decimal("1."), None);
    assert_eq!(parse_decimal(".5"), None);
    assert_eq!(parse_decimal("."), None);
    assert_eq!(parse_decimal("1.2.3"), None);
    assert_eq!(parse_decimal("-1"), None);
    assert_eq!(parse_decimal("1,5"), None);
    assert_eq!(parse_decimal("1.234567891"), None); // nine fraction digits
}

#[test]
fn rejects_values_past_u64() {
    assert_eq!(parse_decimal("99999999999999999999"), None);
    assert_eq!(parse_decimal("184467440737.09551616"), None);
    assert_eq!(parse_decimal("184467440737.09551615"), Some(u64::MAX));
}

#[test]
fn parses_a_batch_of_levels() {
    let entries = vec![
        ("101".to_string(), "2".to_string()),
        ("102.5".to_string(), "0".to_string()),
    ];
    let levels = parse_levels(&entries).unwrap();
    assert_eq!(levels.len(), 2);
    assert_eq!(levels[0].price, 101 * SCALE);
    assert_eq!(levels[0].quantity, 2 * SCALE);
    assert_eq!(levels[1].price, 102 * SCALE + 50_000_000);
    assert_eq!(levels[1].quantity, 0);
}

#[test]
fn one_malformed_entry_rejects_the_batch() {
    let entries = vec![
        ("101".to_string(), "2".to_string()),
        ("oops".to_string(), "3".to_string()),
    ];
    assert!(parse_levels(&entries).is_none());
}

#[test]
fn format_then_parse_returns_the_value() {
    for v in [
        0u64,
        1,
        9,
        10,
        SCALE,
        SCALE + 1,
        101 * SCALE,
        6_530_000,
        u64::MAX,
    ] {
        let s = spotbook::render::format_decimal(v);
        assert_eq!(parse_decimal(&s), Some(v), "value {v} rendered as {s}");
    }
}

#[test]
fn formats_canonically() {
    assert_eq!(spotbook::render::format_decimal(0), "0");
    assert_eq!(spotbook::render::format_decimal(SCALE), "1");
    assert_eq!(spotbook::render::format_decimal(SCALE + 1), "1.00000001");
    assert_eq!(spotbook::render::format_decimal(6_530_000), "0.0653");
    assert_eq!(spotbook::render::format_decimal(u64::MAX), "184467440737.09551615");
}
