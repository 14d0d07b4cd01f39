use collection::parse::{parse_pair, parse_u32};

#[test]
fn test_parse_pair() {
    assert_eq!(parse_pair::<u32>("100,", ','), None);
    assert_eq!(parse_pair::<u32>("100,200", ','), Some((100, 200)));
}

#[test]
fn parse_pair_needs_the_separator() {
    assert_eq!(parse_pair::<u32>("100200", ','), None);
    assert_eq!(parse_pair::<u32>(",200", ','), None);
    assert_eq!(parse_pair::<u32>("20x20", 'x'), Some((20, 20)));
}

#[test]
fn parse_u32_reads_plain_decimals() {
    assert_eq!(parse_u32(""), None);
    assert_eq!(parse_u32("0"), Some(0));
    assert_eq!(parse_u32("007"), Some(7));
    assert_eq!(parse_u32("4294967295"), Some(u32::MAX));
    assert_eq!(parse_u32("4294967296"), None);
    assert_eq!(parse_u32("99999999999999999999"), None);
    assert_eq!(parse_u32("+1"), None);
    assert_eq!(parse_u32("-1"), None);
    assert_eq!(parse_u32("12 "), None);
}
