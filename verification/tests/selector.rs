use emu_state::selector::parse_selector;

#[test]
fn parses_decimal_bounds() {
    assert_eq!(parse_selector("[31:0]"), Some((31, 0)));
    assert_eq!(parse_selector("[511:256]"), Some((511, 256)));
    assert_eq!(parse_selector("[7:7]"), Some((7, 7)));
}

#[test]
fn parses_max_sentinel() {
    assert_eq!(parse_selector("[MAX:64]"), Some((511, 64)));
    assert_eq!(parse_selector("[MAX:MAX]"), Some((511, 511)));
    assert_eq!(parse_selector("[0:MAX]"), Some((0, 511)));
}

#[test]
fn rejects_malformed_strings() {
    assert_eq!(parse_selector(""), None);
    assert_eq!(parse_selector("31:0"), None);
    assert_eq!(parse_selector("[31:0"), None);
    assert_eq!(parse_selector("31:0]"), None);
    assert_eq!(parse_selector("[31-0]"), None);
    assert_eq!(parse_selector("[:0]"), None);
    assert_eq!(parse_selector("[31:]"), None);
    assert_eq!(parse_selector("[:]"), None);
    assert_eq!(parse_selector("[]"), None);
    assert_eq!(parse_selector("[1:2:3]"), None);
    assert_eq!(parse_selector("x[31:0]"), None);
    assert_eq!(parse_selector("[31:0]x"), None);
}

#[test]
fn rejects_non_numeric_tokens() {
    assert_eq!(parse_selector("[MAX1:0]"), None);
    assert_eq!(parse_selector("[max:0]"), None);
    assert_eq!(parse_selector("[3a:0]"), None);
    assert_eq!(parse_selector("[31: 0]"), None);
    assert_eq!(parse_selector("[-1:0]"), None);
}

#[test]
fn rejects_values_too_large_for_usize() {
    assert_eq!(parse_selector("[99999999999999999999999999:0]"), None);
    assert_eq!(parse_selector("[0:18446744073709551616]"), None);
}

#[test]
fn accepts_large_values_that_fit() {
    assert_eq!(parse_selector("[18446744073709551615:0]"), Some((usize::MAX, 0)));
    assert_eq!(parse_selector("[1000:999]"), Some((1000, 999)));
}
