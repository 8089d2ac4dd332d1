use pies::xsd::data_types::{XString, XSDString};

fn s(v: &str) -> XSDString {
    String::from(v)
}

#[test]
fn normalized_strings_hold_no_breaks() {
    assert!(s("a b c").is_normalized());
    assert!(s("").is_normalized());
    assert!(!s("a\tb").is_normalized());
    assert!(!s("a\nb").is_normalized());
    assert!(!s("a\rb").is_normalized());
}

#[test]
fn to_norm_removes_breaks() {
    assert_eq!(s("a\n\rb\t c").to_norm(), "ab c");
    assert_eq!(s("plain  text").to_norm(), "plain  text");
    assert_eq!(s("\t\n\r").to_norm(), "");
}

#[test]
fn to_norm_result_is_normalized_and_stable() {
    let once = s("x\ty\nz").to_norm();
    assert!(once.is_normalized());
    assert_eq!(once.clone().to_norm(), once);
}

#[test]
fn tokens_have_single_inner_spaces() {
    assert!(s("a b").is_token());
    assert!(s("").is_token());
    assert!(!s(" a").is_token());
    assert!(!s("a ").is_token());
    assert!(!s("a  b").is_token());
    assert!(!s("a\tb").is_token());
}

#[test]
fn to_token_collapses_and_trims() {
    assert_eq!(s("  a   b \n").to_token(), "a b");
    assert_eq!(s("a \t b").to_token(), "a b");
    assert_eq!(s(" ").to_token(), "");
    assert_eq!(s("a b").to_token(), "a b");
}

#[test]
fn to_token_trims_unicode_white_space_only_when_changing() {
    // Already a token: kept as it is, even with other white space at the front.
    assert_eq!(s("\u{a0}x").to_token(), "\u{a0}x");
    // Not a token: all outer white space goes.
    assert_eq!(s(" \u{a0}x\u{3000} ").to_token(), "x");
}

#[test]
fn to_token_result_is_token_and_stable() {
    let once = s("\t one  two   three ").to_token();
    assert_eq!(once, "one two three");
    assert!(once.is_token());
    assert_eq!(once.clone().to_token(), once);
}

#[test]
fn every_token_is_normalized() {
    for v in ["a b", "", "x", "a  b", " a"] {
        let t = s(v);
        if t.is_token() {
            assert!(t.is_normalized());
        }
    }
}
