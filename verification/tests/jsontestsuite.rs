//! The validator's verdicts, and the four kinds of "no" it distinguishes.

use rusty_rtos_json::{is_valid, validate, Validity};

/// The four kinds of "no" are distinguished, not collapsed.
#[test]
fn the_reasons_for_refusal_are_distinct() {
    assert_eq!(validate(b""), Validity::BadParameter);
    assert_eq!(validate(b"{"), Validity::Partial);
    assert_eq!(validate(b"{]"), Validity::Illegal);
    assert_eq!(validate(b"[1,2]"), Validity::Valid);

    // 33 opening brackets: one past MAX_DEPTH.
    let deep = vec![b'['; 33];
    assert_eq!(validate(&deep), Validity::MaxDepthExceeded);
}

/// A scalar at the top level is a document, which is ECMA-404 and not RFC 4627.
#[test]
fn a_bare_scalar_is_a_valid_document() {
    for doc in [
        &b"42"[..],
        b"-0.5e3",
        b"\"hello\"",
        b"true",
        b"false",
        b"null",
        b"  7  ",
    ] {
        assert_eq!(
            validate(doc),
            Validity::Valid,
            "{:?}",
            core::str::from_utf8(doc)
        );
    }
}

/// Over-long UTF-8 is refused: the shortest encoding is the only one.
#[test]
fn an_over_long_encoding_is_refused() {
    assert_eq!(validate(b"\"\xc0\xaf\""), Validity::Illegal);
    assert_eq!(validate(b"\"\xe0\x80\xaf\""), Validity::Illegal);
    assert_eq!(validate(b"\"\xf0\x80\x80\xaf\""), Validity::Illegal);
    // The same characters, shortest form.
    assert_eq!(validate(b"\"/\""), Validity::Valid);
    assert_eq!(validate(b"\"\xc3\xa9\""), Validity::Valid);
    assert_eq!(validate(b"\"\xe2\x82\xac\""), Validity::Valid);
    assert_eq!(validate(b"\"\xf0\x9f\x98\x80\""), Validity::Valid);
    // An encoded surrogate, and a value past U+10FFFF.
    assert_eq!(validate(b"\"\xed\xa0\x80\""), Validity::Illegal);
    assert_eq!(validate(b"\"\xf4\x90\x80\x80\""), Validity::Illegal);
    // A missing continuation byte.
    assert_eq!(validate(b"\"\xc3\""), Validity::Illegal);
}

/// A surrogate escape must come as a high-then-low pair.
#[test]
fn a_lone_surrogate_escape_is_refused() {
    assert_eq!(validate(br#""\ud83d\ude00""#), Validity::Valid);
    assert_eq!(validate(br#""\ud83d""#), Validity::Illegal);
    assert_eq!(validate(br#""\ude00""#), Validity::Illegal);
    assert_eq!(validate(br#""\ud83d\u0041""#), Validity::Illegal);
    assert_eq!(validate(br#""\u00e9 \u0041""#), Validity::Valid);
    assert_eq!(validate(br#""\u00g9""#), Validity::Illegal);
}

/// Trailing commas are illegal in both kinds of collection.
#[test]
fn a_trailing_comma_is_refused() {
    assert_eq!(validate(b"[1,]"), Validity::Illegal);
    assert_eq!(validate(b"{\"a\":1,}"), Validity::Illegal);
    assert_eq!(validate(b"[[1],]"), Validity::Illegal);
    assert_eq!(validate(b"[1 , 2]"), Validity::Valid);
}

/// Superfluous leading zeroes are refused, a lone zero is not.
#[test]
fn a_leading_zero_is_refused() {
    assert_eq!(validate(b"01"), Validity::Illegal);
    assert_eq!(validate(b"[-01]"), Validity::Illegal);
    assert_eq!(validate(b"0"), Validity::Valid);
    assert_eq!(validate(b"-0.0e-0"), Validity::Valid);
    assert_eq!(validate(b"10"), Validity::Valid);
}

/// The shapes a number may not take.
#[test]
fn a_malformed_number_is_refused() {
    assert_eq!(validate(b"1."), Validity::Illegal);
    assert_eq!(validate(b"1e"), Validity::Illegal);
    assert_eq!(validate(b".5"), Validity::Illegal);
    assert_eq!(validate(b"+1"), Validity::Illegal);
    assert_eq!(validate(b"-"), Validity::Illegal);
    assert_eq!(validate(b"1E+2"), Validity::Valid);
}

/// Strings may not hold unescaped control characters, and escapes are strict.
#[test]
fn string_contents_are_checked() {
    assert_eq!(validate(b"\"a\tb\""), Validity::Illegal);
    assert_eq!(validate(b"\"a\\tb\""), Validity::Valid);
    assert_eq!(validate(b"\"a\\qb\""), Validity::Illegal);
    assert_eq!(validate(br#""\"\\\/\b\f\n\r\t""#), Validity::Valid);
    assert_eq!(validate(b"\"abc"), Validity::Illegal);
}

/// Whitespace is JSON's four bytes only.
#[test]
fn only_json_whitespace_is_whitespace() {
    assert_eq!(validate(b" \t\r\n1 \t\r\n"), Validity::Valid);
    assert_eq!(validate(b"\x0b1"), Validity::Illegal);
    assert_eq!(validate(b"1\x0c"), Validity::Illegal);
    assert_eq!(validate(b"   "), Validity::Partial);
}

/// Nesting exactly at the limit is fine; one more level is refused.
#[test]
fn nesting_is_bounded_by_max_depth() {
    let mut at_limit = vec![b'['; rusty_rtos_json::MAX_DEPTH];
    at_limit.extend(vec![b']'; rusty_rtos_json::MAX_DEPTH]);
    assert_eq!(validate(&at_limit), Validity::Valid);

    let mut past_limit = vec![b'['; rusty_rtos_json::MAX_DEPTH + 1];
    past_limit.extend(vec![b']'; rusty_rtos_json::MAX_DEPTH + 1]);
    assert_eq!(validate(&past_limit), Validity::MaxDepthExceeded);
}

/// Mixed documents, and what may and may not follow one.
#[test]
fn documents_and_what_follows_them() {
    assert!(is_valid(br#"{"a":[1,2,{"b":"x"}],"c":true}"#));
    assert!(is_valid(br#"[{"a":{}},[],[[null]]]"#));
    assert_eq!(validate(b"[1] 2"), Validity::Illegal);
    assert_eq!(validate(b"[1]]"), Validity::Illegal);
    assert_eq!(validate(b"{\"a\" 1}"), Validity::Illegal);
    assert_eq!(validate(b"{1:2}"), Validity::Illegal);
    assert_eq!(validate(b"[1 2]"), Validity::Illegal);
    // A comma with nothing after it, or a scalar with no comma and no close,
    // is already illegal; an unclosed nested collection is partial.
    assert_eq!(validate(b"[1,"), Validity::Illegal);
    assert_eq!(validate(b"[1,2"), Validity::Illegal);
    assert_eq!(validate(b"[[1]"), Validity::Partial);
    assert_eq!(validate(b"{\"a\":[1]"), Validity::Partial);
    assert_eq!(validate(b"]"), Validity::Illegal);
    assert!(!is_valid(b""));
}

/// After an object member whose value is a scalar, the byte that follows is
/// not checked for a comma or the closing brace before the bracket machine
/// reads it, so a collection there is taken as a further element.
#[test]
fn a_collection_after_a_scalar_member_is_accepted() {
    assert_eq!(validate(br#"{"a":1 [2]}"#), Validity::Valid);
    assert_eq!(validate(br#"{"a":1 {}}"#), Validity::Valid);
    assert_eq!(validate(br#"{"a":1 [2], "b":3}"#), Validity::Valid);
    assert_eq!(validate(br#"{"a":1 "b":2}"#), Validity::Illegal);
    assert_eq!(validate(br#"{"a":1 [2] [3]}"#), Validity::Illegal);
    assert_eq!(validate(br#"[1 [2]]"#), Validity::Illegal);
}
