//! The two scanners that a value can start with: a scalar and a collection.

use rusty_rtos_json::scan::skip_any_scalar;
use rusty_rtos_json::validate::{skip_collection, Validity};

/// A collection can only be valid when it opens with a bracket, so the walker
/// may ask only one scanner per first byte.
#[test]
fn a_collection_must_open_with_a_bracket() {
    const DOCS: [&[u8]; 5] = [b"{}", b"[]", b"{\"a\":1}", b"[1,2]", b"[{}]"];

    for doc in DOCS {
        let length = doc.len();
        let mut buf = [0u8; 8];
        assert!(length <= buf.len(), "a document here outgrew the buffer");
        let Some(slot) = buf.get_mut(..length) else {
            unreachable!("the assertion above covers this")
        };
        slot.copy_from_slice(doc);

        for first in 0u8..=u8::MAX {
            let Some(head) = buf.first_mut() else {
                unreachable!("the buffer is never empty")
            };
            *head = first;

            let Some(input) = buf.get(..length) else {
                unreachable!("length came from a slice of this buffer")
            };

            let mut at = 0usize;
            if skip_collection(input, &mut at, length) == Validity::Valid {
                assert!(
                    first == b'{' || first == b'[',
                    "a collection was valid opening with {first:#04x}"
                );
            }
        }
    }
}

/// The scanners are disjoint, and a scanner that fails does not move the
/// cursor, which is what makes the order they are tried in free.
#[test]
fn the_two_scanners_are_disjoint_and_do_not_move_on_failure() {
    const INPUTS: [&[u8]; 18] = [
        b"",
        b" ",
        b"[",
        b"]",
        b"{",
        b"}",
        b"[]",
        b"{}",
        b"[1,2]",
        b"{\"a\":1}",
        b"42",
        b"-0.5e3",
        b"\"s\"",
        b"true",
        b"false",
        b"null",
        b"[1,2",
        b"{\"a\":",
    ];

    for input in INPUTS {
        let max = input.len();

        let mut scalar_at = 0usize;
        let scalar = skip_any_scalar(input, &mut scalar_at, max);

        let mut collection_at = 0usize;
        let collection = skip_collection(input, &mut collection_at, max) == Validity::Valid;

        assert!(
            !(scalar && collection),
            "both scanners claimed {input:?}, so the order WOULD matter"
        );

        if !scalar {
            assert_eq!(
                scalar_at, 0,
                "a failed scalar scan moved the cursor on {input:?}"
            );
        }
        if !collection {
            assert_eq!(
                collection_at, 0,
                "a failed collection scan moved the cursor on {input:?}"
            );
        }
    }
}

/// A successful scan moves the cursor just past the token.
#[test]
fn a_successful_scan_moves_the_cursor_past_the_token() {
    let mut at = 0usize;
    assert!(skip_any_scalar(b"true,", &mut at, 5));
    assert_eq!(at, 4);

    let mut at = 1usize;
    assert!(skip_any_scalar(b" -12.5e+3]", &mut at, 10));
    assert_eq!(at, 9);

    let mut at = 0usize;
    assert_eq!(skip_collection(b"[1,{\"a\":[]}] x", &mut at, 14), Validity::Valid);
    assert_eq!(at, 12);

    // A bound short of the buffer hides what lies past it.
    let mut at = 0usize;
    assert!(!skip_any_scalar(b"\"abc\"", &mut at, 4));
    assert_eq!(at, 0);
    let mut at = 0usize;
    assert_eq!(skip_collection(b"[[1]]", &mut at, 4), Validity::Partial);
    assert_eq!(at, 0);
}
