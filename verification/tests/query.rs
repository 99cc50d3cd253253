//! `search` and `iterate`: the workload reaches every outcome, and the
//! behaviours a reimplementation drifts on are pinned one by one.

use rusty_rtos_json::search::{iterate, pairs, search, Kind, NotFound, Stopped};

/// The document table. Two carry a backslash escape, assembled with `\x5c`.
const DOCS: [&[u8]; 30] = [
    br#"{"a":1}"#,
    br#"{"a":{"b":{"c":42}}}"#,
    br#"{"a":[1,2,3]}"#,
    br#"[1,2,3]"#,
    br#"[[1,2],[3,4]]"#,
    br#"{"a":[{"b":1},{"b":2}]}"#,
    br#"{"x":"hello"}"#,
    br#"{"x":""}"#,
    b"{\"x\":\"a\x5c\"b\"}",
    b"{\"x\":\"\x5cu00e9\"}",
    br#"{"a.b":1}"#,
    br#"{"a[0]":1}"#,
    br#"{"":1}"#,
    br#"{"a":true,"b":false,"c":null}"#,
    br#"{"a":-1.5e10}"#,
    br#"{ "a" : 1 , "b" : 2 }"#,
    br#"{"a":1,"a":2}"#,
    br#"[]"#,
    br#"{}"#,
    br#"{"a":[]}"#,
    br#"{"a":{}}"#,
    br#"[{"a":1},{"b":2}]"#,
    br#"{"a":[[["deep"]]]}"#,
    br#"{"big":[0,1,2,3,4,5,6,7,8,9]}"#,
    b"",
    b"   ",
    br#""bare""#,
    br#"42"#,
    br#"[0,1,2,3,4,5,6,7,8,9,10,11,12,13,14,15,16,17,18,19,20,21,22,23,24,25,26,27,28,29,30,31,32,33,34,35,36,37,38,39]"#,
    br#"{"k0":0,"k1":1,"k2":2,"k3":3,"k4":4,"k5":5,"k6":6,"k7":7,"k8":8,"k9":9,"k10":10,"k11":11}"#,
];

/// The query table.
const QUERIES: [&[u8]; 39] = [
    b"a",
    b"b",
    b"x",
    b"c",
    b"big",
    b"a.b",
    b"a.b.c",
    b"a.b.c.d",
    b"",
    b".",
    b"..",
    b"a.",
    b".a",
    b"a..b",
    b"[0]",
    b"[1]",
    b"[2]",
    b"[3]",
    b"[10]",
    b"[4294967295]",
    b"[4294967296]",
    b"[99999999999999999999]",
    b"a[0]",
    b"a[1]",
    b"a[3]",
    b"a[0].b",
    b"a.b[0]",
    b"[0][0]",
    b"[0][1]",
    b"[1][0]",
    b"a[0][0][0]",
    b"big[9]",
    b"big[10]",
    b"a.b]",
    b"a[",
    b"a[]",
    b"a[-1]",
    b"a.b.",
    b"a[0]b",
];

/// The workload must actually reach every branch worth reaching.
#[test]
fn the_workload_reaches_every_outcome() {
    let (mut success, mut missing, mut bad) = (0u32, 0u32, 0u32);
    let mut kinds = [0u32; 7];

    for doc in DOCS {
        for query in QUERIES {
            match search(doc, query) {
                Ok(m) => {
                    success += 1;
                    let slot = match m.kind {
                        Kind::String => 0,
                        Kind::Number => 1,
                        Kind::True => 2,
                        Kind::False => 3,
                        Kind::Null => 4,
                        Kind::Object => 5,
                        Kind::Array => 6,
                    };
                    if let Some(n) = kinds.get_mut(slot) {
                        *n += 1;
                    }
                }
                Err(NotFound::Missing) => missing += 1,
                Err(NotFound::BadQuery) => bad += 1,
            }
        }
    }

    assert!(success > 20, "too few successful queries: {success}");
    assert!(missing > 100, "too few honest misses: {missing}");
    assert!(bad > 100, "too few malformed queries refused: {bad}");

    for (i, n) in kinds.iter().enumerate() {
        assert!(*n > 0, "no query ever returned type {i}");
    }

    let (mut exhausted, mut illegal, mut bad_cursor) = (0u32, 0u32, 0u32);
    for doc in DOCS {
        let (mut start, mut next) = (0usize, 0usize);
        loop {
            match iterate(doc, &mut start, &mut next) {
                Ok(_) => {}
                Err(Stopped::Exhausted) => {
                    exhausted += 1;
                    break;
                }
                Err(Stopped::NotACollection) => {
                    illegal += 1;
                    break;
                }
                Err(Stopped::BadCursor) => {
                    bad_cursor += 1;
                    break;
                }
            }
        }
    }
    assert!(exhausted > 0, "no collection was ever exhausted");
    assert!(illegal > 0, "no non-collection was ever refused");
    assert!(bad_cursor > 0, "no bad cursor was ever refused");
}

/// The path examples: a key of an object at a key, an element of an array.
#[test]
fn a_path_walks_keys_and_indices() {
    let doc = br#"{"a":{"b":[10,20,{"c":"hi"}]}}"#;
    let m = search(doc, b"a.b[1]").unwrap();
    assert_eq!(m.value, b"20");
    assert_eq!(m.kind, Kind::Number);
    assert_eq!(m.offset, 14);

    let found = search(doc, b"a.b[2].c").unwrap();
    assert_eq!(found.kind, Kind::String);
    assert_eq!(found.value, b"hi");
    assert_eq!(found.offset, 23);

    let whole = search(doc, b"a.b").unwrap();
    assert_eq!(whole.kind, Kind::Array);
    assert_eq!(whole.value, br#"[10,20,{"c":"hi"}]"#);

    // A found collection comes back whole and can be searched again.
    let again = search(whole.value, b"[2].c").unwrap();
    assert_eq!(again.value, b"hi");
    assert_eq!(again.kind, Kind::String);
    assert_eq!(again.offset, found.offset - whole.offset);
    // Refusals carry over too.
    assert_eq!(search(whole.value, b"[3]").unwrap_err(), NotFound::Missing);
    assert_eq!(search(doc, b"a.b.[3]").unwrap_err(), NotFound::Missing);
    // A separator after an index part is skipped, not refused.
    let inner = search(whole.value, b"[2].").unwrap();
    assert_eq!(inner.kind, Kind::Object);
    assert_eq!(inner.offset + whole.offset, search(doc, b"a.b.[2].").unwrap().offset);

    assert_eq!(search(br#"[{"x":[true]}]"#, b"[0].x[0]").unwrap().kind, Kind::True);
}

/// A string's quotes are stripped, and its length is shortened by two.
#[test]
fn a_string_comes_back_without_its_quotes() {
    let m = search(br#"{"x":"hello"}"#, b"x").unwrap();
    assert_eq!(m.value, b"hello");
    assert_eq!(m.offset, 6);
    let empty = search(br#"{"x":""}"#, b"x").unwrap();
    assert_eq!(empty.value, b"");
    assert_eq!(empty.offset, 6);
    assert_eq!(empty.kind, Kind::String);
}

/// The first of two duplicate keys wins.
#[test]
fn the_first_duplicate_key_wins() {
    let m = search(br#"{"a":1,"a":2}"#, b"a").unwrap();
    assert_eq!(m.value, b"1");
    assert_eq!(m.offset, 5);
}

/// A trailing or doubled separator, an empty query or buffer, and a malformed
/// index are refused as bad queries rather than missed.
#[test]
fn malformed_queries_are_refused() {
    let doc = br#"{"a":{"b":1}}"#;
    assert_eq!(search(doc, b"a.").unwrap_err(), NotFound::BadQuery);
    assert_eq!(search(doc, b"a.b.").unwrap_err(), NotFound::BadQuery);
    assert_eq!(search(doc, b".a").unwrap_err(), NotFound::BadQuery);
    assert_eq!(search(doc, b"a..b").unwrap_err(), NotFound::BadQuery);
    assert_eq!(search(doc, b"").unwrap_err(), NotFound::BadQuery);
    assert_eq!(search(b"", b"a").unwrap_err(), NotFound::BadQuery);
    assert_eq!(search(b"[1]", b"[").unwrap_err(), NotFound::BadQuery);
    assert_eq!(search(b"[1]", b"[]").unwrap_err(), NotFound::BadQuery);
    assert_eq!(search(b"[1]", b"[-1]").unwrap_err(), NotFound::BadQuery);
    assert_eq!(search(b"[1]", b"[0").unwrap_err(), NotFound::BadQuery);
    assert_eq!(search(doc, b"a.b").unwrap().value, b"1");
    // A missing key ahead of a bad part is a miss: the walk stops there.
    assert_eq!(search(doc, b"z.b.").unwrap_err(), NotFound::Missing);
}

/// A huge array index latches to -1 and is refused instead of wrapping round
/// to a small one.
#[test]
fn a_huge_index_is_refused_not_wrapped() {
    let doc = b"[1,2,3]";
    assert_eq!(search(doc, b"[99999999999999999999]").unwrap_err(), NotFound::BadQuery);
    assert_eq!(search(doc, b"[4294967296]").unwrap_err(), NotFound::BadQuery);
    assert_eq!(search(doc, b"[2147483648]").unwrap_err(), NotFound::BadQuery);
    // The largest index that is still an index, simply not there.
    assert_eq!(search(doc, b"[2147483639]").unwrap_err(), NotFound::Missing);
    assert_eq!(search(doc, b"[2147483640]").unwrap_err(), NotFound::BadQuery);
    assert_eq!(search(doc, b"[00002]").unwrap().value, b"3");
}

/// Keys that collide with the query grammar cannot be reached, and an empty
/// key part is refused.
#[test]
fn keys_that_hold_query_syntax_are_unreachable() {
    assert_eq!(search(br#"{"a.b":1}"#, b"a.b").unwrap_err(), NotFound::Missing);
    assert_eq!(search(br#"{"a[0]":1}"#, b"a[0]").unwrap_err(), NotFound::Missing);
    assert_eq!(search(br#"{"":1}"#, b"").unwrap_err(), NotFound::BadQuery);
}

/// Searching does not validate first: a document broken after the answer
/// still answers.
#[test]
fn a_query_does_not_validate_first() {
    assert_eq!(search(br#"{"a":1,"b":"#, b"a").unwrap().value, b"1");
    assert_eq!(search(br#"{"a":1,"b":"#, b"b").unwrap_err(), NotFound::Missing);
    assert_eq!(search(b"42", b"a").unwrap_err(), NotFound::Missing);
}

/// Iterating an object yields keys; iterating an array yields none.
#[test]
fn iterate_walks_members_and_elements() {
    let doc = br#"{"a":1,"b":"two","c":[3]}"#;
    let (mut start, mut next) = (0usize, 0usize);

    let p = iterate(doc, &mut start, &mut next).unwrap();
    assert_eq!(p.key, Some(&b"a"[..]));
    assert_eq!(p.key_offset, 2);
    assert_eq!(p.value, b"1");
    assert_eq!(p.offset, 5);
    assert_eq!(p.kind, Kind::Number);

    let p = iterate(doc, &mut start, &mut next).unwrap();
    assert_eq!(p.key, Some(&b"b"[..]));
    assert_eq!(p.value, b"two");
    assert_eq!(p.kind, Kind::String);

    let p = iterate(doc, &mut start, &mut next).unwrap();
    assert_eq!(p.key, Some(&b"c"[..]));
    assert_eq!(p.value, b"[3]");
    assert_eq!(p.kind, Kind::Array);

    assert_eq!(iterate(doc, &mut start, &mut next).unwrap_err(), Stopped::Exhausted);

    let (mut start, mut next) = (0usize, 0usize);
    let p = iterate(b" [ 1 , true ]", &mut start, &mut next).unwrap();
    assert_eq!(p.key, None);
    assert_eq!(p.key_offset, 0);
    assert_eq!(p.value, b"1");
    assert_eq!(start, 1);
    let p = iterate(b" [ 1 , true ]", &mut start, &mut next).unwrap();
    assert_eq!(p.kind, Kind::True);
    assert_eq!(p.offset, 7);
}

/// The three reasons an iteration stops.
#[test]
fn iterate_distinguishes_why_it_stopped() {
    let (mut start, mut next) = (0usize, 0usize);
    assert_eq!(iterate(b"", &mut start, &mut next).unwrap_err(), Stopped::BadCursor);
    let (mut start, mut next) = (5usize, 0usize);
    assert_eq!(iterate(b"[1]", &mut start, &mut next).unwrap_err(), Stopped::BadCursor);
    let (mut start, mut next) = (0usize, 4usize);
    assert_eq!(iterate(b"[1]", &mut start, &mut next).unwrap_err(), Stopped::BadCursor);
    let (mut start, mut next) = (0usize, 0usize);
    assert_eq!(iterate(b"42", &mut start, &mut next).unwrap_err(), Stopped::NotACollection);
    let (mut start, mut next) = (0usize, 0usize);
    assert_eq!(iterate(b"[]", &mut start, &mut next).unwrap_err(), Stopped::Exhausted);
    let (mut start, mut next) = (0usize, 0usize);
    assert_eq!(iterate(b"   ", &mut start, &mut next).unwrap_err(), Stopped::Exhausted);
}

/// `pairs` carries the cursors and stops at the first refusal.
#[test]
fn pairs_walks_a_collection() {
    let doc = br#"{"a":1,"b":"two","c":[3]}"#;
    let mut walk = pairs(doc);
    let mut keys: Vec<&[u8]> = Vec::new();
    while let Some(p) = walk.next() {
        if let Some(k) = p.key {
            keys.push(k);
        }
    }
    assert_eq!(keys, vec![&b"a"[..], b"b", b"c"]);

    let mut walk = pairs(b"[1,2,3]");
    let mut n = 0;
    while walk.next().is_some() {
        n += 1;
    }
    assert_eq!(n, 3);
    assert!(walk.next().is_none());
}
