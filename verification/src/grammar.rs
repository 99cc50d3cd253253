//! JSON's grammar, read from the top down, and what `validate` makes of it.
//!
//! The grammar here is the structural part of ECMA-404 over the scanners of
//! `scan` (strings, numbers, literals, whitespace): a value is a scalar or a
//! collection; a collection is an opening bracket, whitespace, and either the
//! matching closing bracket or items separated by commas and then the closing
//! bracket; an item of an array is a value, an item of an object is a string
//! key, a colon and a value. `depth` counts the levels of brackets that may
//! still open.
//!
//! `validate` runs a flat bracket machine instead of a recursive descent, and
//! the machine is a little more lenient than JSON in one place: inside an
//! object, a member whose value is a scalar may be followed directly, with no
//! comma, by one more collection (`{"a":1 [2]}`). The grammar takes a flag,
//! `loose`, that admits exactly that form; with it unset, it is JSON.
use vstd::prelude::*;
use crate::chars::{
    is_close_bracket, is_matching_bracket, is_open_bracket, is_space, CLOSE_BRACE, CLOSE_BRACKET,
    COLON, COMMA, OPEN_BRACE, OPEN_BRACKET,
};
use crate::scan::{
    lemma_scalar_end, lemma_space_and_comma, lemma_space_end, lemma_string_end, scalar_end,
    space_and_comma, space_end, string_end,
};
use crate::validate::{
    array_scalars, collection, collection_end, lemma_scanners_disjoint, object_scalars, scalars,
    validity, Validity, MAX_DEPTH,
};

verus! {

// ---- the grammar -----------------------------------------------------------

/// Where the value at `i` ends: a scalar, or a collection whose brackets nest
/// at most `depth` levels.
pub open spec fn json_value_end(s: Seq<u8>, i: int, max: int, depth: nat, loose: bool) -> Option<
    int,
>
    decreases max - i, 0int,
{
    if i < max && is_open_bracket(s[i]) {
        if depth == 0 {
            None
        } else {
            json_body_end(s, i + 1, max, (depth - 1) as nat, s[i], loose)
        }
    } else {
        scalar_end(s, i, max)
    }
}

/// Where the collection opened by `open` ends, from just past the opening
/// bracket: whitespace, then the matching closing bracket or the items.
pub open spec fn json_body_end(
    s: Seq<u8>,
    i: int,
    max: int,
    depth: nat,
    open: u8,
    loose: bool,
) -> Option<int>
    decreases max - i, 3int,
{
    let j = space_end(s, i, max);
    if j < max && is_matching_bracket(open, s[j]) {
        Some(j + 1)
    } else {
        proof {
            lemma_space_end(s, i, max);
        }
        json_items_end(s, j, max, depth, open, loose)
    }
}

/// Where the items of a collection opened by `open` end, from the first byte
/// of the first of them, closing bracket included.
pub open spec fn json_items_end(
    s: Seq<u8>,
    i: int,
    max: int,
    depth: nat,
    open: u8,
    loose: bool,
) -> Option<int>
    decreases max - i, 2int,
{
    let item = if open == OPEN_BRACKET {
        json_value_end(s, i, max, depth, loose)
    } else {
        json_member_end(s, i, max, depth, loose)
    };
    match item {
        None => None,
        Some(v) => json_next_item(s, i, v, max, depth, open, loose),
    }
}

/// After an item that starts at `i` and ends at `v`: whitespace, then a comma
/// and the next item, or the closing bracket. (An item always ends past its
/// start, so the comparison of `i` with the next start never fails; it is what
/// lets the definition be seen to terminate.)
pub open spec fn json_next_item(
    s: Seq<u8>,
    i: int,
    v: int,
    max: int,
    depth: nat,
    open: u8,
    loose: bool,
) -> Option<int>
    decreases max - i, 1int,
{
    let j = space_end(s, v, max);
    if j < max && s[j] == COMMA {
        let n = space_end(s, j + 1, max);
        proof {
            lemma_space_end(s, j + 1, max);
        }
        if i < n {
            json_items_end(s, n, max, depth, open, loose)
        } else {
            None
        }
    } else if j < max && is_matching_bracket(open, s[j]) {
        Some(j + 1)
    } else {
        None
    }
}

/// Where the object member at `i` ends: a string key, whitespace, a colon,
/// whitespace and a value. With `loose`, a member whose value is a scalar may
/// carry one collection after it, past whitespace and with no comma between.
pub open spec fn json_member_end(s: Seq<u8>, i: int, max: int, depth: nat, loose: bool) -> Option<
    int,
>
    decreases max - i, 1int,
{
    match string_end(s, i, max) {
        None => None,
        Some(k) => {
            let colon = space_end(s, k, max);
            if colon < max && s[colon] == COLON {
                let v0 = space_end(s, colon + 1, max);
                proof {
                    lemma_string_end(s, i, max);
                    lemma_space_end(s, k, max);
                    lemma_space_end(s, colon + 1, max);
                }
                if v0 < max && is_open_bracket(s[v0]) {
                    json_value_end(s, v0, max, depth, loose)
                } else {
                    match scalar_end(s, v0, max) {
                        None => None,
                        Some(v) => {
                            let j = space_end(s, v, max);
                            if loose && j < max && is_open_bracket(s[j]) {
                                proof {
                                    lemma_scalar_end(s, v0, max);
                                    lemma_space_end(s, v, max);
                                }
                                json_value_end(s, j, max, depth, loose)
                            } else {
                                Some(v)
                            }
                        },
                    }
                }
            } else {
                None
            }
        },
    }
}

/// A JSON text: whitespace, one value with brackets nested no deeper than
/// `MAX_DEPTH`, whitespace, and nothing else.
pub open spec fn json_text(s: Seq<u8>, loose: bool) -> bool {
    let max = s.len() as int;
    json_value_end(s, space_end(s, 0, max), max, MAX_DEPTH as nat, loose) matches Some(e)
        && space_end(s, e, max) == max
}

// ---- facts of the grammar ---------------------------------------------------

/// A value, a member, a run of items and a collection body each end past
/// where they start and within the bound.
pub proof fn lemma_json_value_end(s: Seq<u8>, i: int, max: int, depth: nat, loose: bool)
    ensures
        json_value_end(s, i, max, depth, loose) matches Some(e) ==> i < e <= max,
    decreases max - i, 0int,
{
    lemma_scalar_end(s, i, max);
    if i < max && is_open_bracket(s[i]) && depth > 0 {
        lemma_json_body_end(s, i + 1, max, (depth - 1) as nat, s[i], loose);
    }
}

/// See `lemma_json_value_end`.
pub proof fn lemma_json_body_end(
    s: Seq<u8>,
    i: int,
    max: int,
    depth: nat,
    open: u8,
    loose: bool,
)
    ensures
        json_body_end(s, i, max, depth, open, loose) matches Some(e) ==> i < e <= max,
    decreases max - i, 3int,
{
    let j = space_end(s, i, max);
    lemma_space_end(s, i, max);
    if !(j < max && is_matching_bracket(open, s[j])) {
        lemma_json_items_end(s, j, max, depth, open, loose);
    }
}

/// See `lemma_json_value_end`.
pub proof fn lemma_json_items_end(
    s: Seq<u8>,
    i: int,
    max: int,
    depth: nat,
    open: u8,
    loose: bool,
)
    ensures
        json_items_end(s, i, max, depth, open, loose) matches Some(e) ==> i < e <= max,
    decreases max - i, 2int,
{
    if open == OPEN_BRACKET {
        lemma_json_value_end(s, i, max, depth, loose);
    } else {
        lemma_json_member_end(s, i, max, depth, loose);
    }
    let item = if open == OPEN_BRACKET {
        json_value_end(s, i, max, depth, loose)
    } else {
        json_member_end(s, i, max, depth, loose)
    };
    if let Some(v) = item {
        lemma_json_next_item(s, i, v, max, depth, open, loose);
    }
}

/// See `lemma_json_value_end`.
pub proof fn lemma_json_next_item(
    s: Seq<u8>,
    i: int,
    v: int,
    max: int,
    depth: nat,
    open: u8,
    loose: bool,
)
    requires
        i < v,
    ensures
        json_next_item(s, i, v, max, depth, open, loose) matches Some(e) ==> i < e <= max,
    decreases max - i, 1int,
{
    let j = space_end(s, v, max);
    lemma_space_end(s, v, max);
    if j < max && s[j] == COMMA {
        let n = space_end(s, j + 1, max);
        lemma_space_end(s, j + 1, max);
        if i < n {
            lemma_json_items_end(s, n, max, depth, open, loose);
        }
    }
}

/// See `lemma_json_value_end`.
pub proof fn lemma_json_member_end(s: Seq<u8>, i: int, max: int, depth: nat, loose: bool)
    ensures
        json_member_end(s, i, max, depth, loose) matches Some(e) ==> i < e <= max,
    decreases max - i, 1int,
{
    lemma_string_end(s, i, max);
    if let Some(k) = string_end(s, i, max) {
        let colon = space_end(s, k, max);
        lemma_space_end(s, k, max);
        if colon < max && s[colon] == COLON {
            let v0 = space_end(s, colon + 1, max);
            lemma_space_end(s, colon + 1, max);
            lemma_json_value_end(s, v0, max, depth, loose);
            lemma_scalar_end(s, v0, max);
            if let Some(v) = scalar_end(s, v0, max) {
                let j = space_end(s, v, max);
                lemma_space_end(s, v, max);
                if j < max {
                    lemma_json_value_end(s, j, max, depth, loose);
                }
            }
        }
    }
}

/// A loose reading of a value, member or run of items agrees with the strict
/// one wherever the strict one succeeds.
pub proof fn lemma_strict_value_is_loose(s: Seq<u8>, i: int, max: int, depth: nat)
    ensures
        json_value_end(s, i, max, depth, false) matches Some(e) ==> json_value_end(
            s,
            i,
            max,
            depth,
            true,
        ) == Some(e),
    decreases max - i, 0int,
{
    if i < max && is_open_bracket(s[i]) && depth > 0 {
        lemma_strict_body_is_loose(s, i + 1, max, (depth - 1) as nat, s[i]);
    }
}

/// See `lemma_strict_value_is_loose`.
pub proof fn lemma_strict_body_is_loose(s: Seq<u8>, i: int, max: int, depth: nat, open: u8)
    ensures
        json_body_end(s, i, max, depth, open, false) matches Some(e) ==> json_body_end(
            s,
            i,
            max,
            depth,
            open,
            true,
        ) == Some(e),
    decreases max - i, 3int,
{
    let j = space_end(s, i, max);
    lemma_space_end(s, i, max);
    if !(j < max && is_matching_bracket(open, s[j])) {
        lemma_strict_items_is_loose(s, j, max, depth, open);
    }
}

/// See `lemma_strict_value_is_loose`.
pub proof fn lemma_strict_items_is_loose(s: Seq<u8>, i: int, max: int, depth: nat, open: u8)
    ensures
        json_items_end(s, i, max, depth, open, false) matches Some(e) ==> json_items_end(
            s,
            i,
            max,
            depth,
            open,
            true,
        ) == Some(e),
    decreases max - i, 2int,
{
    if open == OPEN_BRACKET {
        lemma_strict_value_is_loose(s, i, max, depth);
    } else {
        lemma_strict_member_is_loose(s, i, max, depth);
    }
    let item = if open == OPEN_BRACKET {
        json_value_end(s, i, max, depth, false)
    } else {
        json_member_end(s, i, max, depth, false)
    };
    if let Some(v) = item {
        lemma_strict_next_is_loose(s, i, v, max, depth, open);
    }
}

/// See `lemma_strict_value_is_loose`.
pub proof fn lemma_strict_next_is_loose(
    s: Seq<u8>,
    i: int,
    v: int,
    max: int,
    depth: nat,
    open: u8,
)
    ensures
        json_next_item(s, i, v, max, depth, open, false) matches Some(e) ==> json_next_item(
            s,
            i,
            v,
            max,
            depth,
            open,
            true,
        ) == Some(e),
    decreases max - i, 1int,
{
    let j = space_end(s, v, max);
    if j < max && s[j] == COMMA {
        let n = space_end(s, j + 1, max);
        lemma_space_end(s, j + 1, max);
        if i < n {
            lemma_strict_items_is_loose(s, n, max, depth, open);
        }
    }
}

/// A strict member that is not followed by an opening bracket reads the same
/// loosely; one that is, is no item of a strict object anyway.
pub proof fn lemma_strict_member_is_loose(s: Seq<u8>, i: int, max: int, depth: nat)
    ensures
        json_member_end(s, i, max, depth, false) matches Some(e) ==> {
            ||| json_member_end(s, i, max, depth, true) == Some(e)
            ||| space_end(s, e, max) < max && is_open_bracket(s[space_end(s, e, max)])
        },
    decreases max - i, 1int,
{
    lemma_string_end(s, i, max);
    if let Some(k) = string_end(s, i, max) {
        let colon = space_end(s, k, max);
        lemma_space_end(s, k, max);
        if colon < max && s[colon] == COLON {
            let v0 = space_end(s, colon + 1, max);
            lemma_space_end(s, colon + 1, max);
            lemma_strict_value_is_loose(s, v0, max, depth);
        }
    }
}

// ---- the bracket machine against the loose grammar ---------------------------

/// What the bracket machine does just past a closing bracket that leaves
/// `stack` open: it is done if nothing is; otherwise it takes a comma and the
/// scalar items after it, or the closing bracket of the enclosing collection.
spec fn after_close(s: Seq<u8>, i: int, max: int, stack: Seq<u8>) -> (Validity, int) {
    if stack.len() == 0 {
        (Validity::Valid, i)
    } else {
        let mode = stack.last();
        let (comma, i2) = space_and_comma(s, i, max);
        if comma {
            let (ok, i3) = scalars(s, i2, max, mode);
            if !ok {
                (Validity::Illegal, i3)
            } else {
                collection(s, i3, max, stack)
            }
        } else if i2 < max && !is_matching_bracket(mode, s[i2]) {
            (Validity::Illegal, i2)
        } else {
            collection(s, i2, max, stack)
        }
    }
}

/// The bracket machine at an item of the collection whose bracket `stack`
/// holds last: it skips the scalar items from there, then runs on.
spec fn item_run(s: Seq<u8>, i: int, max: int, stack: Seq<u8>) -> (Validity, int) {
    let (ok, k) = if stack.last() == OPEN_BRACKET {
        array_scalars(s, i, max)
    } else {
        object_scalars(s, i, max, i)
    };
    if ok {
        collection(s, k, max, stack)
    } else {
        (Validity::Illegal, k)
    }
}

/// How many levels of brackets may still open over `stack`.
spec fn depth_left(stack: Seq<u8>) -> nat {
    (MAX_DEPTH - stack.len()) as nat
}

/// At a collection that opens at `i` inside `stack`, the machine either runs
/// to where the loose grammar ends the collection and on from there as after
/// any closing bracket, or, where the grammar reads no value, answers other
/// than `Valid`.
spec fn value_agrees(s: Seq<u8>, i: int, max: int, stack: Seq<u8>) -> bool {
    match json_value_end(s, i, max, depth_left(stack), true) {
        Some(e) => collection(s, i, max, stack) == after_close(s, e, max, stack),
        None => collection(s, i, max, stack).0 != Validity::Valid,
    }
}

/// The same, at an item of a collection opened by `open` inside `stack`.
spec fn items_agree(s: Seq<u8>, i: int, max: int, stack: Seq<u8>, open: u8) -> bool {
    match json_items_end(s, i, max, depth_left(stack.push(open)), open, true) {
        Some(e) => item_run(s, i, max, stack.push(open)) == after_close(s, e, max, stack),
        None => item_run(s, i, max, stack.push(open)).0 != Validity::Valid,
    }
}

/// The same, just past an item from `i` to `v` that was itself a collection.
spec fn next_agrees(s: Seq<u8>, i: int, v: int, max: int, stack: Seq<u8>, open: u8) -> bool {
    match json_next_item(s, i, v, max, depth_left(stack.push(open)), open, true) {
        Some(e) => after_close(s, v, max, stack.push(open)) == after_close(s, e, max, stack),
        None => after_close(s, v, max, stack.push(open)).0 != Validity::Valid,
    }
}

/// A matching closing bracket pops the stack.
proof fn lemma_close(s: Seq<u8>, p: int, max: int, stack: Seq<u8>, open: u8)
    requires
        p < max,
        is_matching_bracket(open, s[p]),
    ensures
        collection(s, p, max, stack.push(open)) == after_close(s, p + 1, max, stack),
{
    assert(stack.push(open).drop_last() =~= stack);
}

/// No items start at the end of the input or at a closing bracket.
proof fn lemma_items_at_end(s: Seq<u8>, n: int, max: int, depth: nat, open: u8, loose: bool)
    requires
        n >= max || is_close_bracket(s[n]),
    ensures
        json_items_end(s, n, max, depth, open, loose) is None,
{
}

/// Past a collection item, the machine goes on as the grammar does, given that
/// it does so from the next item when a comma leads there.
proof fn lemma_after_collection(s: Seq<u8>, i: int, v: int, max: int, stack: Seq<u8>, open: u8)
    requires
        i < v <= max,
        is_open_bracket(open),
        stack.len() < MAX_DEPTH,
        space_and_comma(s, v, max).0 ==> items_agree(
            s,
            space_and_comma(s, v, max).1,
            max,
            stack,
            open,
        ),
    ensures
        next_agrees(s, i, v, max, stack, open),
{
    let st = stack.push(open);
    let d = depth_left(st);
    let j = space_end(s, v, max);
    lemma_space_end(s, v, max);
    lemma_space_end(s, j + 1, max);
    let (comma, n) = space_and_comma(s, v, max);
    if comma {
        assert(space_end(s, n, max) == n);
        assert(scalars(s, n, max, open) == if open == OPEN_BRACKET {
            array_scalars(s, n, max)
        } else {
            object_scalars(s, n, max, n)
        });
    } else if j < max && s[j] == COMMA {
        lemma_items_at_end(s, space_end(s, j + 1, max), max, d, open, true);
    } else if j < max && is_matching_bracket(open, s[j]) {
        lemma_close(s, j, max, stack, open);
    }
}

/// The machine agrees with the loose grammar on a collection.
proof fn lemma_value_agrees(s: Seq<u8>, p: int, max: int, stack: Seq<u8>)
    requires
        p < max,
        is_open_bracket(s[p]),
        stack.len() <= MAX_DEPTH,
    ensures
        value_agrees(s, p, max, stack),
    decreases max - p, 0int,
{
    let c = s[p];
    if stack.len() < MAX_DEPTH {
        let st = stack.push(c);
        let j = space_end(s, p + 1, max);
        lemma_space_end(s, p + 1, max);
        assert(depth_left(st) == depth_left(stack) - 1);
        if j >= max {
            lemma_items_at_end(s, j, max, depth_left(st), c, true);
            assert(scalars(s, p + 1, max, c) == (true, j));
            assert(collection(s, p, max, stack) == collection(s, j, max, st));
        } else if is_matching_bracket(c, s[j]) {
            lemma_close(s, j, max, stack, c);
            assert(scalars(s, p + 1, max, c) == (true, j));
            assert(collection(s, p, max, stack) == collection(s, j, max, st));
        } else {
            lemma_items_agree(s, j, max, stack, c);
            assert(scalars(s, p + 1, max, c) == if c == OPEN_BRACKET {
                array_scalars(s, j, max)
            } else {
                object_scalars(s, j, max, j)
            });
            assert(collection(s, p, max, stack) == item_run(s, j, max, st));
        }
    }
}

/// The machine agrees with the loose grammar on the items of a collection.
proof fn lemma_items_agree(s: Seq<u8>, q: int, max: int, stack: Seq<u8>, open: u8)
    requires
        is_open_bracket(open),
        stack.len() < MAX_DEPTH,
        q < max ==> !is_matching_bracket(open, s[q]),
    ensures
        items_agree(s, q, max, stack, open),
    decreases max - q, 2int,
{
    if open == OPEN_BRACKET {
        lemma_array_items_agree(s, q, max, stack);
    } else {
        lemma_object_items_agree(s, q, max, stack);
    }
}

/// See `lemma_items_agree`: the items of an array.
proof fn lemma_array_items_agree(s: Seq<u8>, q: int, max: int, stack: Seq<u8>)
    requires
        stack.len() < MAX_DEPTH,
        q < max ==> s[q] != CLOSE_BRACKET,
    ensures
        items_agree(s, q, max, stack, OPEN_BRACKET),
    decreases max - q, 1int,
{
    let st = stack.push(OPEN_BRACKET);
    let d = depth_left(st);
    if q < max {
        if is_open_bracket(s[q]) {
            lemma_value_agrees(s, q, max, st);
            lemma_json_value_end(s, q, max, d, true);
            if let Some(v) = json_value_end(s, q, max, d, true) {
                let (comma, n) = space_and_comma(s, v, max);
                lemma_space_and_comma(s, v, max);
                if comma {
                    lemma_array_items_agree(s, n, max, stack);
                }
                lemma_after_collection(s, q, v, max, stack, OPEN_BRACKET);
            }
        } else {
            lemma_scalar_end(s, q, max);
            if let Some(v) = scalar_end(s, q, max) {
                let (comma, k) = space_and_comma(s, v, max);
                lemma_space_and_comma(s, v, max);
                let j = space_end(s, v, max);
                lemma_space_end(s, v, max);
                lemma_space_end(s, j + 1, max);
                if comma {
                    lemma_array_items_agree(s, k, max, stack);
                } else if j < max && s[j] == CLOSE_BRACKET {
                    lemma_close(s, j, max, stack, OPEN_BRACKET);
                } else if j < max && s[j] == COMMA {
                    lemma_items_at_end(s, space_end(s, j + 1, max), max, d, OPEN_BRACKET, true);
                }
            }
        }
    }
}

/// See `lemma_items_agree`: the members of an object.
proof fn lemma_object_items_agree(s: Seq<u8>, q: int, max: int, stack: Seq<u8>)
    requires
        stack.len() < MAX_DEPTH,
        q < max ==> s[q] != CLOSE_BRACE,
    ensures
        items_agree(s, q, max, stack, OPEN_BRACE),
    decreases max - q, 1int,
{
    let st = stack.push(OPEN_BRACE);
    let d = depth_left(st);
    lemma_string_end(s, q, max);
    if let Some(k) = string_end(s, q, max) {
        let colon = space_end(s, k, max);
        lemma_space_end(s, k, max);
        if colon < max && s[colon] == COLON {
            let v0 = space_end(s, colon + 1, max);
            lemma_space_end(s, colon + 1, max);
            if v0 < max && is_open_bracket(s[v0]) {
                lemma_value_agrees(s, v0, max, st);
                lemma_json_value_end(s, v0, max, d, true);
                if let Some(v) = json_value_end(s, v0, max, d, true) {
                    let (comma, n) = space_and_comma(s, v, max);
                    lemma_space_and_comma(s, v, max);
                    if comma {
                        lemma_object_items_agree(s, n, max, stack);
                    }
                    lemma_after_collection(s, q, v, max, stack, OPEN_BRACE);
                }
            } else {
                lemma_scalar_end(s, v0, max);
                if let Some(v) = scalar_end(s, v0, max) {
                    let (comma, j4) = space_and_comma(s, v, max);
                    lemma_space_and_comma(s, v, max);
                    let j = space_end(s, v, max);
                    lemma_space_end(s, v, max);
                    lemma_space_end(s, j + 1, max);
                    if comma {
                        lemma_object_items_agree(s, j4, max, stack);
                    } else if j < max && is_open_bracket(s[j]) {
                        lemma_value_agrees(s, j, max, st);
                        lemma_json_value_end(s, j, max, d, true);
                        if let Some(v2) = json_value_end(s, j, max, d, true) {
                            let (comma2, n2) = space_and_comma(s, v2, max);
                            lemma_space_and_comma(s, v2, max);
                            if comma2 {
                                lemma_object_items_agree(s, n2, max, stack);
                            }
                            lemma_after_collection(s, q, v2, max, stack, OPEN_BRACE);
                        }
                    } else if j < max && s[j] == CLOSE_BRACE {
                        lemma_close(s, j, max, stack, OPEN_BRACE);
                    } else if j < max && s[j] == COMMA {
                        lemma_items_at_end(s, space_end(s, j + 1, max), max, d, OPEN_BRACE, true);
                    }
                }
            }
        }
    }
}

// ---- laws ------------------------------------------------------------------

/// `validate` accepts exactly the loose JSON texts: whitespace, one value
/// nested no deeper than `MAX_DEPTH`, whitespace, where an object member whose
/// value is a scalar may carry one more collection before its separator.
pub proof fn lemma_valid_is_loose_json(s: Seq<u8>)
    ensures
        validity(s) == Validity::Valid <==> json_text(s, true),
{
    let max = s.len() as int;
    let i = space_end(s, 0, max);
    lemma_space_end(s, 0, max);
    if max > 0 {
        if i < max && is_open_bracket(s[i]) {
            lemma_value_agrees(s, i, max, Seq::<u8>::empty());
            lemma_json_value_end(s, i, max, MAX_DEPTH as nat, true);
        } else {
            lemma_scanners_disjoint(s, i, max);
            lemma_scalar_end(s, i, max);
        }
    }
}

/// Every JSON text whose brackets nest no deeper than `MAX_DEPTH` is valid.
pub proof fn lemma_json_text_is_valid(s: Seq<u8>)
    requires
        json_text(s, false),
    ensures
        validity(s) == Validity::Valid,
{
    let max = s.len() as int;
    lemma_strict_value_is_loose(s, space_end(s, 0, max), max, MAX_DEPTH as nat);
    lemma_valid_is_loose_json(s);
}

} // verus!
