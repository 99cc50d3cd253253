//! The validator: is a byte slice one complete, strict ECMA-404 JSON document?
//!
//! Nesting is tracked on an explicit stack of at most `MAX_DEPTH` brackets, so
//! there is no recursion and no allocation. A bare scalar at the top level is
//! a valid document.
use vstd::prelude::*;
use crate::chars::{
    is_close_bracket, is_matching_bracket, is_open_bracket, CLOSE_BRACE, CLOSE_BRACKET, COLON,
    OPEN_BRACKET,
};
use crate::scan::{
    at, clamp, lemma_scalar_end, lemma_space_and_comma, lemma_space_end, lemma_string_end,
    scalar_end, skip_any_scalar, skip_space, skip_space_and_comma, skip_string, space_and_comma,
    space_end, string_end,
};

verus! {

/// How deeply collections may nest.
pub const MAX_DEPTH: usize = 32;

/// The answer of `validate`.
#[derive(Debug, Clone, Copy, PartialEq, Eq, Structural)]
pub enum Validity {
    /// Valid and complete.
    Valid,
    /// Invalid or malformed.
    Illegal,
    /// Collections nest deeper than `MAX_DEPTH`.
    MaxDepthExceeded,
    /// Valid so far, but the buffer ends in the middle of the document.
    Partial,
    /// An empty buffer.
    BadParameter,
}

// ---- the scalars inside a collection ---------------------------------------

/// Skips the scalar elements of an array from `i`: `(ok, position)`. It stops
/// before an element that opens a collection, and after a scalar that is not
/// followed by a comma, which is then fine only before the closing `]`.
pub open spec fn array_scalars(s: Seq<u8>, i: int, max: int) -> (bool, int)
    decreases max - i,
{
    if i >= max || is_open_bracket(s[i]) {
        (true, i)
    } else {
        match scalar_end(s, i, max) {
            None => (true, i),
            Some(j) => {
                let (comma, k) = space_and_comma(s, j, max);
                if comma {
                    proof {
                        lemma_scalar_end(s, i, max);
                        lemma_space_and_comma(s, j, max);
                    }
                    array_scalars(s, k, max)
                } else {
                    (k < max && s[k] == CLOSE_BRACKET, k)
                }
            },
        }
    }
}

/// Where `array_scalars` may leave the cursor.
pub proof fn lemma_array_scalars(s: Seq<u8>, i: int, max: int)
    ensures
        i <= array_scalars(s, i, max).1,
        i <= max ==> array_scalars(s, i, max).1 <= max,
    decreases max - i,
{
    if !(i >= max || is_open_bracket(s[i])) {
        lemma_scalar_end(s, i, max);
        if let Some(j) = scalar_end(s, i, max) {
            lemma_space_and_comma(s, j, max);
            let (comma, k) = space_and_comma(s, j, max);
            if comma {
                lemma_array_scalars(s, k, max);
            }
        }
    }
}

/// Skips the scalar elements of an array.
fn skip_array_scalars(buf: &[u8], start: &mut usize, max: usize) -> (r: bool)
    requires
        max <= buf@.len(),
    ensures
        r == array_scalars(buf@, *old(start) as int, max as int).0,
        *final(start) == array_scalars(buf@, *old(start) as int, max as int).1,
{
    let ghost s = buf@;
    let ghost from = *start as int;
    let mut i = *start;
    let mut ret = true;
    while i < max
        invariant_except_break
            ret,
            array_scalars(s, i as int, max as int) == array_scalars(s, from, max as int),
        invariant
            s == buf@,
            max <= s.len(),
        ensures
            (ret, i as int) == array_scalars(s, from, max as int),
        decreases max - i,
    {
        if is_open_bracket(buf[i]) {
            break;
        }
        let ghost here = i as int;
        if !skip_any_scalar(buf, &mut i, max) {
            break;
        }
        proof {
            lemma_scalar_end(s, here, max as int);
            lemma_space_and_comma(s, i as int, max as int);
        }
        if !skip_space_and_comma(buf, &mut i, max) {
            if i >= max || at(buf, i) != Some(CLOSE_BRACKET) {
                ret = false;
            }
            break;
        }
    }
    *start = i;
    ret
}

/// Skips the `"key": scalar` members of an object from `i`: `(ok, position)`.
/// It stops, in good order, before a member value that opens a collection and
/// after a member that is not followed by a comma. The position is the last
/// one committed to: after the last whole member, or `committed` before any.
pub open spec fn object_scalars(s: Seq<u8>, i: int, max: int, committed: int) -> (bool, int)
    decreases max - i,
{
    if i >= max {
        (true, committed)
    } else {
        match string_end(s, i, max) {
            None => (false, committed),
            Some(j) => {
                let j1 = space_end(s, j, max);
                if j1 >= max || s[j1] != COLON {
                    (false, committed)
                } else {
                    let j2 = space_end(s, j1 + 1, max);
                    if j2 < max && is_open_bracket(s[j2]) {
                        (true, j2)
                    } else {
                        match scalar_end(s, j2, max) {
                            None => (false, committed),
                            Some(j3) => {
                                let (comma, j4) = space_and_comma(s, j3, max);
                                if comma {
                                    proof {
                                        lemma_string_end(s, i, max);
                                        lemma_space_end(s, j, max);
                                        lemma_space_end(s, j1 + 1, max);
                                        lemma_scalar_end(s, j2, max);
                                        lemma_space_and_comma(s, j3, max);
                                    }
                                    object_scalars(s, j4, max, j4)
                                } else {
                                    (true, j4)
                                }
                            },
                        }
                    }
                }
            },
        }
    }
}

/// Where `object_scalars` may leave the cursor.
pub proof fn lemma_object_scalars(s: Seq<u8>, i: int, max: int, committed: int)
    requires
        committed <= i,
    ensures
        committed <= object_scalars(s, i, max, committed).1,
        i <= max && committed <= max ==> object_scalars(s, i, max, committed).1 <= max,
    decreases max - i,
{
    if i < max {
        lemma_string_end(s, i, max);
        if let Some(j) = string_end(s, i, max) {
            let j1 = space_end(s, j, max);
            lemma_space_end(s, j, max);
            if !(j1 >= max || s[j1] != COLON) {
                let j2 = space_end(s, j1 + 1, max);
                lemma_space_end(s, j1 + 1, max);
                if !(j2 < max && is_open_bracket(s[j2])) {
                    lemma_scalar_end(s, j2, max);
                    if let Some(j3) = scalar_end(s, j2, max) {
                        lemma_space_and_comma(s, j3, max);
                        let (comma, j4) = space_and_comma(s, j3, max);
                        if comma {
                            lemma_object_scalars(s, j4, max, j4);
                        }
                    }
                }
            }
        }
    }
}

/// Skips the `"key": scalar` members of an object.
fn skip_object_scalars(buf: &[u8], start: &mut usize, max: usize) -> (r: bool)
    requires
        max <= buf@.len(),
    ensures
        r == object_scalars(buf@, *old(start) as int, max as int, *old(start) as int).0,
        *final(start) == object_scalars(buf@, *old(start) as int, max as int, *old(start) as int).1,
{
    let ghost s = buf@;
    let ghost from = *start as int;
    let mut i = *start;
    let mut ret = true;
    while i < max
        invariant_except_break
            ret,
            *start == i,
            object_scalars(s, i as int, max as int, i as int) == object_scalars(
                s,
                from,
                max as int,
                from,
            ),
        invariant
            s == buf@,
            max <= s.len(),
        ensures
            (ret, *start as int) == object_scalars(s, from, max as int, from),
        decreases max - i,
    {
        let ghost here = i as int;
        if !skip_string(buf, &mut i, max) {
            ret = false;
            break;
        }
        proof {
            lemma_string_end(s, here, max as int);
            lemma_space_end(s, i as int, max as int);
        }
        skip_space(buf, &mut i, max);
        if i >= max || at(buf, i) != Some(COLON) {
            ret = false;
            break;
        }
        i = i + 1;
        proof {
            lemma_space_end(s, i as int, max as int);
        }
        skip_space(buf, &mut i, max);
        if i < max && is_open_bracket(buf[i]) {
            *start = i;
            break;
        }
        let ghost value_at = i as int;
        if !skip_any_scalar(buf, &mut i, max) {
            ret = false;
            break;
        }
        proof {
            lemma_scalar_end(s, value_at, max as int);
            lemma_space_and_comma(s, i as int, max as int);
        }
        let comma = skip_space_and_comma(buf, &mut i, max);
        *start = i;
        if !comma {
            break;
        }
    }
    ret
}

/// Skips the scalars that follow an opening bracket, or a comma, inside a
/// collection opened by `mode`: `(ok, position)`.
pub open spec fn scalars(s: Seq<u8>, i: int, max: int, mode: u8) -> (bool, int) {
    let j = space_end(s, i, max);
    if j >= max {
        (true, j)
    } else if mode == OPEN_BRACKET {
        if s[j] != CLOSE_BRACKET {
            array_scalars(s, j, max)
        } else {
            (true, j)
        }
    } else {
        if s[j] != CLOSE_BRACE {
            object_scalars(s, j, max, j)
        } else {
            (true, j)
        }
    }
}

/// Where `scalars` may leave the cursor.
pub proof fn lemma_scalars(s: Seq<u8>, i: int, max: int, mode: u8)
    ensures
        i <= scalars(s, i, max, mode).1,
        i <= max ==> scalars(s, i, max, mode).1 <= max,
{
    let j = space_end(s, i, max);
    lemma_space_end(s, i, max);
    lemma_array_scalars(s, j, max);
    lemma_object_scalars(s, j, max, j);
}

/// Skips the scalars inside a collection opened by `mode`.
fn skip_scalars(buf: &[u8], start: &mut usize, max: usize, mode: u8) -> (r: bool)
    requires
        max <= buf@.len(),
    ensures
        r == scalars(buf@, *old(start) as int, max as int, mode).0,
        *final(start) == scalars(buf@, *old(start) as int, max as int, mode).1,
{
    skip_space(buf, start, max);
    let i = *start;
    if i >= max {
        return true;
    }
    let c = buf[i];
    if mode == OPEN_BRACKET {
        if c != CLOSE_BRACKET {
            return skip_array_scalars(buf, start, max);
        }
    } else if c != CLOSE_BRACE {
        return skip_object_scalars(buf, start, max);
    }
    true
}

// ---- collections -----------------------------------------------------------

/// Runs the bracket machine from `i` with `stack` holding the brackets still
/// open, innermost last: `(answer, position)`. The position matters only for
/// `Valid`, where it is just past the bracket that closed the outermost level.
pub open spec fn collection(s: Seq<u8>, i: int, max: int, stack: Seq<u8>) -> (Validity, int)
    decreases max - i,
{
    if i >= max {
        (Validity::Partial, i)
    } else {
        let c = s[i];
        let i1 = i + 1;
        if is_open_bracket(c) {
            if stack.len() >= MAX_DEPTH {
                (Validity::MaxDepthExceeded, i1)
            } else {
                let (ok, i2) = scalars(s, i1, max, c);
                if !ok {
                    (Validity::Illegal, i2)
                } else {
                    proof {
                        lemma_scalars(s, i1, max, c);
                    }
                    collection(s, i2, max, stack.push(c))
                }
            }
        } else if is_close_bracket(c) {
            if stack.len() > 1 && is_matching_bracket(stack.last(), c) {
                let outer = stack.drop_last();
                let mode = outer.last();
                let (comma, i2) = space_and_comma(s, i1, max);
                proof {
                    lemma_space_and_comma(s, i1, max);
                    lemma_scalars(s, i2, max, mode);
                }
                if comma {
                    let (ok, i3) = scalars(s, i2, max, mode);
                    if !ok {
                        (Validity::Illegal, i3)
                    } else {
                        collection(s, i3, max, outer)
                    }
                } else if i2 < max && !is_matching_bracket(mode, s[i2]) {
                    (Validity::Illegal, i2)
                } else {
                    collection(s, i2, max, outer)
                }
            } else if stack.len() == 1 && is_matching_bracket(stack[0], c) {
                (Validity::Valid, i1)
            } else {
                (Validity::Illegal, i1)
            }
        } else {
            (Validity::Illegal, i1)
        }
    }
}

/// A collection that is valid is at least one byte long and ends within the
/// bound.
pub proof fn lemma_collection(s: Seq<u8>, i: int, max: int, stack: Seq<u8>)
    requires
        i <= max,
    ensures
        collection(s, i, max, stack).0 == Validity::Valid ==> i < collection(s, i, max, stack).1
            <= max,
        collection(s, i, max, stack).0 != Validity::BadParameter,
    decreases max - i,
{
    if i < max {
        let c = s[i];
        let i1 = i + 1;
        if is_open_bracket(c) {
            if stack.len() < MAX_DEPTH {
                lemma_scalars(s, i1, max, c);
                let (ok, i2) = scalars(s, i1, max, c);
                if ok {
                    lemma_collection(s, i2, max, stack.push(c));
                }
            }
        } else if is_close_bracket(c) {
            if stack.len() > 1 && is_matching_bracket(stack.last(), c) {
                let outer = stack.drop_last();
                let mode = outer.last();
                let (comma, i2) = space_and_comma(s, i1, max);
                lemma_space_and_comma(s, i1, max);
                lemma_scalars(s, i2, max, mode);
                if comma {
                    let (ok, i3) = scalars(s, i2, max, mode);
                    if ok {
                        lemma_collection(s, i3, max, outer);
                    }
                } else {
                    lemma_collection(s, i2, max, outer);
                }
            }
        }
    }
}

/// Where the collection starting at `i` ends, and what the bracket machine
/// answers for it, starting with nothing open.
pub open spec fn collection_end(s: Seq<u8>, i: int, max: int) -> (Validity, int) {
    collection(s, i, max, Seq::<u8>::empty())
}

/// Runs the bracket machine over the collection at the cursor. On `Valid` the
/// cursor moves past the collection; on any other answer it stays. The bound is
/// taken as no larger than the buffer.
pub fn skip_collection(buf: &[u8], start: &mut usize, max: usize) -> (r: Validity)
    ensures
        r == collection_end(buf@, *old(start) as int, clamp(max as int, buf@.len() as int)).0,
        r == Validity::Valid ==> *final(start) == collection_end(
            buf@,
            *old(start) as int,
            clamp(max as int, buf@.len() as int),
        ).1,
        r != Validity::Valid ==> *final(start) == *old(start),
{
    let ghost s = buf@;
    let ghost from = *start as int;
    let max = if max < buf.len() {
        max
    } else {
        buf.len()
    };
    let mut ret = Validity::Partial;
    let mut stack: [u8; 32] = [0u8; 32];
    let mut depth: Option<usize> = None;
    let ghost mut open: Seq<u8> = Seq::empty();
    let mut i = *start;
    while i < max
        invariant_except_break
            ret == Validity::Partial,
            collection(s, i as int, max as int, open) == collection(
                s,
                from,
                max as int,
                Seq::<u8>::empty(),
            ),
        invariant
            s == buf@,
            max <= s.len(),
            open.len() <= MAX_DEPTH,
            depth is None <==> open.len() == 0,
            depth matches Some(d) ==> d + 1 == open.len(),
            forall|k: int| 0 <= k < open.len() ==> stack@[k] == #[trigger] open[k],
        ensures
            ret == collection(s, from, max as int, Seq::<u8>::empty()).0,
            ret == Validity::Valid ==> i == collection(s, from, max as int, Seq::<u8>::empty()).1,
        decreases max - i,
    {
        let c = buf[i];
        i = i + 1;
        if is_open_bracket(c) {
            let next = match depth {
                None => 0usize,
                Some(d) => d + 1,
            };
            if next >= MAX_DEPTH {
                ret = Validity::MaxDepthExceeded;
            } else {
                depth = Some(next);
                stack[next] = c;
                proof {
                    open = open.push(c);
                    lemma_scalars(s, i as int, max as int, c);
                }
                if !skip_scalars(buf, &mut i, max, c) {
                    ret = Validity::Illegal;
                }
            }
        } else if is_close_bracket(c) {
            let d = match depth {
                None => 0usize,
                Some(d) => d,
            };
            let open_byte = stack[d];
            let nested = match depth {
                Some(d) => d > 0,
                None => false,
            };
            if nested && is_matching_bracket(open_byte, c) {
                let outer = d - 1;
                depth = Some(outer);
                proof {
                    open = open.drop_last();
                }
                let mode = stack[outer];
                proof {
                    lemma_space_and_comma(s, i as int, max as int);
                    lemma_scalars(s, space_and_comma(s, i as int, max as int).1, max as int, mode);
                }
                if skip_space_and_comma(buf, &mut i, max) {
                    if !skip_scalars(buf, &mut i, max, mode) {
                        ret = Validity::Illegal;
                    }
                } else if i < max && !is_matching_bracket(mode, buf[i]) {
                    ret = Validity::Illegal;
                }
            } else {
                ret = if depth == Some(0usize) && is_matching_bracket(open_byte, c) {
                    Validity::Valid
                } else {
                    Validity::Illegal
                };
            }
        } else {
            ret = Validity::Illegal;
        }
        if ret != Validity::Partial {
            break;
        }
    }
    if ret == Validity::Valid {
        *start = i;
    }
    ret
}

// ---- documents -------------------------------------------------------------

/// The answer for a whole document: leading whitespace, then one value, then
/// nothing but whitespace. A value that opens with a bracket goes to the
/// bracket machine; anything else must be a scalar, and when it is not, the
/// bracket machine says why (`Partial` for a buffer of only whitespace).
pub open spec fn validity(s: Seq<u8>) -> Validity {
    let max = s.len() as int;
    if max == 0 {
        Validity::BadParameter
    } else {
        let i = space_end(s, 0, max);
        let (ret, j) = if i < max && is_open_bracket(s[i]) {
            collection_end(s, i, max)
        } else {
            match scalar_end(s, i, max) {
                Some(j) => (Validity::Valid, j),
                None => collection_end(s, i, max),
            }
        };
        if ret == Validity::Valid && j < max && space_end(s, j, max) != max {
            Validity::Illegal
        } else {
            ret
        }
    }
}

/// Is this a complete, valid JSON document?
///
/// Strict ECMA-404: no trailing commas, no leading zeroes, no unescaped
/// control characters in strings, no over-long UTF-8, no lone surrogates, and
/// nesting no deeper than `MAX_DEPTH`. A scalar at the top level is a valid
/// document. Only the empty buffer is a `BadParameter`. The one form beyond
/// JSON that is accepted, and the proof that nothing else is, are in
/// `grammar`.
pub fn validate(buf: &[u8]) -> (r: Validity)
    ensures
        r == validity(buf@),
        r == Validity::BadParameter <==> buf@.len() == 0,
{
    let ghost s = buf@;
    let max = buf.len();
    if max == 0 {
        return Validity::BadParameter;
    }
    let mut i: usize = 0;
    skip_space(buf, &mut i, max);
    proof {
        lemma_space_end(s, 0, max as int);
        lemma_scalar_end(s, i as int, max as int);
        lemma_collection(s, i as int, max as int, Seq::<u8>::empty());
    }
    let mut ret = if i < max && is_open_bracket(buf[i]) {
        skip_collection(buf, &mut i, max)
    } else if skip_any_scalar(buf, &mut i, max) {
        Validity::Valid
    } else {
        skip_collection(buf, &mut i, max)
    };
    if ret == Validity::Valid && i < max {
        skip_space(buf, &mut i, max);
        if i != max {
            ret = Validity::Illegal;
        }
    }
    ret
}

/// Whether `validate` accepts this document.
pub fn is_valid(buf: &[u8]) -> (r: bool)
    ensures
        r == (validity(buf@) == Validity::Valid),
{
    validate(buf) == Validity::Valid
}

// ---- laws ------------------------------------------------------------------

/// The two scanners a value can start with are disjoint: no input is both a
/// scalar and a valid collection, and a valid collection always opens with a
/// bracket. Together with neither scanner moving the cursor when it refuses,
/// this is what makes the order in which they are tried irrelevant.
pub proof fn lemma_scanners_disjoint(s: Seq<u8>, i: int, max: int)
    requires
        0 <= i,
        max <= s.len(),
    ensures
        collection_end(s, i, max).0 == Validity::Valid ==> i < max && is_open_bracket(s[i]),
        !(scalar_end(s, i, max) is Some && collection_end(s, i, max).0 == Validity::Valid),
{
    lemma_scalar_end(s, i, max);
}

/// A bare scalar, with only whitespace around it, is a valid document.
pub proof fn lemma_bare_scalar_is_valid(s: Seq<u8>)
    requires
        s.len() > 0,
        scalar_end(s, space_end(s, 0, s.len() as int), s.len() as int) matches Some(j)
            && space_end(s, j, s.len() as int) == s.len(),
    ensures
        validity(s) == Validity::Valid,
{
    lemma_scalar_end(s, space_end(s, 0, s.len() as int), s.len() as int);
}

/// A run of opening array brackets long enough to fill the stack overflows it.
proof fn lemma_open_run(s: Seq<u8>, i: int, max: int, stack: Seq<u8>)
    requires
        0 <= i,
        max <= s.len(),
        stack.len() <= MAX_DEPTH,
        i + (MAX_DEPTH + 1 - stack.len()) <= max,
        forall|k: int| i <= k < i + (MAX_DEPTH + 1 - stack.len()) ==> #[trigger] s[k] == OPEN_BRACKET,
    ensures
        collection(s, i, max, stack).0 == Validity::MaxDepthExceeded,
    decreases MAX_DEPTH - stack.len(),
{
    if stack.len() < MAX_DEPTH {
        assert(s[i] == OPEN_BRACKET);
        assert(s[i + 1] == OPEN_BRACKET);
        assert(scalars(s, i + 1, max, OPEN_BRACKET) == (true, i + 1));
        lemma_open_run(s, i + 1, max, stack.push(OPEN_BRACKET));
    } else {
        assert(s[i] == OPEN_BRACKET);
    }
}

/// A document that opens with more than `MAX_DEPTH` array brackets nests too
/// deeply, whatever follows them.
pub proof fn lemma_nesting_past_max_depth(s: Seq<u8>)
    requires
        s.len() > MAX_DEPTH,
        forall|k: int| 0 <= k <= MAX_DEPTH ==> #[trigger] s[k] == OPEN_BRACKET,
    ensures
        validity(s) == Validity::MaxDepthExceeded,
{
    assert(s[0] == OPEN_BRACKET);
    lemma_open_run(s, 0, s.len() as int, Seq::<u8>::empty());
}

} // verus!
