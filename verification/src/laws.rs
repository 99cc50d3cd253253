//! What the scanners and the query engine owe, stated over the bytes
//! themselves: a number is read to its last digit, a key part names a member
//! only by its whole key, and iteration looks past the whitespace between an
//! opening bracket and the first item, and between a colon and its value.
use vstd::prelude::*;
use crate::chars::{
    is_digit, COLON, DIGIT_ZERO, DOT, LOWER_E, MINUS, OPEN_BRACE, OPEN_BRACKET, PLUS,
    UPPER_E,
};
use crate::scan::{
    decimals_end, digits_end, exponent_end, lemma_space_end, number_end, scalar_end, space_end,
    string_end,
};
use crate::search::{
    element, iteration, lemma_pair_end, lemma_query_part_run, object_members, pair_end,
    query_walk, search_result, value_end, Kind, QUERY_KEY_SEPARATOR,
};
use crate::validate::{validity, Validity};

verus! {

// ---- numbers -----------------------------------------------------------------

/// Every byte in `[a, b)` is a decimal digit.
pub open spec fn all_digits(s: Seq<u8>, a: int, b: int) -> bool {
    forall|k: int| a <= k < b ==> #[trigger] is_digit(s[k])
}

/// A run of digits is read to its end: from `i`, over every digit up to `e`,
/// stopping at `e` when no digit is there.
pub proof fn lemma_digit_run_is_read_whole(s: Seq<u8>, i: int, e: int, max: int)
    requires
        i <= e <= max,
        all_digits(s, i, e),
        e < max ==> !is_digit(s[e]),
    ensures
        digits_end(s, i, max) == e,
    decreases e - i,
{
    if i < e {
        assert(is_digit(s[i]));
        lemma_digit_run_is_read_whole(s, i + 1, e, max);
    }
}

/// A fraction is a dot and every digit that follows it: at a dot followed by
/// a run of digits ending at `e`, the fraction ends at `e`.
pub proof fn lemma_fraction_takes_every_digit(s: Seq<u8>, i: int, e: int, max: int)
    requires
        i + 1 < e <= max,
        s[i] == DOT,
        all_digits(s, i + 1, e),
        e < max ==> !is_digit(s[e]),
    ensures
        decimals_end(s, i, max) == e,
{
    lemma_digit_run_is_read_whole(s, i + 1, e, max);
}

/// An exponent is `e` or `E`, an optional sign, and every digit that follows:
/// with the digits running from `d` to `e`, the exponent ends at `e`.
pub proof fn lemma_exponent_takes_every_digit(s: Seq<u8>, i: int, d: int, e: int, max: int)
    requires
        d < e <= max,
        s[i] == LOWER_E || s[i] == UPPER_E,
        d == i + 1 || (d == i + 2 && (s[i + 1] == MINUS || s[i + 1] == PLUS)),
        all_digits(s, d, e),
        e < max ==> !is_digit(s[e]),
    ensures
        exponent_end(s, i, max) == e,
{
    lemma_digit_run_is_read_whole(s, d, e, max);
}

/// The bytes `[i, e)` are one ECMA-404 number, split at `a` (past an optional
/// minus), `b` (past the integer part), `c` (past an optional fraction) and
/// `d` (where the exponent's digits begin, when there is an exponent).
pub open spec fn is_number_at(s: Seq<u8>, i: int, a: int, b: int, c: int, d: int, e: int) -> bool {
    &&& a == i || (a == i + 1 && s[i] == MINUS)
    &&& (b == a + 1 && s[a] == DIGIT_ZERO) || (a < b && s[a] != DIGIT_ZERO && all_digits(s, a, b))
    &&& c == b || (s[b] == DOT && b + 1 < c && all_digits(s, b + 1, c))
    &&& e == c || {
        &&& s[c] == LOWER_E || s[c] == UPPER_E
        &&& d == c + 1 || (d == c + 2 && (s[c + 1] == MINUS || s[c + 1] == PLUS))
        &&& d < e
        &&& all_digits(s, d, e)
    }
}

/// Nothing at `e` could extend a number: not a digit, a dot or an exponent.
pub open spec fn ends_number(s: Seq<u8>, e: int, max: int) -> bool {
    e < max ==> !is_digit(s[e]) && s[e] != DOT && s[e] != LOWER_E && s[e] != UPPER_E
}

/// A number is read whole: integer part, fraction and exponent, each to its
/// last digit, so the number scanner ends exactly where the number does.
pub proof fn lemma_number_is_read_whole(
    s: Seq<u8>,
    i: int,
    a: int,
    b: int,
    c: int,
    d: int,
    e: int,
    max: int,
)
    requires
        0 <= i,
        e <= max,
        is_number_at(s, i, a, b, c, d, e),
        ends_number(s, e, max),
    ensures
        number_end(s, i, max) == Some(e),
        scalar_end(s, i, max) == Some(e),
{
    assert(is_digit(s[a]));
    if !(b == a + 1 && s[a] == DIGIT_ZERO) {
        lemma_digit_run_is_read_whole(s, a, b, max);
    }
    if c > b {
        lemma_fraction_takes_every_digit(s, b, c, max);
    }
    if e > c {
        lemma_exponent_takes_every_digit(s, c, d, e, max);
    }
}

/// A buffer that holds one number, with only whitespace around it, is a valid
/// document: `3.14`, `-0.5e+10` and `1e10` among them.
pub proof fn lemma_number_document_is_valid(s: Seq<u8>, i: int, a: int, b: int, c: int, d: int, e: int)
    requires
        i == space_end(s, 0, s.len() as int),
        e <= s.len(),
        is_number_at(s, i, a, b, c, d, e),
        ends_number(s, e, s.len() as int),
        space_end(s, e, s.len() as int) == s.len(),
    ensures
        validity(s) == Validity::Valid,
{
    let n = s.len() as int;
    lemma_space_end(s, 0, n);
    lemma_number_is_read_whole(s, i, a, b, c, d, e, n);
    assert(is_digit(s[a]));
}

// ---- keys ----------------------------------------------------------------------

/// At `k`, just inside its opening quote, begins an object member whose key is
/// exactly `q` (the string closes right after `q`'s bytes) and whose value
/// begins at `v`, past whitespace, a colon and whitespace.
pub open spec fn member_named(s: Seq<u8>, k: int, max: int, q: Seq<u8>, v: int) -> bool {
    let close = k + q.len();
    let colon = space_end(s, close + 1, max);
    &&& 1 <= k
    &&& string_end(s, k - 1, max) == Some(close + 1)
    &&& s.subrange(k, close) == q
    &&& colon < max
    &&& s[colon] == COLON
    &&& v == space_end(s, colon + 1, max)
}

/// Where a value reported at `o` begins in the buffer: a string is reported
/// from just inside its opening quote.
pub open spec fn value_start(o: int, kind: Kind) -> int {
    if kind == Kind::String {
        o - 1
    } else {
        o
    }
}

/// What the walk over an object's members finds is the value of a member whose
/// key is exactly the query; the member's key begins at the position returned.
proof fn lemma_members_find_named(s: Seq<u8>, i: int, max: int, q: Seq<u8>) -> (k: int)
    ensures
        object_members(s, i, max, q) matches Some((v, vl)) ==> member_named(s, k, max, q, v),
    decreases max - i,
{
    if !(i >= max || i < 0 || max > s.len()) {
        lemma_pair_end(s, i, max);
        if let Some((j, k, kl, v, vl)) = pair_end(s, i, max) {
            if q.len() == kl && s.subrange(k, k + kl) == q {
                assert(object_members(s, i, max, q) == Some((v, vl)));
                k
            } else {
                crate::scan::lemma_space_and_comma(s, j, max);
                let (comma, j2) = crate::scan::space_and_comma(s, j, max);
                if comma {
                    assert(object_members(s, i, max, q) == object_members(s, j2, max, q));
                    lemma_members_find_named(s, j2, max, q)
                } else {
                    0
                }
            }
        } else {
            0
        }
    } else {
        0
    }
}

/// A key part of a query names a member only by its whole key: whenever a
/// single key part `q` finds something, what it finds is the value of a member
/// whose key, quotes stripped, is exactly `q` (a string value is reported from
/// just inside its quotes). A member whose key merely begins with `q` is not it.
pub proof fn lemma_key_part_names_whole_key(s: Seq<u8>, q: Seq<u8>)
    requires
        q.len() > 0,
        forall|k: int|
            0 <= k < q.len() ==> #[trigger] q[k] != QUERY_KEY_SEPARATOR && q[k] != OPEN_BRACKET,
    ensures
        search_result(s, q) matches Ok((o, l, kind)) ==> exists|k: int|
            #[trigger] member_named(
                s,
                k,
                s.len() as int,
                q,
                value_start(o, kind),
            ),
{
    let n = s.len() as int;
    let qn = q.len() as int;
    lemma_query_part_run(q, 0, qn, qn);
    assert(q.subrange(0, qn) =~= q);
    let i0 = space_end(s, 0, n);
    let k = lemma_members_find_named(s, space_end(s, i0 + 1, n), n, q);
    if let Ok((o, l, kind)) = search_result(s, q) {
        assert(crate::search::query_part_end(q, 0, qn) == qn);
        let found = crate::search::object_value(s, 0, n, q);
        assert(found == object_members(s, space_end(s, i0 + 1, n), n, q) || found is None);
        match found {
            Some((v, vl)) => {
                assert(crate::search::after_part(q, qn) == qn);
                assert(query_walk(s, q, qn, v, vl) == Ok::<(int, int), crate::search::NotFound>((v, vl)));
                assert(query_walk(s, q, 0, 0, n) == Ok::<(int, int), crate::search::NotFound>((v, vl)));
                assert(member_named(s, k, n, q, value_start(o, kind)));
            },
            None => {
                assert(query_walk(s, q, 0, 0, n) is Err);
            },
        }
    }
}

/// The contrapositive, with the reason: when no member of the buffer has the
/// key `q` exactly, a single key part `q` answers `Missing`.
pub proof fn lemma_absent_key_is_missing(s: Seq<u8>, q: Seq<u8>)
    requires
        s.len() > 0,
        q.len() > 0,
        forall|k: int|
            0 <= k < q.len() ==> #[trigger] q[k] != QUERY_KEY_SEPARATOR && q[k] != OPEN_BRACKET,
        forall|k: int, v: int| !#[trigger] member_named(s, k, s.len() as int, q, v),
    ensures
        search_result(s, q) == Err::<(int, int, Kind), crate::search::NotFound>(
            crate::search::NotFound::Missing,
        ),
{
    let qn = q.len() as int;
    let n = s.len() as int;
    lemma_key_part_names_whole_key(s, q);
    lemma_query_part_run(q, 0, qn, qn);
    assert(q.subrange(0, qn) =~= q);
    match crate::search::object_value(s, 0, n, q) {
        Some((v, vl)) => {
            assert(crate::search::after_part(q, qn) == qn);
            assert(query_walk(s, q, qn, v, vl) == Ok::<(int, int), crate::search::NotFound>((v, vl)));
            assert(query_walk(s, q, 0, 0, n) is Ok);
        },
        None => {
            assert(query_walk(s, q, 0, 0, n) == Err::<(int, int), crate::search::NotFound>(
                crate::search::NotFound::Missing,
            ));
        },
    }
    if let Ok((o, l, kind)) = search_result(s, q) {
        let k = choose|k: int| member_named(s, k, n, q, value_start(o, kind));
        assert(!member_named(s, k, n, q, value_start(o, kind)));
    }
}

// ---- iteration -------------------------------------------------------------------

/// Iteration looks past whitespace, both after an object's opening brace and
/// after each member's colon: iterating an object from the cursors `(0, 0)`
/// yields its first member, with the key that begins at the first byte past
/// the brace and its whitespace, and the value that begins past the colon and
/// its whitespace.
pub proof fn lemma_first_member_past_whitespace(s: Seq<u8>, ke: int, ve: int)
    requires
        s.len() <= usize::MAX,
        space_end(s, 0, s.len() as int) < s.len(),
        s[space_end(s, 0, s.len() as int)] == OPEN_BRACE,
        ({
            let n = s.len() as int;
            let p = space_end(s, space_end(s, 0, n) + 1, n);
            let colon = space_end(s, ke, n);
            &&& string_end(s, p, n) == Some(ke)
            &&& colon < n
            &&& s[colon] == COLON
            &&& value_end(s, space_end(s, colon + 1, n), n) == Some(ve)
        }),
    ensures
        ({
            let n = s.len() as int;
            let p = space_end(s, space_end(s, 0, n) + 1, n);
            let v = space_end(s, space_end(s, ke, n) + 1, n);
            iteration(s, 0, 0).0 == Ok::<crate::search::Element, crate::search::Stopped>(
                element(s, Some((p + 1, ke - p - 2)), v, ve - v),
            )
        }),
{
    let n = s.len() as int;
    lemma_space_end(s, 0, n);
}

/// The same for an array: iterating it from the cursors `(0, 0)` yields the
/// value that begins at the first byte past the bracket and its whitespace.
pub proof fn lemma_first_element_past_whitespace(s: Seq<u8>, ve: int)
    requires
        s.len() <= usize::MAX,
        space_end(s, 0, s.len() as int) < s.len(),
        s[space_end(s, 0, s.len() as int)] == OPEN_BRACKET,
        value_end(
            s,
            space_end(s, space_end(s, 0, s.len() as int) + 1, s.len() as int),
            s.len() as int,
        ) == Some(ve),
    ensures
        ({
            let n = s.len() as int;
            let p = space_end(s, space_end(s, 0, n) + 1, n);
            iteration(s, 0, 0).0 == Ok::<crate::search::Element, crate::search::Stopped>(
                element(s, None, p, ve - p),
            )
        }),
{
    let n = s.len() as int;
    lemma_space_end(s, 0, n);
}

} // verus!
