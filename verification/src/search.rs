//! The query engine: find a value by a dotted, bracketed path, or walk the
//! elements of a collection, without building anything. A query answers with
//! an offset into the caller's buffer and a sub-slice of it.
//!
//! Neither entry point validates first: a query walks whatever bytes it is
//! given, and a malformed document gives a refusal or a partial answer rather
//! than a diagnosis. Call `validate` for one.
//!
//! Each step of a query searches a window `[start, start + length)` of the
//! buffer: the whole buffer first, then the value that the previous step found.
use vstd::prelude::*;
use crate::chars::{
    is_digit, is_open_bracket, CLOSE_BRACKET, COLON, DOT, LOWER_F, LOWER_N, LOWER_T, OPEN_BRACE,
    OPEN_BRACKET, QUOTE,
};
use crate::scan::{
    at, bytes_match, digits_value, lemma_scalar_end, lemma_space_and_comma,
    lemma_space_end, lemma_string_end, scalar_end, skip_any_scalar, skip_digits_value,
    skip_space, skip_space_and_comma, skip_string, space_and_comma, space_end, string_end,
    MAX_INDEX_VALUE,
};
use crate::validate::{
    collection_end, lemma_collection, lemma_scanners_disjoint, skip_collection, validity, Validity,
};

verus! {

broadcast use vstd::slice::group_slice_axioms;

/// The byte between the parts of a query.
pub const QUERY_KEY_SEPARATOR: u8 = DOT;

/// The type of a value that a query found.
#[derive(Debug, Clone, Copy, PartialEq, Eq, Structural)]
pub enum Kind {
    /// A quoted string; the quotes are stripped from the value handed back.
    String,
    /// Any number, including negative and exponent forms.
    Number,
    /// `true`.
    True,
    /// `false`.
    False,
    /// `null`.
    Null,
    /// An object, reported whole, braces included.
    Object,
    /// An array, reported whole, brackets included.
    Array,
}

/// The type of a value, from its first byte alone: anything that is not one of
/// the six punctuation or literal starts is a number.
#[verifier::allow_in_spec]
pub fn kind_of(c: u8) -> Kind
    returns
        if c == QUOTE {
            Kind::String
        } else if c == OPEN_BRACE {
            Kind::Object
        } else if c == OPEN_BRACKET {
            Kind::Array
        } else if c == LOWER_T {
            Kind::True
        } else if c == LOWER_F {
            Kind::False
        } else if c == LOWER_N {
            Kind::Null
        } else {
            Kind::Number
        },
{
    if c == QUOTE {
        Kind::String
    } else if c == OPEN_BRACE {
        Kind::Object
    } else if c == OPEN_BRACKET {
        Kind::Array
    } else if c == LOWER_T {
        Kind::True
    } else if c == LOWER_F {
        Kind::False
    } else if c == LOWER_N {
        Kind::Null
    } else {
        Kind::Number
    }
}

/// Why a `search` found nothing.
#[derive(Debug, Clone, Copy, PartialEq, Eq, Structural)]
pub enum NotFound {
    /// The document is walkable and the query is not in it.
    Missing,
    /// An empty buffer, an empty query, a query with an empty part or a
    /// trailing separator, or an array index that is malformed or too large.
    BadQuery,
}

/// Why an `iterate` stopped.
#[derive(Debug, Clone, Copy, PartialEq, Eq, Structural)]
pub enum Stopped {
    /// The collection has no further values.
    Exhausted,
    /// The buffer does not begin with `[` or `{`.
    NotACollection,
    /// An empty buffer, or a cursor outside it.
    BadCursor,
}

// ---- the walkers -----------------------------------------------------------

/// Where the value at `i` ends: a collection when it opens with a bracket,
/// and a scalar otherwise.
pub open spec fn value_end(s: Seq<u8>, i: int, max: int) -> Option<int> {
    if i < max && is_open_bracket(s[i]) {
        let (r, j) = collection_end(s, i, max);
        if r == Validity::Valid {
            Some(j)
        } else {
            None
        }
    } else {
        scalar_end(s, i, max)
    }
}

/// A value is at least one byte long and ends within the bound, and a value
/// that opens with a quote is a string that keeps both its quotes.
pub proof fn lemma_value_end(s: Seq<u8>, i: int, max: int)
    requires
        0 <= i,
        max <= s.len(),
    ensures
        value_end(s, i, max) matches Some(j) ==> {
            &&& i < j <= max
            &&& s[i] == QUOTE ==> i + 2 <= j && s[j - 1] == QUOTE
        },
{
    lemma_scalar_end(s, i, max);
    if i < max {
        lemma_collection(s, i, max, Seq::<u8>::empty());
    }
}

/// Moves the cursor past the next value and reports where it starts and how
/// long it is.
fn next_value(buf: &[u8], start: &mut usize, max: usize) -> (r: Option<(usize, usize)>)
    requires
        max <= buf@.len(),
    ensures
        match value_end(buf@, *old(start) as int, max as int) {
            Some(j) => r == Some((*old(start), (j - *old(start)) as usize)) && *final(start) == j,
            None => r is None && *final(start) == *old(start),
        },
{
    proof {
        lemma_value_end(buf@, *start as int, max as int);
    }
    let mut i = *start;
    let value_start = i;
    let found = match at(buf, i) {
        Some(c) => {
            if is_open_bracket(c) {
                skip_collection(buf, &mut i, max) == Validity::Valid
            } else {
                skip_any_scalar(buf, &mut i, max)
            }
        },
        None => skip_any_scalar(buf, &mut i, max),
    };
    if !found {
        return None;
    }
    *start = i;
    Some((value_start, i - value_start))
}

/// A `"key" : value` member at `i`: where it ends, where the key starts (just
/// inside its quotes) and how long it is, and where the value starts and how
/// long it is.
pub open spec fn pair_end(s: Seq<u8>, i: int, max: int) -> Option<(int, int, int, int, int)> {
    match string_end(s, i, max) {
        None => None,
        Some(j) => {
            let j1 = space_end(s, j, max);
            if j1 < max && s[j1] == COLON {
                let j2 = space_end(s, j1 + 1, max);
                match value_end(s, j2, max) {
                    Some(k) => Some((k, i + 1, j - i - 2, j2, k - j2)),
                    None => None,
                }
            } else {
                None
            }
        },
    }
}

/// Where the parts of a member lie.
pub proof fn lemma_pair_end(s: Seq<u8>, i: int, max: int)
    requires
        0 <= i,
        max <= s.len(),
    ensures
        pair_end(s, i, max) matches Some((j, k, kl, v, vl)) ==> {
            &&& i < j <= max
            &&& k == i + 1
            &&& 0 <= kl
            &&& k + kl < v
            &&& v + vl == j
            &&& value_end(s, v, max) == Some(j)
        },
{
    lemma_string_end(s, i, max);
    if let Some(j) = string_end(s, i, max) {
        lemma_space_end(s, j, max);
        let j1 = space_end(s, j, max);
        lemma_space_end(s, j1 + 1, max);
        lemma_value_end(s, space_end(s, j1 + 1, max), max);
    }
}

/// Moves the cursor past the next `"key" : value` member.
fn next_key_value_pair(buf: &[u8], start: &mut usize, max: usize) -> (r: Option<
    (usize, usize, usize, usize),
>)
    requires
        max <= buf@.len(),
    ensures
        match pair_end(buf@, *old(start) as int, max as int) {
            Some((j, k, kl, v, vl)) => r == Some((k as usize, kl as usize, v as usize, vl as usize))
                && *final(start) == j,
            None => r is None && *final(start) == *old(start),
        },
{
    let ghost s = buf@;
    proof {
        lemma_pair_end(s, *start as int, max as int);
        lemma_string_end(s, *start as int, max as int);
    }
    let mut i = *start;
    let key_start = i;
    if !skip_string(buf, &mut i, max) {
        return None;
    }
    let key = key_start + 1;
    let key_length = i - key_start - 2;
    proof {
        lemma_space_end(s, i as int, max as int);
    }
    if !(i < max && at(buf, i) == Some(COLON)) {
        skip_space(buf, &mut i, max);
        if !(i < max && at(buf, i) == Some(COLON)) {
            return None;
        }
    }
    i = i + 1;
    skip_space(buf, &mut i, max);
    let (value, value_length) = match next_value(buf, &mut i, max) {
        Some(found) => found,
        None => return None,
    };
    *start = i;
    Some((key, key_length, value, value_length))
}

/// The members of an object from `i`, walked in order: the value of the first
/// member whose key is `query`, so the earlier of two duplicate keys wins. A
/// cursor or bound outside the buffer finds nothing.
pub open spec fn object_members(s: Seq<u8>, i: int, max: int, query: Seq<u8>) -> Option<
    (int, int),
>
    decreases max - i,
{
    if i >= max || i < 0 || max > s.len() {
        None
    } else {
        match pair_end(s, i, max) {
            None => None,
            Some((j, k, kl, v, vl)) => if query.len() == kl && s.subrange(k, k + kl) == query {
                Some((v, vl))
            } else {
                let (comma, j2) = space_and_comma(s, j, max);
                proof {
                    lemma_pair_end(s, i, max);
                    lemma_space_and_comma(s, j, max);
                }
                if comma {
                    object_members(s, j2, max, query)
                } else {
                    None
                }
            },
        }
    }
}

/// The value for `query` in the object that opens, after whitespace, at
/// `base`, searching no further than `max`.
pub open spec fn object_value(s: Seq<u8>, base: int, max: int, query: Seq<u8>) -> Option<
    (int, int),
> {
    let i = space_end(s, base, max);
    if i < max && s[i] == OPEN_BRACE {
        object_members(s, space_end(s, i + 1, max), max, query)
    } else {
        None
    }
}

/// What an object or array search can find: a value, with its length.
pub open spec fn found_value(s: Seq<u8>, max: int, found: Option<(int, int)>) -> bool {
    found matches Some((v, vl)) ==> 0 <= v && value_end(s, v, max) == Some(v + vl)
}

/// A member found by the walk is a whole value, at or after where the walk
/// began.
pub proof fn lemma_object_members(s: Seq<u8>, i: int, max: int, query: Seq<u8>)
    ensures
        found_value(s, max, object_members(s, i, max, query)),
        object_members(s, i, max, query) matches Some((v, vl)) ==> i <= v,
    decreases max - i,
{
    if !(i >= max || i < 0 || max > s.len()) {
        lemma_pair_end(s, i, max);
        if let Some((j, k, kl, v, vl)) = pair_end(s, i, max) {
            if !(query.len() == kl && s.subrange(k, k + kl) == query) {
                lemma_space_and_comma(s, j, max);
                let (comma, j2) = space_and_comma(s, j, max);
                if comma {
                    lemma_object_members(s, j2, max, query);
                }
            }
        }
    }
}

/// The value for `query` in the object at the start of the window.
fn object_search(buf: &[u8], base: usize, max: usize, query: &[u8]) -> (r: Option<(usize, usize)>)
    requires
        max <= buf@.len(),
    ensures
        match object_value(buf@, base as int, max as int, query@) {
            Some((v, vl)) => r == Some((v as usize, vl as usize)),
            None => r is None,
        },
        found_value(buf@, max as int, object_value(buf@, base as int, max as int, query@)),
{
    let ghost s = buf@;
    let mut i = base;
    skip_space(buf, &mut i, max);
    proof {
        lemma_space_end(s, base as int, max as int);
    }
    if !(i < max && at(buf, i) == Some(OPEN_BRACE)) {
        return None;
    }
    i = i + 1;
    skip_space(buf, &mut i, max);
    proof {
        lemma_space_end(s, i as int, max as int);
        lemma_object_members(s, i as int, max as int, query@);
    }
    while i < max
        invariant
            s == buf@,
            max <= s.len(),
            object_members(s, i as int, max as int, query@) == object_value(
                s,
                base as int,
                max as int,
                query@,
            ),
        decreases max - i,
    {
        let ghost here = i as int;
        proof {
            lemma_pair_end(s, here, max as int);
        }
        let (key, key_length, value, value_length) = match next_key_value_pair(buf, &mut i, max) {
            Some(found) => found,
            None => return None,
        };
        if query.len() == key_length && bytes_match(buf, key, query) {
            return Some((value, value_length));
        }
        proof {
            lemma_space_and_comma(s, i as int, max as int);
        }
        if !skip_space_and_comma(buf, &mut i, max) {
            return None;
        }
    }
    None
}

/// The elements of an array from `i`, counted in order from `current`: the
/// value at `index`. The count stops at `u32::MAX` rather than wrapping. A
/// cursor or bound outside the buffer finds nothing.
pub open spec fn array_elements(s: Seq<u8>, i: int, max: int, index: int, current: int) -> Option<
    (int, int),
>
    decreases max - i,
{
    if i >= max || i < 0 || max > s.len() {
        None
    } else {
        match value_end(s, i, max) {
            None => None,
            Some(j) => if current == index {
                Some((i, j - i))
            } else {
                let (comma, j2) = space_and_comma(s, j, max);
                proof {
                    lemma_value_end(s, i, max);
                    lemma_space_and_comma(s, j, max);
                }
                if !comma || current == u32::MAX {
                    None
                } else {
                    array_elements(s, j2, max, index, current + 1)
                }
            },
        }
    }
}

/// The element at `index` of the array that opens, after whitespace, at
/// `base`, searching no further than `max`.
pub open spec fn array_value(s: Seq<u8>, base: int, max: int, index: int) -> Option<(int, int)> {
    let i = space_end(s, base, max);
    if i < max && s[i] == OPEN_BRACKET {
        array_elements(s, space_end(s, i + 1, max), max, index, 0)
    } else {
        None
    }
}

/// An element found by the walk is a whole value, at or after where the walk
/// began.
pub proof fn lemma_array_elements(s: Seq<u8>, i: int, max: int, index: int, current: int)
    ensures
        found_value(s, max, array_elements(s, i, max, index, current)),
        array_elements(s, i, max, index, current) matches Some((v, vl)) ==> i <= v,
    decreases max - i,
{
    if !(i >= max || i < 0 || max > s.len()) {
        lemma_value_end(s, i, max);
        if let Some(j) = value_end(s, i, max) {
            if current != index {
                lemma_space_and_comma(s, j, max);
                let (comma, j2) = space_and_comma(s, j, max);
                if comma && current != u32::MAX {
                    lemma_array_elements(s, j2, max, index, current + 1);
                }
            }
        }
    }
}

/// The element at `query_index` of the array at the start of the window.
fn array_search(buf: &[u8], base: usize, max: usize, query_index: u32) -> (r: Option<
    (usize, usize),
>)
    requires
        max <= buf@.len(),
    ensures
        match array_value(buf@, base as int, max as int, query_index as int) {
            Some((v, vl)) => r == Some((v as usize, vl as usize)),
            None => r is None,
        },
        found_value(buf@, max as int, array_value(buf@, base as int, max as int, query_index as int)),
{
    let ghost s = buf@;
    let mut i = base;
    skip_space(buf, &mut i, max);
    proof {
        lemma_space_end(s, base as int, max as int);
    }
    if !(i < max && at(buf, i) == Some(OPEN_BRACKET)) {
        return None;
    }
    i = i + 1;
    skip_space(buf, &mut i, max);
    proof {
        lemma_space_end(s, i as int, max as int);
        lemma_array_elements(s, i as int, max as int, query_index as int, 0);
    }
    let mut current: u32 = 0;
    while i < max
        invariant
            s == buf@,
            max <= s.len(),
            array_elements(s, i as int, max as int, query_index as int, current as int)
                == array_value(s, base as int, max as int, query_index as int),
        decreases max - i,
    {
        let ghost here = i as int;
        proof {
            lemma_value_end(s, here, max as int);
        }
        let (value, value_length) = match next_value(buf, &mut i, max) {
            Some(found) => found,
            None => return None,
        };
        if current == query_index {
            return Some((value, value_length));
        }
        proof {
            lemma_space_and_comma(s, i as int, max as int);
        }
        if !skip_space_and_comma(buf, &mut i, max) || current == u32::MAX {
            return None;
        }
        current = current + 1;
    }
    None
}

/// The end of the query part at `i`: everything up to the next separator or
/// `[`.
pub open spec fn query_part_end(q: Seq<u8>, i: int, max: int) -> int
    decreases max - i,
{
    if i < max && q[i] != QUERY_KEY_SEPARATOR && q[i] != OPEN_BRACKET {
        query_part_end(q, i + 1, max)
    } else {
        i
    }
}

/// Where a query part may end.
pub proof fn lemma_query_part_end(q: Seq<u8>, i: int, max: int)
    ensures
        i <= query_part_end(q, i, max),
        i <= max ==> query_part_end(q, i, max) <= max,
    decreases max - i,
{
    if i < max && q[i] != QUERY_KEY_SEPARATOR && q[i] != OPEN_BRACKET {
        lemma_query_part_end(q, i + 1, max);
    }
}

/// Moves the cursor past one key part of a query and reports its length, or
/// `None` when the part would be empty, which is how `.a` and `a..b` are
/// refused.
fn skip_query_part(query: &[u8], start: &mut usize, max: usize) -> (r: Option<usize>)
    requires
        max <= query@.len(),
    ensures
        query_part_end(query@, *old(start) as int, max as int) > *old(start) ==> r == Some(
            (query_part_end(query@, *old(start) as int, max as int) - *old(start)) as usize,
        ) && *final(start) == query_part_end(query@, *old(start) as int, max as int),
        query_part_end(query@, *old(start) as int, max as int) <= *old(start) ==> r is None
            && *final(start) == *old(start),
{
    let from = *start;
    let mut i = from;
    while i < max && query[i] != QUERY_KEY_SEPARATOR && query[i] != OPEN_BRACKET
        invariant
            max <= query@.len(),
            from <= i,
            i > from ==> i <= max,
            query_part_end(query@, i as int, max as int) == query_part_end(
                query@,
                from as int,
                max as int,
            ),
        decreases max - i,
    {
        i = i + 1;
    }
    if i > from {
        *start = i;
        return Some(i - from);
    }
    None
}

// ---- queries ---------------------------------------------------------------

/// Where the next query part begins after a part that ended at `i`: past one
/// separator, if there is one.
pub open spec fn after_part(q: Seq<u8>, i: int) -> int {
    if i < q.len() && q[i] == QUERY_KEY_SEPARATOR {
        i + 1
    } else {
        i
    }
}

/// Walks the query from `i`, each part searching the window
/// `[start, start + length)` that the previous part found: `[n]` is the
/// element at index `n` of an array, and a key part is the member of an
/// object. The answer is the window of the last value found.
pub open spec fn query_walk(s: Seq<u8>, q: Seq<u8>, i: int, start: int, length: int) -> Result<
    (int, int),
    NotFound,
>
    decreases q.len() - i,
{
    let qn = q.len() as int;
    if i >= qn || i < 0 {
        Ok((start, length))
    } else if q[i] == OPEN_BRACKET {
        let (index, i2) = match digits_value(q, i + 1, qn) {
            Some((r, v)) => (v, r),
            None => (-1, i + 1),
        };
        if index < 0 || i2 >= qn || q[i2] != CLOSE_BRACKET {
            Err(NotFound::BadQuery)
        } else {
            match array_value(s, start, start + length, index) {
                None => Err(NotFound::Missing),
                Some((v, vl)) => query_walk(s, q, after_part(q, i2 + 1), v, vl),
            }
        }
    } else {
        let r = query_part_end(q, i, qn);
        proof {
            lemma_query_part_end(q, i, qn);
        }
        if r <= i || r == qn - 1 {
            Err(NotFound::BadQuery)
        } else {
            match object_value(s, start, start + length, q.subrange(i, r)) {
                None => Err(NotFound::Missing),
                Some((v, vl)) => query_walk(s, q, after_part(q, r), v, vl),
            }
        }
    }
}

/// A window that holds one whole value of the buffer: at least one byte, and
/// both quotes of a string.
pub open spec fn holds_value(s: Seq<u8>, v: int, l: int) -> bool {
    &&& 0 <= v < v + l <= s.len()
    &&& s[v] == QUOTE ==> l >= 2 && s[v + l - 1] == QUOTE
}

/// Walks the query's parts, narrowing the window at each one.
fn multi_search(buf: &[u8], query: &[u8]) -> (r: Result<(usize, usize), NotFound>)
    ensures
        match r {
            Ok((v, l)) => query_walk(buf@, query@, 0, 0, buf@.len() as int) == Ok::<
                (int, int),
                NotFound,
            >((v as int, l as int)),
            Err(e) => query_walk(buf@, query@, 0, 0, buf@.len() as int) == Err::<(int, int), NotFound>(
                e,
            ),
        },
        query@.len() > 0 ==> (r matches Ok((v, l)) ==> holds_value(buf@, v as int, l as int)),
{
    let ghost s = buf@;
    let ghost q = query@;
    let query_length = query.len();
    let mut i: usize = 0;
    let mut start: usize = 0;
    let mut length: usize = buf.len();
    while i < query_length
        invariant
            s == buf@,
            q == query@,
            s.len() == buf.len(),
            query_length == q.len(),
            i <= query_length,
            start + length <= s.len(),
            query_walk(s, q, i as int, start as int, length as int) == query_walk(
                s,
                q,
                0,
                0,
                s.len() as int,
            ),
            i > 0 ==> holds_value(s, start as int, length as int),
        decreases query_length - i,
    {
        let ghost part = i as int;
        let max = start + length;
        let found = if at(query, i) == Some(OPEN_BRACKET) {
            i = i + 1;
            let query_index = match skip_digits_value(query, &mut i, query_length) {
                Some(v) => v,
                None => -1,
            };
            if query_index < 0 || i >= query_length || at(query, i) != Some(CLOSE_BRACKET) {
                return Err(NotFound::BadQuery);
            }
            i = i + 1;
            array_search(buf, start, max, query_index as u32)
        } else {
            let query_start = i;
            let key_length = match skip_query_part(query, &mut i, query_length) {
                Some(n) => n,
                None => return Err(NotFound::BadQuery),
            };
            if i == query_length - 1 {
                return Err(NotFound::BadQuery);
            }
            proof {
                lemma_query_part_end(q, part, query_length as int);
            }
            let key = vstd::slice::slice_subrange(query, query_start, query_start + key_length);
            object_search(buf, start, max, key)
        };
        let (value, value_length) = match found {
            Some(f) => f,
            None => return Err(NotFound::Missing),
        };
        proof {
            lemma_value_end(s, value as int, max as int);
        }
        start = value;
        length = value_length;
        if i < query_length && at(query, i) == Some(QUERY_KEY_SEPARATOR) {
            i = i + 1;
        }
    }
    Ok((start, length))
}

/// A value found by `search`.
#[derive(Debug, Clone, Copy, PartialEq, Eq)]
pub struct Match<'a> {
    /// Where the value starts in the buffer that was searched. For a string
    /// this is the first byte inside the quotes.
    pub offset: usize,
    /// The value itself, borrowed from the buffer that was searched.
    pub value: &'a [u8],
    /// What kind of value it is.
    pub kind: Kind,
}

/// What `search` answers: the offset, length and kind of the value the query
/// names, with a string's quotes stripped.
pub open spec fn search_result(s: Seq<u8>, q: Seq<u8>) -> Result<(int, int, Kind), NotFound> {
    if s.len() == 0 || q.len() == 0 {
        Err(NotFound::BadQuery)
    } else {
        match query_walk(s, q, 0, 0, s.len() as int) {
            Err(e) => Err(e),
            Ok((v, l)) => if kind_of(s[v]) == Kind::String {
                Ok((v + 1, l - 2, Kind::String))
            } else {
                Ok((v, l, kind_of(s[v])))
            },
        }
    }
}

/// Finds a value by a dotted, bracketed path.
///
/// `a.b` is the key `b` of the object at key `a`; `a[2]` is the third element
/// of the array at key `a`; `[0].x` is the key `x` of the first element of a
/// top-level array. A key holding a `.` or a `[` cannot be reached. A string
/// comes back without its quotes; any other value comes back exactly as it
/// appears, so an object or an array can be searched again.
pub fn search<'a>(buf: &'a [u8], query: &[u8]) -> (r: Result<Match<'a>, NotFound>)
    ensures
        match search_result(buf@, query@) {
            Ok((offset, length, kind)) => r matches Ok(m) && m.offset == offset && m.value@
                == buf@.subrange(offset, offset + length) && m.kind == kind,
            Err(e) => r == Err::<Match<'a>, NotFound>(e),
        },
        r matches Ok(m) ==> m.offset + m.value@.len() <= buf@.len(),
        r matches Ok(m) ==> (m.kind == Kind::String ==> m.offset >= 1 && buf@[m.offset - 1]
            == QUOTE),
        r matches Ok(m) ==> (m.kind == Kind::String ==> buf@[m.offset + m.value@.len()] == QUOTE),
        r matches Ok(m) ==> (m.kind != Kind::String ==> m.kind == kind_of(buf@[m.offset as int])),
{
    if buf.len() == 0 || query.len() == 0 {
        return Err(NotFound::BadQuery);
    }
    let (value, length) = match multi_search(buf, query) {
        Ok(found) => found,
        Err(e) => return Err(e),
    };
    let first = match at(buf, value) {
        Some(c) => c,
        None => return Err(NotFound::Missing),
    };
    let kind = kind_of(first);
    let (offset, length) = if kind == Kind::String {
        (value + 1, length - 2)
    } else {
        (value, length)
    };
    let slice = vstd::slice::slice_subrange(buf, offset, offset + length);
    Ok(Match { offset, value: slice, kind })
}

// ---- iteration -------------------------------------------------------------

/// One key-value member of an object, or one element of an array, from
/// `iterate`.
#[derive(Debug, Clone, Copy, PartialEq, Eq)]
pub struct Pair<'a> {
    /// The key, with its quotes stripped, or `None` for an array element.
    pub key: Option<&'a [u8]>,
    /// Where the key starts, or 0 when there is none.
    pub key_offset: usize,
    /// Where the value starts, with a string's quotes stripped as for `Match`.
    pub offset: usize,
    /// The value itself.
    pub value: &'a [u8],
    /// What kind of value it is.
    pub kind: Kind,
}

/// An element as positions: the key's offset and length when there is one,
/// then the value's offset, length and kind.
pub type Element = (Option<(int, int)>, int, int, Kind);

/// The element for a value found at `v`, `vl` bytes long, with a string's
/// quotes stripped.
pub open spec fn element(s: Seq<u8>, key: Option<(int, int)>, v: int, vl: int) -> Element {
    if kind_of(s[v]) == Kind::String {
        (key, v + 1, vl - 2, Kind::String)
    } else {
        (key, v, vl, kind_of(s[v]))
    }
}

/// One step of iteration from the cursors `start` (where the collection
/// begins) and `next` (where to look): the element or the reason for stopping,
/// and the two cursors afterwards. A `next` at or before the collection's
/// opening bracket means "from the first element".
pub open spec fn iteration(s: Seq<u8>, start: int, next: int) -> (Result<Element, Stopped>, int, int) {
    let max = s.len() as int;
    if max == 0 || start >= max || next > max {
        (Err(Stopped::BadCursor), start, next)
    } else {
        let st = space_end(s, start, max);
        let nx = if next <= st {
            space_end(s, (st as usize).saturating_add(1) as int, max)
        } else {
            next
        };
        if st >= max {
            (Err(Stopped::Exhausted), st, nx)
        } else if s[st] == OPEN_BRACKET {
            match value_end(s, nx, max) {
                None => (Err(Stopped::Exhausted), st, nx),
                Some(j) => (Ok(element(s, None, nx, j - nx)), st, space_and_comma(s, j, max).1),
            }
        } else if s[st] == OPEN_BRACE {
            match pair_end(s, nx, max) {
                None => (Err(Stopped::Exhausted), st, nx),
                Some((j, k, kl, v, vl)) => (
                    Ok(element(s, Some((k, kl)), v, vl)),
                    st,
                    space_and_comma(s, j, max).1,
                ),
            }
        } else {
            (Err(Stopped::NotACollection), st, nx)
        }
    }
}

/// Whether `p` is the element `e` of the buffer `s`.
pub open spec fn is_element(s: Seq<u8>, p: Pair, e: Element) -> bool {
    &&& p.offset == e.1
    &&& p.value@ == s.subrange(e.1, e.1 + e.2)
    &&& p.kind == e.3
    &&& match e.0 {
        None => p.key is None && p.key_offset == 0,
        Some((k, kl)) => p.key matches Some(key) && key@ == s.subrange(k, k + kl) && p.key_offset
            == k,
    }
}

/// The next element of a collection, carrying its own cursors: `start` marks
/// where the collection begins and `next` where to look, and both are
/// updated. Pass them in as zero to begin.
///
/// On every success `next` strictly advances and stays within the buffer, so
/// a caller that loops until a refusal always stops.
#[verifier::rlimit(30)]
pub fn iterate<'a>(buf: &'a [u8], start: &mut usize, next: &mut usize) -> (r: Result<
    Pair<'a>,
    Stopped,
>)
    ensures
        *final(start) == iteration(buf@, *old(start) as int, *old(next) as int).1,
        *final(next) == iteration(buf@, *old(start) as int, *old(next) as int).2,
        match iteration(buf@, *old(start) as int, *old(next) as int).0 {
            Ok(e) => r matches Ok(p) && is_element(buf@, p, e),
            Err(e) => r == Err::<Pair<'a>, Stopped>(e),
        },
        r is Ok ==> *old(next) < *final(next) <= buf@.len(),
        r matches Ok(p) ==> p.offset + p.value@.len() <= buf@.len(),
        (r == Err::<Pair<'a>, Stopped>(Stopped::BadCursor)) <==> (buf@.len() == 0 || *old(start)
            >= buf@.len() || *old(next) > buf@.len()),
{
    let ghost s = buf@;
    let max = buf.len();
    if max == 0 || *start >= max || *next > max {
        return Err(Stopped::BadCursor);
    }
    proof {
        lemma_space_end(s, *start as int, max as int);
    }
    skip_space(buf, start, max);
    if *next <= *start {
        *next = start.saturating_add(1);
        proof {
            lemma_space_end(s, *next as int, max as int);
        }
        skip_space(buf, next, max);
    }
    let opener = match at(buf, *start) {
        Some(c) => c,
        None => return Err(Stopped::Exhausted),
    };
    let ghost nx = *next as int;
    let (key, key_length, value, value_length) = if opener == OPEN_BRACKET {
        proof {
            lemma_value_end(s, nx, max as int);
        }
        match next_value(buf, next, max) {
            Some((value, value_length)) => (0usize, 0usize, value, value_length),
            None => return Err(Stopped::Exhausted),
        }
    } else if opener == OPEN_BRACE {
        proof {
            lemma_pair_end(s, nx, max as int);
            if let Some((j, k, kl, v, vl)) = pair_end(s, nx, max as int) {
                lemma_value_end(s, v, max as int);
            }
        }
        match next_key_value_pair(buf, next, max) {
            Some(found) => found,
            None => return Err(Stopped::Exhausted),
        }
    } else {
        return Err(Stopped::NotACollection);
    };
    proof {
        lemma_space_and_comma(s, *next as int, max as int);
    }
    let _ = skip_space_and_comma(buf, next, max);
    let first = match at(buf, value) {
        Some(c) => c,
        None => return Err(Stopped::Exhausted),
    };
    let kind = kind_of(first);
    let (offset, value_length) = if kind == Kind::String {
        (value + 1, value_length - 2)
    } else {
        (value, value_length)
    };
    let value_slice = vstd::slice::slice_subrange(buf, offset, offset + value_length);
    let key_slice = if key == 0 {
        None
    } else {
        Some(vstd::slice::slice_subrange(buf, key, key + key_length))
    };
    let key_offset = if key_slice.is_some() {
        key
    } else {
        0
    };
    Ok(Pair { key: key_slice, key_offset, offset, value: value_slice, kind })
}

/// The elements of a collection, one at a time: `iterate` with its two
/// cursors carried for you. It ends at the first refusal of any kind.
#[derive(Debug, Clone)]
pub struct Pairs<'a> {
    buf: &'a [u8],
    start: usize,
    next: usize,
    done: bool,
}

impl<'a> Pairs<'a> {
    /// The buffer being walked.
    pub closed spec fn buffer(&self) -> Seq<u8> {
        self.buf@
    }

    /// Where the collection begins.
    pub closed spec fn start_cursor(&self) -> int {
        self.start as int
    }

    /// Where the next element is looked for.
    pub closed spec fn next_cursor(&self) -> int {
        self.next as int
    }

    /// Whether a refusal has ended the walk.
    pub closed spec fn is_done(&self) -> bool {
        self.done
    }

    /// The next element, or `None` once the walk has ended. Each element moves
    /// the cursor strictly forward within the buffer, so the walk ends.
    pub fn next(&mut self) -> (r: Option<Pair<'a>>)
        ensures
            final(self).buffer() == old(self).buffer(),
            old(self).is_done() ==> r is None && *final(self) == *old(self),
            !old(self).is_done() ==> match iteration(
                old(self).buffer(),
                old(self).start_cursor(),
                old(self).next_cursor(),
            ).0 {
                Ok(e) => r matches Some(p) && is_element(old(self).buffer(), p, e) && !final(self).is_done(),
                Err(_) => r is None && final(self).is_done(),
            },
            !old(self).is_done() ==> final(self).start_cursor() == iteration(
                old(self).buffer(),
                old(self).start_cursor(),
                old(self).next_cursor(),
            ).1 && final(self).next_cursor() == iteration(
                old(self).buffer(),
                old(self).start_cursor(),
                old(self).next_cursor(),
            ).2,
            r is Some ==> old(self).next_cursor() < final(self).next_cursor() <= old(self).buffer().len(),
    {
        if self.done {
            return None;
        }
        match iterate(self.buf, &mut self.start, &mut self.next) {
            Ok(pair) => Some(pair),
            Err(_) => {
                self.done = true;
                None
            },
        }
    }
}

/// Iterates the elements of a collection. See `Pairs`.
pub fn pairs(buf: &[u8]) -> (r: Pairs<'_>)
    ensures
        r.buffer() == buf@,
        r.start_cursor() == 0,
        r.next_cursor() == 0,
        !r.is_done(),
{
    Pairs { buf, start: 0, next: 0, done: false }
}

/// What an object or array search finds lies inside the window it searched,
/// and is at least one byte long.
pub proof fn lemma_found_within(s: Seq<u8>, base: int, max: int, query: Seq<u8>, index: int)
    requires
        0 <= base,
        max <= s.len(),
    ensures
        object_value(s, base, max, query) matches Some((v, vl)) ==> base <= v && 1 <= vl && v
            + vl <= max,
        array_value(s, base, max, index) matches Some((v, vl)) ==> base <= v && 1 <= vl && v + vl
            <= max,
{
    lemma_space_end(s, base, max);
    let i = space_end(s, base, max);
    lemma_space_end(s, i + 1, max);
    let m = space_end(s, i + 1, max);
    lemma_object_members(s, m, max, query);
    lemma_array_elements(s, m, max, index, 0);
    if let Some((v, vl)) = object_value(s, base, max, query) {
        lemma_value_end(s, v, max);
    }
    if let Some((v, vl)) = array_value(s, base, max, index) {
        lemma_value_end(s, v, max);
    }
}

// ---- laws ------------------------------------------------------------------

/// A query part ends at the first separator or `[` after a run of other bytes.
pub(crate) proof fn lemma_query_part_run(q: Seq<u8>, i: int, e: int, max: int)
    requires
        i <= e <= max,
        forall|k: int| i <= k < e ==> #[trigger] q[k] != QUERY_KEY_SEPARATOR && q[k] != OPEN_BRACKET,
        e < max ==> q[e] == QUERY_KEY_SEPARATOR || q[e] == OPEN_BRACKET,
    ensures
        query_part_end(q, i, max) == e,
    decreases e - i,
{
    if i < e {
        lemma_query_part_run(q, i + 1, e, max);
    }
}

/// A key part followed by a trailing separator is a bad query, whatever the
/// buffer holds: `a.` is refused rather than read as `a`.
pub proof fn lemma_trailing_separator_is_refused(s: Seq<u8>, part: Seq<u8>)
    requires
        s.len() > 0,
        part.len() > 0,
        forall|k: int|
            0 <= k < part.len() ==> #[trigger] part[k] != QUERY_KEY_SEPARATOR && part[k]
                != OPEN_BRACKET,
    ensures
        search_result(s, part.push(QUERY_KEY_SEPARATOR)) == Err::<(int, int, Kind), NotFound>(
            NotFound::BadQuery,
        ),
{
    let q = part.push(QUERY_KEY_SEPARATOR);
    assert forall|k: int| 0 <= k < part.len() implies #[trigger] q[k] != QUERY_KEY_SEPARATOR
        && q[k] != OPEN_BRACKET by {
        assert(q[k] == part[k]);
    }
    lemma_query_part_run(q, 0, part.len() as int, q.len() as int);
    assert(q[0] == part[0]);
}

/// A run of digits ends at the first byte that is not a digit.
proof fn lemma_digits_run(q: Seq<u8>, i: int, e: int, max: int)
    requires
        i <= e <= max,
        forall|k: int| i <= k < e ==> is_digit(#[trigger] q[k]),
        e < max ==> !is_digit(q[e]),
    ensures
        crate::scan::digits_end(q, i, max) == e,
    decreases e - i,
{
    if i < e {
        lemma_digits_run(q, i + 1, e, max);
    }
}

/// An array index too large to be one, such as `[99999999999999999999]`, is a
/// bad query: it is refused, never wrapped round to a small index.
pub proof fn lemma_huge_index_is_refused(s: Seq<u8>, digits: Seq<u8>, rest: Seq<u8>)
    requires
        s.len() > 0,
        digits.len() > 0,
        forall|k: int| 0 <= k < digits.len() ==> is_digit(#[trigger] digits[k]),
        crate::scan::decimal_value(digits) > MAX_INDEX_VALUE,
    ensures
        search_result(s, seq![OPEN_BRACKET] + digits + seq![CLOSE_BRACKET] + rest) == Err::<
            (int, int, Kind),
            NotFound,
        >(NotFound::BadQuery),
{
    let q = seq![OPEN_BRACKET] + digits + seq![CLOSE_BRACKET] + rest;
    let e: int = 1 + digits.len() as int;
    assert forall|k: int| 1 <= k < e implies is_digit(#[trigger] q[k]) by {
        assert(q[k] == digits[k - 1]);
    }
    assert(q[e] == CLOSE_BRACKET);
    lemma_digits_run(q, 1, e, q.len() as int);
    assert(q.subrange(1, e) =~= digits);
    crate::scan::lemma_index_value(digits);
    assert(q[0] == OPEN_BRACKET);
}

/// A non-empty buffer holding whitespace, then one value as `search` and
/// `iterate` read values, then whitespace to the end.
pub open spec fn is_one_value(s: Seq<u8>) -> bool {
    let n = s.len() as int;
    n > 0 && match value_end(s, space_end(s, 0, n), n) {
        Some(j) => space_end(s, j, n) == n,
        None => false,
    }
}

/// The validator and the query engine read values alike: a buffer is a valid
/// document exactly when it is one value with only whitespace around it.
pub proof fn lemma_valid_is_one_value(s: Seq<u8>)
    ensures
        validity(s) == Validity::Valid <==> is_one_value(s),
{
    let n = s.len() as int;
    if n > 0 {
        let i = space_end(s, 0, n);
        lemma_space_end(s, 0, n);
        lemma_scanners_disjoint(s, i, n);
        lemma_value_end(s, i, n);
        if let Some(j) = value_end(s, i, n) {
            lemma_space_end(s, j, n);
        }
    }
}

/// A walk that finds something finds a value inside the window it started
/// from, at least one byte long once any part has been walked.
#[verifier::spinoff_prover]
#[verifier::rlimit(50)]
pub proof fn lemma_query_walk_within(s: Seq<u8>, q: Seq<u8>, i: int, start: int, length: int)
    requires
        0 <= start,
        start + length <= s.len(),
    ensures
        query_walk(s, q, i, start, length) matches Ok((v, vl)) ==> {
            &&& start <= v
            &&& v + vl <= start + length
            &&& (0 <= i < q.len() ==> 1 <= vl)
        },
    decreases q.len() - i,
{
    let qn = q.len() as int;
    if 0 <= i < qn {
        if q[i] == OPEN_BRACKET {
            let (index, i2) = match digits_value(q, i + 1, qn) {
                Some((r, v)) => (v, r),
                None => (-1, i + 1),
            };
            crate::scan::lemma_digits_end(q, i + 1, qn);
            lemma_found_within(s, start, start + length, Seq::<u8>::empty(), index);
            if index >= 0 && i2 < qn && q[i2] == CLOSE_BRACKET {
                if let Some((v, vl)) = array_value(s, start, start + length, index) {
                    lemma_query_walk_within(s, q, after_part(q, i2 + 1), v, vl);
                }
            }
        } else {
            let r = query_part_end(q, i, qn);
            lemma_query_part_end(q, i, qn);
            if r > i && r != qn - 1 {
                let key = q.subrange(i, r);
                lemma_found_within(s, start, start + length, key, 0);
                if let Some((v, vl)) = object_value(s, start, start + length, key) {
                    lemma_query_walk_within(s, q, after_part(q, r), v, vl);
                }
            }
        }
    }
}

/// `q1`, a separator, then `q2`.
pub open spec fn joined(q1: Seq<u8>, q2: Seq<u8>) -> Seq<u8> {
    q1 + seq![QUERY_KEY_SEPARATOR] + q2
}

/// A part of `q1` ends in the joined query where it ends in `q1` alone,
/// because the separator that follows `q1` stops it.
proof fn lemma_joined_part_end(q1: Seq<u8>, q2: Seq<u8>, i: int)
    requires
        0 <= i <= q1.len(),
    ensures
        query_part_end(joined(q1, q2), i, joined(q1, q2).len() as int) == query_part_end(
            q1,
            i,
            q1.len() as int,
        ),
    decreases q1.len() - i,
{
    let q = joined(q1, q2);
    if i < q1.len() {
        assert(q[i] == q1[i]);
        lemma_joined_part_end(q1, q2, i + 1);
    } else {
        assert(q[i] == QUERY_KEY_SEPARATOR);
    }
}

/// A run of digits in `q1` ends in the joined query where it ends in `q1`.
proof fn lemma_joined_digits_end(q1: Seq<u8>, q2: Seq<u8>, i: int)
    requires
        0 <= i <= q1.len(),
    ensures
        crate::scan::digits_end(joined(q1, q2), i, joined(q1, q2).len() as int)
            == crate::scan::digits_end(q1, i, q1.len() as int),
    decreases q1.len() - i,
{
    let q = joined(q1, q2);
    if i < q1.len() {
        assert(q[i] == q1[i]);
        lemma_joined_digits_end(q1, q2, i + 1);
    } else {
        assert(q[i] == QUERY_KEY_SEPARATOR);
    }
}

/// An index in `q1` reads the same in the joined query.
proof fn lemma_joined_digits_value(q1: Seq<u8>, q2: Seq<u8>, i: int)
    requires
        0 <= i <= q1.len(),
    ensures
        digits_value(joined(q1, q2), i, joined(q1, q2).len() as int) == digits_value(
            q1,
            i,
            q1.len() as int,
        ),
{
    let q = joined(q1, q2);
    lemma_joined_digits_end(q1, q2, i);
    crate::scan::lemma_digits_end(q1, i, q1.len() as int);
    let r = crate::scan::digits_end(q1, i, q1.len() as int);
    if r > i {
        assert(q.subrange(i, r) =~= q1.subrange(i, r));
    }
}

/// Walking `q1` inside the joined query goes exactly as walking `q1` alone,
/// and then carries on at the first byte of `q2`.
#[verifier::spinoff_prover]
#[verifier::rlimit(50)]
proof fn lemma_joined_prefix(
    s: Seq<u8>,
    q1: Seq<u8>,
    q2: Seq<u8>,
    i: int,
    start: int,
    length: int,
)
    requires
        0 <= i < q1.len(),
        q2.len() > 0,
        q1.last() != QUERY_KEY_SEPARATOR,
        query_walk(s, q1, i, start, length) is Ok,
    ensures
        query_walk(s, joined(q1, q2), i, start, length) == ({
            let (v, vl) = query_walk(s, q1, i, start, length).unwrap();
            query_walk(s, joined(q1, q2), q1.len() as int + 1, v, vl)
        }),
    decreases q1.len() - i,
{
    let q = joined(q1, q2);
    let n1 = q1.len() as int;
    let qn = q.len() as int;
    assert(q[i] == q1[i]);
    assert(q[n1] == QUERY_KEY_SEPARATOR);
    if q1[i] == OPEN_BRACKET {
        lemma_joined_digits_value(q1, q2, i + 1);
        let (index, i2) = match digits_value(q1, i + 1, n1) {
            Some((r, v)) => (v, r),
            None => (-1, i + 1),
        };
        assert(q[i2] == q1[i2]);
        let (v, vl) = array_value(s, start, start + length, index).unwrap();
        let next = after_part(q1, i2 + 1);
        if i2 + 1 < n1 {
            assert(q[i2 + 1] == q1[i2 + 1]);
        }
        if next < n1 {
            lemma_joined_prefix(s, q1, q2, next, v, vl);
        } else {
            assert(next == i2 + 1);
        }
    } else {
        lemma_joined_part_end(q1, q2, i);
        lemma_query_part_end(q1, i, n1);
        let r = query_part_end(q1, i, n1);
        assert(q.subrange(i, r) =~= q1.subrange(i, r));
        let (v, vl) = object_value(s, start, start + length, q1.subrange(i, r)).unwrap();
        let next = after_part(q1, r);
        if r < n1 {
            assert(q[r] == q1[r]);
        }
        if next < n1 {
            lemma_joined_prefix(s, q1, q2, next, v, vl);
        }
    }
}

/// Walking the joined query from the first byte of `q2` is walking `q2`.
#[verifier::spinoff_prover]
#[verifier::rlimit(50)]
proof fn lemma_joined_suffix(
    s: Seq<u8>,
    q1: Seq<u8>,
    q2: Seq<u8>,
    j: int,
    start: int,
    length: int,
)
    requires
        0 <= j,
    ensures
        query_walk(s, joined(q1, q2), q1.len() as int + 1 + j, start, length) == query_walk(
            s,
            q2,
            j,
            start,
            length,
        ),
    decreases q2.len() - j,
{
    let q = joined(q1, q2);
    let n1 = q1.len() as int;
    let qn = q.len() as int;
    let n2 = q2.len() as int;
    let o = n1 + 1;
    assert(q.subrange(o, qn) =~= q2);
    if j < n2 {
        let i = o + j;
        assert(q[i] == q2[j]);
        if q2[j] == OPEN_BRACKET {
            crate::window::lemma_window_digits_value(q, o, qn, i + 1, qn);
            let (index, i2) = match digits_value(q2, j + 1, n2) {
                Some((r, v)) => (v, r),
                None => (-1, j + 1),
            };
            crate::scan::lemma_digits_end(q2, j + 1, n2);
            if i2 < n2 {
                assert(q[o + i2] == q2[i2]);
            }
            if i2 + 1 < n2 {
                assert(q[o + i2 + 1] == q2[i2 + 1]);
            }
            if index >= 0 && i2 < n2 && q2[i2] == CLOSE_BRACKET {
                if let Some((v, vl)) = array_value(s, start, start + length, index) {
                    lemma_joined_suffix(s, q1, q2, after_part(q2, i2 + 1), v, vl);
                }
            }
        } else {
            crate::window::lemma_window_query_part_end(q, o, qn, i, qn);
            lemma_query_part_end(q2, j, n2);
            let r = query_part_end(q2, j, n2);
            assert(q.subrange(i, o + r) =~= q2.subrange(j, r));
            if r < n2 {
                assert(q[o + r] == q2[r]);
            }
            if r > j && r != n2 - 1 {
                if let Some((v, vl)) = object_value(s, start, start + length, q2.subrange(j, r)) {
                    lemma_joined_suffix(s, q1, q2, after_part(q2, r), v, vl);
                }
            }
        }
    }
}

/// A found object or array can be searched again: searching the value that
/// `q1` found for `q2` answers what the longer path `q1.q2` answers, with
/// every offset taken from the found value instead of the whole buffer. (A
/// `q1` ending in a separator is excluded: `[0].` finds the first element, but
/// `[0]..x` is a bad query.)
#[verifier::spinoff_prover]
#[verifier::rlimit(50)]
pub proof fn lemma_search_again(s: Seq<u8>, q1: Seq<u8>, q2: Seq<u8>)
    requires
        q1.len() > 0,
        q2.len() > 0,
        q1.last() != QUERY_KEY_SEPARATOR,
        search_result(s, q1) is Ok,
        search_result(s, q1).unwrap().2 == Kind::Object || search_result(s, q1).unwrap().2
            == Kind::Array,
    ensures
        ({
            let (v, l, kind) = search_result(s, q1).unwrap();
            search_result(s.subrange(v, v + l), q2) == match search_result(s, joined(q1, q2)) {
                Ok((offset, length, k)) => Ok((offset - v, length, k)),
                Err(e) => Err(e),
            }
        }),
{
    let n = s.len() as int;
    let (v, l) = query_walk(s, q1, 0, 0, n).unwrap();
    lemma_query_walk_within(s, q1, 0, 0, n);
    lemma_joined_prefix(s, q1, q2, 0, 0, n);
    lemma_joined_suffix(s, q1, q2, 0, v, l);
    let t = s.subrange(v, v + l);
    crate::window::lemma_window_query_walk(s, v, v + l, q2, 0, v, l);
    lemma_query_walk_within(s, q2, 0, v, l);
    let q = joined(q1, q2);
    assert(q.len() > 0);
    if let Ok((w, wl)) = query_walk(s, q2, 0, v, l) {
        assert(t[w - v] == s[w]);
    }
}

} // verus!
