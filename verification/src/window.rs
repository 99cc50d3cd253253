//! Reading a window of a buffer is reading a sub-slice of it.
//!
//! Every scanner reads only bytes at or after its cursor and before its bound,
//! so running it on the window `[a, b)` of a buffer gives the same answer as
//! running it on the slice `buf[a..b]`, with every position shifted by `a`.
//! These lemmas state that, scanner by scanner; the query engine's laws about
//! searching a found value again rest on them.
use vstd::prelude::*;
use crate::validate::{array_scalars, collection, object_scalars, scalars};
use crate::search::{
    after_part, array_elements, array_value, object_members, object_value, pair_end, query_walk,
    value_end,
};
use crate::scan::{
    any_literal_end, decimals_end, digits_end, digits_value, escape_end, exponent_end,
    hex_escape_end, hex_digits, hex_value, literal_end, number_end, one_hex_escape, scalar_end,
    space_and_comma, space_end, string_body_end, string_end, utf8_end, utf8_multibyte_end,
    utf8_value,
};

verus! {

/// A position shifted by `a`, when there is one.
pub open spec fn shifted(o: Option<int>, a: int) -> Option<int> {
    match o {
        Some(j) => Some(j + a),
        None => None,
    }
}

/// `space_end` over the window `[a, b)` is `space_end` over the slice, shifted by `a`.
pub proof fn lemma_window_space_end(s: Seq<u8>, a: int, b: int, i: int, max: int)
    requires
        0 <= a <= i,
        max <= b <= s.len(),
    ensures
        space_end(s, i, max) == space_end(s.subrange(a, b), i - a, max - a) + a,
    decreases max - i,
{
    let t = s.subrange(a, b);
    if i < max {
        assert(t[i - a] == s[i]);
        lemma_window_space_end(s, a, b, i + 1, max);
    }
}

/// `digits_end` over the window `[a, b)` is `digits_end` over the slice, shifted by `a`.
pub proof fn lemma_window_digits_end(s: Seq<u8>, a: int, b: int, i: int, max: int)
    requires
        0 <= a <= i,
        max <= b <= s.len(),
    ensures
        digits_end(s, i, max) == digits_end(s.subrange(a, b), i - a, max - a) + a,
    decreases max - i,
{
    let t = s.subrange(a, b);
    if i < max {
        assert(t[i - a] == s[i]);
        lemma_window_digits_end(s, a, b, i + 1, max);
    }
}

/// `digits_value` over the window `[a, b)` is `digits_value` over the slice, shifted by `a`.
pub proof fn lemma_window_digits_value(s: Seq<u8>, a: int, b: int, i: int, max: int)
    requires
        0 <= a <= i,
        max <= b <= s.len(),
    ensures
        digits_value(s, i, max) == match digits_value(s.subrange(a, b), i - a, max - a) {
            Some((r, v)) => Some((r + a, v)),
            None => None,
        },
{
    let t = s.subrange(a, b);
    lemma_window_digits_end(s, a, b, i, max);
    crate::scan::lemma_digits_end(s, i, max);
    let r = digits_end(s, i, max);
    if r > i {
        assert(s.subrange(i, r) =~= t.subrange(i - a, r - a));
    }
}

/// A decoded UTF-8 value is the same read from the window or from the slice.
pub proof fn lemma_window_utf8_value(s: Seq<u8>, a: int, b: int, i: int, k: nat)
    requires
        0 <= a <= i,
        i + k < b <= s.len(),
    ensures
        utf8_value(s, i, k) == utf8_value(s.subrange(a, b), i - a, k),
    decreases k,
{
    let t = s.subrange(a, b);
    assert(t[i - a] == s[i]);
    if k > 0 {
        assert(t[i - a + k] == s[i + k]);
        lemma_window_utf8_value(s, a, b, i, (k - 1) as nat);
    }
}

/// `utf8_end` over the window `[a, b)` is `utf8_end` over the slice, shifted by `a`.
pub proof fn lemma_window_utf8_end(s: Seq<u8>, a: int, b: int, i: int, max: int)
    requires
        0 <= a <= i,
        max <= b <= s.len(),
    ensures
        utf8_end(s, i, max) == shifted(utf8_end(s.subrange(a, b), i - a, max - a), a),
{
    let t = s.subrange(a, b);
    if i < max {
        assert(t[i - a] == s[i]);
        let n = crate::chars::count_high_bits(s[i]) as int;
        if i + n <= max && n >= 1 {
            let ps = forall|k: int| 1 <= k < n ==> crate::scan::is_continuation(#[trigger] s[i + k]);
            let pt = forall|k: int|
                1 <= k < n ==> crate::scan::is_continuation(#[trigger] t[(i - a) + k]);
            if ps {
                assert forall|k: int| 1 <= k < n implies crate::scan::is_continuation(
                    #[trigger] t[(i - a) + k],
                ) by {
                    assert(t[(i - a) + k] == s[i + k]);
                }
            }
            if pt {
                assert forall|k: int| 1 <= k < n implies crate::scan::is_continuation(
                    #[trigger] s[i + k],
                ) by {
                    assert(t[(i - a) + k] == s[i + k]);
                }
            }
            lemma_window_utf8_value(s, a, b, i, (n - 1) as nat);
        }
        assert(utf8_multibyte_end(s, i, max) == shifted(
            utf8_multibyte_end(t, i - a, max - a),
            a,
        ));
    }
}

/// A `\u` escape's value is the same read from the window or from the slice.
pub proof fn lemma_window_hex_value(s: Seq<u8>, a: int, b: int, i: int, k: nat)
    requires
        0 <= a <= i,
        i + 1 + k < b <= s.len(),
    ensures
        hex_value(s, i, k) == hex_value(s.subrange(a, b), i - a, k),
    decreases k,
{
    let t = s.subrange(a, b);
    if k > 0 {
        assert(t[i - a + 1 + k] == s[i + 1 + k]);
        lemma_window_hex_value(s, a, b, i, (k - 1) as nat);
    }
}

/// `one_hex_escape` over the window `[a, b)` is `one_hex_escape` over the slice, shifted by `a`.
pub proof fn lemma_window_one_hex_escape(s: Seq<u8>, a: int, b: int, i: int, max: int)
    requires
        0 <= a <= i,
        max <= b <= s.len(),
    ensures
        one_hex_escape(s, i, max) == match one_hex_escape(s.subrange(a, b), i - a, max - a) {
            Some((j, v)) => Some((j + a, v)),
            None => None,
        },
{
    let t = s.subrange(a, b);
    if i + 6 < max {
        assert(t[i - a] == s[i]);
        assert(t[i - a + 1] == s[i + 1]);
        let ps = hex_digits(s, i, 4);
        let pt = hex_digits(t, i - a, 4);
        if ps {
            assert forall|m: int| 2 <= m < 2 + 4 implies crate::chars::hex_to_int(
                #[trigger] t[(i - a) + m],
            ) != crate::chars::NOT_A_HEX_CHAR by {
                assert(t[(i - a) + m] == s[i + m]);
            }
        }
        if pt {
            assert forall|m: int| 2 <= m < 2 + 4 implies crate::chars::hex_to_int(
                #[trigger] s[i + m],
            ) != crate::chars::NOT_A_HEX_CHAR by {
                assert(t[(i - a) + m] == s[i + m]);
            }
        }
        lemma_window_hex_value(s, a, b, i, 4);
    }
}

/// `hex_escape_end` over the window `[a, b)` is `hex_escape_end` over the slice, shifted by `a`.
pub proof fn lemma_window_hex_escape_end(s: Seq<u8>, a: int, b: int, i: int, max: int)
    requires
        0 <= a <= i,
        max <= b <= s.len(),
    ensures
        hex_escape_end(s, i, max) == shifted(hex_escape_end(s.subrange(a, b), i - a, max - a), a),
{
    lemma_window_one_hex_escape(s, a, b, i, max);
    if let Some((j, v)) = one_hex_escape(s, i, max) {
        lemma_window_one_hex_escape(s, a, b, j, max);
    }
}

/// `escape_end` over the window `[a, b)` is `escape_end` over the slice, shifted by `a`.
pub proof fn lemma_window_escape_end(s: Seq<u8>, a: int, b: int, i: int, max: int)
    requires
        0 <= a <= i,
        max <= b <= s.len(),
    ensures
        escape_end(s, i, max) == shifted(escape_end(s.subrange(a, b), i - a, max - a), a),
{
    let t = s.subrange(a, b);
    if i < max - 1 {
        assert(t[i - a] == s[i]);
        assert(t[i - a + 1] == s[i + 1]);
        lemma_window_hex_escape_end(s, a, b, i, max);
    }
}

/// `string_body_end` over the window `[a, b)` is `string_body_end` over the slice, shifted by `a`.
pub proof fn lemma_window_string_body_end(s: Seq<u8>, a: int, b: int, i: int, max: int)
    requires
        0 <= a <= i,
        max <= b <= s.len(),
    ensures
        string_body_end(s, i, max) == shifted(
            string_body_end(s.subrange(a, b), i - a, max - a),
            a,
        ),
    decreases max - i,
{
    let t = s.subrange(a, b);
    if i < max {
        assert(t[i - a] == s[i]);
        lemma_window_escape_end(s, a, b, i, max);
        lemma_window_utf8_end(s, a, b, i, max);
        if s[i] != crate::chars::QUOTE {
            if s[i] == crate::chars::BACKSLASH {
                if let Some(j) = escape_end(s, i, max) {
                    lemma_window_string_body_end(s, a, b, j, max);
                }
            } else if !crate::chars::is_cntrl(s[i]) {
                if let Some(j) = utf8_end(s, i, max) {
                    lemma_window_string_body_end(s, a, b, j, max);
                }
            }
        }
    }
}

/// `string_end` over the window `[a, b)` is `string_end` over the slice, shifted by `a`.
pub proof fn lemma_window_string_end(s: Seq<u8>, a: int, b: int, i: int, max: int)
    requires
        0 <= a <= i,
        max <= b <= s.len(),
    ensures
        string_end(s, i, max) == shifted(string_end(s.subrange(a, b), i - a, max - a), a),
{
    let t = s.subrange(a, b);
    if i < max {
        assert(t[i - a] == s[i]);
        lemma_window_string_body_end(s, a, b, i + 1, max);
    }
}

/// `literal_end` over the window `[a, b)` is `literal_end` over the slice, shifted by `a`.
pub proof fn lemma_window_literal_end(
    s: Seq<u8>,
    a: int,
    b: int,
    i: int,
    max: int,
    literal: Seq<u8>,
)
    requires
        0 <= a <= i,
        max <= b <= s.len(),
    ensures
        literal_end(s, i, max, literal) == shifted(
            literal_end(s.subrange(a, b), i - a, max - a, literal),
            a,
        ),
{
    let t = s.subrange(a, b);
    if i < max && literal.len() <= max - i {
        assert(s.subrange(i, i + literal.len()) =~= t.subrange(i - a, i - a + literal.len()));
    }
}

/// `any_literal_end` over the window `[a, b)` is `any_literal_end` over the slice, shifted by `a`.
pub proof fn lemma_window_any_literal_end(s: Seq<u8>, a: int, b: int, i: int, max: int)
    requires
        0 <= a <= i,
        max <= b <= s.len(),
    ensures
        any_literal_end(s, i, max) == shifted(any_literal_end(s.subrange(a, b), i - a, max - a), a),
{
    let t = s.subrange(a, b);
    if i < max {
        assert(t[i - a] == s[i]);
    }
    lemma_window_literal_end(s, a, b, i, max, crate::scan::true_literal());
    lemma_window_literal_end(s, a, b, i, max, crate::scan::false_literal());
    lemma_window_literal_end(s, a, b, i, max, crate::scan::null_literal());
}

/// `decimals_end` over the window `[a, b)` is `decimals_end` over the slice, shifted by `a`.
pub proof fn lemma_window_decimals_end(s: Seq<u8>, a: int, b: int, d: int, max: int)
    requires
        0 <= a <= d,
        max <= b <= s.len(),
    ensures
        decimals_end(s, d, max) == decimals_end(s.subrange(a, b), d - a, max - a) + a,
{
    let t = s.subrange(a, b);
    if d < max {
        assert(t[d - a] == s[d]);
    }
    lemma_window_digits_end(s, a, b, d + 1, max);
}

/// `exponent_end` over the window `[a, b)` is `exponent_end` over the slice, shifted by `a`.
pub proof fn lemma_window_exponent_end(s: Seq<u8>, a: int, b: int, e: int, max: int)
    requires
        0 <= a <= e,
        max <= b <= s.len(),
    ensures
        exponent_end(s, e, max) == exponent_end(s.subrange(a, b), e - a, max - a) + a,
{
    let t = s.subrange(a, b);
    if e < max {
        assert(t[e - a] == s[e]);
    }
    if e + 1 < max {
        assert(t[e + 1 - a] == s[e + 1]);
    }
    lemma_window_digits_end(s, a, b, e + 1, max);
    lemma_window_digits_end(s, a, b, e + 2, max);
}

/// `number_end` over the window `[a, b)` is `number_end` over the slice, shifted by `a`.
pub proof fn lemma_window_number_end(s: Seq<u8>, a: int, b: int, i: int, max: int)
    requires
        0 <= a <= i,
        max <= b <= s.len(),
    ensures
        number_end(s, i, max) == shifted(number_end(s.subrange(a, b), i - a, max - a), a),
{
    let t = s.subrange(a, b);
    if i < max {
        assert(t[i - a] == s[i]);
    }
    let j = if i < max && s[i] == crate::chars::MINUS {
        i + 1
    } else {
        i
    };
    if j < max {
        assert(t[j - a] == s[j]);
    }
    lemma_window_digits_end(s, a, b, j, max);
    crate::scan::lemma_digits_end(s, j, max);
    let d = if j < max && s[j] == crate::chars::DIGIT_ZERO {
        j + 1
    } else {
        digits_end(s, j, max)
    };
    lemma_window_decimals_end(s, a, b, d, max);
    crate::scan::lemma_digits_end(s, d + 1, max);
    let e = decimals_end(s, d, max);
    lemma_window_exponent_end(s, a, b, e, max);
}

/// `scalar_end` over the window `[a, b)` is `scalar_end` over the slice, shifted by `a`.
pub proof fn lemma_window_scalar_end(s: Seq<u8>, a: int, b: int, i: int, max: int)
    requires
        0 <= a <= i,
        max <= b <= s.len(),
    ensures
        scalar_end(s, i, max) == shifted(scalar_end(s.subrange(a, b), i - a, max - a), a),
{
    let t = s.subrange(a, b);
    if i < max {
        assert(t[i - a] == s[i]);
        lemma_window_string_end(s, a, b, i, max);
        lemma_window_any_literal_end(s, a, b, i, max);
        lemma_window_number_end(s, a, b, i, max);
    }
}

/// `space_and_comma` over the window `[a, b)` is `space_and_comma` over the slice, shifted by `a`.
pub proof fn lemma_window_space_and_comma(s: Seq<u8>, a: int, b: int, i: int, max: int)
    requires
        0 <= a <= i,
        max <= b <= s.len(),
    ensures
        space_and_comma(s, i, max) == ({
            let r = space_and_comma(s.subrange(a, b), i - a, max - a);
            (r.0, r.1 + a)
        }),
{
    let t = s.subrange(a, b);
    lemma_window_space_end(s, a, b, i, max);
    crate::scan::lemma_space_end(s, i, max);
    let j = space_end(s, i, max);
    if j < max {
        assert(t[j - a] == s[j]);
        lemma_window_space_end(s, a, b, j + 1, max);
        crate::scan::lemma_space_end(s, j + 1, max);
        let k = space_end(s, j + 1, max);
        if k < max {
            assert(t[k - a] == s[k]);
        }
    }
}

/// `array_scalars` over the window `[a, b)` is `array_scalars` over the slice, shifted by `a`.
pub proof fn lemma_window_array_scalars(s: Seq<u8>, a: int, b: int, i: int, max: int)
    requires
        0 <= a <= i,
        max <= b <= s.len(),
    ensures
        array_scalars(s, i, max) == ({
            let r = array_scalars(s.subrange(a, b), i - a, max - a);
            (r.0, r.1 + a)
        }),
    decreases max - i,
{
    let t = s.subrange(a, b);
    if i < max {
        assert(t[i - a] == s[i]);
        if !crate::chars::is_open_bracket(s[i]) {
            lemma_window_scalar_end(s, a, b, i, max);
            crate::scan::lemma_scalar_end(s, i, max);
            if let Some(j) = scalar_end(s, i, max) {
                lemma_window_space_and_comma(s, a, b, j, max);
                crate::scan::lemma_space_and_comma(s, j, max);
                let (comma, k) = space_and_comma(s, j, max);
                if comma {
                    lemma_window_array_scalars(s, a, b, k, max);
                } else if k < max {
                    assert(t[k - a] == s[k]);
                }
            }
        }
    }
}

/// `object_scalars` over the window `[a, b)` is `object_scalars` over the slice, shifted by `a`.
#[verifier::spinoff_prover]
#[verifier::rlimit(50)]
pub proof fn lemma_window_object_scalars(
    s: Seq<u8>,
    a: int,
    b: int,
    i: int,
    max: int,
    committed: int,
)
    requires
        0 <= a <= i,
        max <= b <= s.len(),
    ensures
        object_scalars(s, i, max, committed) == ({
            let r = object_scalars(s.subrange(a, b), i - a, max - a, committed - a);
            (r.0, r.1 + a)
        }),
    decreases max - i,
{
    let t = s.subrange(a, b);
    if i < max {
        lemma_window_string_end(s, a, b, i, max);
        crate::scan::lemma_string_end(s, i, max);
        if let Some(j) = string_end(s, i, max) {
            lemma_window_space_end(s, a, b, j, max);
            crate::scan::lemma_space_end(s, j, max);
            let j1 = space_end(s, j, max);
            if j1 < max {
                assert(t[j1 - a] == s[j1]);
                lemma_window_space_end(s, a, b, j1 + 1, max);
                crate::scan::lemma_space_end(s, j1 + 1, max);
                let j2 = space_end(s, j1 + 1, max);
                if j2 < max {
                    assert(t[j2 - a] == s[j2]);
                }
                lemma_window_scalar_end(s, a, b, j2, max);
                crate::scan::lemma_scalar_end(s, j2, max);
                if let Some(j3) = scalar_end(s, j2, max) {
                    lemma_window_space_and_comma(s, a, b, j3, max);
                    crate::scan::lemma_space_and_comma(s, j3, max);
                    let (comma, j4) = space_and_comma(s, j3, max);
                    if comma {
                        lemma_window_object_scalars(s, a, b, j4, max, j4);
                    }
                }
            }
        }
    }
}

/// `scalars` over the window `[a, b)` is `scalars` over the slice, shifted by `a`.
pub proof fn lemma_window_scalars(s: Seq<u8>, a: int, b: int, i: int, max: int, mode: u8)
    requires
        0 <= a <= i,
        max <= b <= s.len(),
    ensures
        scalars(s, i, max, mode) == ({
            let r = scalars(s.subrange(a, b), i - a, max - a, mode);
            (r.0, r.1 + a)
        }),
{
    let t = s.subrange(a, b);
    lemma_window_space_end(s, a, b, i, max);
    crate::scan::lemma_space_end(s, i, max);
    let j = space_end(s, i, max);
    if j < max {
        assert(t[j - a] == s[j]);
        lemma_window_array_scalars(s, a, b, j, max);
        lemma_window_object_scalars(s, a, b, j, max, j);
    }
}

/// `collection` over the window `[a, b)` is `collection` over the slice, shifted by `a`.
#[verifier::spinoff_prover]
#[verifier::rlimit(50)]
pub proof fn lemma_window_collection(s: Seq<u8>, a: int, b: int, i: int, max: int, stack: Seq<u8>)
    requires
        0 <= a <= i,
        max <= b <= s.len(),
    ensures
        collection(s, i, max, stack) == ({
            let r = collection(s.subrange(a, b), i - a, max - a, stack);
            (r.0, r.1 + a)
        }),
    decreases max - i,
{
    let t = s.subrange(a, b);
    if i < max {
        assert(t[i - a] == s[i]);
        let c = s[i];
        let i1 = i + 1;
        if crate::chars::is_open_bracket(c) {
            if stack.len() < crate::validate::MAX_DEPTH {
                lemma_window_scalars(s, a, b, i1, max, c);
                crate::validate::lemma_scalars(s, i1, max, c);
                let (ok, i2) = scalars(s, i1, max, c);
                if ok {
                    lemma_window_collection(s, a, b, i2, max, stack.push(c));
                }
            }
        } else if crate::chars::is_close_bracket(c) {
            if stack.len() > 1 && crate::chars::is_matching_bracket(stack.last(), c) {
                let outer = stack.drop_last();
                let mode = outer.last();
                lemma_window_space_and_comma(s, a, b, i1, max);
                crate::scan::lemma_space_and_comma(s, i1, max);
                let (comma, i2) = space_and_comma(s, i1, max);
                lemma_window_scalars(s, a, b, i2, max, mode);
                crate::validate::lemma_scalars(s, i2, max, mode);
                if i2 < max {
                    assert(t[i2 - a] == s[i2]);
                }
                if comma {
                    let (ok, i3) = scalars(s, i2, max, mode);
                    if ok {
                        lemma_window_collection(s, a, b, i3, max, outer);
                    }
                } else {
                    lemma_window_collection(s, a, b, i2, max, outer);
                }
            }
        }
    }
}

/// `value_end` over the window `[a, b)` is `value_end` over the slice, shifted by `a`.
pub proof fn lemma_window_value_end(s: Seq<u8>, a: int, b: int, i: int, max: int)
    requires
        0 <= a <= i,
        max <= b <= s.len(),
    ensures
        value_end(s, i, max) == shifted(value_end(s.subrange(a, b), i - a, max - a), a),
{
    let t = s.subrange(a, b);
    if i < max {
        assert(t[i - a] == s[i]);
    }
    lemma_window_collection(s, a, b, i, max, Seq::<u8>::empty());
    lemma_window_scalar_end(s, a, b, i, max);
}

/// `pair_end` over the window `[a, b)` is `pair_end` over the slice, shifted by `a`.
pub proof fn lemma_window_pair_end(s: Seq<u8>, a: int, b: int, i: int, max: int)
    requires
        0 <= a <= i,
        max <= b <= s.len(),
    ensures
        pair_end(s, i, max) == match pair_end(s.subrange(a, b), i - a, max - a) {
            Some((j, k, kl, v, vl)) => Some((j + a, k + a, kl, v + a, vl)),
            None => None,
        },
{
    let t = s.subrange(a, b);
    lemma_window_string_end(s, a, b, i, max);
    crate::scan::lemma_string_end(s, i, max);
    if let Some(j) = string_end(s, i, max) {
        lemma_window_space_end(s, a, b, j, max);
        crate::scan::lemma_space_end(s, j, max);
        let j1 = space_end(s, j, max);
        if j1 < max {
            assert(t[j1 - a] == s[j1]);
        }
        lemma_window_space_end(s, a, b, j1 + 1, max);
        crate::scan::lemma_space_end(s, j1 + 1, max);
        lemma_window_value_end(s, a, b, space_end(s, j1 + 1, max), max);
    }
}

/// `object_members` over the window `[a, b)` is `object_members` over the slice, shifted by `a`.
pub proof fn lemma_window_object_members(
    s: Seq<u8>,
    a: int,
    b: int,
    i: int,
    max: int,
    query: Seq<u8>,
)
    requires
        0 <= a <= i,
        max <= b <= s.len(),
    ensures
        object_members(s, i, max, query) == match object_members(
            s.subrange(a, b),
            i - a,
            max - a,
            query,
        ) {
            Some((v, vl)) => Some((v + a, vl)),
            None => None,
        },
    decreases max - i,
{
    let t = s.subrange(a, b);
    if i < max {
        lemma_window_pair_end(s, a, b, i, max);
        crate::search::lemma_pair_end(s, i, max);
        if let Some((j, k, kl, v, vl)) = pair_end(s, i, max) {
            assert(s.subrange(k, k + kl) =~= t.subrange(k - a, k - a + kl));
            lemma_window_space_and_comma(s, a, b, j, max);
            crate::scan::lemma_space_and_comma(s, j, max);
            let (comma, j2) = space_and_comma(s, j, max);
            if comma {
                lemma_window_object_members(s, a, b, j2, max, query);
            }
        }
    }
}

/// `array_elements` over the window `[a, b)` is `array_elements` over the slice, shifted by `a`.
pub proof fn lemma_window_array_elements(
    s: Seq<u8>,
    a: int,
    b: int,
    i: int,
    max: int,
    index: int,
    current: int,
)
    requires
        0 <= a <= i,
        max <= b <= s.len(),
    ensures
        array_elements(s, i, max, index, current) == match array_elements(
            s.subrange(a, b),
            i - a,
            max - a,
            index,
            current,
        ) {
            Some((v, vl)) => Some((v + a, vl)),
            None => None,
        },
    decreases max - i,
{
    if i < max {
        lemma_window_value_end(s, a, b, i, max);
        crate::search::lemma_value_end(s, i, max);
        if let Some(j) = value_end(s, i, max) {
            lemma_window_space_and_comma(s, a, b, j, max);
            crate::scan::lemma_space_and_comma(s, j, max);
            let (comma, j2) = space_and_comma(s, j, max);
            if comma && current != u32::MAX {
                lemma_window_array_elements(s, a, b, j2, max, index, current + 1);
            }
        }
    }
}

/// `object_value` and `array_value` over the window `[a, b)` are the same over
/// the slice, shifted by `a`.
pub proof fn lemma_window_object_and_array_value(
    s: Seq<u8>,
    a: int,
    b: int,
    base: int,
    max: int,
    query: Seq<u8>,
    index: int,
)
    requires
        0 <= a <= base,
        max <= b <= s.len(),
    ensures
        object_value(s, base, max, query) == match object_value(
            s.subrange(a, b),
            base - a,
            max - a,
            query,
        ) {
            Some((v, vl)) => Some((v + a, vl)),
            None => None,
        },
        array_value(s, base, max, index) == match array_value(
            s.subrange(a, b),
            base - a,
            max - a,
            index,
        ) {
            Some((v, vl)) => Some((v + a, vl)),
            None => None,
        },
{
    let t = s.subrange(a, b);
    lemma_window_space_end(s, a, b, base, max);
    crate::scan::lemma_space_end(s, base, max);
    let i = space_end(s, base, max);
    if i < max {
        assert(t[i - a] == s[i]);
    }
    lemma_window_space_end(s, a, b, i + 1, max);
    crate::scan::lemma_space_end(s, i + 1, max);
    let m = space_end(s, i + 1, max);
    lemma_window_object_members(s, a, b, m, max, query);
    lemma_window_array_elements(s, a, b, m, max, index, 0);
}

/// A query walked over the window `[a, b)` of a buffer answers as it does over
/// the slice `buf[a..b]`, shifted by `a`.
#[verifier::spinoff_prover]
#[verifier::rlimit(50)]
pub proof fn lemma_window_query_walk(
    s: Seq<u8>,
    a: int,
    b: int,
    q: Seq<u8>,
    i: int,
    start: int,
    length: int,
)
    requires
        0 <= a <= start,
        start + length <= b <= s.len(),
    ensures
        query_walk(s, q, i, start, length) == match query_walk(
            s.subrange(a, b),
            q,
            i,
            start - a,
            length,
        ) {
            Ok((v, vl)) => Ok((v + a, vl)),
            Err(e) => Err(e),
        },
    decreases q.len() - i,
{
    let qn = q.len() as int;
    if 0 <= i < qn {
        if q[i] == crate::chars::OPEN_BRACKET {
            let (index, i2) = match digits_value(q, i + 1, qn) {
                Some((r, v)) => (v, r),
                None => (-1, i + 1),
            };
            lemma_window_object_and_array_value(
                s,
                a,
                b,
                start,
                start + length,
                Seq::<u8>::empty(),
                index,
            );
            crate::search::lemma_found_within(
                s,
                start,
                start + length,
                Seq::<u8>::empty(),
                index,
            );
            crate::scan::lemma_digits_end(q, i + 1, qn);
            if index >= 0 && i2 < qn && q[i2] == crate::chars::CLOSE_BRACKET {
                if let Some((v, vl)) = array_value(s, start, start + length, index) {
                    lemma_window_query_walk(s, a, b, q, after_part(q, i2 + 1), v, vl);
                }
            }
        } else {
            let r = crate::search::query_part_end(q, i, qn);
            crate::search::lemma_query_part_end(q, i, qn);
            if r > i && r != qn - 1 {
                let key = q.subrange(i, r);
                lemma_window_object_and_array_value(s, a, b, start, start + length, key, 0);
                crate::search::lemma_found_within(s, start, start + length, key, 0);
                if let Some((v, vl)) = object_value(s, start, start + length, key) {
                    lemma_window_query_walk(s, a, b, q, after_part(q, r), v, vl);
                }
            }
        }
    }
}

/// `query_part_end` over the window `[a, b)` is `query_part_end` over the slice, shifted by `a`.
pub proof fn lemma_window_query_part_end(q: Seq<u8>, a: int, b: int, i: int, max: int)
    requires
        0 <= a <= i,
        max <= b <= q.len(),
    ensures
        crate::search::query_part_end(q, i, max) == crate::search::query_part_end(
            q.subrange(a, b),
            i - a,
            max - a,
        ) + a,
    decreases max - i,
{
    let t = q.subrange(a, b);
    if i < max {
        assert(t[i - a] == q[i]);
        lemma_window_query_part_end(q, a, b, i + 1, max);
    }
}

} // verus!
