//! The scanners: each one reads a single JSON token starting at a cursor and,
//! when it recognises one, moves the cursor past it.
//!
//! Every scanner is given a bound `max` and reads nothing at or beyond it. Its
//! specification is a function from the bytes, the cursor and the bound to
//! where the token ends (`None` when there is no such token), and a scanner
//! that refuses leaves the cursor where it was.
use vstd::prelude::*;
use crate::chars::{
    count_high_bits, hex_to_int, is_ascii, is_close_bracket, is_cntrl, is_digit, is_high_surrogate,
    is_low_surrogate, is_open_bracket, is_space, shortest_utf8, BACKSLASH, COMMA, DIGIT_ZERO, DOT,
    LOWER_A, LOWER_B, LOWER_E, LOWER_F, LOWER_L, LOWER_N, LOWER_R, LOWER_S, LOWER_T, LOWER_U, MINUS,
    NOT_A_HEX_CHAR, PLUS, QUOTE, SLASH, UPPER_E,
};

verus! {

broadcast use vstd::slice::group_slice_axioms;

/// The smaller of a caller's bound and the buffer's length.
pub open spec fn clamp(max: int, len: int) -> int {
    if max < len { max } else { len }
}

/// The byte at `i`, or `None` past the end of the buffer.
pub(crate) fn at(buf: &[u8], i: usize) -> (r: Option<u8>)
    ensures
        r == (if i < buf@.len() { Some(buf@[i as int]) } else { None::<u8> }),
{
    if i < buf.len() {
        Some(buf[i])
    } else {
        None
    }
}

// ---- whitespace ------------------------------------------------------------

/// The first position at or after `i` that is not JSON whitespace, or `max`.
pub open spec fn space_end(s: Seq<u8>, i: int, max: int) -> int
    decreases max - i,
{
    if i < max && is_space(s[i]) {
        space_end(s, i + 1, max)
    } else {
        i
    }
}

/// `space_end` stops on the first byte that is not whitespace, and every byte
/// it passes over is whitespace.
pub proof fn lemma_space_end(s: Seq<u8>, i: int, max: int)
    ensures
        i <= space_end(s, i, max),
        i <= max ==> space_end(s, i, max) <= max,
        space_end(s, i, max) > i ==> space_end(s, i, max) <= max,
        space_end(s, i, max) < max ==> !is_space(s[space_end(s, i, max)]),
        forall|k: int| i <= k < space_end(s, i, max) ==> is_space(#[trigger] s[k]),
    decreases max - i,
{
    if i < max && is_space(s[i]) {
        lemma_space_end(s, i + 1, max);
    }
}

/// Moves the cursor past any whitespace.
pub(crate) fn skip_space(buf: &[u8], start: &mut usize, max: usize)
    requires
        max <= buf@.len(),
    ensures
        *final(start) == space_end(buf@, *old(start) as int, max as int),
{
    let mut i = *start;
    while i < max && is_space(buf[i])
        invariant
            max <= buf@.len(),
            space_end(buf@, i as int, max as int) == space_end(buf@, *old(start) as int, max as int),
        decreases max - i,
    {
        i = i + 1;
    }
    *start = i;
}

// ---- UTF-8 -----------------------------------------------------------------

/// A byte of the form `10xxxxxx`.
pub open spec fn is_continuation(c: u8) -> bool {
    0x80 <= c < 0xC0
}

/// The payload bits of a lead byte announcing a sequence of two, three or four
/// bytes.
pub open spec fn utf8_lead_value(b: u8) -> int {
    let n = count_high_bits(b);
    if n == 2 {
        b as int % 32
    } else if n == 3 {
        b as int % 16
    } else {
        b as int % 8
    }
}

/// The value decoded from the lead byte at `i` and the `k` bytes after it.
pub open spec fn utf8_value(s: Seq<u8>, i: int, k: nat) -> int
    decreases k,
{
    if k == 0 {
        utf8_lead_value(s[i])
    } else {
        utf8_value(s, i, (k - 1) as nat) * 64 + s[i + k] as int % 64
    }
}

/// Where a multi-byte UTF-8 sequence starting at `i` ends: the lead byte must
/// announce two to four bytes and not be one of the over-long or out-of-range
/// leads, every announced continuation byte must be there before `max`, and
/// the value must be encoded in its shortest form and not be a surrogate.
pub open spec fn utf8_multibyte_end(s: Seq<u8>, i: int, max: int) -> Option<int> {
    let b = s[i];
    let n = count_high_bits(b) as int;
    if 0xC1 < b < 0xF5 && i + n <= max && (forall|k: int|
        1 <= k < n ==> is_continuation(#[trigger] s[i + k])) && shortest_utf8(
        n as usize,
        utf8_value(s, i, (n - 1) as nat) as u32,
    ) {
        Some(i + n)
    } else {
        None
    }
}

/// The bit count and payload mask of a legal lead byte.
proof fn lemma_lead_bits(first: u8)
    requires
        0xC1 < first < 0xF5,
    ensures
        2 <= count_high_bits(first) <= 4,
        (1u32 << ((7 - count_high_bits(first)) as u32)) >= 1,
        (first as u32) & (((1u32 << ((7 - count_high_bits(first)) as u32)) - 1) as u32)
            == utf8_lead_value(first),
{
    let x = first as u32;
    if first < 0xE0 {
        assert(x & (((1u32 << 5u32) - 1) as u32) == x % 32) by (bit_vector);
        assert((1u32 << 5u32) >= 1) by (bit_vector);
    } else if first < 0xF0 {
        assert(x & (((1u32 << 4u32) - 1) as u32) == x % 16) by (bit_vector);
        assert((1u32 << 4u32) >= 1) by (bit_vector);
    } else {
        assert(x & (((1u32 << 3u32) - 1) as u32) == x % 8) by (bit_vector);
        assert((1u32 << 3u32) >= 1) by (bit_vector);
    }
}

/// The bit tests on a continuation byte, as arithmetic.
proof fn lemma_continuation_bits(c: u8)
    ensures
        ((c & 0xC0) == 0x80) == is_continuation(c),
        (c & 0x3F) as int == c as int % 64,
{
    assert(((c & 0xC0) == 0x80) == (0x80 <= c && c < 0xC0)) by (bit_vector);
    assert((c & 0x3F) == c % 64) by (bit_vector);
}

/// Appending six payload bits, as arithmetic.
proof fn lemma_shift_six(v: u32, c: u8)
    requires
        v < 0x40000,
    ensures
        (v << 6u32) | ((c & 0x3F) as u32) == v * 64 + (c & 0x3F),
        v * 64 + (c & 0x3F) < 0x1000000,
{
    assert(v < 0x40000 ==> (v << 6u32) | ((c & 0x3F) as u32) == v * 64 + (c & 0x3F)) by (bit_vector);
    assert((c & 0x3F) < 64) by (bit_vector);
}

/// Moves the cursor past one multi-byte UTF-8 sequence.
fn skip_utf8_multibyte(buf: &[u8], start: &mut usize, max: usize) -> (r: bool)
    requires
        max <= buf@.len(),
        *old(start) < max,
    ensures
        r == utf8_multibyte_end(buf@, *old(start) as int, max as int).is_some(),
        r ==> *final(start) == utf8_multibyte_end(buf@, *old(start) as int, max as int).unwrap(),
        !r ==> *final(start) == *old(start),
{
    let ghost s = buf@;
    let ghost from = *start as int;
    let mut i = *start;
    let first = match at(buf, i) {
        Some(c) => c,
        None => return false,
    };
    if !(first > 0xC1 && first < 0xF5) {
        return false;
    }
    proof {
        lemma_lead_bits(first);
    }
    let bit_count = count_high_bits(first);
    let shift = (7 - bit_count) as u32;
    let mut value: u32 = (first as u32) & ((1u32 << shift) - 1);
    let mut j = bit_count - 1;
    let ghost n = bit_count as int;
    assert(value == utf8_value(s, from, 0));
    while j > 0
        invariant_except_break
            i == from + (n - 1 - j),
            i < max,
        invariant
            max <= s.len(),
            s == buf@,
            2 <= n <= 4,
            n == count_high_bits(s[from]) as int,
            0xC1 < s[from] < 0xF5,
            from < max,
            j <= n - 1,
            forall|k: int| 1 <= k <= n - 1 - j ==> is_continuation(#[trigger] s[from + k]),
            value as int == utf8_value(s, from, (n - 1 - j) as nat),
            n - 1 - j == 0 ==> value < 32,
            n - 1 - j == 1 ==> value < 2048,
            n - 1 - j == 2 ==> value < 0x20000,
        ensures
            j == 0 ==> i == from + n - 1 && i < max,
            j > 0 ==> utf8_multibyte_end(s, from, max as int).is_none(),
        decreases j,
    {
        i = i + 1;
        if i >= max {
            break;
        }
        let c = match at(buf, i) {
            Some(c) => c,
            None => break,
        };
        proof {
            lemma_continuation_bits(c);
        }
        if (c & 0xC0) != 0x80 {
            assert(!is_continuation(s[from + (i - from)]));
            break;
        }
        proof {
            lemma_shift_six(value, c);
        }
        value = (value << 6) | ((c & 0x3F) as u32);
        j = j - 1;
        assert(value as int == utf8_value(s, from, (n - 1 - j) as nat));
    }
    if j == 0 && shortest_utf8(bit_count, value) {
        *start = i + 1;
        return true;
    }
    false
}

/// Where one UTF-8 encoded character starting at `i` ends.
pub open spec fn utf8_end(s: Seq<u8>, i: int, max: int) -> Option<int> {
    if i >= max {
        None
    } else if is_ascii(s[i]) {
        Some(i + 1)
    } else {
        utf8_multibyte_end(s, i, max)
    }
}

/// Moves the cursor past one UTF-8 encoded character.
fn skip_utf8(buf: &[u8], start: &mut usize, max: usize) -> (r: bool)
    requires
        max <= buf@.len(),
    ensures
        r == utf8_end(buf@, *old(start) as int, max as int).is_some(),
        r ==> *final(start) == utf8_end(buf@, *old(start) as int, max as int).unwrap(),
        !r ==> *final(start) == *old(start),
{
    if *start >= max {
        return false;
    }
    match at(buf, *start) {
        Some(c) => {
            if is_ascii(c) {
                *start = *start + 1;
                true
            } else {
                skip_utf8_multibyte(buf, start, max)
            }
        },
        None => false,
    }
}

// ---- escapes ---------------------------------------------------------------

/// The value of the `k` hex digits that follow `\u` at `i`.
pub open spec fn hex_value(s: Seq<u8>, i: int, k: nat) -> int
    decreases k,
{
    if k == 0 {
        0
    } else {
        hex_value(s, i, (k - 1) as nat) * 16 + hex_to_int(s[i + 1 + k]) as int
    }
}

/// Whether the `k` bytes after `\u` at `i` are all hex digits.
pub open spec fn hex_digits(s: Seq<u8>, i: int, k: int) -> bool {
    forall|m: int| 2 <= m < 2 + k ==> hex_to_int(#[trigger] s[i + m]) != NOT_A_HEX_CHAR
}

/// One `\uXXXX` escape at `i`: where it ends and the code unit it names. The
/// escape must be followed by at least one more byte before `max`, which a
/// string always has, for its closing quote.
pub open spec fn one_hex_escape(s: Seq<u8>, i: int, max: int) -> Option<(int, u16)> {
    if i + 6 < max && s[i] == BACKSLASH && s[i + 1] == LOWER_U && hex_digits(s, i, 4) {
        Some((i + 6, hex_value(s, i, 4) as u16))
    } else {
        None
    }
}

/// Appending a hex digit, as arithmetic.
proof fn lemma_shift_four(v: u16, d: u8)
    requires
        v < 0x1000,
        d < 16,
    ensures
        (v << 4u16) | (d as u16) == v * 16 + d,
{
    assert(v < 0x1000 && d < 16 ==> (v << 4u16) | (d as u16) == v * 16 + d) by (bit_vector);
}

/// Moves the cursor past one `\uXXXX` escape and reports the code unit.
fn skip_one_hex_escape(buf: &[u8], start: &mut usize, max: usize, out: &mut u16) -> (r: bool)
    requires
        max <= buf@.len(),
        *old(start) < max,
    ensures
        r == one_hex_escape(buf@, *old(start) as int, max as int).is_some(),
        r ==> *final(start) == one_hex_escape(buf@, *old(start) as int, max as int).unwrap().0
            && *final(out) == one_hex_escape(buf@, *old(start) as int, max as int).unwrap().1,
        !r ==> *final(start) == *old(start) && *final(out) == *old(out),
{
    let ghost s = buf@;
    let ghost from = *start as int;
    let mut i = *start;
    let end = i.saturating_add(6);
    let mut value: u16 = 0;
    if end > i && end < max && at(buf, i) == Some(BACKSLASH) && at(buf, i + 1) == Some(LOWER_U) {
        i = i + 2;
        while i < end
            invariant
                s == buf@,
                end == from + 6,
                end < max <= s.len(),
                from + 2 <= i <= end,
                hex_digits(s, from, i - from - 2),
                value as int == hex_value(s, from, (i - from - 2) as nat),
                i - from - 2 == 0 ==> value < 1,
                i - from - 2 == 1 ==> value < 16,
                i - from - 2 == 2 ==> value < 256,
                i - from - 2 == 3 ==> value < 4096,
                s[from] == BACKSLASH && s[from + 1] == LOWER_U,
            ensures
                i == end <==> hex_digits(s, from, 4),
                i == end ==> value as int == hex_value(s, from, 4),
            decreases end - i,
        {
            let c = match at(buf, i) {
                Some(c) => c,
                None => break,
            };
            let n = hex_to_int(c);
            if n == NOT_A_HEX_CHAR {
                assert(hex_to_int(s[from + (i - from)]) == NOT_A_HEX_CHAR);
                break;
            }
            proof {
                lemma_shift_four(value, n);
            }
            value = (value << 4) | (n as u16);
            i = i + 1;
        }
    }
    if i == end {
        *out = value;
        *start = i;
        return true;
    }
    false
}

/// A `\u` escape at `i`, or a surrogate pair of them: a high surrogate must be
/// followed at once by a low one, and a low surrogate on its own is refused.
pub open spec fn hex_escape_end(s: Seq<u8>, i: int, max: int) -> Option<int> {
    match one_hex_escape(s, i, max) {
        None => None,
        Some((j, v)) => if is_high_surrogate(v) {
            match one_hex_escape(s, j, max) {
                Some((k, w)) => if is_low_surrogate(w) {
                    Some(k)
                } else {
                    None
                },
                None => None,
            }
        } else if is_low_surrogate(v) {
            None
        } else {
            Some(j)
        },
    }
}

/// Moves the cursor past a `\u` escape or a surrogate pair of them.
fn skip_hex_escape(buf: &[u8], start: &mut usize, max: usize) -> (r: bool)
    requires
        max <= buf@.len(),
        *old(start) < max,
    ensures
        r == hex_escape_end(buf@, *old(start) as int, max as int).is_some(),
        r ==> *final(start) == hex_escape_end(buf@, *old(start) as int, max as int).unwrap(),
        !r ==> *final(start) == *old(start),
{
    let mut i = *start;
    let mut value: u16 = 0;
    let mut ret = false;
    if skip_one_hex_escape(buf, &mut i, max, &mut value) {
        if is_high_surrogate(value) {
            if skip_one_hex_escape(buf, &mut i, max, &mut value) && is_low_surrogate(value) {
                ret = true;
            }
        } else if is_low_surrogate(value) {
            // A low surrogate with no high one before it is refused.
        } else {
            ret = true;
        }
    }
    if ret {
        *start = i;
    }
    ret
}

/// The bytes that may follow a backslash on their own.
pub open spec fn is_simple_escape(c: u8) -> bool {
    c == QUOTE || c == BACKSLASH || c == SLASH || c == LOWER_B || c == LOWER_F || c == LOWER_N
        || c == LOWER_R || c == LOWER_T
}

/// Where the escape sequence at `i` ends.
pub open spec fn escape_end(s: Seq<u8>, i: int, max: int) -> Option<int> {
    if i < max - 1 && s[i] == BACKSLASH {
        if s[i + 1] == LOWER_U {
            hex_escape_end(s, i, max)
        } else if is_simple_escape(s[i + 1]) {
            Some(i + 2)
        } else {
            None
        }
    } else {
        None
    }
}

/// Moves the cursor past one escape sequence.
fn skip_escape(buf: &[u8], start: &mut usize, max: usize) -> (r: bool)
    requires
        max <= buf@.len(),
    ensures
        r == escape_end(buf@, *old(start) as int, max as int).is_some(),
        r ==> *final(start) == escape_end(buf@, *old(start) as int, max as int).unwrap(),
        !r ==> *final(start) == *old(start),
{
    let mut i = *start;
    let mut ret = false;
    if i < max.saturating_sub(1) && at(buf, i) == Some(BACKSLASH) {
        match at(buf, i + 1) {
            Some(c) => {
                if c == LOWER_U {
                    ret = skip_hex_escape(buf, &mut i, max);
                } else if c == QUOTE || c == BACKSLASH || c == SLASH || c == LOWER_B || c
                    == LOWER_F || c == LOWER_N || c == LOWER_R || c == LOWER_T {
                    i = i + 2;
                    ret = true;
                }
            },
            None => {},
        }
    }
    if ret {
        *start = i;
    }
    ret
}

// ---- strings ---------------------------------------------------------------

/// Where the rest of a string ends, from `i` just inside it: at the first
/// unescaped quote, provided everything before it is an escape sequence or a
/// well-formed UTF-8 character that is not a control character.
pub open spec fn string_body_end(s: Seq<u8>, i: int, max: int) -> Option<int>
    decreases max - i,
{
    if i >= max {
        None
    } else if s[i] == QUOTE {
        Some(i + 1)
    } else if s[i] == BACKSLASH {
        match escape_end(s, i, max) {
            Some(j) => string_body_end(s, j, max),
            None => None,
        }
    } else if is_cntrl(s[i]) {
        None
    } else {
        match utf8_end(s, i, max) {
            Some(j) => string_body_end(s, j, max),
            None => None,
        }
    }
}

/// Where the string starting at `i` ends, just past its closing quote.
pub open spec fn string_end(s: Seq<u8>, i: int, max: int) -> Option<int> {
    if i < max && s[i] == QUOTE {
        string_body_end(s, i + 1, max)
    } else {
        None
    }
}

/// A string ends on its closing quote, after at least its two quotes.
pub proof fn lemma_string_body_end(s: Seq<u8>, i: int, max: int)
    ensures
        string_body_end(s, i, max) matches Some(j) ==> i < j <= max && s[j - 1] == QUOTE,
    decreases max - i,
{
    if i < max && s[i] != QUOTE {
        if s[i] == BACKSLASH {
            if let Some(j) = escape_end(s, i, max) {
                lemma_string_body_end(s, j, max);
            }
        } else if !is_cntrl(s[i]) {
            if let Some(j) = utf8_end(s, i, max) {
                lemma_string_body_end(s, j, max);
            }
        }
    }
}

/// A string ends on its closing quote, after at least its two quotes.
pub proof fn lemma_string_end(s: Seq<u8>, i: int, max: int)
    ensures
        string_end(s, i, max) matches Some(j) ==> i + 2 <= j <= max && s[i] == QUOTE && s[j - 1]
            == QUOTE,
{
    lemma_string_body_end(s, i + 1, max);
}

/// Moves the cursor past a string, quotes included.
pub(crate) fn skip_string(buf: &[u8], start: &mut usize, max: usize) -> (r: bool)
    ensures
        r == string_end(buf@, *old(start) as int, clamp(max as int, buf@.len() as int)).is_some(),
        r ==> *final(start) == string_end(
            buf@,
            *old(start) as int,
            clamp(max as int, buf@.len() as int),
        ).unwrap(),
        !r ==> *final(start) == *old(start),
{
    let ghost s = buf@;
    let ghost from = *start as int;
    let mut i = *start;
    let mut ret = false;
    let max = if max < buf.len() {
        max
    } else {
        buf.len()
    };
    if i < max && at(buf, i) == Some(QUOTE) {
        i = i + 1;
        while i < max
            invariant_except_break
                !ret,
                string_body_end(s, i as int, max as int) == string_body_end(
                    s,
                    from + 1,
                    max as int,
                ),
            invariant
                s == buf@,
                max <= s.len(),
                from < i,
            ensures
                ret ==> string_body_end(s, from + 1, max as int) == Some(i as int),
                !ret ==> string_body_end(s, from + 1, max as int).is_none(),
            decreases max - i,
        {
            match at(buf, i) {
                Some(c) => {
                    if c == QUOTE {
                        ret = true;
                        i = i + 1;
                        break;
                    } else if c == BACKSLASH {
                        if !skip_escape(buf, &mut i, max) {
                            break;
                        }
                    } else if is_cntrl(c) {
                        break;
                    } else {
                        if !skip_utf8(buf, &mut i, max) {
                            break;
                        }
                    }
                },
                None => break,
            }
        }
    }
    if ret {
        *start = i;
    }
    ret
}

// ---- literals --------------------------------------------------------------

/// Whether `pattern` occurs in `buf` at `pos`.
pub(crate) fn bytes_match(buf: &[u8], pos: usize, pattern: &[u8]) -> (r: bool)
    requires
        pos + pattern@.len() <= buf@.len(),
    ensures
        r == (buf@.subrange(pos as int, pos + pattern@.len()) == pattern@),
{
    let mut k: usize = 0;
    while k < pattern.len()
        invariant
            pos + pattern@.len() <= buf@.len(),
            buf@.len() == buf.len(),
            k <= pattern@.len(),
            forall|m: int| 0 <= m < k ==> buf@[pos + m] == pattern@[m],
        decreases pattern@.len() - k,
    {
        if buf[pos + k] != pattern[k] {
            assert(buf@.subrange(pos as int, pos + pattern@.len())[k as int] != pattern@[k as int]);
            return false;
        }
        k = k + 1;
    }
    assert(buf@.subrange(pos as int, pos + pattern@.len()) =~= pattern@);
    true
}

/// Where `literal` ends when it occurs in full at `i`, before `max`.
pub open spec fn literal_end(s: Seq<u8>, i: int, max: int, literal: Seq<u8>) -> Option<int> {
    if i < max && literal.len() <= max - i && s.subrange(i, i + literal.len()) == literal {
        Some(i + literal.len())
    } else {
        None
    }
}

/// Moves the cursor past `literal` when it occurs there in full.
fn skip_literal(buf: &[u8], start: &mut usize, max: usize, literal: &[u8]) -> (r: bool)
    requires
        max <= buf@.len(),
    ensures
        r == literal_end(buf@, *old(start) as int, max as int, literal@).is_some(),
        r ==> *final(start) == literal_end(buf@, *old(start) as int, max as int, literal@).unwrap(),
        !r ==> *final(start) == *old(start),
{
    let from = *start;
    if from >= max || literal.len() > max - from {
        return false;
    }
    let end = from + literal.len();
    if bytes_match(buf, from, literal) {
        *start = end;
        return true;
    }
    false
}

/// The bytes of `true`.
pub open spec fn true_literal() -> Seq<u8> {
    seq![LOWER_T, LOWER_R, LOWER_U, LOWER_E]
}

/// The bytes of `false`.
pub open spec fn false_literal() -> Seq<u8> {
    seq![LOWER_F, LOWER_A, LOWER_L, LOWER_S, LOWER_E]
}

/// The bytes of `null`.
pub open spec fn null_literal() -> Seq<u8> {
    seq![LOWER_N, LOWER_U, LOWER_L, LOWER_L]
}

/// Where the `true`, `false` or `null` at `i` ends.
pub open spec fn any_literal_end(s: Seq<u8>, i: int, max: int) -> Option<int> {
    if i < max && s[i] == LOWER_T {
        literal_end(s, i, max, true_literal())
    } else if i < max && s[i] == LOWER_F {
        literal_end(s, i, max, false_literal())
    } else if i < max && s[i] == LOWER_N {
        literal_end(s, i, max, null_literal())
    } else {
        None
    }
}

/// Moves the cursor past `true`, `false` or `null`.
fn skip_any_literal(buf: &[u8], start: &mut usize, max: usize) -> (r: bool)
    requires
        max <= buf@.len(),
    ensures
        r == any_literal_end(buf@, *old(start) as int, max as int).is_some(),
        r ==> *final(start) == any_literal_end(buf@, *old(start) as int, max as int).unwrap(),
        !r ==> *final(start) == *old(start),
{
    let t: [u8; 4] = [LOWER_T, LOWER_R, LOWER_U, LOWER_E];
    let f: [u8; 5] = [LOWER_F, LOWER_A, LOWER_L, LOWER_S, LOWER_E];
    let n: [u8; 4] = [LOWER_N, LOWER_U, LOWER_L, LOWER_L];
    assert(t@ =~= true_literal());
    assert(f@ =~= false_literal());
    assert(n@ =~= null_literal());
    match at(buf, *start) {
        Some(c) => {
            if c == LOWER_T {
                skip_literal(buf, start, max, &t)
            } else if c == LOWER_F {
                skip_literal(buf, start, max, &f)
            } else if c == LOWER_N {
                skip_literal(buf, start, max, &n)
            } else {
                false
            }
        },
        None => false,
    }
}

// ---- numbers ---------------------------------------------------------------

/// The largest value an array index may reach, 2^31 - 9.
pub const MAX_INDEX_VALUE: i32 = 0x7FFF_FFF7;

/// The largest accumulator that can still take another digit: `MAX_INDEX_VALUE / 10`.
pub const MAX_FACTOR: i32 = 214_748_363;

/// The first position at or after `i` that is not a decimal digit, or `max`.
pub open spec fn digits_end(s: Seq<u8>, i: int, max: int) -> int
    decreases max - i,
{
    if i < max && is_digit(s[i]) {
        digits_end(s, i + 1, max)
    } else {
        i
    }
}

/// `digits_end` stops on the first byte that is not a digit, and every byte it
/// passes over is a digit.
pub proof fn lemma_digits_end(s: Seq<u8>, i: int, max: int)
    ensures
        i <= digits_end(s, i, max),
        i <= max ==> digits_end(s, i, max) <= max,
        digits_end(s, i, max) > i ==> digits_end(s, i, max) <= max,
        digits_end(s, i, max) < max ==> !is_digit(s[digits_end(s, i, max)]),
        forall|k: int| i <= k < digits_end(s, i, max) ==> is_digit(#[trigger] s[k]),
    decreases max - i,
{
    if i < max && is_digit(s[i]) {
        lemma_digits_end(s, i + 1, max);
    }
}

/// The value of a run of digits read as an array index. Once the accumulator
/// has passed `MAX_FACTOR` another digit latches it to -1, and it stays there.
pub open spec fn index_value(d: Seq<u8>) -> int
    decreases d.len(),
{
    if d.len() == 0 {
        0
    } else {
        let p = index_value(d.drop_last());
        if p > -1 {
            if p <= MAX_FACTOR {
                p * 10 + (d.last() - DIGIT_ZERO)
            } else {
                -1
            }
        } else {
            -1
        }
    }
}

/// The plain decimal value of a run of digits.
pub open spec fn decimal_value(d: Seq<u8>) -> nat
    decreases d.len(),
{
    if d.len() == 0 {
        0
    } else {
        decimal_value(d.drop_last()) * 10 + (d.last() - DIGIT_ZERO) as nat
    }
}

/// An array index is the decimal value of its digits when that is at most
/// `MAX_INDEX_VALUE`, and -1 otherwise: a huge index is refused, never wrapped.
pub proof fn lemma_index_value(d: Seq<u8>)
    requires
        forall|k: int| 0 <= k < d.len() ==> is_digit(#[trigger] d[k]),
    ensures
        decimal_value(d) <= MAX_INDEX_VALUE ==> index_value(d) == decimal_value(d),
        decimal_value(d) > MAX_INDEX_VALUE ==> index_value(d) == -1,
    decreases d.len(),
{
    if d.len() > 0 {
        let p = d.drop_last();
        assert forall|k: int| 0 <= k < p.len() implies is_digit(#[trigger] p[k]) by {
            assert(p[k] == d[k]);
        }
        lemma_index_value(p);
        assert(is_digit(d[d.len() - 1]));
    }
}

/// The range of an array index.
proof fn lemma_index_range(d: Seq<u8>)
    requires
        forall|k: int| 0 <= k < d.len() ==> is_digit(#[trigger] d[k]),
    ensures
        -1 <= index_value(d) <= MAX_INDEX_VALUE,
    decreases d.len(),
{
    if d.len() > 0 {
        let p = d.drop_last();
        assert forall|k: int| 0 <= k < p.len() implies is_digit(#[trigger] p[k]) by {
            assert(p[k] == d[k]);
        }
        lemma_index_range(p);
        assert(is_digit(d[d.len() - 1]));
    }
}

/// Where the run of digits at `i` ends and its value as an array index, or
/// `None` when there is no digit there.
pub open spec fn digits_value(s: Seq<u8>, i: int, max: int) -> Option<(int, int)> {
    let r = digits_end(s, i, max);
    if r > i {
        Some((r, index_value(s.subrange(i, r))))
    } else {
        None
    }
}

/// Moves the cursor past a run of digits and reports its value as an array
/// index (see `index_value`), or `None` when there is no digit.
pub(crate) fn skip_digits_value(buf: &[u8], start: &mut usize, max: usize) -> (r: Option<i32>)
    requires
        max <= buf@.len(),
    ensures
        r.is_some() == digits_value(buf@, *old(start) as int, max as int).is_some(),
        r matches Some(v) ==> *final(start) == digits_value(
            buf@,
            *old(start) as int,
            max as int,
        ).unwrap().0 && v == digits_value(buf@, *old(start) as int, max as int).unwrap().1,
        r is None ==> *final(start) == *old(start),
{
    let ghost s = buf@;
    let from = *start;
    let mut i = from;
    let mut value: i32 = 0;
    proof {
        lemma_digits_end(s, from as int, max as int);
    }
    while i < max && is_digit(buf[i])
        invariant
            s == buf@,
            max <= s.len(),
            from <= i,
            i > from ==> i <= max,
            digits_end(s, i as int, max as int) == digits_end(s, from as int, max as int),
            forall|k: int| from <= k < i ==> is_digit(#[trigger] s[k]),
            i > from ==> value as int == index_value(s.subrange(from as int, i as int)),
            i == from ==> value == 0,
            -1 <= value <= MAX_INDEX_VALUE,
        decreases max - i,
    {
        let c = buf[i];
        let ghost before = s.subrange(from as int, i as int);
        let ghost old_value = value;
        if value > -1 {
            let n = hex_to_int(c) as i32;
            value = if value <= MAX_FACTOR {
                value * 10 + n
            } else {
                -1
            };
        }
        i = i + 1;
        proof {
            let after = s.subrange(from as int, i as int);
            if i - 1 == from {
                assert(after.drop_last() =~= Seq::<u8>::empty());
            } else {
                assert(after.drop_last() =~= before);
            }
            assert(index_value(after.drop_last()) == old_value);
            assert(after.last() == c);
            assert(value as int == index_value(after));
            assert forall|k: int| 0 <= k < after.len() implies is_digit(#[trigger] after[k]) by {
                assert(after[k] == s[from + k]);
            }
            lemma_index_range(after);
        }
    }
    if i > from {
        *start = i;
        return Some(value);
    }
    None
}

/// Moves the cursor past a run of digits; the value is not wanted.
fn skip_digits(buf: &[u8], start: &mut usize, max: usize) -> (r: bool)
    requires
        max <= buf@.len(),
    ensures
        r == (digits_end(buf@, *old(start) as int, max as int) > *old(start)),
        *final(start) == digits_end(buf@, *old(start) as int, max as int),
{
    proof {
        lemma_digits_end(buf@, *start as int, max as int);
    }
    skip_digits_value(buf, start, max).is_some()
}

/// Where an optional fraction at `i` ends: a dot counts only when digits
/// follow it, so `1.` leaves the cursor on the dot.
pub open spec fn decimals_end(s: Seq<u8>, i: int, max: int) -> int {
    if i < max && s[i] == DOT && digits_end(s, i + 1, max) > i + 1 {
        digits_end(s, i + 1, max)
    } else {
        i
    }
}

/// Moves the cursor past an optional fraction.
fn skip_decimals(buf: &[u8], start: &mut usize, max: usize)
    requires
        max <= buf@.len(),
    ensures
        *final(start) == decimals_end(buf@, *old(start) as int, max as int),
{
    let mut i = *start;
    if i < max && at(buf, i) == Some(DOT) {
        i = i + 1;
        if skip_digits(buf, &mut i, max) {
            *start = i;
        }
    }
}

/// Where an optional exponent at `i` ends: `e` or `E`, an optional sign, and
/// at least one digit; a bare `e` leaves the cursor where it was.
pub open spec fn exponent_end(s: Seq<u8>, i: int, max: int) -> int {
    if i < max && (s[i] == LOWER_E || s[i] == UPPER_E) {
        let j = if i + 1 < max && (s[i + 1] == MINUS || s[i + 1] == PLUS) {
            i + 2
        } else {
            i + 1
        };
        if digits_end(s, j, max) > j {
            digits_end(s, j, max)
        } else {
            i
        }
    } else {
        i
    }
}

/// Moves the cursor past an optional exponent.
fn skip_exponent(buf: &[u8], start: &mut usize, max: usize)
    requires
        max <= buf@.len(),
    ensures
        *final(start) == exponent_end(buf@, *old(start) as int, max as int),
{
    let mut i = *start;
    if i < max && (at(buf, i) == Some(LOWER_E) || at(buf, i) == Some(UPPER_E)) {
        i = i + 1;
        if i < max && (at(buf, i) == Some(MINUS) || at(buf, i) == Some(PLUS)) {
            i = i + 1;
        }
        if skip_digits(buf, &mut i, max) {
            *start = i;
        }
    }
}

/// Where the number at `i` ends: an optional minus, then either a single zero
/// (no superfluous leading zeroes) or a run of digits, then an optional
/// fraction and an optional exponent.
pub open spec fn number_end(s: Seq<u8>, i: int, max: int) -> Option<int> {
    let j = if i < max && s[i] == MINUS {
        i + 1
    } else {
        i
    };
    if j < max && s[j] == DIGIT_ZERO {
        Some(exponent_end(s, decimals_end(s, j + 1, max), max))
    } else if j < max && digits_end(s, j, max) > j {
        Some(exponent_end(s, decimals_end(s, digits_end(s, j, max), max), max))
    } else {
        None
    }
}

/// A number is at least one byte long and ends within the bound.
pub proof fn lemma_number_end(s: Seq<u8>, i: int, max: int)
    ensures
        number_end(s, i, max) matches Some(j) ==> i < j <= max,
{
    let j = if i < max && s[i] == MINUS {
        i + 1
    } else {
        i
    };
    lemma_digits_end(s, j, max);
    lemma_digits_end(s, j + 1, max);
    let d = if j < max && s[j] == DIGIT_ZERO {
        j + 1
    } else {
        digits_end(s, j, max)
    };
    lemma_digits_end(s, d + 1, max);
    let e = decimals_end(s, d, max);
    lemma_digits_end(s, e + 1, max);
    lemma_digits_end(s, e + 2, max);
}

/// Moves the cursor past a number.
fn skip_number(buf: &[u8], start: &mut usize, max: usize) -> (r: bool)
    ensures
        r == number_end(buf@, *old(start) as int, clamp(max as int, buf@.len() as int)).is_some(),
        r ==> *final(start) == number_end(
            buf@,
            *old(start) as int,
            clamp(max as int, buf@.len() as int),
        ).unwrap(),
        !r ==> *final(start) == *old(start),
{
    let max = if max < buf.len() {
        max
    } else {
        buf.len()
    };
    let mut i = *start;
    let mut ret = false;
    if i < max && at(buf, i) == Some(MINUS) {
        i = i + 1;
    }
    if i < max {
        if at(buf, i) == Some(DIGIT_ZERO) {
            ret = true;
            i = i + 1;
        } else {
            ret = skip_digits(buf, &mut i, max);
        }
    }
    if ret {
        skip_decimals(buf, &mut i, max);
        skip_exponent(buf, &mut i, max);
        *start = i;
    }
    ret
}

// ---- any scalar ------------------------------------------------------------

/// Where the scalar at `i` ends. JSON is unambiguous at its first byte: a
/// string opens with a quote, a literal with `t`, `f` or `n`, and a number
/// with a minus or a digit.
pub open spec fn scalar_end(s: Seq<u8>, i: int, max: int) -> Option<int> {
    if i < max {
        let c = s[i];
        if c == QUOTE {
            string_end(s, i, max)
        } else if c == LOWER_T || c == LOWER_F || c == LOWER_N {
            any_literal_end(s, i, max)
        } else if c == MINUS || is_digit(c) {
            number_end(s, i, max)
        } else {
            None
        }
    } else {
        None
    }
}

/// A scalar is at least one byte long, ends within the bound, never opens
/// with a bracket, and a string scalar keeps both of its quotes.
pub proof fn lemma_scalar_end(s: Seq<u8>, i: int, max: int)
    ensures
        scalar_end(s, i, max) matches Some(j) ==> {
            &&& i < j <= max
            &&& !is_open_bracket(s[i])
            &&& s[i] == QUOTE ==> i + 2 <= j && s[j - 1] == QUOTE
        },
{
    lemma_string_end(s, i, max);
    lemma_number_end(s, i, max);
}

/// Moves the cursor past one scalar: a string, a literal or a number. The
/// bound is taken as no larger than the buffer.
pub fn skip_any_scalar(buf: &[u8], start: &mut usize, max: usize) -> (r: bool)
    ensures
        r == scalar_end(buf@, *old(start) as int, clamp(max as int, buf@.len() as int)).is_some(),
        r ==> *final(start) == scalar_end(
            buf@,
            *old(start) as int,
            clamp(max as int, buf@.len() as int),
        ).unwrap(),
        !r ==> *final(start) == *old(start),
{
    let max = if max < buf.len() {
        max
    } else {
        buf.len()
    };
    match at(buf, *start) {
        Some(c) => {
            if c == QUOTE {
                skip_string(buf, start, max)
            } else if c == LOWER_T || c == LOWER_F || c == LOWER_N {
                skip_any_literal(buf, start, max)
            } else if c == MINUS || is_digit(c) {
                skip_number(buf, start, max)
            } else {
                false
            }
        },
        None => false,
    }
}

// ---- separators ------------------------------------------------------------

/// Skips whitespace and then a comma, reporting `true` only when more content
/// follows the comma: a comma before a closing bracket answers `false`, which
/// is what makes a trailing comma illegal. The position is past the comma and
/// its whitespace on `true`, and past the first whitespace otherwise.
pub open spec fn space_and_comma(s: Seq<u8>, i: int, max: int) -> (bool, int) {
    let j = space_end(s, i, max);
    if j < max && s[j] == COMMA {
        let k = space_end(s, j + 1, max);
        if k < max && !is_close_bracket(s[k]) {
            (true, k)
        } else {
            (false, j)
        }
    } else {
        (false, j)
    }
}

/// Where `space_and_comma` may leave the cursor.
pub proof fn lemma_space_and_comma(s: Seq<u8>, i: int, max: int)
    ensures
        i <= space_and_comma(s, i, max).1,
        i <= max ==> space_and_comma(s, i, max).1 <= max,
        space_and_comma(s, i, max).1 > i ==> space_and_comma(s, i, max).1 <= max,
        space_and_comma(s, i, max).0 ==> i < space_and_comma(s, i, max).1 < max,
{
    lemma_space_end(s, i, max);
    lemma_space_end(s, space_end(s, i, max) + 1, max);
}

/// Skips whitespace and a comma that has more content after it.
pub(crate) fn skip_space_and_comma(buf: &[u8], start: &mut usize, max: usize) -> (r: bool)
    requires
        max <= buf@.len(),
    ensures
        r == space_and_comma(buf@, *old(start) as int, max as int).0,
        *final(start) == space_and_comma(buf@, *old(start) as int, max as int).1,
{
    proof {
        lemma_space_end(buf@, *start as int, max as int);
    }
    skip_space(buf, start, max);
    let mut i = *start;
    if i < max && at(buf, i) == Some(COMMA) {
        i = i + 1;
        skip_space(buf, &mut i, max);
        if i < max && !is_close_bracket(buf[i]) {
            *start = i;
            return true;
        }
    }
    false
}

} // verus!
