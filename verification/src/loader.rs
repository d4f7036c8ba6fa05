//! The task file format: UTF-8 text, one record per line, a header line
//! first, each record `id,name,priority,arrival,deadline,duration`.
//! Lines and fields are trimmed of Unicode white space; blank lines are
//! skipped; lines with fewer than six fields are skipped silently; a field
//! that is not an `i32`, or a value out of range, skips the line with a
//! warning; at most `MAX_TASKS` records are read.
//!
//! The format is read from the UTF-8 bytes of the text.  Line and field
//! separators are ASCII, so every position found here is a character
//! boundary of the text.

use vstd::prelude::*;
use vstd::string::StringSliceAdditionalSpecFns;
use crate::task::{Task, MAX_TASKS, MAX_NAME, ST_PENDING, kept_name_len, zero_bytes};
use vstd::utf8::{
    leading_byte_width_1, leading_byte_width_2, leading_byte_width_3, second_last_continuation_byte,
    last_continuation_byte, encode_scalar, encode_utf8,
};

verus! {

/// Byte of the line separator `\n`.
pub const NEWLINE: u8 = 10;
/// Byte of the field separator `,`.
pub const COMMA: u8 = 44;

/// Width in bytes of the white-space character that starts at `i` and ends
/// by `e`, or 0 when none does.  These are the UTF-8 encodings of the
/// characters with the Unicode `White_Space` property: U+0009..U+000D,
/// U+0020, U+0085, U+00A0, U+1680, U+2000..U+200A, U+2028, U+2029, U+202F,
/// U+205F and U+3000.
pub open spec fn ws_at(b: Seq<u8>, i: int, e: int) -> int {
    if 0 <= i < e && e <= b.len() && ((9 <= b[i] <= 13) || b[i] == 32) {
        1
    } else if 0 <= i && i + 2 <= e && e <= b.len() && b[i] == 0xC2 && (b[i + 1] == 0x85 || b[i + 1] == 0xA0) {
        2
    } else if 0 <= i && i + 3 <= e && e <= b.len() && is_ws3(b[i], b[i + 1], b[i + 2]) {
        3
    } else {
        0
    }
}

/// Three-byte encodings of white space.
pub open spec fn is_ws3(x: u8, y: u8, z: u8) -> bool {
    ||| x == 0xE1 && y == 0x9A && z == 0x80
    ||| x == 0xE2 && y == 0x80 && ((0x80 <= z <= 0x8A) || z == 0xA8 || z == 0xA9 || z == 0xAF)
    ||| x == 0xE2 && y == 0x81 && z == 0x9F
    ||| x == 0xE3 && y == 0x80 && z == 0x80
}

/// Width in bytes of the white-space character that ends at `j` and starts
/// at or after `s`, or 0 when none does.
pub open spec fn ws_before(b: Seq<u8>, s: int, j: int) -> int {
    if s <= j - 1 && ws_at(b, j - 1, j) == 1 {
        1
    } else if s <= j - 2 && ws_at(b, j - 2, j) == 2 {
        2
    } else if s <= j - 3 && ws_at(b, j - 3, j) == 3 {
        3
    } else {
        0
    }
}

/// Start of `[s, e)` once leading white space is removed.
pub open spec fn trim_start(b: Seq<u8>, s: int, e: int) -> int
    decreases e - s,
{
    if s < e && ws_at(b, s, e) > 0 {
        trim_start(b, s + ws_at(b, s, e), e)
    } else {
        s
    }
}

/// End of `[s, e)` once trailing white space is removed.
pub open spec fn trim_end(b: Seq<u8>, s: int, e: int) -> int
    decreases e - s,
{
    if s < e && ws_before(b, s, e) > 0 {
        trim_end(b, s, e - ws_before(b, s, e))
    } else {
        e
    }
}

/// `[s, e)` with white space removed from both ends.
pub open spec fn trimmed(b: Seq<u8>, s: int, e: int) -> (int, int) {
    let ts = trim_start(b, s, e);
    (ts, trim_end(b, ts, e))
}

/// First position at or after `i` holding `c`, or `e` when there is none
/// before `e`.
pub open spec fn find_from(b: Seq<u8>, i: int, e: int, c: u8) -> int
    decreases e - i,
{
    if i >= e {
        e
    } else if b[i] == c {
        i
    } else {
        find_from(b, i + 1, e, c)
    }
}

pub open spec fn is_digit(c: u8) -> bool {
    48 <= c <= 57
}

/// Decimal value of the digits in `[s, e)`.
pub open spec fn digits_value(b: Seq<u8>, s: int, e: int) -> int
    decreases e - s,
{
    if e <= s {
        0
    } else {
        digits_value(b, s, e - 1) * 10 + (b[e - 1] - 48)
    }
}

/// `[s, e)` read as an `i32` the way `str::parse::<i32>` reads it: an
/// optional `+` or `-`, then one or more ASCII digits, the value in range.
pub open spec fn parse_i32(b: Seq<u8>, s: int, e: int) -> Option<i32> {
    let signed = s < e && (b[s] == 43 || b[s] == 45);
    let ds = if signed { s + 1 } else { s };
    let v = if signed && b[s] == 45 { -digits_value(b, ds, e) } else { digits_value(b, ds, e) };
    if ds < e && (forall|i: int| ds <= i < e ==> is_digit(#[trigger] b[i])) && i32::MIN <= v <= i32::MAX {
        Some(v as i32)
    } else {
        None
    }
}

/// Ten to the power `k`.
pub open spec fn pow10(k: nat) -> int
    decreases k,
{
    if k == 0 {
        1
    } else {
        10 * pow10((k - 1) as nat)
    }
}

/// Decimal value of the ASCII digits `d`, read from the first digit on:
/// `d[0] * 10^(k-1) + d[1] * 10^(k-2) + ... + d[k-1]` for `k` digits.
pub open spec fn decimal_value(d: Seq<u8>) -> int
    decreases d.len(),
{
    if d.len() == 0 {
        0
    } else {
        (d[0] - 48) * pow10((d.len() - 1) as nat) + decimal_value(d.drop_first())
    }
}

/// `digits_value` read from the front: the first digit weighs `10^(k-1)`.
proof fn lemma_digits_front(b: Seq<u8>, s: int, e: int)
    requires
        0 <= s < e <= b.len(),
    ensures
        digits_value(b, s, e) == (b[s] - 48) * pow10((e - s - 1) as nat)
            + digits_value(b, s + 1, e),
    decreases e - s,
{
    if e > s + 1 {
        lemma_digits_front(b, s, e - 1);
        let k = (e - s - 1) as nat;
        let p = pow10((e - s - 2) as nat);
        assert((k - 1) as nat == (e - s - 2) as nat);
        assert(pow10(k) == 10 * pow10((k - 1) as nat));
        let x = b[s] - 48;
        let r = digits_value(b, s + 1, e - 1);
        assert(digits_value(b, s, e) == digits_value(b, s, e - 1) * 10 + (b[e - 1] - 48));
        assert(digits_value(b, s + 1, e) == r * 10 + (b[e - 1] - 48));
        assert((x * p + r) * 10 == x * (10 * p) + r * 10) by (nonlinear_arith);
    } else {
        assert(pow10(0) == 1);
        assert(digits_value(b, s, e) == digits_value(b, s, s) * 10 + (b[s] - 48));
    }
}

/// `digits_value` over `[s, e)` is the decimal value of those bytes.
proof fn lemma_digits_decimal(b: Seq<u8>, s: int, e: int)
    requires
        0 <= s <= e <= b.len(),
    ensures
        digits_value(b, s, e) == decimal_value(b.subrange(s, e)),
    decreases e - s,
{
    if s < e {
        lemma_digits_front(b, s, e);
        lemma_digits_decimal(b, s + 1, e);
        assert(b.subrange(s, e).drop_first() =~= b.subrange(s + 1, e));
    }
}

/// A number field is read as its decimal value, leading zeros included:
/// ASCII digits, optionally after a `+` or a `-`, whose value fits in
/// `i32` read as that value (negated after a `-`).
pub proof fn law_number_field(b: Seq<u8>, s: int, e: int)
    requires
        0 <= s < e <= b.len(),
    ensures
        (forall|i: int| s <= i < e ==> is_digit(#[trigger] b[i])) && decimal_value(b.subrange(s, e)) <= i32::MAX
            ==> parse_i32(b, s, e) == Some(decimal_value(b.subrange(s, e)) as i32),
        s + 1 < e && b[s] == 43 && (forall|i: int| s + 1 <= i < e ==> is_digit(#[trigger] b[i]))
            && decimal_value(b.subrange(s + 1, e)) <= i32::MAX ==> parse_i32(b, s, e) == Some(
            decimal_value(b.subrange(s + 1, e)) as i32,
        ),
        s + 1 < e && b[s] == 45 && (forall|i: int| s + 1 <= i < e ==> is_digit(#[trigger] b[i]))
            && -decimal_value(b.subrange(s + 1, e)) >= i32::MIN ==> parse_i32(b, s, e) == Some(
            (-decimal_value(b.subrange(s + 1, e))) as i32,
        ),
{
    lemma_digits_decimal(b, s, e);
    lemma_digits_decimal(b, s + 1, e);
    if forall|i: int| s <= i < e ==> is_digit(#[trigger] b[i]) {
        assert(is_digit(b[s]));
        lemma_digits_nonneg(b, s, e);
    }
    if s + 1 < e && (forall|i: int| s + 1 <= i < e ==> is_digit(#[trigger] b[i])) {
        lemma_digits_nonneg(b, s + 1, e);
    }
}

/// A zero in front of a number does not change it: the digits `[s, e)`
/// starting with `0` read as the digits after it.
pub proof fn law_leading_zero(b: Seq<u8>, s: int, e: int)
    requires
        0 <= s,
        s + 1 < e <= b.len(),
        b[s] == 48,
        forall|i: int| s + 1 <= i < e ==> is_digit(#[trigger] b[i]),
    ensures
        parse_i32(b, s, e) == parse_i32(b, s + 1, e),
{
    lemma_digits_front(b, s, e);
    assert(forall|i: int| s <= i < e ==> is_digit(#[trigger] b[i]));
    assert(b[s + 1] != 43 && b[s + 1] != 45);
}

proof fn lemma_digits_nonneg(b: Seq<u8>, s: int, e: int)
    requires
        0 <= s <= e <= b.len(),
        forall|i: int| s <= i < e ==> is_digit(#[trigger] b[i]),
    ensures
        digits_value(b, s, e) >= 0,
    decreases e - s,
{
    if s < e {
        lemma_digits_nonneg(b, s, e - 1);
    }
}

/// The characters with the Unicode `White_Space` property.
pub open spec fn is_white_space(c: char) -> bool {
    let v = c as u32;
    ||| 0x09 <= v <= 0x0D
    ||| v == 0x20
    ||| v == 0x85
    ||| v == 0xA0
    ||| v == 0x1680
    ||| 0x2000 <= v <= 0x200A
    ||| v == 0x2028
    ||| v == 0x2029
    ||| v == 0x202F
    ||| v == 0x205F
    ||| v == 0x3000
}

/// Every character of `w` is white space.
pub open spec fn all_white_space(w: Seq<char>) -> bool {
    forall|i: int| 0 <= i < w.len() ==> is_white_space(#[trigger] w[i])
}

/// An ASCII byte that is not white space.
pub open spec fn is_ascii_mark(x: u8) -> bool {
    x < 0x80 && !(9 <= x <= 13) && x != 32
}

/// The encoding of a white-space character, found at `i`, is read as one
/// white-space character of its width.
proof fn lemma_ws_char_at(b: Seq<u8>, i: int, e: int, c: char)
    requires
        is_white_space(c),
        0 <= i,
        i + encode_scalar(c as u32).len() <= e <= b.len(),
        b.subrange(i, i + encode_scalar(c as u32).len()) == encode_scalar(c as u32),
    ensures
        ws_at(b, i, e) == encode_scalar(c as u32).len(),
{
    lemma_ws_char_bytes(c);
    let enc = encode_scalar(c as u32);
    assert(b[i] == enc[0]);
    if enc.len() >= 2 {
        assert(b[i + 1] == enc[1]);
    }
    if enc.len() >= 3 {
        assert(b[i + 2] == enc[2]);
    }
}

/// The encoding of a white-space character, ending at `j`, is read as one
/// white-space character of its width.
proof fn lemma_ws_char_before(b: Seq<u8>, s: int, j: int, c: char)
    requires
        is_white_space(c),
        0 <= s,
        s + encode_scalar(c as u32).len() <= j <= b.len(),
        b.subrange(j - encode_scalar(c as u32).len(), j) == encode_scalar(c as u32),
    ensures
        ws_before(b, s, j) == encode_scalar(c as u32).len(),
{
    lemma_ws_char_bytes(c);
    let enc = encode_scalar(c as u32);
    let k = enc.len() as int;
    assert(b[j - k] == enc[0]);
    if k >= 2 {
        assert(b[j - k + 1] == enc[1]);
    }
    if k >= 3 {
        assert(b[j - k + 2] == enc[2]);
    }
}

/// The bytes of a white-space character: one ASCII white-space byte,
/// `C2 85` or `C2 A0`, or three bytes that `is_ws3` accepts, the last two
/// being continuation bytes.
proof fn lemma_ws_char_bytes(c: char)
    requires
        is_white_space(c),
    ensures
        ({
            let enc = encode_scalar(c as u32);
            ||| enc.len() == 1 && ((9 <= enc[0] <= 13) || enc[0] == 32)
            ||| enc.len() == 2 && enc[0] == 0xC2 && (enc[1] == 0x85 || enc[1] == 0xA0)
            ||| enc.len() == 3 && is_ws3(enc[0], enc[1], enc[2]) && 0x80 <= enc[1] <= 0xBF && 0x80 <= enc[2]
                <= 0xBF
        }),
{
    let v = c as u32;
    if v <= 0x7F {
        assert(leading_byte_width_1(v) == v as u8) by (bit_vector)
            requires
                v <= 0x7F,
        ;
    } else if v <= 0xFF {
        assert(leading_byte_width_2(v) == 0xC2u8 && last_continuation_byte(v) == v as u8) by (bit_vector)
            requires
                0x80 <= v <= 0xBF,
        ;
    } else if v == 0x1680 {
        assert(leading_byte_width_3(v) == 0xE1u8 && second_last_continuation_byte(v) == 0x9Au8
            && last_continuation_byte(v) == 0x80u8) by (bit_vector)
            requires
                v == 0x1680,
        ;
    } else if v <= 0x203F {
        assert(leading_byte_width_3(v) == 0xE2u8 && second_last_continuation_byte(v) == 0x80u8
            && last_continuation_byte(v) == (0x80u32 + (v - 0x2000u32)) as u8) by (bit_vector)
            requires
                0x2000 <= v <= 0x203F,
        ;
    } else if v == 0x205F {
        assert(leading_byte_width_3(v) == 0xE2u8 && second_last_continuation_byte(v) == 0x81u8
            && last_continuation_byte(v) == 0x9Fu8) by (bit_vector)
            requires
                v == 0x205F,
        ;
    } else {
        assert(leading_byte_width_3(v) == 0xE3u8 && second_last_continuation_byte(v) == 0x80u8
            && last_continuation_byte(v) == 0x80u8) by (bit_vector)
            requires
                v == 0x3000,
        ;
    }
}

proof fn lemma_encode_push(a: Seq<char>, c: char)
    ensures
        encode_utf8(a.push(c)) == encode_utf8(a) + encode_scalar(c as u32),
    decreases a.len(),
{
    if a.len() == 0 {
        assert(a.push(c).drop_first() =~= Seq::<char>::empty());
        assert(encode_utf8(Seq::<char>::empty()) == Seq::<u8>::empty());
        assert(encode_scalar(c as u32) + Seq::<u8>::empty() =~= encode_scalar(c as u32));
        assert(a.push(c)[0] == c);
    } else {
        assert(a.push(c).drop_first() =~= a.drop_first().push(c));
        assert(a.push(c)[0] == a[0]);
        lemma_encode_push(a.drop_first(), c);
        assert(encode_utf8(a.push(c)) =~= encode_utf8(a) + encode_scalar(c as u32));
    }
}

/// White space `w` at `p` in front of an ASCII mark is removed by trimming
/// the start of `[p, q)`.
proof fn lemma_trim_start_ws(b: Seq<u8>, p: int, q: int, w: Seq<char>)
    requires
        all_white_space(w),
        0 <= p,
        p + encode_utf8(w).len() < q <= b.len(),
        b.subrange(p, p + encode_utf8(w).len()) == encode_utf8(w),
        is_ascii_mark(b[p + encode_utf8(w).len()]),
    ensures
        trim_start(b, p, q) == p + encode_utf8(w).len(),
    decreases w.len(),
{
    if w.len() == 0 {
        assert(ws_at(b, p, q) == 0);
    } else {
        let c = w[0];
        let rest = w.drop_first();
        let k = encode_scalar(c as u32).len() as int;
        let n = encode_utf8(w).len() as int;
        assert(encode_utf8(w) == encode_scalar(c as u32) + encode_utf8(rest));
        assert(b.subrange(p, p + k) =~= encode_utf8(w).subrange(0, k));
        assert(encode_utf8(w).subrange(0, k) =~= encode_scalar(c as u32));
        assert(is_white_space(w[0]));
        lemma_ws_char_at(b, p, q, c);
        assert(b.subrange(p + k, p + n) =~= encode_utf8(w).subrange(k, n));
        assert(encode_utf8(w).subrange(k, n) =~= encode_utf8(rest));
        assert forall|i: int| 0 <= i < rest.len() implies is_white_space(#[trigger] rest[i]) by {
            assert(rest[i] == w[i + 1]);
        }
        lemma_trim_start_ws(b, p + k, q, rest);
    }
}

/// White space `w` ending at `q` after an ASCII mark is removed by trimming
/// the end of `[p, q)`.
proof fn lemma_trim_end_ws(b: Seq<u8>, p: int, q: int, w: Seq<char>)
    requires
        all_white_space(w),
        0 <= p,
        p + encode_utf8(w).len() < q <= b.len(),
        b.subrange(q - encode_utf8(w).len(), q) == encode_utf8(w),
        is_ascii_mark(b[q - encode_utf8(w).len() - 1]),
    ensures
        trim_end(b, p, q) == q - encode_utf8(w).len(),
    decreases w.len(),
{
    if w.len() == 0 {
        assert(ws_at(b, q - 1, q) == 0);
        assert(ws_before(b, p, q) == 0);
    } else {
        let c = w.last();
        let rest = w.drop_last();
        assert(w == rest.push(c));
        lemma_encode_push(rest, c);
        let k = encode_scalar(c as u32).len() as int;
        let n = encode_utf8(w).len() as int;
        let m = encode_utf8(rest).len() as int;
        assert(n == m + k);
        assert(b.subrange(q - k, q) =~= encode_utf8(w).subrange(m, n));
        assert(encode_utf8(w).subrange(m, n) =~= encode_scalar(c as u32));
        assert(is_white_space(w[w.len() - 1]));
        lemma_ws_char_before(b, p, q, c);
        assert(b.subrange(q - k - m, q - k) =~= encode_utf8(w).subrange(0, m));
        assert(encode_utf8(w).subrange(0, m) =~= encode_utf8(rest));
        assert forall|i: int| 0 <= i < rest.len() implies is_white_space(#[trigger] rest[i]) by {
            assert(rest[i] == w[i]);
        }
        lemma_trim_end_ws(b, p, q - k, rest);
    }
}

/// Bytes `[s, e)` made of white space `w1`, then `core`, then white space
/// `w2`, where `core` begins and ends with an ASCII byte that is not white
/// space, trim to exactly `core`.
pub proof fn law_trim_padded(b: Seq<u8>, s: int, e: int, w1: Seq<char>, core: Seq<u8>, w2: Seq<char>)
    requires
        0 <= s <= e <= b.len(),
        all_white_space(w1),
        all_white_space(w2),
        core.len() > 0,
        is_ascii_mark(core[0]),
        is_ascii_mark(core[core.len() - 1]),
        b.subrange(s, e) == encode_utf8(w1) + core + encode_utf8(w2),
    ensures
        trimmed(b, s, e) == (s + encode_utf8(w1).len(), e - encode_utf8(w2).len()),
        trimmed(b, s, e).0 + core.len() == trimmed(b, s, e).1,
        b.subrange(trimmed(b, s, e).0, trimmed(b, s, e).1) == core,
{
    let n1 = encode_utf8(w1).len() as int;
    let n2 = encode_utf8(w2).len() as int;
    let all = encode_utf8(w1) + core + encode_utf8(w2);
    assert(all.len() == n1 + core.len() + n2);
    assert(b.subrange(s, e).len() == e - s);
    assert(e - s == n1 + core.len() + n2);
    assert(b.subrange(s, s + n1) =~= all.subrange(0, n1));
    assert(all.subrange(0, n1) =~= encode_utf8(w1));
    assert(b[s + n1] == all[n1]);
    assert(all[n1] == core[0]);
    lemma_trim_start_ws(b, s, e, w1);
    let ts = s + n1;
    assert(b.subrange(e - n2, e) =~= all.subrange(n1 + core.len(), n1 + core.len() + n2));
    assert(all.subrange(n1 + core.len(), n1 + core.len() + n2) =~= encode_utf8(w2));
    assert(b[e - n2 - 1] == all[n1 + core.len() - 1]);
    assert(all[n1 + core.len() - 1] == core[core.len() - 1]);
    lemma_trim_end_ws(b, ts, e, w2);
    assert forall|i: int| 0 <= i < core.len() implies #[trigger] b.subrange(ts, e - n2)[i] == core[i] by {
        assert(b.subrange(ts, e - n2)[i] == b[ts + i]);
        assert(b[ts + i] == b.subrange(s, e)[n1 + i]);
        assert(all[n1 + i] == core[i]);
    }
    assert(b.subrange(ts, e - n2) =~= core);
}

/// A number field padded with white space reads as its number: bytes
/// `[s, e)` made of white space, ASCII digits worth at most `i32::MAX`,
/// and white space read, once trimmed, as the digits' decimal value.
pub proof fn law_padded_number(b: Seq<u8>, s: int, e: int, w1: Seq<char>, d: Seq<u8>, w2: Seq<char>)
    requires
        0 <= s <= e <= b.len(),
        all_white_space(w1),
        all_white_space(w2),
        d.len() > 0,
        forall|i: int| 0 <= i < d.len() ==> is_digit(#[trigger] d[i]),
        decimal_value(d) <= i32::MAX,
        b.subrange(s, e) == encode_utf8(w1) + d + encode_utf8(w2),
    ensures
        parse_i32(b, trimmed(b, s, e).0, trimmed(b, s, e).1) == Some(decimal_value(d) as i32),
{
    assert(is_digit(d[0]));
    assert(is_digit(d[d.len() - 1]));
    law_trim_padded(b, s, e, w1, d, w2);
    let t = trimmed(b, s, e);
    assert forall|i: int| t.0 <= i < t.1 implies is_digit(#[trigger] b[i]) by {
        assert(b[i] == b.subrange(t.0, t.1)[i - t.0]);
    }
    law_number_field(b, t.0, t.1);
}

proof fn lemma_trim_start_bounds(b: Seq<u8>, s: int, e: int)
    requires
        s <= e,
    ensures
        s <= trim_start(b, s, e) <= e,
    decreases e - s,
{
    if s < e && ws_at(b, s, e) > 0 {
        lemma_trim_start_bounds(b, s + ws_at(b, s, e), e);
    }
}

proof fn lemma_trim_end_bounds(b: Seq<u8>, s: int, e: int)
    requires
        s <= e,
    ensures
        s <= trim_end(b, s, e) <= e,
    decreases e - s,
{
    if s < e && ws_before(b, s, e) > 0 {
        lemma_trim_end_bounds(b, s, e - ws_before(b, s, e));
    }
}

pub proof fn lemma_find_bounds(b: Seq<u8>, i: int, e: int, c: u8)
    requires
        i <= e,
    ensures
        i <= find_from(b, i, e, c) <= e,
        find_from(b, i, e, c) < e ==> b[find_from(b, i, e, c)] == c,
    decreases e - i,
{
    if i < e && b[i] != c {
        lemma_find_bounds(b, i + 1, e, c);
    }
}

/// Width of the white-space character at `i` within `[i, e)`.
fn ws_width_at(b: &[u8], i: usize, e: usize) -> (w: usize)
    requires
        i <= e <= b@.len(),
    ensures
        w == ws_at(b@, i as int, e as int),
{
    if i >= e {
        return 0;
    }
    let x = b[i];
    if (9 <= x && x <= 13) || x == 32 {
        return 1;
    }
    if e - i >= 2 && x == 0xC2 && (b[i + 1] == 0x85 || b[i + 1] == 0xA0) {
        return 2;
    }
    if e - i >= 3 {
        let y = b[i + 1];
        let z = b[i + 2];
        if (x == 0xE1 && y == 0x9A && z == 0x80) || (x == 0xE2 && y == 0x80 && ((0x80 <= z && z
            <= 0x8A) || z == 0xA8 || z == 0xA9 || z == 0xAF)) || (x == 0xE2 && y == 0x81 && z
            == 0x9F) || (x == 0xE3 && y == 0x80 && z == 0x80) {
            return 3;
        }
    }
    0
}

/// Width of the white-space character ending at `j` within `[s, j)`.
fn ws_width_before(b: &[u8], s: usize, j: usize) -> (w: usize)
    requires
        s <= j <= b@.len(),
    ensures
        w == ws_before(b@, s as int, j as int),
{
    if j - s >= 1 && ws_width_at(b, j - 1, j) == 1 {
        return 1;
    }
    if j - s >= 2 && ws_width_at(b, j - 2, j) == 2 {
        return 2;
    }
    if j - s >= 3 && ws_width_at(b, j - 3, j) == 3 {
        return 3;
    }
    0
}

/// `[s, e)` trimmed of white space at both ends.
pub fn trim_range(b: &[u8], s: usize, e: usize) -> (r: (usize, usize))
    requires
        s <= e <= b@.len(),
    ensures
        r.0 == trimmed(b@, s as int, e as int).0,
        r.1 == trimmed(b@, s as int, e as int).1,
        s <= r.0 <= r.1 <= e,
{
    let mut ts = s;
    while ts < e && ws_width_at(b, ts, e) > 0
        invariant
            s <= ts <= e <= b@.len(),
            trim_start(b@, s as int, e as int) == trim_start(b@, ts as int, e as int),
        decreases e - ts,
    {
        ts = ts + ws_width_at(b, ts, e);
    }
    let mut te = e;
    while te > ts && ws_width_before(b, ts, te) > 0
        invariant
            ts <= te <= e <= b@.len(),
            trim_end(b@, ts as int, e as int) == trim_end(b@, ts as int, te as int),
        decreases te - ts,
    {
        te = te - ws_width_before(b, ts, te);
    }
    (ts, te)
}

/// First position in `[i, e)` holding `c`, or `e`.
pub fn find_byte(b: &[u8], i: usize, e: usize, c: u8) -> (r: usize)
    requires
        i <= e <= b@.len(),
    ensures
        r == find_from(b@, i as int, e as int, c),
        i <= r <= e,
{
    let mut k = i;
    while k < e && b[k] != c
        invariant
            i <= k <= e <= b@.len(),
            find_from(b@, i as int, e as int, c) == find_from(b@, k as int, e as int, c),
        decreases e - k,
    {
        k = k + 1;
    }
    proof {
        lemma_find_bounds(b@, i as int, e as int, c);
    }
    k
}

proof fn lemma_digits_monotone(b: Seq<u8>, s: int, k: int, e: int)
    requires
        s <= k <= e,
        forall|i: int| s <= i < e ==> is_digit(#[trigger] b[i]),
    ensures
        digits_value(b, s, k) <= digits_value(b, s, e),
        0 <= digits_value(b, s, k),
    decreases e - s,
{
    if e > k {
        lemma_digits_monotone(b, s, k, e - 1);
    } else if k > s {
        lemma_digits_monotone(b, s, k - 1, k - 1);
    }
}

/// `[s, e)` read as an `i32`, as `str::parse::<i32>` reads it.
pub fn parse_i32_range(b: &[u8], s: usize, e: usize) -> (r: Option<i32>)
    requires
        s <= e <= b@.len(),
    ensures
        r == parse_i32(b@, s as int, e as int),
{
    let signed = s < e && (b[s] == 43 || b[s] == 45);
    let negative = signed && b[s] == 45;
    let ds = if signed { s + 1 } else { s };
    if ds >= e {
        return None;
    }
    let mut acc: i64 = 0;
    let mut i = ds;
    while i < e
        invariant
            s <= ds < e <= b@.len(),
            ds == (if s < e && (b@[s as int] == 43 || b@[s as int] == 45) { s + 1 } else { s as int }),
            ds <= i <= e,
            forall|k: int| ds <= k < i ==> is_digit(#[trigger] b@[k]),
            acc == digits_value(b@, ds as int, i as int),
            0 <= acc <= 0x8000_0000,
        decreases e - i,
    {
        let c = b[i];
        if c < 48 || c > 57 {
            proof {
                assert(!is_digit(b@[i as int]));
            }
            return None;
        }
        acc = acc * 10 + (c - 48) as i64;
        i = i + 1;
        if acc > 0x8000_0000 {
            proof {
                if forall|k: int| ds <= k < e ==> is_digit(#[trigger] b@[k]) {
                    lemma_digits_monotone(b@, ds as int, i as int, e as int);
                }
            }
            return None;
        }
    }
    let v = if negative { -acc } else { acc };
    if v < -0x8000_0000 || v > 0x7fff_ffff {
        return None;
    }
    Some(v as i32)
}

/// The numeric columns of a record.
#[derive(PartialEq, Eq, Structural, Clone, Copy, Debug)]
pub enum CsvField {
    Id,
    Priority,
    Arrival,
    Deadline,
    Duration,
}

/// Why a line was passed over.
#[derive(PartialEq, Eq, Structural, Clone, Copy, Debug)]
pub enum LoadWarning {
    /// `MAX_TASKS` records were read; the rest of the text is ignored.
    TooManyTasks,
    /// The field in bytes `[start, end)` of the text is not an `i32`.
    BadNumber { field: CsvField, start: usize, end: usize },
    /// The field holds `value`, which is out of range: id and deadline and
    /// duration must be positive, priority within 1..=4, arrival not
    /// negative.
    OutOfRange { field: CsvField, value: i32 },
}

/// The search for `x` from `i` finds the first `x` in `[i, e)`.
proof fn lemma_find_first(b: Seq<u8>, i: int, e: int, x: u8, c: int)
    requires
        0 <= i <= c < e <= b.len(),
        b[c] == x,
        forall|k: int| i <= k < c ==> #[trigger] b[k] != x,
    ensures
        find_from(b, i, e, x) == c,
    decreases c - i,
{
    if i < c {
        lemma_find_first(b, i + 1, e, x, c);
    }
}

/// The values of an accepted record; the name is bytes `[name_start,
/// name_end)` of the text.
#[derive(PartialEq, Eq, Structural, Clone, Copy, Debug)]
pub struct ParsedRow {
    pub id: i32,
    pub name_start: usize,
    pub name_end: usize,
    pub priority: i32,
    pub arrival: i32,
    pub deadline: i32,
    pub duration: i32,
}

/// What a non-blank record line gives.
#[derive(PartialEq, Eq, Structural, Clone, Copy, Debug)]
pub enum RowParse {
    /// Fewer than six fields.
    Skipped,
    Rejected(LoadWarning),
    Accepted(ParsedRow),
}

/// Start of field `k` of the line `[s, e)`.
pub open spec fn piece_start(b: Seq<u8>, s: int, e: int, k: nat) -> int
    decreases k,
{
    if k == 0 {
        s
    } else {
        find_from(b, piece_start(b, s, e, (k - 1) as nat), e, COMMA) + 1
    }
}

/// End of field `k` of the line `[s, e)`: the next comma or the line end.
pub open spec fn piece_end(b: Seq<u8>, s: int, e: int, k: nat) -> int {
    find_from(b, piece_start(b, s, e, k), e, COMMA)
}

/// Field `k` of the line `[s, e)`, trimmed.
pub open spec fn field(b: Seq<u8>, s: int, e: int, k: nat) -> (int, int) {
    trimmed(b, piece_start(b, s, e, k), piece_end(b, s, e, k))
}

/// The line `[s, e)` has at least six fields (five commas).
pub open spec fn has_six_fields(b: Seq<u8>, s: int, e: int) -> bool {
    &&& piece_end(b, s, e, 0) < e
    &&& piece_end(b, s, e, 1) < e
    &&& piece_end(b, s, e, 2) < e
    &&& piece_end(b, s, e, 3) < e
    &&& piece_end(b, s, e, 4) < e
}

pub open spec fn bad_number(f: CsvField, r: (int, int)) -> RowParse {
    RowParse::Rejected(LoadWarning::BadNumber { field: f, start: r.0 as usize, end: r.1 as usize })
}

pub open spec fn out_of_range(f: CsvField, v: i32) -> RowParse {
    RowParse::Rejected(LoadWarning::OutOfRange { field: f, value: v })
}

/// The reading of the trimmed record line `[s, e)`: the numbers are parsed
/// in the order id, priority, arrival, deadline, duration, then checked in
/// the same order; the first failure decides the warning.
pub open spec fn row_parse(b: Seq<u8>, s: int, e: int) -> RowParse {
    if !has_six_fields(b, s, e) {
        RowParse::Skipped
    } else {
        let f0 = field(b, s, e, 0);
        let f1 = field(b, s, e, 1);
        let f2 = field(b, s, e, 2);
        let f3 = field(b, s, e, 3);
        let f4 = field(b, s, e, 4);
        let f5 = field(b, s, e, 5);
        match parse_i32(b, f0.0, f0.1) {
            None => bad_number(CsvField::Id, f0),
            Some(id) => match parse_i32(b, f2.0, f2.1) {
                None => bad_number(CsvField::Priority, f2),
                Some(pri) => match parse_i32(b, f3.0, f3.1) {
                    None => bad_number(CsvField::Arrival, f3),
                    Some(arr) => match parse_i32(b, f4.0, f4.1) {
                        None => bad_number(CsvField::Deadline, f4),
                        Some(dead) => match parse_i32(b, f5.0, f5.1) {
                            None => bad_number(CsvField::Duration, f5),
                            Some(dur) => if id <= 0 {
                                out_of_range(CsvField::Id, id)
                            } else if pri < 1 || pri > 4 {
                                out_of_range(CsvField::Priority, pri)
                            } else if arr < 0 {
                                out_of_range(CsvField::Arrival, arr)
                            } else if dead <= 0 {
                                out_of_range(CsvField::Deadline, dead)
                            } else if dur <= 0 {
                                out_of_range(CsvField::Duration, dur)
                            } else {
                                RowParse::Accepted(
                                    ParsedRow {
                                        id: id,
                                        name_start: f1.0 as usize,
                                        name_end: f1.1 as usize,
                                        priority: pri,
                                        arrival: arr,
                                        deadline: dead,
                                        duration: dur,
                                    },
                                )
                            },
                        },
                    },
                },
            },
        }
    }
}

/// The name of a record is its whole second field with only the white
/// space at its ends removed: when the line `[s, e)` has its first comma at
/// `c1` and its second at `c2`, and the bytes between them are white space
/// `w1`, then a name `nm` beginning and ending with an ASCII byte that is
/// not white space (white space inside it included), then white space
/// `w2`, an accepted record names exactly `nm`.
pub proof fn law_record_name(
    b: Seq<u8>,
    s: int,
    e: int,
    c1: int,
    c2: int,
    w1: Seq<char>,
    nm: Seq<u8>,
    w2: Seq<char>,
)
    requires
        0 <= s <= c1 < c2 < e <= b.len(),
        b.len() <= usize::MAX,
        b[c1] == COMMA,
        b[c2] == COMMA,
        forall|i: int| s <= i < c1 ==> #[trigger] b[i] != COMMA,
        forall|i: int| c1 < i < c2 ==> #[trigger] b[i] != COMMA,
        all_white_space(w1),
        all_white_space(w2),
        nm.len() > 0,
        is_ascii_mark(nm[0]),
        is_ascii_mark(nm[nm.len() - 1]),
        b.subrange(c1 + 1, c2) == encode_utf8(w1) + nm + encode_utf8(w2),
    ensures
        row_parse(b, s, e) matches RowParse::Accepted(r) ==> b.subrange(r.name_start as int, r.name_end as int)
            == nm,
{
    lemma_find_first(b, s, e, COMMA, c1);
    assert(piece_start(b, s, e, 0) == s);
    assert(piece_start(b, s, e, 1) == c1 + 1);
    lemma_find_first(b, c1 + 1, e, COMMA, c2);
    assert(piece_end(b, s, e, 1) == c2);
    law_trim_padded(b, c1 + 1, c2, w1, nm, w2);
    assert(field(b, s, e, 1) == trimmed(b, c1 + 1, c2));
}

/// Bytes `[p, q)`, trimmed, are ASCII digits worth `v`.
pub open spec fn trims_to_number(b: Seq<u8>, p: int, q: int, v: int) -> bool {
    let t = trimmed(b, p, q);
    &&& t.0 < t.1
    &&& forall|i: int| t.0 <= i < t.1 ==> is_digit(#[trigger] b[i])
    &&& decimal_value(b.subrange(t.0, t.1)) == v
}

/// A record line is read field by field: when the line `[s, e)` has
/// exactly five commas, at `c0 < c1 < c2 < c3 < c4`, and its id, priority,
/// arrival, deadline and duration fields trim to ASCII digits worth values
/// within `i32`, a zero id, a priority outside 1..=4, a zero deadline or a
/// zero duration is refused (the first of them in that order), and
/// otherwise the record read has those values and, as its name, the second
/// field trimmed.
pub proof fn law_record_values(
    b: Seq<u8>,
    s: int,
    e: int,
    c0: int,
    c1: int,
    c2: int,
    c3: int,
    c4: int,
    id: int,
    pri: int,
    arr: int,
    dead: int,
    dur: int,
)
    requires
        0 <= s <= c0 < c1 < c2 < c3 < c4 < e <= b.len(),
        b.len() <= usize::MAX,
        b[c0] == COMMA && b[c1] == COMMA && b[c2] == COMMA && b[c3] == COMMA && b[c4] == COMMA,
        forall|i: int| s <= i < e && i != c0 && i != c1 && i != c2 && i != c3 && i != c4 ==> #[trigger] b[i] != COMMA,
        trims_to_number(b, s, c0, id),
        trims_to_number(b, c1 + 1, c2, pri),
        trims_to_number(b, c2 + 1, c3, arr),
        trims_to_number(b, c3 + 1, c4, dead),
        trims_to_number(b, c4 + 1, e, dur),
        id <= i32::MAX,
        pri <= i32::MAX,
        arr <= i32::MAX,
        dead <= i32::MAX,
        dur <= i32::MAX,
    ensures
        id == 0 ==> row_parse(b, s, e) == out_of_range(CsvField::Id, 0),
        id > 0 && (pri < 1 || pri > 4) ==> row_parse(b, s, e) == out_of_range(CsvField::Priority, pri as i32),
        id > 0 && 1 <= pri <= 4 && dead == 0 ==> row_parse(b, s, e) == out_of_range(CsvField::Deadline, 0),
        id > 0 && 1 <= pri <= 4 && dead > 0 && dur == 0 ==> row_parse(b, s, e) == out_of_range(CsvField::Duration, 0),
        id > 0 && 1 <= pri <= 4 && dead > 0 && dur > 0 ==> row_parse(b, s, e) == RowParse::Accepted(
            ParsedRow {
                id: id as i32,
                name_start: trimmed(b, c0 + 1, c1).0 as usize,
                name_end: trimmed(b, c0 + 1, c1).1 as usize,
                priority: pri as i32,
                arrival: arr as i32,
                deadline: dead as i32,
                duration: dur as i32,
            },
        ),
{
    lemma_find_first(b, s, e, COMMA, c0);
    lemma_find_first(b, c0 + 1, e, COMMA, c1);
    lemma_find_first(b, c1 + 1, e, COMMA, c2);
    lemma_find_first(b, c2 + 1, e, COMMA, c3);
    lemma_find_first(b, c3 + 1, e, COMMA, c4);
    lemma_find_none(b, c4 + 1, e, COMMA);
    assert(piece_start(b, s, e, 0) == s);
    assert(piece_start(b, s, e, 1) == c0 + 1);
    assert(piece_start(b, s, e, 2) == c1 + 1);
    assert(piece_start(b, s, e, 3) == c2 + 1);
    assert(piece_start(b, s, e, 4) == c3 + 1);
    assert(piece_start(b, s, e, 5) == c4 + 1);
    assert(piece_end(b, s, e, 5) == e);
    assert(has_six_fields(b, s, e));
    lemma_field_number(b, s, c0, id);
    lemma_field_number(b, c1 + 1, c2, pri);
    lemma_field_number(b, c2 + 1, c3, arr);
    lemma_field_number(b, c3 + 1, c4, dead);
    lemma_field_number(b, c4 + 1, e, dur);
    lemma_digits_decimal_nonneg(b, s, c0, id);
    lemma_digits_decimal_nonneg(b, c1 + 1, c2, pri);
    lemma_digits_decimal_nonneg(b, c2 + 1, c3, arr);
    lemma_digits_decimal_nonneg(b, c3 + 1, c4, dead);
    lemma_digits_decimal_nonneg(b, c4 + 1, e, dur);
}

/// A field that trims to digits is worth at least 0.
proof fn lemma_digits_decimal_nonneg(b: Seq<u8>, p: int, q: int, v: int)
    requires
        0 <= p <= q <= b.len(),
        trims_to_number(b, p, q, v),
    ensures
        v >= 0,
{
    let t = trimmed(b, p, q);
    lemma_trim_start_bounds(b, p, q);
    lemma_trim_end_bounds(b, t.0, q);
    lemma_digits_decimal(b, t.0, t.1);
    lemma_digits_nonneg(b, t.0, t.1);
}

/// A field that trims to digits worth `v` (within `i32`) reads as `v`.
proof fn lemma_field_number(b: Seq<u8>, p: int, q: int, v: int)
    requires
        0 <= p <= q <= b.len(),
        trims_to_number(b, p, q, v),
        v <= i32::MAX,
    ensures
        parse_i32(b, trimmed(b, p, q).0, trimmed(b, p, q).1) == Some(v as i32),
{
    let t = trimmed(b, p, q);
    lemma_trim_start_bounds(b, p, q);
    lemma_trim_end_bounds(b, t.0, q);
    law_number_field(b, t.0, t.1);
}

proof fn lemma_piece_start_bounds(b: Seq<u8>, s: int, e: int, k: nat)
    requires
        s <= e,
        forall|j: nat| j < k ==> #[trigger] piece_end(b, s, e, j) < e,
    ensures
        s <= piece_start(b, s, e, k) <= e,
        piece_start(b, s, e, k) <= piece_end(b, s, e, k) <= e,
    decreases k,
{
    if k > 0 {
        lemma_piece_start_bounds(b, s, e, (k - 1) as nat);
        assert(piece_end(b, s, e, (k - 1) as nat) < e);
    }
    lemma_find_bounds(b, piece_start(b, s, e, k), e, COMMA);
}

/// Field `k` of the line, given where it starts.
fn read_field(b: &[u8], start: usize, e: usize) -> (r: (usize, usize, usize))
    requires
        start <= e <= b@.len(),
    ensures
        r.2 == find_from(b@, start as int, e as int, COMMA),
        r.0 == trimmed(b@, start as int, r.2 as int).0,
        r.1 == trimmed(b@, start as int, r.2 as int).1,
        start <= r.0 <= r.1 <= r.2 <= e,
{
    let end = find_byte(b, start, e, COMMA);
    let (ts, te) = trim_range(b, start, end);
    (ts, te, end)
}

/// Reads the trimmed record line `[s, e)`.
pub fn parse_row(b: &[u8], s: usize, e: usize) -> (r: RowParse)
    requires
        s <= e <= b@.len(),
    ensures
        r == row_parse(b@, s as int, e as int),
        r matches RowParse::Accepted(p) ==> s <= p.name_start <= p.name_end <= e,
{
    let ghost bs = b@;
    let (f0s, f0e, c0) = read_field(b, s, e);
    proof { assert(piece_start(bs, s as int, e as int, 0) == s); }
    if c0 >= e {
        return RowParse::Skipped;
    }
    let (f1s, f1e, c1) = read_field(b, c0 + 1, e);
    proof { assert(piece_start(bs, s as int, e as int, 1) == c0 + 1); }
    if c1 >= e {
        return RowParse::Skipped;
    }
    let (f2s, f2e, c2) = read_field(b, c1 + 1, e);
    proof { assert(piece_start(bs, s as int, e as int, 2) == c1 + 1); }
    if c2 >= e {
        return RowParse::Skipped;
    }
    let (f3s, f3e, c3) = read_field(b, c2 + 1, e);
    proof { assert(piece_start(bs, s as int, e as int, 3) == c2 + 1); }
    if c3 >= e {
        return RowParse::Skipped;
    }
    let (f4s, f4e, c4) = read_field(b, c3 + 1, e);
    proof { assert(piece_start(bs, s as int, e as int, 4) == c3 + 1); }
    if c4 >= e {
        return RowParse::Skipped;
    }
    let (f5s, f5e, c5) = read_field(b, c4 + 1, e);
    proof { assert(piece_start(bs, s as int, e as int, 5) == c4 + 1); }
    let id = match parse_i32_range(b, f0s, f0e) {
        None => { return RowParse::Rejected(LoadWarning::BadNumber { field: CsvField::Id, start: f0s, end: f0e }); },
        Some(v) => v,
    };
    let pri = match parse_i32_range(b, f2s, f2e) {
        None => { return RowParse::Rejected(LoadWarning::BadNumber { field: CsvField::Priority, start: f2s, end: f2e }); },
        Some(v) => v,
    };
    let arr = match parse_i32_range(b, f3s, f3e) {
        None => { return RowParse::Rejected(LoadWarning::BadNumber { field: CsvField::Arrival, start: f3s, end: f3e }); },
        Some(v) => v,
    };
    let dead = match parse_i32_range(b, f4s, f4e) {
        None => { return RowParse::Rejected(LoadWarning::BadNumber { field: CsvField::Deadline, start: f4s, end: f4e }); },
        Some(v) => v,
    };
    let dur = match parse_i32_range(b, f5s, f5e) {
        None => { return RowParse::Rejected(LoadWarning::BadNumber { field: CsvField::Duration, start: f5s, end: f5e }); },
        Some(v) => v,
    };
    if id <= 0 {
        return RowParse::Rejected(LoadWarning::OutOfRange { field: CsvField::Id, value: id });
    }
    if pri < 1 || pri > 4 {
        return RowParse::Rejected(LoadWarning::OutOfRange { field: CsvField::Priority, value: pri });
    }
    if arr < 0 {
        return RowParse::Rejected(LoadWarning::OutOfRange { field: CsvField::Arrival, value: arr });
    }
    if dead <= 0 {
        return RowParse::Rejected(LoadWarning::OutOfRange { field: CsvField::Deadline, value: dead });
    }
    if dur <= 0 {
        return RowParse::Rejected(LoadWarning::OutOfRange { field: CsvField::Duration, value: dur });
    }
    RowParse::Accepted(
        ParsedRow {
            id: id,
            name_start: f1s,
            name_end: f1e,
            priority: pri,
            arrival: arr,
            deadline: dead,
            duration: dur,
        },
    )
}

/// What has been read so far: whether the header was seen, the accepted
/// records, the warnings, and whether reading stopped at the record limit.
pub type LoadState = (bool, Seq<ParsedRow>, Seq<LoadWarning>, bool);

/// Nothing read yet.
pub open spec fn load_start() -> LoadState {
    (false, Seq::empty(), Seq::empty(), false)
}

/// End of the line that starts at `pos`: the next `\n` or the end of text.
pub open spec fn line_end(b: Seq<u8>, pos: int) -> int {
    find_from(b, pos, b.len() as int, NEWLINE)
}

/// Reading the line `[ls, le)`: blank lines change nothing, the first
/// non-blank line is the header, a record past `MAX_TASKS` records stops the
/// reading with a warning, and any other line is a record.
pub open spec fn load_line(b: Seq<u8>, ls: int, le: int, st: LoadState) -> LoadState {
    let t = trimmed(b, ls, le);
    if t.0 >= t.1 {
        st
    } else if !st.0 {
        (true, st.1, st.2, st.3)
    } else if st.1.len() >= MAX_TASKS {
        (st.0, st.1, st.2.push(LoadWarning::TooManyTasks), true)
    } else {
        match row_parse(b, t.0, t.1) {
            RowParse::Skipped => st,
            RowParse::Rejected(w) => (st.0, st.1, st.2.push(w), st.3),
            RowParse::Accepted(r) => (st.0, st.1.push(r), st.2, st.3),
        }
    }
}

/// Reading the text from the line that starts at `pos` on.
pub open spec fn load_from(b: Seq<u8>, pos: int, st: LoadState) -> LoadState
    decreases b.len() - pos,
{
    if pos < 0 || pos > b.len() {
        st
    } else {
        let e = line_end(b, pos);
        let st2 = load_line(b, pos, e, st);
        proof {
            lemma_find_bounds(b, pos, b.len() as int, NEWLINE);
        }
        if st2.3 || e >= b.len() {
            st2
        } else {
            load_from(b, e + 1, st2)
        }
    }
}

/// The record passes the checks: positive id, deadline and duration,
/// priority within 1..=4, arrival not negative, name inside the text.
pub open spec fn row_valid(b: Seq<u8>, r: ParsedRow) -> bool {
    &&& r.id > 0
    &&& 1 <= r.priority <= 4
    &&& r.arrival >= 0
    &&& r.deadline > 0
    &&& r.duration > 0
    &&& r.name_start <= r.name_end <= b.len()
}

proof fn lemma_row_parse_valid(b: Seq<u8>, s: int, e: int)
    requires
        0 <= s <= e <= b.len(),
        b.len() <= usize::MAX,
    ensures
        row_parse(b, s, e) matches RowParse::Accepted(r) ==> row_valid(b, r),
{
    if has_six_fields(b, s, e) {
        assert forall|j: nat| j < 1 implies #[trigger] piece_end(b, s, e, j) < e by {}
        lemma_piece_start_bounds(b, s, e, 1);
        let st = piece_start(b, s, e, 1);
        let en = piece_end(b, s, e, 1);
        lemma_trim_start_bounds(b, st, en);
        lemma_trim_end_bounds(b, trim_start(b, st, en), en);
    }
}

/// Every record read passes the checks.
pub proof fn law_loaded_rows_valid(b: Seq<u8>, pos: int, st: LoadState)
    requires
        b.len() <= usize::MAX,
        forall|i: int| 0 <= i < st.1.len() ==> row_valid(b, #[trigger] st.1[i]),
    ensures
        forall|i: int| 0 <= i < load_from(b, pos, st).1.len() ==> row_valid(b, #[trigger] load_from(b, pos, st).1[i]),
    decreases b.len() - pos,
{
    if 0 <= pos <= b.len() {
        let e = line_end(b, pos);
        lemma_find_bounds(b, pos, b.len() as int, NEWLINE);
        let st2 = load_line(b, pos, e, st);
        let t = trimmed(b, pos, e);
        lemma_trim_start_bounds(b, pos, e);
        lemma_trim_end_bounds(b, t.0, e);
        lemma_row_parse_valid(b, t.0, t.1);
        assert forall|i: int| 0 <= i < st2.1.len() implies row_valid(b, #[trigger] st2.1[i]) by {
            if i < st.1.len() {
                assert(st2.1[i] == st.1[i]);
            }
        }
        if !(st2.3 || e >= b.len()) {
            law_loaded_rows_valid(b, e + 1, st2);
            assert(load_from(b, pos, st) == load_from(b, e + 1, st2));
        } else {
            assert(load_from(b, pos, st) == st2);
        }
    }
}

/// `ls` starts a line of `b`: it is the start of the text or follows a
/// `\n`.
pub open spec fn is_line_start(b: Seq<u8>, ls: int) -> bool {
    ls == 0 || (0 < ls <= b.len() && b[ls - 1] == NEWLINE)
}

/// The line that starts at `ls` ends at `le`: `le` holds the first `\n`
/// from `ls` on, or is the end of the text when there is none.
pub open spec fn is_line_end(b: Seq<u8>, ls: int, le: int) -> bool {
    &&& 0 <= ls <= le <= b.len()
    &&& le == b.len() || b[le] == NEWLINE
    &&& forall|i: int| ls <= i < le ==> #[trigger] b[i] != NEWLINE
}

/// The number of `\n` bytes before position `p`.
pub open spec fn newlines_before(b: Seq<u8>, p: int) -> nat
    decreases p,
{
    if p <= 0 {
        0
    } else {
        newlines_before(b, p - 1) + if b[p - 1] == NEWLINE {
            1nat
        } else {
            0nat
        }
    }
}

proof fn lemma_newlines_step(b: Seq<u8>, p: int, q: int)
    requires
        0 <= p <= q <= b.len(),
        forall|i: int| p <= i < q ==> #[trigger] b[i] != NEWLINE,
    ensures
        newlines_before(b, q) == newlines_before(b, p),
    decreases q - p,
{
    if p < q {
        lemma_newlines_step(b, p, q - 1);
    }
}

proof fn lemma_newlines_mono(b: Seq<u8>, p: int, q: int)
    requires
        0 <= p <= q,
    ensures
        newlines_before(b, p) <= newlines_before(b, q),
    decreases q - p,
{
    if p < q {
        lemma_newlines_mono(b, p, q - 1);
    }
}

/// The search for `x` from `i` stops at or before any `x` at `c`.
proof fn lemma_find_le(b: Seq<u8>, i: int, e: int, x: u8, c: int)
    requires
        i <= c < e <= b.len(),
        b[c] == x,
    ensures
        find_from(b, i, e, x) <= c,
    decreases c - i,
{
    if i < c && b[i] != x {
        lemma_find_le(b, i + 1, e, x, c);
    }
}

/// The search for `x` from `i` finds `e` when `[i, e)` holds none.
proof fn lemma_find_none(b: Seq<u8>, i: int, e: int, x: u8)
    requires
        i <= e,
        forall|k: int| i <= k < e ==> #[trigger] b[k] != x,
    ensures
        find_from(b, i, e, x) == e,
    decreases e - i,
{
    if i < e {
        lemma_find_none(b, i + 1, e, x);
    }
}

/// Reading only adds records and warnings.
proof fn lemma_load_grows(b: Seq<u8>, pos: int, st: LoadState)
    ensures
        st.1.is_prefix_of(load_from(b, pos, st).1),
        st.2.is_prefix_of(load_from(b, pos, st).2),
    decreases b.len() - pos,
{
    if 0 <= pos <= b.len() {
        let e = line_end(b, pos);
        lemma_find_bounds(b, pos, b.len() as int, NEWLINE);
        let st2 = load_line(b, pos, e, st);
        if !(st2.3 || e >= b.len()) {
            lemma_load_grows(b, e + 1, st2);
        }
    }
}

/// The line `[ls, le)` of a line start `ls` is found by the reading as
/// the line at `ls`.
proof fn lemma_line_end_is(b: Seq<u8>, ls: int, le: int)
    requires
        is_line_end(b, ls, le),
    ensures
        line_end(b, ls) == le,
{
    if le < b.len() {
        lemma_find_first(b, ls, b.len() as int, NEWLINE, le);
    } else {
        lemma_find_none(b, ls, le, NEWLINE);
    }
}

/// Reading from the line start `pos` with what was read so far reaches
/// the line `[ls, le)` and takes its record or warning.
proof fn lemma_reaches_line(b: Seq<u8>, pos: int, st: LoadState, h: int, hl: int, ls: int, le: int)
    requires
        is_line_start(b, pos),
        0 <= pos <= ls,
        is_line_start(b, ls),
        is_line_end(b, ls, le),
        !st.3,
        st.1.len() <= newlines_before(b, pos),
        newlines_before(b, ls) < MAX_TASKS,
        st.0 || (pos <= h < ls && is_line_start(b, h) && is_line_end(b, h, hl) && trimmed(b, h, hl).0 < trimmed(
            b,
            h,
            hl,
        ).1),
    ensures
        row_parse(b, trimmed(b, ls, le).0, trimmed(b, ls, le).1) matches RowParse::Accepted(r) ==> load_from(
            b,
            pos,
            st,
        ).1.contains(r),
        row_parse(b, trimmed(b, ls, le).0, trimmed(b, ls, le).1) matches RowParse::Rejected(w) ==> load_from(
            b,
            pos,
            st,
        ).2.contains(w),
    decreases ls - pos,
{
    let e = line_end(b, pos);
    lemma_find_bounds(b, pos, b.len() as int, NEWLINE);
    let st2 = load_line(b, pos, e, st);
    let t = trimmed(b, ls, le);
    lemma_newlines_mono(b, pos, ls);
    if pos == ls {
        lemma_line_end_is(b, ls, le);
        if t.0 < t.1 {
            assert(st.0);
            assert(st.1.len() < MAX_TASKS);
            lemma_take_line(b, ls, le, st);
        } else {
            assert(piece_end(b, t.0, t.1, 0) == t.1);
        }
    } else {
        lemma_line_facts(b, pos, e, st);
        lemma_find_le(b, pos, b.len() as int, NEWLINE, ls - 1);
        assert(b[e] == NEWLINE);
        assert forall|i: int| pos <= i < e implies #[trigger] b[i] != NEWLINE by {
            if b[i] == NEWLINE {
                lemma_find_le(b, pos, b.len() as int, NEWLINE, i);
            }
        }
        lemma_newlines_step(b, pos, e);
        assert(newlines_before(b, e + 1) == newlines_before(b, pos) + 1);
        lemma_newlines_mono(b, e + 1, ls);
        assert(!st2.3);
        if !st.0 && h == pos {
            lemma_line_end_is(b, h, hl);
        }
        if !st.0 && h != pos {
            lemma_find_le(b, pos, b.len() as int, NEWLINE, h - 1);
        }
        assert(load_from(b, pos, st) == load_from(b, e + 1, st2));
        lemma_reaches_line(b, e + 1, st2, h, hl, ls, le);
    }
}

/// A non-blank line read after the header, below the record limit, adds
/// its record or warning, and reading keeps both.
proof fn lemma_take_line(b: Seq<u8>, ls: int, le: int, st: LoadState)
    requires
        is_line_end(b, ls, le),
        line_end(b, ls) == le,
        st.0,
        !st.3,
        st.1.len() < MAX_TASKS,
        trimmed(b, ls, le).0 < trimmed(b, ls, le).1,
    ensures
        row_parse(b, trimmed(b, ls, le).0, trimmed(b, ls, le).1) matches RowParse::Accepted(r) ==> load_from(
            b,
            ls,
            st,
        ).1.contains(r),
        row_parse(b, trimmed(b, ls, le).0, trimmed(b, ls, le).1) matches RowParse::Rejected(w) ==> load_from(
            b,
            ls,
            st,
        ).2.contains(w),
{
    let t = trimmed(b, ls, le);
    let st2 = load_line(b, ls, le, st);
    assert(!st2.3);
    if le < b.len() {
        lemma_load_grows(b, le + 1, st2);
        assert(load_from(b, ls, st) == load_from(b, le + 1, st2));
    } else {
        assert(load_from(b, ls, st) == st2);
    }
    match row_parse(b, t.0, t.1) {
        RowParse::Accepted(r) => {
            assert(st2.1[st2.1.len() - 1] == r);
            assert(load_from(b, ls, st).1[st2.1.len() - 1] == r);
        },
        RowParse::Rejected(w) => {
            assert(st2.2[st2.2.len() - 1] == w);
            assert(load_from(b, ls, st).2[st2.2.len() - 1] == w);
        },
        RowParse::Skipped => {},
    }
}

/// What reading one line does to the header flag, the stop flag and the
/// number of records.
proof fn lemma_line_facts(b: Seq<u8>, ls: int, le: int, st: LoadState)
    ensures
        load_line(b, ls, le, st).0 == (st.0 || trimmed(b, ls, le).0 < trimmed(b, ls, le).1),
        load_line(b, ls, le, st).3 ==> st.3 || st.1.len() >= MAX_TASKS,
        load_line(b, ls, le, st).1.len() <= st.1.len() + 1,
{
}

/// Reading goes on past blank lines: once a non-blank line (the header)
/// has come, every later line among the first `MAX_TASKS` lines of the text
/// contributes what its fields give, whatever blank lines stand before or
/// after it: an accepted record is among the records read, a rejected one
/// gives its warning.
pub proof fn law_record_line_read(b: Seq<u8>, h: int, hl: int, ls: int, le: int)
    requires
        is_line_start(b, h),
        is_line_end(b, h, hl),
        trimmed(b, h, hl).0 < trimmed(b, h, hl).1,
        h < ls,
        is_line_start(b, ls),
        is_line_end(b, ls, le),
        newlines_before(b, ls) < MAX_TASKS,
    ensures
        row_parse(b, trimmed(b, ls, le).0, trimmed(b, ls, le).1) matches RowParse::Accepted(r)
            ==> load_all(b).1.contains(r),
        row_parse(b, trimmed(b, ls, le).0, trimmed(b, ls, le).1) matches RowParse::Rejected(w)
            ==> load_all(b).2.contains(w),
{
    lemma_reaches_line(b, 0, load_start(), h, hl, ls, le);
}

/// Record `r` is what the fields of some line of `b` give.
pub open spec fn record_of_some_line(b: Seq<u8>, r: ParsedRow) -> bool {
    exists|ls: int, le: int|
        is_line_start(b, ls) && is_line_end(b, ls, le) && #[trigger] row_parse(b, trimmed(b, ls, le).0, trimmed(b, ls, le).1)
            == RowParse::Accepted(r)
}

/// Warning `w` is the record limit, or what the fields of some line of `b`
/// give.
pub open spec fn warning_of_some_line(b: Seq<u8>, w: LoadWarning) -> bool {
    ||| w == LoadWarning::TooManyTasks
    ||| exists|ls: int, le: int|
        is_line_start(b, ls) && is_line_end(b, ls, le) && #[trigger] row_parse(b, trimmed(b, ls, le).0, trimmed(b, ls, le).1)
            == RowParse::Rejected(w)
}

/// Nothing before the first `x` from `i` is `x`.
proof fn lemma_find_before(b: Seq<u8>, i: int, e: int, x: u8)
    requires
        i <= e,
    ensures
        forall|k: int| i <= k < find_from(b, i, e, x) ==> #[trigger] b[k] != x,
    decreases e - i,
{
    if i < e && b[i] != x {
        lemma_find_before(b, i + 1, e, x);
    }
}

proof fn lemma_read_from_lines(b: Seq<u8>, pos: int, st: LoadState)
    requires
        is_line_start(b, pos) || pos > b.len(),
        forall|i: int| 0 <= i < st.1.len() ==> record_of_some_line(b, #[trigger] st.1[i]),
        forall|i: int| 0 <= i < st.2.len() ==> warning_of_some_line(b, #[trigger] st.2[i]),
    ensures
        forall|i: int| 0 <= i < load_from(b, pos, st).1.len() ==> record_of_some_line(b, #[trigger] load_from(b, pos, st).1[i]),
        forall|i: int| 0 <= i < load_from(b, pos, st).2.len() ==> warning_of_some_line(b, #[trigger] load_from(b, pos, st).2[i]),
    decreases b.len() - pos,
{
    if 0 <= pos <= b.len() {
        let e = line_end(b, pos);
        lemma_find_bounds(b, pos, b.len() as int, NEWLINE);
        lemma_find_before(b, pos, b.len() as int, NEWLINE);
        assert(is_line_end(b, pos, e));
        let st2 = load_line(b, pos, e, st);
        let t = trimmed(b, pos, e);
        assert forall|i: int| 0 <= i < st2.1.len() implies record_of_some_line(b, #[trigger] st2.1[i]) by {
            if i < st.1.len() {
                assert(st2.1[i] == st.1[i]);
            } else {
                assert(row_parse(b, t.0, t.1) == RowParse::Accepted(st2.1[i]));
            }
        }
        assert forall|i: int| 0 <= i < st2.2.len() implies warning_of_some_line(b, #[trigger] st2.2[i]) by {
            if i < st.2.len() {
                assert(st2.2[i] == st.2[i]);
            } else if st2.2[i] != LoadWarning::TooManyTasks {
                assert(row_parse(b, t.0, t.1) == RowParse::Rejected(st2.2[i]));
            }
        }
        if !(st2.3 || e >= b.len()) {
            assert(b[e] == NEWLINE);
            lemma_read_from_lines(b, e + 1, st2);
            assert(load_from(b, pos, st) == load_from(b, e + 1, st2));
        } else {
            assert(load_from(b, pos, st) == st2);
        }
    }
}

/// Everything read comes from a line of the text: each record read is what
/// the fields of one of its lines give, and each warning is the record
/// limit or what the fields of one of its lines give.  Blank lines give
/// neither, so they add nothing.
pub proof fn law_read_comes_from_lines(b: Seq<u8>)
    ensures
        forall|i: int| 0 <= i < load_all(b).1.len() ==> record_of_some_line(b, #[trigger] load_all(b).1[i]),
        forall|i: int| 0 <= i < load_all(b).2.len() ==> warning_of_some_line(b, #[trigger] load_all(b).2[i]),
{
    lemma_read_from_lines(b, 0, load_start());
}

/// The outcome of reading the whole text `b`.
pub open spec fn load_all(b: Seq<u8>) -> LoadState {
    load_from(b, 0, load_start())
}

/// `t` is the task built from record `row` of text `b`, read as record
/// number `order`: a blank task with the record's values and name.
pub open spec fn task_from_row(t: Task, b: Seq<u8>, row: ParsedRow, order: int) -> bool {
    let name = b.subrange(row.name_start as int, row.name_end as int);
    let len = kept_name_len(name.len() as int);
    &&& t.id == row.id
    &&& t.priority == row.priority
    &&& t.arrival == row.arrival
    &&& t.deadline == row.deadline
    &&& t.duration == row.duration
    &&& t.order == order
    &&& t.status == ST_PENDING
    &&& t.name_len == len
    &&& t.name@ == name.take(len) + zero_bytes(MAX_NAME - len)
}

fn task_from_parsed(b: &[u8], row: ParsedRow, order: usize) -> (t: Task)
    requires
        row.name_start <= row.name_end <= b@.len(),
        order < MAX_TASKS,
    ensures
        task_from_row(t, b@, row, order as int),
{
    let mut t = Task::empty();
    t.id = row.id;
    t.set_name_bytes(&b[row.name_start..row.name_end]);
    t.priority = row.priority;
    t.arrival = row.arrival;
    t.deadline = row.deadline;
    t.duration = row.duration;
    t.order = order as i32;
    t
}

/// Reads the task file `content` into `tasks`, in file order, and returns
/// how many were read together with the warnings about the lines passed
/// over.  Slots from the returned count on are left as they were.
pub fn parse_csv(content: &str, tasks: &mut [Task; MAX_TASKS]) -> (r: (usize, Vec<LoadWarning>))
    ensures
        r.0 == load_all(content.spec_bytes()).1.len(),
        r.0 <= MAX_TASKS,
        r.1@ == load_all(content.spec_bytes()).2,
        forall|i: int|
            0 <= i < r.0 ==> task_from_row(
                #[trigger] final(tasks)@[i],
                content.spec_bytes(),
                load_all(content.spec_bytes()).1[i],
                i,
            ),
        forall|i: int| r.0 <= i < MAX_TASKS ==> #[trigger] final(tasks)@[i] == old(tasks)@[i],
        forall|i: int|
            0 <= i < r.0 ==> {
                &&& #[trigger] final(tasks)@[i].id > 0
                &&& 1 <= final(tasks)@[i].priority <= 4
                &&& final(tasks)@[i].arrival >= 0
                &&& final(tasks)@[i].deadline > 0
                &&& final(tasks)@[i].duration > 0
            },
{
    let b = content.as_bytes();
    let blen = b.len();
    proof {
        law_loaded_rows_valid(content.spec_bytes(), 0, load_start());
    }
    let ghost bs = b@;
    let mut pos: usize = 0;
    let mut header_done = false;
    let mut count: usize = 0;
    let mut warnings: Vec<LoadWarning> = Vec::new();
    let mut stop = false;
    let ghost mut rows: Seq<ParsedRow> = Seq::empty();
    loop
        invariant_except_break
            !stop,
            load_all(bs) == load_from(bs, pos as int, (header_done, rows, warnings@, false)),
        invariant
            bs == b@,
            bs == content.spec_bytes(),
            pos <= bs.len(),
            count == rows.len(),
            count <= MAX_TASKS,
            forall|i: int| 0 <= i < count ==> task_from_row(#[trigger] tasks@[i], bs, rows[i], i),
            forall|i: int| count <= i < MAX_TASKS ==> #[trigger] tasks@[i] == old(tasks)@[i],
        ensures
            load_all(bs) == (header_done, rows, warnings@, stop),
        decreases bs.len() - pos,
    {
        let ghost st = (header_done, rows, warnings@, false);
        let e = find_byte(b, pos, b.len(), NEWLINE);
        let (ts, te) = trim_range(b, pos, e);
        if ts < te {
            if !header_done {
                header_done = true;
            } else if count >= MAX_TASKS {
                warnings.push(LoadWarning::TooManyTasks);
                stop = true;
            } else {
                match parse_row(b, ts, te) {
                    RowParse::Skipped => {},
                    RowParse::Rejected(w) => {
                        warnings.push(w);
                    },
                    RowParse::Accepted(row) => {
                        let t = task_from_parsed(b, row, count);
                        tasks[count] = t;
                        proof {
                            rows = rows.push(row);
                        }
                        count = count + 1;
                    },
                }
            }
        }
        assert(load_line(bs, pos as int, e as int, st) == (header_done, rows, warnings@, stop));
        if stop || e >= b.len() {
            break;
        }
        pos = e + 1;
    }
    (count, warnings)
}

} // verus!
