use vstd::prelude::*;

use crate::chars::is_ascii_digit_char;
use crate::chars::is_control_char;
use crate::chars::is_scalar_value;
use crate::chars::is_whitespace_char;
use crate::chars::spec_hex_value;
use crate::chars::ascii_digit_char;
use crate::chars::char_from_u32;
use crate::chars::control_char;
use crate::chars::hex_value;
use crate::chars::push_char;
use crate::chars::whitespace_char;
use crate::error::DeserializeError;
use crate::numbers::i64_from_int_literal;
use crate::numbers::push_u64_decimal;
use crate::numbers::spec_nat_digits;
use crate::numbers::spec_int_literal_value;
use crate::value::arr_model;
use crate::value::lemma_arr_model_push;
use crate::value::obj_keys_unique;
use crate::value::obj_model;
use crate::value::spec_obj_insert;
use crate::value::JsonValue;
use crate::value::SpecValue;
use vstd::string::StrSliceExecFns;
use vstd::string::StringExecFns;

verus! {

// ---------------------------------------------------------------------------
// The grammar, as spec functions over the decoded input and a cursor.
// Each returns `None` on any violation, else the parsed meaning and the
// cursor position just past what was consumed.
// ---------------------------------------------------------------------------

/// The first position at or after `i` that does not hold whitespace.
pub open spec fn spec_skip_ws(s: Seq<char>, i: int) -> int
    decreases s.len() - i,
{
    if 0 <= i && i < s.len() && is_whitespace_char(s[i]) {
        spec_skip_ws(s, i + 1)
    } else {
        i
    }
}

/// Skipping whitespace only moves forward, and never past the end.
pub broadcast proof fn lemma_skip_ws_bounds(s: Seq<char>, i: int)
    ensures
        i <= #[trigger] spec_skip_ws(s, i),
        i <= s.len() ==> spec_skip_ws(s, i) <= s.len(),
    decreases s.len() - i,
{
    if 0 <= i && i < s.len() && is_whitespace_char(s[i]) {
        lemma_skip_ws_bounds(s, i + 1);
    }
}

/// Skipping whitespace twice is skipping it once.
pub proof fn lemma_skip_ws_idempotent(s: Seq<char>, i: int)
    ensures
        spec_skip_ws(s, spec_skip_ws(s, i)) == spec_skip_ws(s, i),
    decreases s.len() - i,
{
    if 0 <= i && i < s.len() && is_whitespace_char(s[i]) {
        lemma_skip_ws_idempotent(s, i + 1);
    }
}

/// Whether the characters of `lit` stand at position `i` of `s`.
pub open spec fn matches_at(s: Seq<char>, i: int, lit: Seq<char>) -> bool {
    0 <= i && i + lit.len() <= s.len() && s.subrange(i, i + lit.len()) == lit
}

/// What a simple (single-character) escape denotes.
pub open spec fn spec_simple_escape(c: char) -> Option<char> {
    if c == '"' {
        Some('"')
    } else if c == '\\' {
        Some('\\')
    } else if c == '/' {
        Some('/')
    } else if c == 'b' {
        Some('\u{0008}')
    } else if c == 'f' {
        Some('\u{000C}')
    } else if c == 'n' {
        Some('\n')
    } else if c == 'r' {
        Some('\r')
    } else if c == 't' {
        Some('\t')
    } else {
        None
    }
}

/// Four hexadecimal digits at `i`, read as one number.
pub open spec fn spec_hex4(s: Seq<char>, i: int) -> Option<u32> {
    if 0 <= i && i + 4 <= s.len() {
        match (spec_hex_value(s[i]), spec_hex_value(s[i + 1]), spec_hex_value(s[i + 2]),
        spec_hex_value(s[i + 3])) {
            (Some(a), Some(b), Some(c), Some(d)) => Some(
                (((a * 16 + b) * 16 + c) * 16 + d) as u32,
            ),
            _ => None,
        }
    } else {
        None
    }
}

/// A `\u` escape tail: four hexadecimal digits denoting a scalar value.
pub open spec fn spec_parse_unicode(s: Seq<char>, i: int) -> Option<(char, int)> {
    match spec_hex4(s, i) {
        Some(cp) => if is_scalar_value(cp) {
            Some(((cp as char), i + 4))
        } else {
            None
        },
        None => None,
    }
}

/// Prepends a character to the text of a string-body result.
pub open spec fn cons_chr(c: char, rest: Option<(Seq<char>, int)>) -> Option<(Seq<char>, int)> {
    match rest {
        Some((t, j)) => Some((seq![c] + t, j)),
        None => None,
    }
}

/// Prepends a text to the text of a string-body result.
pub open spec fn cons_text(pre: Seq<char>, rest: Option<(Seq<char>, int)>) -> Option<
    (Seq<char>, int),
> {
    match rest {
        Some((t, j)) => Some((pre + t, j)),
        None => None,
    }
}

/// Prepending one more character onto a prefix.
pub proof fn lemma_cons_text_push(pre: Seq<char>, c: char, rest: Option<(Seq<char>, int)>)
    ensures
        cons_text(pre.push(c), rest) == cons_text(pre, cons_chr(c, rest)),
{
    match rest {
        Some((t, j)) => {
            assert(pre.push(c) + t =~= pre + (seq![c] + t));
        },
        None => {},
    }
}

/// Prepending nothing changes nothing.
pub proof fn lemma_cons_text_empty(rest: Option<(Seq<char>, int)>)
    ensures
        cons_text(Seq::empty(), rest) == rest,
{
    match rest {
        Some((t, j)) => {
            assert(Seq::<char>::empty() + t =~= t);
        },
        None => {},
    }
}

/// The body of a string literal, read from just after the opening quote:
/// the decoded text and the position after the closing quote. `None` on an
/// unterminated string, a bad escape, or a raw control character.
pub open spec fn spec_string_body(s: Seq<char>, i: int) -> Option<(Seq<char>, int)>
    decreases s.len() - i,
{
    if !(0 <= i && i < s.len()) {
        None
    } else if s[i] == '"' {
        Some((Seq::empty(), i + 1))
    } else if s[i] == '\\' {
        if i + 1 >= s.len() {
            None
        } else if s[i + 1] == 'u' {
            match spec_parse_unicode(s, i + 2) {
                Some((c, _j)) => cons_chr(c, spec_string_body(s, i + 6)),
                None => None,
            }
        } else {
            match spec_simple_escape(s[i + 1]) {
                Some(c) => cons_chr(c, spec_string_body(s, i + 2)),
                None => None,
            }
        }
    } else if is_control_char(s[i]) {
        None
    } else {
        cons_chr(s[i], spec_string_body(s, i + 1))
    }
}

/// A string literal: an opening quote, then its body.
pub open spec fn spec_parse_string(s: Seq<char>, i: int) -> Option<(Seq<char>, int)> {
    if 0 <= i && i < s.len() && s[i] == '"' {
        spec_string_body(s, i + 1)
    } else {
        None
    }
}

/// The first position at or after `i` that does not hold an ASCII digit.
pub open spec fn spec_digits_end(s: Seq<char>, i: int) -> int
    decreases s.len() - i,
{
    if 0 <= i && i < s.len() && is_ascii_digit_char(s[i]) {
        spec_digits_end(s, i + 1)
    } else {
        i
    }
}

/// A digit run only moves forward, and never past the end.
pub broadcast proof fn lemma_digits_end_bounds(s: Seq<char>, i: int)
    ensures
        i <= #[trigger] spec_digits_end(s, i),
        i <= s.len() ==> spec_digits_end(s, i) <= s.len(),
    decreases s.len() - i,
{
    if 0 <= i && i < s.len() && is_ascii_digit_char(s[i]) {
        lemma_digits_end_bounds(s, i + 1);
    }
}

/// An optional fractional part at `i`: the end position and whether one was
/// present. `None` when a point has no digits after it.
pub open spec fn spec_fraction_end(s: Seq<char>, i: int) -> Option<(int, bool)> {
    if 0 <= i && i < s.len() && s[i] == '.' {
        let r = spec_digits_end(s, i + 1);
        if r == i + 1 {
            None
        } else {
            Some((r, true))
        }
    } else {
        Some((i, false))
    }
}

/// An optional exponent at `i`: the end position and whether one was
/// present. `None` when a marker has no digits after it.
pub open spec fn spec_exponent_end(s: Seq<char>, i: int) -> Option<(int, bool)> {
    if 0 <= i && i < s.len() && (s[i] == 'e' || s[i] == 'E') {
        let q = if i + 1 < s.len() && (s[i + 1] == '+' || s[i + 1] == '-') {
            i + 2
        } else {
            i + 1
        };
        let r = spec_digits_end(s, q);
        if r == q {
            None
        } else {
            Some((r, true))
        }
    } else {
        Some((i, false))
    }
}

/// A number literal at `i`: where it ends, and whether it had a fractional
/// part or exponent. A leading zero is consumed alone; what follows it is
/// left for the surrounding context.
pub open spec fn spec_number_token(s: Seq<char>, i: int) -> Option<(int, bool)> {
    let b = if 0 <= i && i < s.len() && s[i] == '-' {
        i + 1
    } else {
        i
    };
    if !(0 <= b && b < s.len() && is_ascii_digit_char(s[b])) {
        None
    } else {
        let a = if s[b] == '0' {
            b + 1
        } else {
            spec_digits_end(s, b)
        };
        match spec_fraction_end(s, a) {
            None => None,
            Some((f, has_frac)) => match spec_exponent_end(s, f) {
                None => None,
                Some((e, has_exp)) => Some((e, has_frac || has_exp)),
            },
        }
    }
}

/// A number at `i`. A literal with a fractional part or exponent keeps its
/// text as a `Float`; otherwise it is an `Int` when the value fits in a
/// 64-bit signed integer, and falls back to a `Float` when it does not.
pub open spec fn spec_parse_number(s: Seq<char>, i: int) -> Option<(SpecValue, int)> {
    match spec_number_token(s, i) {
        None => None,
        Some((end, is_float)) => {
            let lit = s.subrange(i, end);
            if is_float {
                Some((SpecValue::Float(lit), end))
            } else {
                let v = spec_int_literal_value(lit);
                if i64::MIN <= v && v <= i64::MAX {
                    Some((SpecValue::Int(v as i64), end))
                } else {
                    Some((SpecValue::Float(lit), end))
                }
            }
        },
    }
}

/// The keywords `true` and `false`.
pub open spec fn spec_parse_bool(s: Seq<char>, i: int) -> Option<(bool, int)> {
    if matches_at(s, i, seq!['t', 'r', 'u', 'e']) {
        Some((true, i + 4))
    } else if matches_at(s, i, seq!['f', 'a', 'l', 's', 'e']) {
        Some((false, i + 5))
    } else {
        None
    }
}

/// The keyword `null`.
pub open spec fn spec_parse_null(s: Seq<char>, i: int) -> Option<int> {
    if matches_at(s, i, seq!['n', 'u', 'l', 'l']) {
        Some(i + 4)
    } else {
        None
    }
}

/// A value at `i`, after leading whitespace: dispatched on its first
/// significant character.
pub open spec fn spec_parse_value(s: Seq<char>, i: int) -> Option<(SpecValue, int)>
    decreases s.len() - i, 1int,
    via spec_parse_value_dec
{
    let j = spec_skip_ws(s, i);
    if !(0 <= j && j < s.len()) {
        None
    } else if s[j] == '"' {
        match spec_parse_string(s, j) {
            Some((t, p)) => Some((SpecValue::Str(t), p)),
            None => None,
        }
    } else if s[j] == '-' || is_ascii_digit_char(s[j]) {
        spec_parse_number(s, j)
    } else if s[j] == 't' || s[j] == 'f' {
        match spec_parse_bool(s, j) {
            Some((b, p)) => Some((SpecValue::Bool(b), p)),
            None => None,
        }
    } else if s[j] == 'n' {
        match spec_parse_null(s, j) {
            Some(p) => Some((SpecValue::Null, p)),
            None => None,
        }
    } else if s[j] == '[' {
        match spec_parse_arr(s, j) {
            Some((vs, p)) => Some((SpecValue::Arr(vs), p)),
            None => None,
        }
    } else if s[j] == '{' {
        match spec_parse_obj(s, j) {
            Some((es, p)) => Some((SpecValue::Obj(es), p)),
            None => None,
        }
    } else {
        None
    }
}

#[via_fn]
proof fn spec_parse_value_dec(s: Seq<char>, i: int) {
    broadcast use lemma_skip_ws_bounds;

}

/// An array at `i`: a bracket, then either an immediate close or its items.
pub open spec fn spec_parse_arr(s: Seq<char>, i: int) -> Option<(Seq<SpecValue>, int)>
    decreases s.len() - i, 0int,
    via spec_parse_arr_dec
{
    if !(0 <= i && i < s.len() && s[i] == '[') {
        None
    } else {
        let j = spec_skip_ws(s, i + 1);
        if j < s.len() && s[j] == ']' {
            Some((Seq::empty(), j + 1))
        } else {
            spec_arr_items(s, j)
        }
    }
}

#[via_fn]
proof fn spec_parse_arr_dec(s: Seq<char>, i: int) {
    broadcast use lemma_skip_ws_bounds;

}

/// One or more array items from `i`, each followed by a comma or the
/// closing bracket.
pub open spec fn spec_arr_items(s: Seq<char>, i: int) -> Option<(Seq<SpecValue>, int)>
    decreases s.len() - i, 2int,
    via spec_arr_items_dec
{
    match spec_parse_value(s, i) {
        None => None,
        Some((v, p0)) => {
            // A successful parse always moves the cursor forward; the lower
            // bound below only serves the termination measure.
            let p = if p0 > i {
                p0
            } else {
                i + 1
            };
            let m = spec_skip_ws(s, p);
            if !(m < s.len()) {
                None
            } else if s[m] == ',' {
                match spec_arr_items(s, m + 1) {
                    Some((vs, q)) => Some((seq![v] + vs, q)),
                    None => None,
                }
            } else if s[m] == ']' {
                Some((seq![v], m + 1))
            } else {
                None
            }
        },
    }
}

#[via_fn]
proof fn spec_arr_items_dec(s: Seq<char>, i: int) {
    broadcast use lemma_skip_ws_bounds;

}

/// An object at `i`: a brace, then either an immediate close or its
/// entries.
pub open spec fn spec_parse_obj(s: Seq<char>, i: int) -> Option<
    (Seq<(Seq<char>, SpecValue)>, int),
>
    decreases s.len() - i, 0int,
    via spec_parse_obj_dec
{
    if !(0 <= i && i < s.len() && s[i] == '{') {
        None
    } else {
        let j = spec_skip_ws(s, i + 1);
        if j < s.len() && s[j] == '}' {
            Some((Seq::empty(), j + 1))
        } else {
            spec_obj_items(s, j, Seq::empty())
        }
    }
}

#[via_fn]
proof fn spec_parse_obj_dec(s: Seq<char>, i: int) {
    broadcast use lemma_skip_ws_bounds;

}

/// One or more `"key": value` entries from `i`, each followed by a comma
/// or the closing brace, folded into `acc` with last-write-wins insertion.
pub open spec fn spec_obj_items(
    s: Seq<char>,
    i: int,
    acc: Seq<(Seq<char>, SpecValue)>,
) -> Option<(Seq<(Seq<char>, SpecValue)>, int)>
    decreases s.len() - i, 2int,
    via spec_obj_items_dec
{
    let j = spec_skip_ws(s, i);
    match spec_parse_string(s, j) {
        None => None,
        Some((key, p0)) => {
            // As below for the parsed value: a successful parse always moves
            // the cursor forward, and the bounds only serve the termination
            // measure.
            let p = if p0 > j {
                p0
            } else {
                j + 1
            };
            let q = spec_skip_ws(s, p);
            if !(q < s.len() && s[q] == ':') {
                None
            } else {
                match spec_parse_value(s, q + 1) {
                    None => None,
                    Some((v, m0)) => {
                        let acc1 = spec_obj_insert(acc, key, v);
                        let m1 = if m0 > q + 1 {
                            m0
                        } else {
                            q + 2
                        };
                        let m = spec_skip_ws(s, m1);
                        if !(m < s.len()) {
                            None
                        } else if s[m] == ',' {
                            spec_obj_items(s, m + 1, acc1)
                        } else if s[m] == '}' {
                            Some((acc1, m + 1))
                        } else {
                            None
                        }
                    },
                }
            }
        },
    }
}

#[via_fn]
proof fn spec_obj_items_dec(s: Seq<char>, i: int, acc: Seq<(Seq<char>, SpecValue)>) {
    broadcast use lemma_skip_ws_bounds;

}

/// A whole document from `i`: one value, then only whitespace to the end.
pub open spec fn spec_parse_text(s: Seq<char>, i: int) -> Option<SpecValue> {
    match spec_parse_value(s, i) {
        Some((v, j)) => if spec_skip_ws(s, j) == s.len() {
            Some(v)
        } else {
            None
        },
        None => None,
    }
}

/// What a whole JSON text denotes, if anything.
pub open spec fn spec_parse_json(s: Seq<char>) -> Option<SpecValue> {
    spec_parse_text(s, 0)
}

/// Prepends already-parsed values onto an items result.
pub open spec fn cons_vals(pre: Seq<SpecValue>, rest: Option<(Seq<SpecValue>, int)>) -> Option<
    (Seq<SpecValue>, int),
> {
    match rest {
        Some((vs, q)) => Some((pre + vs, q)),
        None => None,
    }
}

/// Prepending twice is prepending the concatenation.
pub proof fn lemma_cons_vals_assoc(
    pre1: Seq<SpecValue>,
    pre2: Seq<SpecValue>,
    rest: Option<(Seq<SpecValue>, int)>,
)
    ensures
        cons_vals(pre1, cons_vals(pre2, rest)) == cons_vals(pre1 + pre2, rest),
{
    match rest {
        Some((vs, q)) => {
            assert(pre1 + (pre2 + vs) =~= (pre1 + pre2) + vs);
        },
        None => {},
    }
}

/// Prepending nothing changes nothing.
pub proof fn lemma_cons_vals_empty(rest: Option<(Seq<SpecValue>, int)>)
    ensures
        cons_vals(Seq::empty(), rest) == rest,
{
    match rest {
        Some((vs, q)) => {
            assert(Seq::<SpecValue>::empty() + vs =~= vs);
        },
        None => {},
    }
}

/// A value parse does not care about whitespace already skipped.
pub proof fn lemma_parse_value_skip(s: Seq<char>, k: int)
    ensures
        spec_parse_value(s, spec_skip_ws(s, k)) == spec_parse_value(s, k),
{
    lemma_skip_ws_idempotent(s, k);
}

// ---------------------------------------------------------------------------
// The diagnostics, as spec functions: the detail string that each failing
// parse reports. Each mirrors the grammar function it speaks for and is
// meaningful exactly where that function returns `None`.
// ---------------------------------------------------------------------------

/// The detail for a single expected character that was not found.
pub open spec fn spec_expect_char_msg(s: Seq<char>, i: int, expected: char) -> Seq<char> {
    if 0 <= i && i < s.len() {
        "Expected '"@ + seq![expected] + "', found '"@ + seq![s[i]] + "'"@
    } else {
        "Expected '"@ + seq![expected] + "', found end of input"@
    }
}

/// The first offset at or after `k` where `s` stops matching `lit`, or the
/// length of `lit` when all of it matches.
pub open spec fn spec_literal_mismatch(s: Seq<char>, i: int, lit: Seq<char>, k: int) -> int
    decreases lit.len() - k,
{
    if k >= lit.len() {
        k
    } else if !(0 <= i + k && i + k < s.len() && s[i + k] == lit[k]) {
        k
    } else {
        spec_literal_mismatch(s, i, lit, k + 1)
    }
}

/// Matching up to an offset that then deviates puts the first mismatch
/// there.
pub proof fn lemma_literal_mismatch_from(s: Seq<char>, i: int, lit: Seq<char>, j: int, k: int)
    requires
        0 <= j <= k < lit.len(),
        0 <= i,
        i + k <= s.len(),
        s.subrange(i, i + k) == lit.take(k),
        !(i + k < s.len() && s[i + k] == lit[k]),
    ensures
        spec_literal_mismatch(s, i, lit, j) == k,
    decreases k - j,
{
    if j < k {
        assert(s.subrange(i, i + k)[j] == s[i + j]);
        assert(lit.take(k)[j] == lit[j]);
        lemma_literal_mismatch_from(s, i, lit, j + 1, k);
    }
}

/// The detail for a keyword that was not matched in full: it names the
/// first deviating character, or the end of input.
pub open spec fn spec_expect_literal_msg(s: Seq<char>, i: int, lit: Seq<char>) -> Seq<char> {
    let k = spec_literal_mismatch(s, i, lit, 0);
    spec_expect_char_msg(s, i + k, lit[k])
}

/// The cursor after a failed keyword match: just past the deviating
/// character, or at the end of input.
pub open spec fn spec_expect_literal_err_pos(s: Seq<char>, i: int, lit: Seq<char>) -> int {
    let k = spec_literal_mismatch(s, i, lit, 0);
    if i + k < s.len() {
        i + k + 1
    } else {
        i + k
    }
}

/// The detail for a failed boolean keyword.
pub open spec fn spec_bool_err_msg(s: Seq<char>, i: int) -> Seq<char> {
    if 0 <= i && i < s.len() && s[i] == 't' {
        spec_expect_literal_msg(s, i, "true"@)
    } else if 0 <= i && i < s.len() && s[i] == 'f' {
        spec_expect_literal_msg(s, i, "false"@)
    } else {
        "Expected boolean value"@
    }
}

/// The first of the four offsets of a `\u` escape tail that does not hold
/// a hexadecimal digit, or 4 when all of them do.
pub open spec fn spec_hex_bad_at(s: Seq<char>, i: int, k: int) -> int
    decreases 4 - k,
{
    if k >= 4 {
        4
    } else if !(0 <= i + k && i + k < s.len() && spec_hex_value(s[i + k]) is Some) {
        k
    } else {
        spec_hex_bad_at(s, i, k + 1)
    }
}

/// Hexadecimal digits up to an offset that then fails put the first bad
/// offset there.
pub proof fn lemma_hex_bad_at_from(s: Seq<char>, i: int, j: int, k: int)
    requires
        0 <= j <= k <= 4,
        forall|m: int| 0 <= m < k ==> 0 <= i + m < s.len() && spec_hex_value(#[trigger] s[i + m]) is Some,
        k < 4 ==> !(0 <= i + k && i + k < s.len() && spec_hex_value(s[i + k]) is Some),
    ensures
        spec_hex_bad_at(s, i, j) == k,
    decreases k - j,
{
    if j < k {
        lemma_hex_bad_at_from(s, i, j + 1, k);
    }
}

/// The detail for a failed `\u` escape tail: a missing or bad digit, or a
/// value that is no Unicode scalar.
pub open spec fn spec_unicode_err_msg(s: Seq<char>, i: int) -> Seq<char> {
    let k = spec_hex_bad_at(s, i, 0);
    if k < 4 {
        if 0 <= i + k && i + k < s.len() {
            "Invalid Unicode escape sequence: "@ + seq![s[i + k]]
        } else {
            "Unexpected end of Unicode escape sequence"@
        }
    } else {
        match spec_hex4(s, i) {
            Some(cp) => "Invalid Unicode code point: "@ + spec_nat_digits(cp as nat),
            None => Seq::empty(),
        }
    }
}

/// The cursor after a failed `\u` escape tail: past what was read.
pub open spec fn spec_unicode_err_pos(s: Seq<char>, i: int) -> int {
    let k = spec_hex_bad_at(s, i, 0);
    if k < 4 {
        if i + k < s.len() {
            i + k + 1
        } else {
            i + k
        }
    } else {
        i + 4
    }
}

/// The detail for a failed string body, read from just after the opening
/// quote: the first offending event while scanning.
pub open spec fn spec_string_body_err(s: Seq<char>, i: int) -> Seq<char>
    decreases s.len() - i,
{
    if !(0 <= i && i < s.len()) {
        "Unterminated string"@
    } else if s[i] == '"' {
        Seq::empty()
    } else if s[i] == '\\' {
        if i + 1 >= s.len() {
            "Unterminated string"@
        } else if s[i + 1] == 'u' {
            if spec_parse_unicode(s, i + 2) is Some {
                spec_string_body_err(s, i + 6)
            } else {
                spec_unicode_err_msg(s, i + 2)
            }
        } else if spec_simple_escape(s[i + 1]) is Some {
            spec_string_body_err(s, i + 2)
        } else {
            "Invalid escape sequence: \\"@ + seq![s[i + 1]]
        }
    } else if is_control_char(s[i]) {
        "Control characters are not allowed in strings"@
    } else {
        spec_string_body_err(s, i + 1)
    }
}

/// The detail for a failed string literal: a missing opening quote, or
/// the body's own failure.
pub open spec fn spec_string_err_msg(s: Seq<char>, i: int) -> Seq<char> {
    if !(0 <= i && i < s.len() && s[i] == '"') {
        spec_expect_char_msg(s, i, '"')
    } else {
        spec_string_body_err(s, i + 1)
    }
}

/// The detail for a failed number literal.
pub open spec fn spec_number_err_msg(s: Seq<char>, i: int) -> Seq<char> {
    let b = if 0 <= i && i < s.len() && s[i] == '-' {
        i + 1
    } else {
        i
    };
    if !(0 <= b && b < s.len() && is_ascii_digit_char(s[b])) {
        "Invalid number format"@
    } else {
        let a = if s[b] == '0' {
            b + 1
        } else {
            spec_digits_end(s, b)
        };
        if spec_fraction_end(s, a) is None {
            "Expected digits after decimal point"@
        } else {
            "Expected digits in exponent"@
        }
    }
}

/// The detail for a failed value parse: the sub-parser's own failure, or
/// a character no production starts with, or the end of input.
pub open spec fn spec_value_err_msg(s: Seq<char>, i: int) -> Seq<char>
    decreases s.len() - i, 1int,
    via spec_value_err_msg_dec
{
    let j = spec_skip_ws(s, i);
    if !(0 <= j && j < s.len()) {
        "Unexpected end of input"@
    } else if s[j] == '"' {
        spec_string_err_msg(s, j)
    } else if s[j] == '-' || is_ascii_digit_char(s[j]) {
        spec_number_err_msg(s, j)
    } else if s[j] == 't' || s[j] == 'f' {
        spec_bool_err_msg(s, j)
    } else if s[j] == 'n' {
        spec_expect_literal_msg(s, j, "null"@)
    } else if s[j] == '[' {
        spec_arr_err_msg(s, j)
    } else if s[j] == '{' {
        spec_obj_err_msg(s, j)
    } else {
        "Unexpected character: "@ + seq![s[j]]
    }
}

#[via_fn]
proof fn spec_value_err_msg_dec(s: Seq<char>, i: int) {
    broadcast use lemma_skip_ws_bounds;

}

/// The detail for a failed array parse.
pub open spec fn spec_arr_err_msg(s: Seq<char>, i: int) -> Seq<char>
    decreases s.len() - i, 0int,
    via spec_arr_err_msg_dec
{
    if !(0 <= i && i < s.len() && s[i] == '[') {
        spec_expect_char_msg(s, i, '[')
    } else {
        let j = spec_skip_ws(s, i + 1);
        if j < s.len() && s[j] == ']' {
            Seq::empty()
        } else {
            spec_arr_items_err_msg(s, j)
        }
    }
}

#[via_fn]
proof fn spec_arr_err_msg_dec(s: Seq<char>, i: int) {
    broadcast use lemma_skip_ws_bounds;

}

/// The detail for failed array items: an element's own failure, a missing
/// separator, or the end of input.
pub open spec fn spec_arr_items_err_msg(s: Seq<char>, i: int) -> Seq<char>
    decreases s.len() - i, 2int,
    via spec_arr_items_err_msg_dec
{
    match spec_parse_value(s, i) {
        None => spec_value_err_msg(s, i),
        Some((v, p0)) => {
            let p = if p0 > i {
                p0
            } else {
                i + 1
            };
            let m = spec_skip_ws(s, p);
            if !(m < s.len()) {
                "Unterminated array"@
            } else if s[m] == ',' {
                spec_arr_items_err_msg(s, m + 1)
            } else if s[m] == ']' {
                Seq::empty()
            } else {
                "Expected ',' or ']', found '"@ + seq![s[m]] + "'"@
            }
        },
    }
}

#[via_fn]
proof fn spec_arr_items_err_msg_dec(s: Seq<char>, i: int) {
    broadcast use lemma_skip_ws_bounds;

}

/// The detail for a failed object parse.
pub open spec fn spec_obj_err_msg(s: Seq<char>, i: int) -> Seq<char>
    decreases s.len() - i, 0int,
    via spec_obj_err_msg_dec
{
    if !(0 <= i && i < s.len() && s[i] == '{') {
        spec_expect_char_msg(s, i, '{')
    } else {
        let j = spec_skip_ws(s, i + 1);
        if j < s.len() && s[j] == '}' {
            Seq::empty()
        } else {
            spec_obj_items_err_msg(s, j)
        }
    }
}

#[via_fn]
proof fn spec_obj_err_msg_dec(s: Seq<char>, i: int) {
    broadcast use lemma_skip_ws_bounds;

}

/// The detail for failed object entries: a key's, colon's or value's own
/// failure, a missing separator, or the end of input.
pub open spec fn spec_obj_items_err_msg(s: Seq<char>, i: int) -> Seq<char>
    decreases s.len() - i, 2int,
    via spec_obj_items_err_msg_dec
{
    let j = spec_skip_ws(s, i);
    match spec_parse_string(s, j) {
        None => spec_string_err_msg(s, j),
        Some((key, p0)) => {
            let p = if p0 > j {
                p0
            } else {
                j + 1
            };
            let q = spec_skip_ws(s, p);
            if !(q < s.len() && s[q] == ':') {
                spec_expect_char_msg(s, q, ':')
            } else {
                match spec_parse_value(s, q + 1) {
                    None => spec_value_err_msg(s, q + 1),
                    Some((v, m0)) => {
                        let m1 = if m0 > q + 1 {
                            m0
                        } else {
                            q + 2
                        };
                        let m = spec_skip_ws(s, m1);
                        if !(m < s.len()) {
                            "Unterminated object"@
                        } else if s[m] == ',' {
                            spec_obj_items_err_msg(s, m + 1)
                        } else if s[m] == '}' {
                            Seq::empty()
                        } else {
                            "Expected ',' or '}', found '"@ + seq![s[m]] + "'"@
                        }
                    },
                }
            }
        },
    }
}

#[via_fn]
proof fn spec_obj_items_err_msg_dec(s: Seq<char>, i: int) {
    broadcast use lemma_skip_ws_bounds;

}

/// The detail for a failed whole-document parse: the value's own failure,
/// or text left over after it.
pub open spec fn spec_text_err_msg(s: Seq<char>, i: int) -> Seq<char> {
    match spec_parse_value(s, i) {
        None => spec_value_err_msg(s, i),
        Some((v, j)) => "Unexpected trailing characters"@,
    }
}

/// A value's diagnostic does not care about whitespace already skipped.
pub proof fn lemma_value_err_msg_skip(s: Seq<char>, k: int)
    ensures
        spec_value_err_msg(s, spec_skip_ws(s, k)) == spec_value_err_msg(s, k),
{
    lemma_skip_ws_idempotent(s, k);
}

/// One position of `lit` stands at the matching position of `s`.
pub proof fn lemma_matches_at_index(s: Seq<char>, i: int, lit: Seq<char>, k: int)
    requires
        matches_at(s, i, lit),
        0 <= k < lit.len(),
    ensures
        s[i + k] == lit[k],
        i + k < s.len(),
{
    assert(s.subrange(i, i + lit.len())[k] == s[i + k]);
}

// ---------------------------------------------------------------------------
// The parser itself.
// ---------------------------------------------------------------------------

/// A parser for converting JSON text into `JsonValue` instances: the
/// decoded input and a forward-only cursor, owned by one parse operation.
#[derive(Debug, Clone)]
pub struct JsonParser {
    /// The input JSON text as decoded characters.
    input: Vec<char>,
    /// The current position in the input.
    position: usize,
}

impl JsonParser {
    /// The decoded input text.
    pub closed spec fn text(&self) -> Seq<char> {
        self.input@
    }

    /// The cursor.
    pub closed spec fn pos(&self) -> int {
        self.position as int
    }

    /// The cursor stands between the start and the end of the input.
    pub open spec fn wf(&self) -> bool {
        0 <= self.pos() <= self.text().len()
    }

    /// Creates a parser over `input`, with the cursor at the start.
    pub fn new(input: String) -> (r: JsonParser)
        ensures
            r.text() == input@,
            r.pos() == 0,
            r.wf(),
    {
        let n = input.as_str().unicode_len();
        let mut buf: Vec<char> = Vec::new();
        let mut i: usize = 0;
        while i < n
            invariant
                i <= n,
                n == input@.len(),
                buf@ == input@.take(i as int),
            decreases n - i,
        {
            buf.push(input.as_str().get_char(i));
            proof {
                assert(input@.take(i as int + 1) =~= input@.take(i as int).push(
                    input@[i as int],
                ));
            }
            i = i + 1;
        }
        proof {
            assert(input@.take(n as int) =~= input@);
        }
        JsonParser { input: buf, position: 0 }
    }

    /// The character under the cursor, if any; the cursor does not move.
    pub fn peek_char(&self) -> (r: Option<char>)
        requires
            self.wf(),
        ensures
            r == (if self.pos() < self.text().len() {
                Some(self.text()[self.pos()])
            } else {
                None::<char>
            }),
    {
        if self.position < self.input.len() {
            Some(self.input[self.position])
        } else {
            None
        }
    }

    /// Returns the character under the cursor and moves past it.
    pub fn next_char(&mut self) -> (r: Option<char>)
        requires
            old(self).wf(),
        ensures
            final(self).wf(),
            final(self).text() == old(self).text(),
            old(self).pos() < old(self).text().len() ==> r == Some(
                old(self).text()[old(self).pos()],
            ) && final(self).pos() == old(self).pos() + 1,
            old(self).pos() >= old(self).text().len() ==> r == None::<char> && final(self).pos()
                == old(self).pos(),
    {
        if self.position < self.input.len() {
            let c = self.input[self.position];
            self.position = self.position + 1;
            Some(c)
        } else {
            None
        }
    }

    /// Advances past any run of whitespace characters.
    pub fn skip_whitespace(&mut self)
        requires
            old(self).wf(),
        ensures
            final(self).wf(),
            final(self).text() == old(self).text(),
            final(self).pos() == spec_skip_ws(old(self).text(), old(self).pos()),
    {
        while self.position < self.input.len() && whitespace_char(self.input[self.position])
            invariant
                self.wf(),
                self.text() == old(self).text(),
                spec_skip_ws(old(self).text(), old(self).pos()) == spec_skip_ws(
                    self.text(),
                    self.pos(),
                ),
            decreases self.text().len() - self.pos(),
        {
            self.position = self.position + 1;
        }
    }

    /// Consumes one character, which must be `expected`.
    pub fn expect_char(&mut self, expected: char) -> (r: Result<(), DeserializeError>)
        requires
            old(self).wf(),
        ensures
            final(self).wf(),
            final(self).text() == old(self).text(),
            r is Ok <==> (old(self).pos() < old(self).text().len() && old(self).text()[old(
                self,
            ).pos()] == expected),
            old(self).pos() < old(self).text().len() ==> final(self).pos() == old(self).pos()
                + 1,
            old(self).pos() >= old(self).text().len() ==> final(self).pos() == old(self).pos(),
            (r matches Err(e) ==> e matches DeserializeError::InvalidJson(m) && m@
                == spec_expect_char_msg(old(self).text(), old(self).pos(), expected)),
    {
        match self.next_char() {
            Some(c) => {
                if c == expected {
                    Ok(())
                } else {
                    let mut msg = "Expected '".to_owned();
                    push_char(&mut msg, expected);
                    msg.append("', found '");
                    push_char(&mut msg, c);
                    msg.append("'");
                    proof {
                        assert(msg@ =~= spec_expect_char_msg(
                            old(self).text(),
                            old(self).pos(),
                            expected,
                        ));
                    }
                    Err(DeserializeError::InvalidJson(msg))
                }
            },
            None => {
                let mut msg = "Expected '".to_owned();
                push_char(&mut msg, expected);
                msg.append("', found end of input");
                proof {
                    assert(msg@ =~= spec_expect_char_msg(
                        old(self).text(),
                        old(self).pos(),
                        expected,
                    ));
                }
                Err(DeserializeError::InvalidJson(msg))
            },
        }
    }

    /// Consumes exactly the characters of `literal`.
    pub fn expect_literal(&mut self, literal: &str) -> (r: Result<(), DeserializeError>)
        requires
            old(self).wf(),
        ensures
            final(self).wf(),
            final(self).text() == old(self).text(),
            r is Ok <==> matches_at(old(self).text(), old(self).pos(), literal@),
            r is Ok ==> final(self).pos() == old(self).pos() + literal@.len(),
            (r matches Err(e) ==> e matches DeserializeError::InvalidJson(m) && m@
                == spec_expect_literal_msg(old(self).text(), old(self).pos(), literal@)),
            r is Err ==> final(self).pos() == spec_expect_literal_err_pos(
                old(self).text(),
                old(self).pos(),
                literal@,
            ),
    {
        let n = literal.unicode_len();
        let mut k: usize = 0;
        while k < n
            invariant
                0 <= k <= n,
                n == literal@.len(),
                self.wf(),
                self.text() == old(self).text(),
                self.pos() == old(self).pos() + k,
                forall|m: int|
                    0 <= m < k ==> old(self).text()[old(self).pos() + m] == literal@[m],
            decreases n - k,
        {
            let expected = literal.get_char(k);
            match self.next_char() {
                Some(c) => {
                    if c != expected {
                        proof {
                            let s = old(self).text();
                            let i = old(self).pos();
                            if matches_at(s, i, literal@) {
                                lemma_matches_at_index(s, i, literal@, k as int);
                            }
                            assert(s.subrange(i, i + k) =~= literal@.take(k as int));
                            lemma_literal_mismatch_from(s, i, literal@, 0, k as int);
                        }
                        let mut msg = "Expected '".to_owned();
                        push_char(&mut msg, expected);
                        msg.append("', found '");
                        push_char(&mut msg, c);
                        msg.append("'");
                        proof {
                            assert(msg@ =~= spec_expect_literal_msg(
                                old(self).text(),
                                old(self).pos(),
                                literal@,
                            ));
                        }
                        return Err(DeserializeError::InvalidJson(msg));
                    }
                },
                None => {
                    proof {
                        let s = old(self).text();
                        let i = old(self).pos();
                        assert(s.subrange(i, i + k) =~= literal@.take(k as int));
                        lemma_literal_mismatch_from(s, i, literal@, 0, k as int);
                    }
                    let mut msg = "Expected '".to_owned();
                    push_char(&mut msg, expected);
                    msg.append("', found end of input");
                    proof {
                        assert(msg@ =~= spec_expect_literal_msg(
                            old(self).text(),
                            old(self).pos(),
                            literal@,
                        ));
                    }
                    return Err(DeserializeError::InvalidJson(msg));
                },
            }
            k = k + 1;
        }
        proof {
            assert(old(self).text().subrange(
                old(self).pos(),
                old(self).pos() + n as int,
            ) =~= literal@);
        }
        Ok(())
    }

    /// Parses the keywords `true` or `false`.
    pub fn parse_boolean(&mut self) -> (r: Result<bool, DeserializeError>)
        requires
            old(self).wf(),
        ensures
            final(self).wf(),
            final(self).text() == old(self).text(),
            (match r {
                Ok(b) => spec_parse_bool(old(self).text(), old(self).pos()) == Some(
                    (b, final(self).pos()),
                ) && final(self).pos() > old(self).pos(),
                Err(e) => spec_parse_bool(old(self).text(), old(self).pos()) is None && (
                e matches DeserializeError::InvalidJson(m) && m@ == spec_bool_err_msg(
                    old(self).text(),
                    old(self).pos(),
                )),
            }),
    {
        let ghost s = self.text();
        let ghost i = self.pos();
        proof {
            reveal_strlit("true");
            reveal_strlit("false");
            assert("true"@ =~= seq!['t', 'r', 'u', 'e']);
            assert("false"@ =~= seq!['f', 'a', 'l', 's', 'e']);
        }
        match self.peek_char() {
            Some('t') => {
                match self.expect_literal("true") {
                    Ok(()) => Ok(true),
                    Err(e) => {
                        proof {
                            if matches_at(s, i, seq!['f', 'a', 'l', 's', 'e']) {
                                lemma_matches_at_index(
                                    s,
                                    i,
                                    seq!['f', 'a', 'l', 's', 'e'],
                                    0,
                                );
                            }
                        }
                        Err(e)
                    },
                }
            },
            Some('f') => {
                match self.expect_literal("false") {
                    Ok(()) => Ok(false),
                    Err(e) => {
                        proof {
                            if matches_at(s, i, seq!['t', 'r', 'u', 'e']) {
                                lemma_matches_at_index(s, i, seq!['t', 'r', 'u', 'e'], 0);
                            }
                        }
                        Err(e)
                    },
                }
            },
            _ => {
                proof {
                    if matches_at(s, i, seq!['t', 'r', 'u', 'e']) {
                        lemma_matches_at_index(s, i, seq!['t', 'r', 'u', 'e'], 0);
                    }
                    if matches_at(s, i, seq!['f', 'a', 'l', 's', 'e']) {
                        lemma_matches_at_index(s, i, seq!['f', 'a', 'l', 's', 'e'], 0);
                    }
                }
                Err(DeserializeError::InvalidJson("Expected boolean value".to_owned()))
            },
        }
    }

    /// Parses the keyword `null`.
    pub fn parse_null(&mut self) -> (r: Result<(), DeserializeError>)
        requires
            old(self).wf(),
        ensures
            final(self).wf(),
            final(self).text() == old(self).text(),
            (match r {
                Ok(u) => spec_parse_null(old(self).text(), old(self).pos()) == Some(
                    final(self).pos(),
                ) && final(self).pos() > old(self).pos(),
                Err(e) => spec_parse_null(old(self).text(), old(self).pos()) is None && (
                e matches DeserializeError::InvalidJson(m) && m@ == spec_expect_literal_msg(
                    old(self).text(),
                    old(self).pos(),
                    "null"@,
                )),
            }),
    {
        proof {
            reveal_strlit("null");
            assert("null"@ =~= seq!['n', 'u', 'l', 'l']);
        }
        self.expect_literal("null")
    }

    /// Reads one character that must be a hexadecimal digit.
    fn read_hex_digit(&mut self) -> (r: Result<u32, DeserializeError>)
        requires
            old(self).wf(),
        ensures
            final(self).wf(),
            final(self).text() == old(self).text(),
            (match r {
                Ok(d) => old(self).pos() < old(self).text().len() && spec_hex_value(
                    old(self).text()[old(self).pos()],
                ) == Some(d) && final(self).pos() == old(self).pos() + 1 && d < 16,
                Err(e) => (old(self).pos() >= old(self).text().len() || spec_hex_value(
                    old(self).text()[old(self).pos()],
                ) is None) && e is InvalidJson,
            }),
            old(self).pos() < old(self).text().len() ==> final(self).pos() == old(self).pos()
                + 1,
            old(self).pos() >= old(self).text().len() ==> final(self).pos() == old(self).pos(),
            (r matches Err(e) ==> e matches DeserializeError::InvalidJson(m) && m@ == (
            if old(self).pos() < old(self).text().len() {
                "Invalid Unicode escape sequence: "@ + seq![
                    old(self).text()[old(self).pos()],
                ]
            } else {
                "Unexpected end of Unicode escape sequence"@
            })),
    {
        match self.next_char() {
            Some(c) => {
                match hex_value(c) {
                    Some(d) => Ok(d),
                    None => {
                        let mut msg = "Invalid Unicode escape sequence: ".to_owned();
                        push_char(&mut msg, c);
                        proof {
                            assert(msg@ =~= "Invalid Unicode escape sequence: "@ + seq![c]);
                        }
                        Err(DeserializeError::InvalidJson(msg))
                    },
                }
            },
            None => Err(
                DeserializeError::InvalidJson(
                    "Unexpected end of Unicode escape sequence".to_owned(),
                ),
            ),
        }
    }

    /// Parses the four-hexadecimal-digit tail of a `\u` escape into the
    /// character with that scalar value.
    pub fn parse_unicode_escape(&mut self) -> (r: Result<char, DeserializeError>)
        requires
            old(self).wf(),
        ensures
            final(self).wf(),
            final(self).text() == old(self).text(),
            (match r {
                Ok(c) => spec_parse_unicode(old(self).text(), old(self).pos()) == Some(
                    (c, final(self).pos()),
                ) && final(self).pos() == old(self).pos() + 4,
                Err(e) => spec_parse_unicode(old(self).text(), old(self).pos()) is None && (
                e matches DeserializeError::InvalidJson(m) && m@ == spec_unicode_err_msg(
                    old(self).text(),
                    old(self).pos(),
                )),
            }),
            r is Err ==> final(self).pos() == spec_unicode_err_pos(
                old(self).text(),
                old(self).pos(),
            ),
    {
        let ghost s = self.text();
        let ghost i = self.pos();
        let a = match self.read_hex_digit() {
            Ok(d) => d,
            Err(e) => {
                proof {
                    lemma_hex_bad_at_from(s, i, 0, 0);
                }
                return Err(e);
            },
        };
        let b = match self.read_hex_digit() {
            Ok(d) => d,
            Err(e) => {
                proof {
                    lemma_hex_bad_at_from(s, i, 0, 1);
                }
                return Err(e);
            },
        };
        let c = match self.read_hex_digit() {
            Ok(d) => d,
            Err(e) => {
                proof {
                    lemma_hex_bad_at_from(s, i, 0, 2);
                }
                return Err(e);
            },
        };
        let d = match self.read_hex_digit() {
            Ok(d) => d,
            Err(e) => {
                proof {
                    lemma_hex_bad_at_from(s, i, 0, 3);
                }
                return Err(e);
            },
        };
        let code_point = ((a * 16 + b) * 16 + c) * 16 + d;
        proof {
            assert(spec_hex4(s, i) == Some(code_point));
            lemma_hex_bad_at_from(s, i, 0, 4);
        }
        match char_from_u32(code_point) {
            Some(ch) => {
                proof {
                    vstd::utf8::char_u32_cast(ch, code_point);
                }
                Ok(ch)
            },
            None => {
                let mut msg = "Invalid Unicode code point: ".to_owned();
                push_u64_decimal(&mut msg, code_point as u64);
                proof {
                    assert(code_point as u64 as nat == code_point as nat);
                    assert(msg@ == "Invalid Unicode code point: "@ + spec_nat_digits(
                        code_point as nat,
                    ));
                }
                Err(DeserializeError::InvalidJson(msg))
            },
        }
    }

    /// Parses a string literal: a leading quote, the body with escapes
    /// decoded, and the closing quote.
    pub fn parse_string(&mut self) -> (r: Result<String, DeserializeError>)
        requires
            old(self).wf(),
        ensures
            final(self).wf(),
            final(self).text() == old(self).text(),
            (match r {
                Ok(out) => spec_parse_string(old(self).text(), old(self).pos()) == Some(
                    (out@, final(self).pos()),
                ) && final(self).pos() > old(self).pos() + 1,
                Err(e) => spec_parse_string(old(self).text(), old(self).pos()) is None && (
                e matches DeserializeError::InvalidJson(m) && m@ == spec_string_err_msg(
                    old(self).text(),
                    old(self).pos(),
                )),
            }),
    {
        let ghost s = self.text();
        let ghost i0 = self.pos();
        match self.expect_char('"') {
            Ok(()) => {},
            Err(e) => {
                return Err(e);
            },
        }
        let mut out = String::new();
        proof {
            lemma_cons_text_empty(spec_string_body(s, i0 + 1));
        }
        loop
            invariant
                self.wf(),
                self.text() == s,
                s == old(self).text(),
                i0 == old(self).pos(),
                0 <= i0 < s.len(),
                s[i0] == '"',
                i0 + 1 <= self.pos() <= s.len(),
                cons_text(out@, spec_string_body(s, self.pos())) == spec_string_body(
                    s,
                    i0 + 1,
                ),
                spec_string_body(s, self.pos()) is None ==> spec_string_body_err(s, i0 + 1)
                    == spec_string_body_err(s, self.pos()),
            decreases s.len() - self.pos(),
        {
            let ghost p = self.pos();
            let ghost out0 = out@;
            match self.next_char() {
                None => {
                    return Err(
                        DeserializeError::InvalidJson("Unterminated string".to_owned()),
                    );
                },
                Some(c) => {
                    if c == '"' {
                        return Ok(out);
                    } else if c == '\\' {
                        let e = match self.next_char() {
                            Some(e) => e,
                            None => {
                                return Err(
                                    DeserializeError::InvalidJson(
                                        "Unterminated string".to_owned(),
                                    ),
                                );
                            },
                        };
                        let decoded: char = match e {
                            '"' => '"',
                            '\\' => '\\',
                            '/' => '/',
                            'b' => '\u{0008}',
                            'f' => '\u{000C}',
                            'n' => '\n',
                            'r' => '\r',
                            't' => '\t',
                            'u' => {
                                match self.parse_unicode_escape() {
                                    Ok(c2) => c2,
                                    Err(e2) => {
                                        return Err(e2);
                                    },
                                }
                            },
                            _ => {
                                let mut msg = "Invalid escape sequence: \\".to_owned();
                                push_char(&mut msg, e);
                                proof {
                                    assert(msg@ =~= "Invalid escape sequence: \\"@ + seq![
                                        e,
                                    ]);
                                }
                                return Err(DeserializeError::InvalidJson(msg));
                            },
                        };
                        push_char(&mut out, decoded);
                        proof {
                            if e == 'u' {
                                assert(spec_string_body(s, p) == cons_chr(
                                    decoded,
                                    spec_string_body(s, p + 6),
                                ));
                                lemma_cons_text_push(
                                    out0,
                                    decoded,
                                    spec_string_body(s, p + 6),
                                );
                                assert(spec_string_body(s, p + 6) is None
                                    ==> spec_string_body_err(s, p) == spec_string_body_err(
                                    s,
                                    p + 6,
                                ));
                            } else {
                                assert(spec_simple_escape(e) == Some(decoded));
                                assert(spec_string_body(s, p) == cons_chr(
                                    decoded,
                                    spec_string_body(s, p + 2),
                                ));
                                lemma_cons_text_push(
                                    out0,
                                    decoded,
                                    spec_string_body(s, p + 2),
                                );
                                assert(spec_string_body(s, p + 2) is None
                                    ==> spec_string_body_err(s, p) == spec_string_body_err(
                                    s,
                                    p + 2,
                                ));
                            }
                        }
                    } else if control_char(c) {
                        return Err(
                            DeserializeError::InvalidJson(
                                "Control characters are not allowed in strings".to_owned(),
                            ),
                        );
                    } else {
                        push_char(&mut out, c);
                        proof {
                            assert(spec_string_body(s, p) == cons_chr(
                                c,
                                spec_string_body(s, p + 1),
                            ));
                            lemma_cons_text_push(out0, c, spec_string_body(s, p + 1));
                            assert(spec_string_body(s, p + 1) is None ==> spec_string_body_err(
                                s,
                                p,
                            ) == spec_string_body_err(s, p + 1));
                        }
                    }
                },
            }
        }
    }

    /// Consumes a run of ASCII digits into `literal`; true when at least
    /// one digit was read.
    fn consume_digits(&mut self, literal: &mut String) -> (got: bool)
        requires
            old(self).wf(),
        ensures
            final(self).wf(),
            final(self).text() == old(self).text(),
            final(self).pos() == spec_digits_end(old(self).text(), old(self).pos()),
            old(self).pos() <= final(self).pos(),
            final(literal)@ == old(literal)@ + old(self).text().subrange(
                old(self).pos(),
                final(self).pos(),
            ),
            got == (final(self).pos() > old(self).pos()),
            forall|k: int|
                old(self).pos() <= k < final(self).pos() ==> crate::chars::is_ascii_digit_char(
                    #[trigger] old(self).text()[k],
                ),
    {
        let ghost s = self.text();
        let ghost p0 = self.pos();
        let start = self.position;
        while self.position < self.input.len() && ascii_digit_char(self.input[self.position])
            invariant
                self.wf(),
                self.text() == s,
                s == old(self).text(),
                p0 == old(self).pos(),
                p0 == start as int,
                p0 <= self.pos(),
                spec_digits_end(s, p0) == spec_digits_end(s, self.pos()),
                literal@ == old(literal)@ + s.subrange(p0, self.pos()),
                forall|k: int|
                    p0 <= k < self.pos() ==> crate::chars::is_ascii_digit_char(
                        #[trigger] s[k],
                    ),
            decreases s.len() - self.pos(),
        {
            let ghost p = self.pos();
            let ghost lit0 = literal@;
            let ch = self.input[self.position];
            self.position = self.position + 1;
            push_char(literal, ch);
            proof {
                assert(s.subrange(p0, p + 1) =~= s.subrange(p0, p).push(s[p]));
                assert(lit0.push(ch) =~= old(literal)@ + s.subrange(p0, p + 1));
            }
        }
        self.position > start
    }

    /// Parses a number literal. Without a fractional part or exponent it
    /// becomes an `Int` when its value fits in 64 signed bits; any other
    /// literal keeps its text as a `Float`.
    #[verifier::rlimit(100)]
    #[verifier::spinoff_prover]
    pub fn parse_number(&mut self) -> (r: Result<JsonValue, DeserializeError>)
        requires
            old(self).wf(),
        ensures
            final(self).wf(),
            final(self).text() == old(self).text(),
            (match r {
                Ok(v) => spec_parse_number(old(self).text(), old(self).pos()) == Some(
                    (v.model(), final(self).pos()),
                ) && final(self).pos() > old(self).pos(),
                Err(e) => spec_parse_number(old(self).text(), old(self).pos()) is None && (
                e matches DeserializeError::InvalidJson(m) && m@ == spec_number_err_msg(
                    old(self).text(),
                    old(self).pos(),
                )),
            }),
    {
        let ghost s = self.text();
        let ghost i = self.pos();
        let mut literal = String::new();
        let mut has_decimal = false;
        let mut has_exponent = false;

        // Leading minus sign.
        let minus = match self.peek_char() {
            Some(ch) => ch == '-',
            None => false,
        };
        if minus {
            let ch = self.next_char().unwrap();
            push_char(&mut literal, ch);
        }
        let ghost b = if 0 <= i && i < s.len() && s[i] == '-' {
            i + 1
        } else {
            i
        };
        proof {
            assert(literal@ =~= s.subrange(i, b));
        }

        // Integer part: a single zero, or a nonzero digit and its run.
        match self.peek_char() {
            Some(ch) => {
                if ch == '0' {
                    let z = self.next_char().unwrap();
                    push_char(&mut literal, z);
                    proof {
                        assert(literal@ =~= s.subrange(i, b + 1));
                    }
                } else if ascii_digit_char(ch) {
                    let got = self.consume_digits(&mut literal);
                    proof {
                        assert(s.subrange(i, b) + s.subrange(b, self.pos()) =~= s.subrange(
                            i,
                            self.pos(),
                        ));
                        assert(spec_digits_end(s, b) == spec_digits_end(s, b + 1));
                        lemma_digits_end_bounds(s, b + 1);
                        assert(self.pos() > b);
                    }
                } else {
                    proof {
                        assert(spec_number_err_msg(s, i) == "Invalid number format"@);
                    }
                    return Err(
                        DeserializeError::InvalidJson("Invalid number format".to_owned()),
                    );
                }
            },
            None => {
                proof {
                    assert(spec_number_err_msg(s, i) == "Invalid number format"@);
                }
                return Err(
                    DeserializeError::InvalidJson("Invalid number format".to_owned()),
                );
            },
        }
        let ghost a = if s[b] == '0' {
            b + 1
        } else {
            spec_digits_end(s, b)
        };
        proof {
            assert(self.pos() == a);
            assert(literal@ == s.subrange(i, a));
        }

        // Optional fractional part.
        let dot = match self.peek_char() {
            Some(ch) => ch == '.',
            None => false,
        };
        if dot {
            has_decimal = true;
            let ch = self.next_char().unwrap();
            push_char(&mut literal, ch);
            proof {
                assert(literal@ =~= s.subrange(i, a + 1));
            }
            let got = self.consume_digits(&mut literal);
            proof {
                assert(s.subrange(i, a + 1) + s.subrange(a + 1, self.pos()) =~= s.subrange(
                    i,
                    self.pos(),
                ));
            }
            if !got {
                proof {
                    assert(spec_number_err_msg(s, i) == "Expected digits after decimal point"@);
                }
                return Err(
                    DeserializeError::InvalidJson(
                        "Expected digits after decimal point".to_owned(),
                    ),
                );
            }
        }
        let ghost f = self.pos();
        proof {
            assert(spec_fraction_end(s, a) == Some((f, has_decimal)));
            assert(literal@ == s.subrange(i, f));
        }

        // Optional exponent.
        let exp_marker = match self.peek_char() {
            Some(ch) => ch == 'e' || ch == 'E',
            None => false,
        };
        if exp_marker {
            has_exponent = true;
            let ch = self.next_char().unwrap();
            push_char(&mut literal, ch);
            proof {
                assert(literal@ =~= s.subrange(i, f + 1));
            }
            let sign = match self.peek_char() {
                Some(ch2) => ch2 == '+' || ch2 == '-',
                None => false,
            };
            if sign {
                let ch2 = self.next_char().unwrap();
                push_char(&mut literal, ch2);
                proof {
                    assert(literal@ =~= s.subrange(i, f + 2));
                }
            }
            let ghost q = self.pos();
            let got = self.consume_digits(&mut literal);
            proof {
                assert(s.subrange(i, q) + s.subrange(q, self.pos()) =~= s.subrange(
                    i,
                    self.pos(),
                ));
            }
            if !got {
                proof {
                    assert(spec_number_err_msg(s, i) == "Expected digits in exponent"@);
                }
                return Err(
                    DeserializeError::InvalidJson("Expected digits in exponent".to_owned()),
                );
            }
        }
        let ghost end = self.pos();
        let ghost lit = s.subrange(i, end);
        proof {
            assert(spec_exponent_end(s, f) == Some((end, has_exponent)));
            assert(spec_number_token(s, i) == Some((end, has_decimal || has_exponent)));
            assert(literal@ == lit);
        }

        if !has_decimal && !has_exponent {
            proof {
                assert(lit.len() > 0);
                assert(lit[0] == '-' ==> lit.len() > 1);
                assert forall|k: int|
                    (if lit[0] == '-' { 1int } else { 0int }) <= k < lit.len() implies
                    crate::chars::is_ascii_digit_char(#[trigger] lit[k]) by {
                    assert(lit[k] == s[i + k]);
                }
            }
            match i64_from_int_literal(literal.as_str()) {
                Some(v) => Ok(JsonValue::Int(v)),
                None => Ok(JsonValue::Float(literal)),
            }
        } else {
            Ok(JsonValue::Float(literal))
        }
    }

    /// Parses one value of any kind, dispatched on its first significant
    /// character.
    pub fn parse_value(&mut self) -> (r: Result<JsonValue, DeserializeError>)
        requires
            old(self).wf(),
        ensures
            final(self).wf(),
            final(self).text() == old(self).text(),
            (match r {
                Ok(v) => spec_parse_value(old(self).text(), old(self).pos()) == Some(
                    (v.model(), final(self).pos()),
                ) && final(self).pos() > old(self).pos(),
                Err(e) => spec_parse_value(old(self).text(), old(self).pos()) is None && (
                e matches DeserializeError::InvalidJson(m) && m@ == spec_value_err_msg(
                    old(self).text(),
                    old(self).pos(),
                )),
            }),
        decreases old(self).text().len() - old(self).pos(), 1int,
    {
        broadcast use lemma_skip_ws_bounds;

        let ghost s = self.text();
        let ghost i = self.pos();
        self.skip_whitespace();
        let ghost j = self.pos();
        proof {
            lemma_skip_ws_bounds(s, i);
        }
        match self.peek_char() {
            Some(c) => {
                if c == '"' {
                    match self.parse_string() {
                        Ok(t) => Ok(JsonValue::Str(t)),
                        Err(e) => Err(e),
                    }
                } else if c == '-' || ascii_digit_char(c) {
                    let r = self.parse_number();
                    proof {
                        lemma_skip_ws_bounds(s, i);
                    }
                    r
                } else if c == 't' || c == 'f' {
                    match self.parse_boolean() {
                        Ok(b) => Ok(JsonValue::Bool(b)),
                        Err(e) => Err(e),
                    }
                } else if c == 'n' {
                    match self.parse_null() {
                        Ok(u) => Ok(JsonValue::Null),
                        Err(e) => Err(e),
                    }
                } else if c == '[' {
                    match self.parse_array() {
                        Ok(elems) => Ok(JsonValue::Arr(elems)),
                        Err(e) => Err(e),
                    }
                } else if c == '{' {
                    match self.parse_object() {
                        Ok(entries) => Ok(JsonValue::Obj(entries)),
                        Err(e) => Err(e),
                    }
                } else {
                    let mut msg = "Unexpected character: ".to_owned();
                    push_char(&mut msg, c);
                    proof {
                        assert(msg@ =~= "Unexpected character: "@ + seq![c]);
                    }
                    Err(DeserializeError::InvalidJson(msg))
                }
            },
            None => Err(DeserializeError::InvalidJson("Unexpected end of input".to_owned())),
        }
    }

    /// Parses an array: a bracket, then either an immediate close or a
    /// comma-separated run of values.
    pub fn parse_array(&mut self) -> (r: Result<Vec<JsonValue>, DeserializeError>)
        requires
            old(self).wf(),
        ensures
            final(self).wf(),
            final(self).text() == old(self).text(),
            (match r {
                Ok(elems) => spec_parse_arr(old(self).text(), old(self).pos()) == Some(
                    (arr_model(elems@), final(self).pos()),
                ) && final(self).pos() > old(self).pos(),
                Err(e) => spec_parse_arr(old(self).text(), old(self).pos()) is None && (
                e matches DeserializeError::InvalidJson(m) && m@ == spec_arr_err_msg(
                    old(self).text(),
                    old(self).pos(),
                )),
            }),
        decreases old(self).text().len() - old(self).pos(), 0int,
    {
        broadcast use lemma_skip_ws_bounds;

        let ghost s = self.text();
        let ghost i = self.pos();
        match self.expect_char('[') {
            Ok(()) => {},
            Err(e) => {
                return Err(e);
            },
        }
        let mut elems: Vec<JsonValue> = Vec::new();
        self.skip_whitespace();
        let ghost j = self.pos();
        proof {
            lemma_skip_ws_bounds(s, i + 1);
        }
        match self.peek_char() {
            Some(']') => {
                self.next_char();
                proof {
                    assert(arr_model(Seq::<JsonValue>::empty()) =~= Seq::<SpecValue>::empty());
                }
                return Ok(elems);
            },
            _ => {},
        }
        proof {
            lemma_cons_vals_empty(spec_arr_items(s, j));
            assert(arr_model(Seq::<JsonValue>::empty()) =~= Seq::<SpecValue>::empty());
        }
        loop
            invariant
                self.wf(),
                self.text() == s,
                s == old(self).text(),
                i == old(self).pos(),
                0 <= i < s.len(),
                s[i] == '[',
                i < self.pos(),
                j == spec_skip_ws(s, i + 1),
                !(j < s.len() && s[j] == ']'),
                cons_vals(arr_model(elems@), spec_arr_items(s, self.pos())) == spec_arr_items(
                    s,
                    j,
                ),
                spec_arr_items(s, self.pos()) is None ==> spec_arr_items_err_msg(s, j)
                    == spec_arr_items_err_msg(s, self.pos()),
            decreases s.len() - self.pos(),
        {
            broadcast use lemma_skip_ws_bounds;

            let ghost k = self.pos();
            let ghost m_before = arr_model(elems@);
            self.skip_whitespace();
            proof {
                lemma_parse_value_skip(s, k);
                lemma_skip_ws_bounds(s, k);
            }
            let v = match self.parse_value() {
                Ok(v) => v,
                Err(e) => {
                    proof {
                        lemma_value_err_msg_skip(s, k);
                        assert(spec_parse_value(s, k) is None);
                        assert(spec_arr_items_err_msg(s, k) == spec_value_err_msg(s, k));
                    }
                    return Err(e);
                },
            };
            let ghost vm = v.model();
            let ghost m0 = self.pos();
            let ghost elems_before = elems@;
            elems.push(v);
            proof {
                lemma_arr_model_push(elems_before, v);
            }
            self.skip_whitespace();
            let ghost m = self.pos();
            match self.next_char() {
                Some(',') => {
                    proof {
                        assert(spec_arr_items(s, k) == cons_vals(
                            seq![vm],
                            spec_arr_items(s, m + 1),
                        ));
                        lemma_cons_vals_assoc(m_before, seq![vm], spec_arr_items(s, m + 1));
                        assert(m_before + seq![vm] =~= arr_model(elems@));
                        assert(spec_arr_items(s, m + 1) is None ==> spec_arr_items_err_msg(
                            s,
                            k,
                        ) == spec_arr_items_err_msg(s, m + 1));
                    }
                },
                Some(close) => {
                    if close == ']' {
                        proof {
                            assert(spec_arr_items(s, k) == Some((seq![vm], m + 1)));
                            assert(m_before + seq![vm] =~= arr_model(elems@));
                        }
                        return Ok(elems);
                    } else {
                        let mut msg = "Expected ',' or ']', found '".to_owned();
                        push_char(&mut msg, close);
                        msg.append("'");
                        proof {
                            assert(msg@ =~= "Expected ',' or ']', found '"@ + seq![close]
                                + "'"@);
                            assert(spec_arr_items_err_msg(s, k) == msg@);
                        }
                        return Err(DeserializeError::InvalidJson(msg));
                    }
                },
                None => {
                    proof {
                        assert(spec_arr_items_err_msg(s, k) == "Unterminated array"@);
                    }
                    return Err(DeserializeError::InvalidJson("Unterminated array".to_owned()));
                },
            }
        }
    }

    /// Parses an object: a brace, then either an immediate close or a
    /// comma-separated run of `"key": value` entries, with a repeated key
    /// replacing the earlier value.
    pub fn parse_object(&mut self) -> (r: Result<Vec<(String, JsonValue)>, DeserializeError>)
        requires
            old(self).wf(),
        ensures
            final(self).wf(),
            final(self).text() == old(self).text(),
            (match r {
                Ok(entries) => spec_parse_obj(old(self).text(), old(self).pos()) == Some(
                    (obj_model(entries@), final(self).pos()),
                ) && final(self).pos() > old(self).pos() && obj_keys_unique(obj_model(entries@)),
                Err(e) => spec_parse_obj(old(self).text(), old(self).pos()) is None && (
                e matches DeserializeError::InvalidJson(m) && m@ == spec_obj_err_msg(
                    old(self).text(),
                    old(self).pos(),
                )),
            }),
        decreases old(self).text().len() - old(self).pos(), 0int,
    {
        broadcast use lemma_skip_ws_bounds;

        let ghost s = self.text();
        let ghost i = self.pos();
        match self.expect_char('{') {
            Ok(()) => {},
            Err(e) => {
                return Err(e);
            },
        }
        let mut entries: Vec<(String, JsonValue)> = Vec::new();
        self.skip_whitespace();
        let ghost j0 = self.pos();
        proof {
            lemma_skip_ws_bounds(s, i + 1);
        }
        match self.peek_char() {
            Some('}') => {
                self.next_char();
                proof {
                    assert(obj_model(Seq::<(String, JsonValue)>::empty())
                        =~= Seq::<(Seq<char>, SpecValue)>::empty());
                }
                return Ok(entries);
            },
            _ => {},
        }
        proof {
            assert(obj_model(Seq::<(String, JsonValue)>::empty())
                =~= Seq::<(Seq<char>, SpecValue)>::empty());
        }
        loop
            invariant
                self.wf(),
                self.text() == s,
                s == old(self).text(),
                i == old(self).pos(),
                0 <= i < s.len(),
                s[i] == '{',
                i < self.pos(),
                j0 == spec_skip_ws(s, i + 1),
                !(j0 < s.len() && s[j0] == '}'),
                obj_keys_unique(obj_model(entries@)),
                spec_obj_items(s, self.pos(), obj_model(entries@)) == spec_obj_items(
                    s,
                    j0,
                    Seq::empty(),
                ),
                spec_obj_items(s, self.pos(), obj_model(entries@)) is None
                    ==> spec_obj_items_err_msg(s, j0) == spec_obj_items_err_msg(
                    s,
                    self.pos(),
                ),
            decreases s.len() - self.pos(),
        {
            broadcast use lemma_skip_ws_bounds;

            let ghost k = self.pos();
            self.skip_whitespace();
            let ghost jk = self.pos();
            proof {
                lemma_skip_ws_bounds(s, k);
            }
            let key = match self.parse_string() {
                Ok(t) => t,
                Err(e) => {
                    proof {
                        assert(spec_obj_items_err_msg(s, k) == spec_string_err_msg(s, jk));
                    }
                    return Err(e);
                },
            };
            let ghost keym = key@;
            let ghost p0 = self.pos();
            self.skip_whitespace();
            let ghost q = self.pos();
            match self.expect_char(':') {
                Ok(()) => {},
                Err(e) => {
                    proof {
                        assert(spec_obj_items_err_msg(s, k) == spec_expect_char_msg(
                            s,
                            q,
                            ':',
                        ));
                    }
                    return Err(e);
                },
            }
            self.skip_whitespace();
            proof {
                lemma_parse_value_skip(s, q + 1);
                lemma_skip_ws_bounds(s, q + 1);
            }
            let value = match self.parse_value() {
                Ok(v) => v,
                Err(e) => {
                    proof {
                        lemma_value_err_msg_skip(s, q + 1);
                        assert(spec_parse_value(s, q + 1) is None);
                        assert(spec_obj_items_err_msg(s, k) == spec_value_err_msg(s, q + 1));
                    }
                    return Err(e);
                },
            };
            let ghost vm = value.model();
            let ghost m0 = self.pos();
            let ghost acc_before = obj_model(entries@);
            JsonValue::obj_entry_insert(&mut entries, key, value);
            self.skip_whitespace();
            let ghost m = self.pos();
            match self.next_char() {
                Some(',') => {
                    proof {
                        assert(spec_obj_items(s, k, acc_before) == spec_obj_items(
                            s,
                            m + 1,
                            obj_model(entries@),
                        ));
                        assert(spec_obj_items(s, m + 1, obj_model(entries@)) is None
                            ==> spec_obj_items_err_msg(s, k) == spec_obj_items_err_msg(
                            s,
                            m + 1,
                        ));
                    }
                },
                Some(close) => {
                    if close == '}' {
                        proof {
                            assert(spec_obj_items(s, k, acc_before) == Some(
                                (obj_model(entries@), m + 1),
                            ));
                        }
                        return Ok(entries);
                    } else {
                        let mut msg = "Expected ',' or '}', found '".to_owned();
                        push_char(&mut msg, close);
                        msg.append("'");
                        proof {
                            assert(msg@ =~= "Expected ',' or '}', found '"@ + seq![close]
                                + "'"@);
                            assert(spec_obj_items_err_msg(s, k) == msg@);
                        }
                        return Err(DeserializeError::InvalidJson(msg));
                    }
                },
                None => {
                    proof {
                        assert(spec_obj_items_err_msg(s, k) == "Unterminated object"@);
                    }
                    return Err(
                        DeserializeError::InvalidJson("Unterminated object".to_owned()),
                    );
                },
            }
        }
    }

    /// Parses the whole input: one value, with nothing but whitespace
    /// after it. Trailing non-whitespace characters are an error.
    pub fn parse(&mut self) -> (r: Result<JsonValue, DeserializeError>)
        requires
            old(self).wf(),
        ensures
            final(self).wf(),
            final(self).text() == old(self).text(),
            (match r {
                Ok(v) => spec_parse_text(old(self).text(), old(self).pos()) == Some(v.model())
                    && final(self).pos() == final(self).text().len(),
                Err(e) => spec_parse_text(old(self).text(), old(self).pos()) is None && (
                e matches DeserializeError::InvalidJson(m) && m@ == spec_text_err_msg(
                    old(self).text(),
                    old(self).pos(),
                )),
            }),
    {
        broadcast use lemma_skip_ws_bounds;

        let ghost s = self.text();
        let ghost i = self.pos();
        self.skip_whitespace();
        proof {
            lemma_parse_value_skip(s, i);
            lemma_value_err_msg_skip(s, i);
        }
        let value = match self.parse_value() {
            Ok(v) => v,
            Err(e) => {
                return Err(e);
            },
        };
        self.skip_whitespace();

        // Ensure the whole input was consumed.
        if self.position < self.input.len() {
            return Err(
                DeserializeError::InvalidJson("Unexpected trailing characters".to_owned()),
            );
        }
        Ok(value)
    }
}

} // verus!
