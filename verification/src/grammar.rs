//! The grammar, stated mathematically.
//!
//! Every rule is a spec function from an input (`Seq<char>`) and a
//! character position to a [`SpecResult`]: the parsed result together
//! with the position just past it, or a [`SpecError`]. The executable
//! parser's contracts state that it returns exactly what these
//! functions assign to its input, so this module is the single place
//! that says what the parser accepts and what each input yields.

use vstd::prelude::*;

use crate::error::ErrorKind;
use crate::error::Rule;
use crate::error::SpecError;
use crate::error::spec_committed_in;
use crate::value::SpecValue;

verus! {

/// The outcome a grammar rule assigns to a position: a parsed result
/// and the position just past it, or a failure.
pub enum SpecResult<T> {
    Found { v: T, next: int },
    Failed(SpecError),
}

/// A failure with an empty context trail, as a rule first raises it.
pub open spec fn raw_failure<T>(kind: ErrorKind, pos: int, fatal: bool) -> SpecResult<T> {
    SpecResult::Failed(SpecError { kind, pos, fatal, trail: Seq::<Rule>::empty() })
}

/// Marks every failure that escapes a committed production as fatal and
/// stamps the production's rule onto its context trail.
pub open spec fn commit_result<T>(r: SpecResult<T>, rule: Rule) -> SpecResult<T> {
    match r {
        SpecResult::Found { v, next } => SpecResult::Found { v, next },
        SpecResult::Failed(e) => SpecResult::Failed(spec_committed_in(e, rule)),
    }
}

/// A successful production always consumes at least one character. This
/// floor makes that fact visible to the termination checker at the
/// recursion sites where a position comes out of another rule; on every
/// reachable path it leaves the position unchanged.
pub open spec fn step_past(i: int, next: int) -> int {
    if next > i {
        next
    } else {
        i + 1
    }
}

/// The characters left at or after position `i`, clamped at zero: the
/// termination measure of the mutually recursive rules.
pub open spec fn rem(s: Seq<char>, i: int) -> int {
    if i <= s.len() {
        s.len() - i
    } else {
        0
    }
}

/// The grammar's whitespace: space, tab, carriage return, line feed.
pub open spec fn is_ws(c: char) -> bool {
    c == ' ' || c == '\t' || c == '\r' || c == '\n'
}

/// The position of the first non-whitespace character at or after `i`.
pub open spec fn skip_ws(s: Seq<char>, i: int) -> int
    decreases s.len() - i,
{
    if 0 <= i < s.len() && is_ws(s[i]) {
        skip_ws(s, i + 1)
    } else {
        i
    }
}

/// [`skip_ws`], floored so that the termination checker sees it never
/// moves backwards.
pub open spec fn ws_from(s: Seq<char>, i: int) -> int {
    step_past(i - 1, skip_ws(s, i))
}

/// Whitespace skipping stays within the input and never moves backwards;
/// in particular [`ws_from`] and [`skip_ws`] agree.
pub proof fn skip_ws_bounds(s: Seq<char>, i: int)
    requires
        0 <= i <= s.len(),
    ensures
        i <= skip_ws(s, i) <= s.len(),
        ws_from(s, i) == skip_ws(s, i),
    decreases s.len() - i,
{
    if i < s.len() && is_ws(s[i]) {
        skip_ws_bounds(s, i + 1);
    }
}

pub open spec fn is_digit(c: char) -> bool {
    48 <= c as int <= 57
}

/// The end of the run of decimal digits starting at `i`.
pub open spec fn digit_run_end(s: Seq<char>, i: int) -> int
    decreases s.len() - i,
{
    if 0 <= i < s.len() && is_digit(s[i]) {
        digit_run_end(s, i + 1)
    } else {
        i
    }
}

/// A digit run stays within the input and never moves backwards.
pub proof fn digit_run_end_bounds(s: Seq<char>, i: int)
    requires
        0 <= i <= s.len(),
    ensures
        i <= digit_run_end(s, i) <= s.len(),
    decreases s.len() - i,
{
    if i < s.len() && is_digit(s[i]) {
        digit_run_end_bounds(s, i + 1);
    }
}

/// The end of the maximal numeric literal starting at `i`: an optional
/// minus, an integer part (`0`, or a nonzero digit followed by digits),
/// an optional fraction (`.` then at least one digit) and an optional
/// exponent (`e`/`E`, an optional sign, then at least one digit). `None`
/// when no digit stands where the integer part must begin; a fraction or
/// exponent that lacks its digits is not consumed.
pub open spec fn number_end(s: Seq<char>, i: int) -> Option<int> {
    let j0 = if 0 <= i < s.len() && s[i] == '-' {
        i + 1
    } else {
        i
    };
    if 0 <= j0 < s.len() && is_digit(s[j0]) {
        let j1 = if s[j0] == '0' {
            j0 + 1
        } else {
            digit_run_end(s, j0)
        };
        let j2 = if j1 < s.len() && s[j1] == '.' && j1 + 1 < s.len() && is_digit(s[j1 + 1]) {
            digit_run_end(s, j1 + 1)
        } else {
            j1
        };
        let j3 = if j2 < s.len() && (s[j2] == 'e' || s[j2] == 'E') {
            let k = if j2 + 1 < s.len() && (s[j2 + 1] == '+' || s[j2 + 1] == '-') {
                j2 + 2
            } else {
                j2 + 1
            };
            if k < s.len() && is_digit(s[k]) {
                digit_run_end(s, k)
            } else {
                j2
            }
        } else {
            j2
        };
        Some(j3)
    } else {
        None
    }
}

/// Whether `raw` is exactly one numeric literal.
pub open spec fn is_number_lit(raw: Seq<char>) -> bool {
    number_end(raw, 0) == Some(raw.len() as int)
}

/// The number rule: the matched literal text, or a recoverable mismatch
/// at the position where a digit was required.
pub open spec fn spec_parse_number(s: Seq<char>, i: int) -> SpecResult<Seq<char>> {
    let j0 = if 0 <= i < s.len() && s[i] == '-' {
        i + 1
    } else {
        i
    };
    match number_end(s, i) {
        Some(end) => SpecResult::Found { v: s.subrange(i, end), next: end },
        None => raw_failure(ErrorKind::LiteralMismatch, j0, false),
    }
}

/// The exact keyword `kw` stands at `i`.
pub open spec fn match_at(s: Seq<char>, i: int, kw: Seq<char>) -> bool {
    0 <= i && i + kw.len() <= s.len() && s.subrange(i, i + kw.len()) == kw
}

pub open spec fn is_hex(c: char) -> bool {
    is_digit(c) || 97 <= c as int <= 102 || 65 <= c as int <= 70
}

/// The value of one hexadecimal digit (meaningful when `is_hex` holds).
pub open spec fn hex_val(c: char) -> int {
    if is_digit(c) {
        c as int - 48
    } else if 97 <= c as int <= 102 {
        c as int - 87
    } else {
        c as int - 55
    }
}

/// Exactly four hexadecimal digits at `i`, read as a 16-bit code unit;
/// a fatal invalid-escape at the first position that breaks that.
pub open spec fn spec_hex4(s: Seq<char>, i: int) -> SpecResult<int> {
    if 0 <= i < s.len() && is_hex(s[i]) {
        if i + 1 < s.len() && is_hex(s[i + 1]) {
            if i + 2 < s.len() && is_hex(s[i + 2]) {
                if i + 3 < s.len() && is_hex(s[i + 3]) {
                    SpecResult::Found {
                        v: 4096 * hex_val(s[i]) + 256 * hex_val(s[i + 1]) + 16 * hex_val(
                            s[i + 2],
                        ) + hex_val(s[i + 3]),
                        next: i + 4,
                    }
                } else {
                    raw_failure(ErrorKind::InvalidEscape, i + 3, true)
                }
            } else {
                raw_failure(ErrorKind::InvalidEscape, i + 2, true)
            }
        } else {
            raw_failure(ErrorKind::InvalidEscape, i + 1, true)
        }
    } else {
        raw_failure(ErrorKind::InvalidEscape, i, true)
    }
}

pub open spec fn is_high_surrogate(u: int) -> bool {
    0xD800 <= u < 0xDC00
}

pub open spec fn is_low_surrogate(u: int) -> bool {
    0xDC00 <= u < 0xE000
}

/// The scalar value encoded by a surrogate pair.
pub open spec fn combine_surrogates(hi: int, lo: int) -> int {
    (hi - 0xD800) * 0x400 + (lo - 0xDC00) + 0x10000
}

/// The Unicode escape rule, entered just past `\u` with `i` at the first
/// expected hex digit; `esc` is the position of the backslash, reported
/// for surrogate faults that concern the escape as a whole.
///
/// A code unit outside the surrogate range is a direct scalar value. A
/// high surrogate must be followed by exactly `\u` and four hex digits
/// forming a low surrogate, combined by the fixed arithmetic; anything
/// else — a lone high surrogate, or a leading low surrogate — is a fatal
/// invalid-codepoint fault.
pub open spec fn spec_unicode_escape(s: Seq<char>, i: int, esc: int) -> SpecResult<char> {
    match spec_hex4(s, i) {
        SpecResult::Failed(e) => SpecResult::Failed(e),
        SpecResult::Found { v: u, next: j } => {
            if !is_high_surrogate(u) && !is_low_surrogate(u) {
                SpecResult::Found { v: (u as u32) as char, next: j }
            } else if is_high_surrogate(u) {
                if j + 1 < s.len() && s[j] == '\\' && s[j + 1] == 'u' {
                    match spec_hex4(s, j + 2) {
                        SpecResult::Failed(e) => SpecResult::Failed(e),
                        SpecResult::Found { v: lo, next: j2 } => {
                            if is_low_surrogate(lo) {
                                SpecResult::Found {
                                    v: (combine_surrogates(u, lo) as u32) as char,
                                    next: j2,
                                }
                            } else {
                                raw_failure(ErrorKind::InvalidCodepoint, j, true)
                            }
                        },
                    }
                } else {
                    raw_failure(ErrorKind::InvalidCodepoint, esc, true)
                }
            } else {
                raw_failure(ErrorKind::InvalidCodepoint, esc, true)
            }
        },
    }
}

/// The single-character escapes: the designators that map to themselves
/// or to a fixed control character. `u` is handled by
/// [`spec_unicode_escape`]; any other designator is invalid.
pub open spec fn escape_char(e: char) -> Option<char> {
    if e == '"' || e == '\\' || e == '/' {
        Some(e)
    } else if e == 'b' {
        Some('\u{0008}')
    } else if e == 'f' {
        Some('\u{000C}')
    } else if e == 'n' {
        Some('\n')
    } else if e == 'r' {
        Some('\r')
    } else if e == 't' {
        Some('\t')
    } else {
        None
    }
}

pub open spec fn prepend_char(c: char, r: SpecResult<Seq<char>>) -> SpecResult<Seq<char>> {
    match r {
        SpecResult::Found { v, next } => SpecResult::Found { v: seq![c] + v, next },
        SpecResult::Failed(e) => SpecResult::Failed(e),
    }
}

/// The body of a string literal, entered just past the opening quote:
/// the decoded characters up to the closing quote, and the position just
/// past that quote. Reaching the end of the input first is a fatal
/// unterminated string; every other character — raw control and
/// multi-byte characters included — is taken literally unless it opens
/// an escape.
pub open spec fn spec_string_tail(s: Seq<char>, i: int) -> SpecResult<Seq<char>>
    decreases s.len() - i,
{
    if !(0 <= i < s.len()) {
        raw_failure(ErrorKind::StructuralViolation, s.len() as int, true)
    } else {
        let c = s[i];
        if c == '"' {
            SpecResult::Found { v: Seq::<char>::empty(), next: i + 1 }
        } else if c == '\\' {
            if !(i + 1 < s.len()) {
                raw_failure(ErrorKind::InvalidEscape, s.len() as int, true)
            } else {
                let e = s[i + 1];
                if e == 'u' {
                    match spec_unicode_escape(s, i + 2, i) {
                        SpecResult::Failed(err) => SpecResult::Failed(err),
                        SpecResult::Found { v: ch, next: j } => prepend_char(
                            ch,
                            spec_string_tail(s, step_past(i, j)),
                        ),
                    }
                } else {
                    match escape_char(e) {
                        Some(ch) => prepend_char(ch, spec_string_tail(s, i + 2)),
                        None => raw_failure(ErrorKind::InvalidEscape, i + 1, true),
                    }
                }
            }
        } else {
            prepend_char(c, spec_string_tail(s, i + 1))
        }
    }
}

/// The string rule. The dispatcher only routes here on a `"` lookahead;
/// anything else is an internal-consistency fault, reported as a
/// recoverable mismatch. Once the opening quote is consumed the rule is
/// committed: every failure leaving it is fatal and carries the rule's
/// name on its trail.
pub open spec fn spec_parse_string(s: Seq<char>, i: int) -> SpecResult<Seq<char>> {
    if 0 <= i < s.len() && s[i] == '"' {
        commit_result(spec_string_tail(s, i + 1), Rule::StringLit)
    } else {
        raw_failure(ErrorKind::LiteralMismatch, i, false)
    }
}

/// The first index at or after `from` whose member carries key `k`, or
/// `-1` when none does.
pub open spec fn key_index(ms: Seq<(Seq<char>, SpecValue)>, k: Seq<char>, from: int) -> int
    decreases ms.len() - from,
{
    if 0 <= from < ms.len() {
        if ms[from].0 == k {
            from
        } else {
            key_index(ms, k, from + 1)
        }
    } else {
        -1
    }
}

/// Adds one member under last-write-wins: an existing key keeps its
/// position and takes the new value; a new key is appended.
pub open spec fn obj_insert(
    ms: Seq<(Seq<char>, SpecValue)>,
    k: Seq<char>,
    v: SpecValue,
) -> Seq<(Seq<char>, SpecValue)> {
    let idx = key_index(ms, k, 0);
    if idx >= 0 {
        ms.update(idx, (k, v))
    } else {
        ms.push((k, v))
    }
}

/// The object a list of members in source order denotes, member by
/// member under [`obj_insert`].
pub open spec fn obj_of_pairs(pairs: Seq<(Seq<char>, SpecValue)>) -> Seq<
    (Seq<char>, SpecValue),
>
    decreases pairs.len(),
{
    if pairs.len() == 0 {
        Seq::<(Seq<char>, SpecValue)>::empty()
    } else {
        obj_insert(obj_of_pairs(pairs.drop_last()), pairs.last().0, pairs.last().1)
    }
}

/// The value dispatcher: skip whitespace, then route on exactly one
/// unconsumed lookahead character. `depth` is the remaining nesting
/// allowance; opening a container when it is exhausted is a fatal
/// depth fault, and a container's children get one level less.
pub open spec fn spec_parse_value(s: Seq<char>, i: int, depth: u32) -> SpecResult<SpecValue>
    decreases depth, rem(s, i), 0int,
{
    let j = skip_ws(s, i);
    if !(0 <= j < s.len()) {
        raw_failure(ErrorKind::LiteralMismatch, s.len() as int, false)
    } else {
        let c = s[j];
        if c == '{' {
            if depth == 0 {
                raw_failure(ErrorKind::DepthExceeded, j, true)
            } else {
                spec_parse_object(s, j, (depth - 1) as u32)
            }
        } else if c == '[' {
            if depth == 0 {
                raw_failure(ErrorKind::DepthExceeded, j, true)
            } else {
                spec_parse_array(s, j, (depth - 1) as u32)
            }
        } else if c == '"' {
            match spec_parse_string(s, j) {
                SpecResult::Found { v, next } => SpecResult::Found { v: SpecValue::Str(v), next },
                SpecResult::Failed(e) => SpecResult::Failed(e),
            }
        } else if c == '-' || is_digit(c) {
            match spec_parse_number(s, j) {
                SpecResult::Found { v, next } => SpecResult::Found { v: SpecValue::Num(v), next },
                SpecResult::Failed(e) => SpecResult::Failed(e),
            }
        } else if c == 't' {
            if match_at(s, j, seq!['t', 'r', 'u', 'e']) {
                SpecResult::Found { v: SpecValue::Boolean(true), next: j + 4 }
            } else {
                raw_failure(ErrorKind::LiteralMismatch, j, false)
            }
        } else if c == 'f' {
            if match_at(s, j, seq!['f', 'a', 'l', 's', 'e']) {
                SpecResult::Found { v: SpecValue::Boolean(false), next: j + 5 }
            } else {
                raw_failure(ErrorKind::LiteralMismatch, j, false)
            }
        } else if c == 'n' {
            if match_at(s, j, seq!['n', 'u', 'l', 'l']) {
                SpecResult::Found { v: SpecValue::Null, next: j + 4 }
            } else {
                raw_failure(ErrorKind::LiteralMismatch, j, false)
            }
        } else {
            raw_failure(ErrorKind::UnexpectedCharacter, j, true)
        }
    }
}

/// The array rule, entered at a `[` lookahead (anything else is an
/// internal-consistency fault, a recoverable mismatch). Once the bracket
/// is consumed the rule is committed. `depth` is the children's nesting
/// allowance.
pub open spec fn spec_parse_array(s: Seq<char>, i: int, depth: u32) -> SpecResult<SpecValue>
    decreases depth, rem(s, i), 2int,
{
    if !(0 <= i < s.len() && s[i] == '[') {
        raw_failure(ErrorKind::LiteralMismatch, i, false)
    } else {
        let j = ws_from(s, i + 1);
        if j < s.len() && s[j] == ']' {
            SpecResult::Found { v: SpecValue::Array(Seq::<SpecValue>::empty()), next: j + 1 }
        } else {
            commit_result(
                match spec_array_items(s, j, depth) {
                    SpecResult::Failed(e) => SpecResult::Failed(e),
                    SpecResult::Found { v: elems, next } => {
                        let cl = skip_ws(s, next);
                        if cl < s.len() && s[cl] == ']' {
                            SpecResult::Found { v: SpecValue::Array(elems), next: cl + 1 }
                        } else {
                            raw_failure(
                                ErrorKind::StructuralViolation,
                                if cl < s.len() {
                                    cl
                                } else {
                                    s.len() as int
                                },
                                true,
                            )
                        }
                    },
                },
                Rule::Array,
            )
        }
    }
}

/// One or more array elements: a value, then zero or more of comma and
/// value, with whitespace around the commas. The position returned is
/// the end of the last element. A `]` right after a separator (past
/// whitespace) is the disallowed trailing comma, a fatal structural
/// violation at the bracket.
pub open spec fn spec_array_items(s: Seq<char>, i: int, depth: u32) -> SpecResult<Seq<SpecValue>>
    decreases depth, rem(s, i), 1int,
{
    if !(0 <= i < s.len()) {
        // Out of input where an element must begin: the same recoverable
        // mismatch the dispatcher raises at the end of the input.
        raw_failure(ErrorKind::LiteralMismatch, s.len() as int, false)
    } else {
        match spec_parse_value(s, i, depth) {
            SpecResult::Failed(e) => SpecResult::Failed(e),
            SpecResult::Found { v, next } => {
                let ve = step_past(i, next);
                let m = ws_from(s, ve);
                if m < s.len() && s[m] == ',' {
                    let t = skip_ws(s, m + 1);
                    if t < s.len() && s[t] == ']' {
                        raw_failure(ErrorKind::StructuralViolation, t, true)
                    } else {
                        match spec_array_items(s, m + 1, depth) {
                            SpecResult::Failed(e) => SpecResult::Failed(e),
                            SpecResult::Found { v: rest, next: rnext } => SpecResult::Found {
                                v: seq![v] + rest,
                                next: rnext,
                            },
                        }
                    }
                } else {
                    SpecResult::Found { v: seq![v], next: ve }
                }
            },
        }
    }
}

/// The object rule, entered at a `{` lookahead (anything else is an
/// internal-consistency fault, a recoverable mismatch). Once the brace
/// is consumed the rule is committed. Members are resolved by
/// [`obj_of_pairs`]: a later duplicate key overwrites the earlier one's
/// value. `depth` is the children's nesting allowance.
pub open spec fn spec_parse_object(s: Seq<char>, i: int, depth: u32) -> SpecResult<SpecValue>
    decreases depth, rem(s, i), 2int,
{
    if !(0 <= i < s.len() && s[i] == '{') {
        raw_failure(ErrorKind::LiteralMismatch, i, false)
    } else {
        let j = ws_from(s, i + 1);
        if j < s.len() && s[j] == '}' {
            SpecResult::Found {
                v: SpecValue::Object(Seq::<(Seq<char>, SpecValue)>::empty()),
                next: j + 1,
            }
        } else {
            commit_result(
                match spec_object_members(s, j, depth) {
                    SpecResult::Failed(e) => SpecResult::Failed(e),
                    SpecResult::Found { v: pairs, next } => {
                        let cl = skip_ws(s, next);
                        if cl < s.len() && s[cl] == '}' {
                            SpecResult::Found {
                                v: SpecValue::Object(obj_of_pairs(pairs)),
                                next: cl + 1,
                            }
                        } else {
                            raw_failure(
                                ErrorKind::StructuralViolation,
                                if cl < s.len() {
                                    cl
                                } else {
                                    s.len() as int
                                },
                                true,
                            )
                        }
                    },
                },
                Rule::Object,
            )
        }
    }
}

/// One or more object members: a string key, a colon, a value, then
/// zero or more of comma and member, with whitespace between the parts.
/// Members are returned in source order, duplicates included; the
/// object rule folds them. A missing colon after a parsed key is a
/// fatal structural violation, as is a `}` right after a separator
/// (the disallowed trailing comma).
pub open spec fn spec_object_members(s: Seq<char>, i: int, depth: u32) -> SpecResult<
    Seq<(Seq<char>, SpecValue)>,
>
    decreases depth, rem(s, i), 1int,
{
    if !(0 <= i < s.len()) {
        // Out of input where a member must begin: the string rule's
        // recoverable mismatch at that position.
        raw_failure(ErrorKind::LiteralMismatch, i, false)
    } else {
        let kc = ws_from(s, i);
        match spec_parse_string(s, kc) {
            SpecResult::Failed(e) => SpecResult::Failed(e),
            SpecResult::Found { v: key, next: knext } => {
                let ke = step_past(kc, knext);
                let c1 = ws_from(s, ke);
                if !(c1 < s.len() && s[c1] == ':') {
                    raw_failure(
                        ErrorKind::StructuralViolation,
                        if c1 < s.len() {
                            c1
                        } else {
                            s.len() as int
                        },
                        true,
                    )
                } else {
                    match spec_parse_value(s, c1 + 1, depth) {
                        SpecResult::Failed(e) => SpecResult::Failed(e),
                        SpecResult::Found { v, next } => {
                            let ve = step_past(c1, next);
                            let m = ws_from(s, ve);
                            if m < s.len() && s[m] == ',' {
                                let t = skip_ws(s, m + 1);
                                if t < s.len() && s[t] == '}' {
                                    raw_failure(ErrorKind::StructuralViolation, t, true)
                                } else {
                                    match spec_object_members(s, m + 1, depth) {
                                        SpecResult::Failed(e) => SpecResult::Failed(e),
                                        SpecResult::Found {
                                            v: rest,
                                            next: rnext,
                                        } => SpecResult::Found {
                                            v: seq![(key, v)] + rest,
                                            next: rnext,
                                        },
                                    }
                                }
                            } else {
                                SpecResult::Found { v: seq![(key, v)], next: ve }
                            }
                        },
                    }
                }
            },
        }
    }
}

/// The top-level rule: one value of the full six-way grammar with
/// whitespace around it, and the whole input consumed. Non-whitespace
/// input left after the value is the trailing-input failure; the top
/// level never retries, so it is fatal.
pub open spec fn spec_parse_text(s: Seq<char>, depth: u32) -> SpecResult<SpecValue> {
    match spec_parse_value(s, 0, depth) {
        SpecResult::Failed(e) => SpecResult::Failed(e),
        SpecResult::Found { v, next } => {
            let j = skip_ws(s, next);
            if j == s.len() {
                SpecResult::Found { v, next: j }
            } else {
                raw_failure(ErrorKind::TrailingInput, j, true)
            }
        },
    }
}

} // verus!
