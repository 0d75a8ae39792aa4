//! The executable recursive-descent parser.
//!
//! Every function's contract states that it returns exactly what the
//! mathematical grammar in [`crate::grammar`] assigns to its input: the
//! same value, the same next position, or the same error, kind,
//! position, fatality and context trail included.

use vstd::prelude::*;
use vstd::string::StrSliceExecFns;

use crate::error::ErrorKind;
use crate::error::ParseError;
use crate::error::Rule;
use crate::error::SpecError;
use crate::grammar::SpecResult;
use crate::grammar::combine_surrogates;
use crate::grammar::digit_run_end;
use crate::grammar::escape_char;
use crate::grammar::hex_val;
use crate::grammar::is_digit;
use crate::grammar::is_hex;
use crate::grammar::is_ws;
use crate::grammar::key_index;
use crate::grammar::match_at;
use crate::grammar::obj_insert;
use crate::grammar::obj_of_pairs;
use crate::grammar::skip_ws;
use crate::grammar::spec_array_items;
use crate::grammar::spec_hex4;
use crate::grammar::spec_object_members;
use crate::grammar::spec_parse_array;
use crate::grammar::spec_parse_number;
use crate::grammar::spec_parse_object;
use crate::grammar::spec_parse_string;
use crate::grammar::spec_parse_text;
use crate::grammar::spec_parse_value;
use crate::grammar::spec_string_tail;
use crate::grammar::spec_unicode_escape;
use crate::grammar::step_past;
use crate::value::JsonValue;
use crate::value::SpecValue;

verus! {

broadcast use vstd::utf8::char_u32_cast;

/// Relies on `String::push`: appends the given character to the end of
/// the string.
#[verifier::external_body]
fn push_char(out: &mut String, c: char)
    ensures
        final (out)@ == old(out)@.push(c),
{
    out.push(c);
}

/// Relies on `char::from_u32`: returns `Some` exactly when the argument
/// is a valid Unicode scalar value (not a surrogate and at most
/// 0x10FFFF), and the character then has the argument as its code point.
#[verifier::external_body]
fn char_from_u32(u: u32) -> (r: Option<char>)
    ensures
        (r matches Some(c) ==> c as u32 == u),
        r is Some <==> (u < 0xD800 || (0xE000 <= u && u <= 0x10FFFF)),
{
    char::from_u32(u)
}

fn is_ws_char(c: char) -> (b: bool)
    ensures
        b == is_ws(c),
{
    c == ' ' || c == '\t' || c == '\r' || c == '\n'
}

fn is_digit_char(c: char) -> (b: bool)
    ensures
        b == is_digit(c),
{
    let u = c as u32;
    48 <= u && u <= 57
}

fn is_hex_char(c: char) -> (b: bool)
    ensures
        b == is_hex(c),
{
    let u = c as u32;
    (48 <= u && u <= 57) || (97 <= u && u <= 102) || (65 <= u && u <= 70)
}

fn hex_digit_val(c: char) -> (r: u32)
    requires
        is_hex(c),
    ensures
        r as int == hex_val(c),
        r <= 15,
{
    let u = c as u32;
    if 48 <= u && u <= 57 {
        u - 48
    } else if 97 <= u {
        u - 87
    } else {
        u - 55
    }
}

fn skip_whitespace(s: &[char], i: usize) -> (r: usize)
    requires
        i as int <= s@.len(),
    ensures
        r as int == skip_ws(s@, i as int),
        i <= r,
        r as int <= s@.len(),
{
    let n = s.len();
    let mut j = i;
    while j < n && is_ws_char(s[j])
        invariant
            i <= j,
            j as int <= s@.len(),
            n == s@.len(),
            skip_ws(s@, i as int) == skip_ws(s@, j as int),
        decreases s@.len() - j,
    {
        j = j + 1;
    }
    j
}

fn digits_end(s: &[char], i: usize) -> (r: usize)
    requires
        i as int <= s@.len(),
    ensures
        r as int == digit_run_end(s@, i as int),
        i <= r,
        r as int <= s@.len(),
{
    let n = s.len();
    let mut j = i;
    while j < n && is_digit_char(s[j])
        invariant
            i <= j,
            j as int <= s@.len(),
            n == s@.len(),
            digit_run_end(s@, i as int) == digit_run_end(s@, j as int),
        decreases s@.len() - j,
    {
        j = j + 1;
    }
    j
}

/// Copies `s[from..to]` into a fresh string.
fn chars_to_string(s: &[char], from: usize, to: usize) -> (r: String)
    requires
        from <= to,
        to as int <= s@.len(),
    ensures
        r@ == s@.subrange(from as int, to as int),
{
    let mut out = String::new();
    let mut k = from;
    while k < to
        invariant
            from <= k <= to,
            to as int <= s@.len(),
            out@ == s@.subrange(from as int, k as int),
        decreases to - k,
    {
        push_char(&mut out, s[k]);
        k = k + 1;
        proof {
            assert(out@ =~= s@.subrange(from as int, k as int));
        }
    }
    out
}

/// The keyword `true`, matched exactly and case-sensitively.
fn parse_true(s: &[char], i: usize) -> (r: Result<usize, ParseError>)
    requires
        i as int <= s@.len(),
    ensures
        (match r {
            Ok(next) => match_at(s@, i as int, seq!['t', 'r', 'u', 'e']) && next == i + 4,
            Err(e) => !match_at(s@, i as int, seq!['t', 'r', 'u', 'e']) && e@ == (SpecError {
                kind: ErrorKind::LiteralMismatch,
                pos: i as int,
                fatal: false,
                trail: Seq::<Rule>::empty(),
            }),
        }),
{
    if s.len() - i >= 4 && s[i] == 't' && s[i + 1] == 'r' && s[i + 2] == 'u' && s[i + 3] == 'e' {
        proof {
            assert(s@.subrange(i as int, i as int + 4) =~= seq!['t', 'r', 'u', 'e']);
        }
        Ok(i + 4)
    } else {
        proof {
            let kw = seq!['t', 'r', 'u', 'e'];
            if match_at(s@, i as int, kw) {
                assert(s@.subrange(i as int, i as int + 4)[0] == 't');
                assert(s@.subrange(i as int, i as int + 4)[1] == 'r');
                assert(s@.subrange(i as int, i as int + 4)[2] == 'u');
                assert(s@.subrange(i as int, i as int + 4)[3] == 'e');
            }
        }
        Err(ParseError::new(ErrorKind::LiteralMismatch, i, false))
    }
}

/// The keyword `false`, matched exactly and case-sensitively.
fn parse_false(s: &[char], i: usize) -> (r: Result<usize, ParseError>)
    requires
        i as int <= s@.len(),
    ensures
        (match r {
            Ok(next) => match_at(s@, i as int, seq!['f', 'a', 'l', 's', 'e']) && next == i + 5,
            Err(e) => !match_at(s@, i as int, seq!['f', 'a', 'l', 's', 'e']) && e@ == (SpecError {
                kind: ErrorKind::LiteralMismatch,
                pos: i as int,
                fatal: false,
                trail: Seq::<Rule>::empty(),
            }),
        }),
{
    if s.len() - i >= 5 && s[i] == 'f' && s[i + 1] == 'a' && s[i + 2] == 'l' && s[i + 3] == 's'
        && s[i + 4] == 'e' {
        proof {
            assert(s@.subrange(i as int, i as int + 5) =~= seq!['f', 'a', 'l', 's', 'e']);
        }
        Ok(i + 5)
    } else {
        proof {
            let kw = seq!['f', 'a', 'l', 's', 'e'];
            if match_at(s@, i as int, kw) {
                assert(s@.subrange(i as int, i as int + 5)[0] == 'f');
                assert(s@.subrange(i as int, i as int + 5)[1] == 'a');
                assert(s@.subrange(i as int, i as int + 5)[2] == 'l');
                assert(s@.subrange(i as int, i as int + 5)[3] == 's');
                assert(s@.subrange(i as int, i as int + 5)[4] == 'e');
            }
        }
        Err(ParseError::new(ErrorKind::LiteralMismatch, i, false))
    }
}

/// The keyword `null`, matched exactly and case-sensitively.
fn parse_null(s: &[char], i: usize) -> (r: Result<usize, ParseError>)
    requires
        i as int <= s@.len(),
    ensures
        (match r {
            Ok(next) => match_at(s@, i as int, seq!['n', 'u', 'l', 'l']) && next == i + 4,
            Err(e) => !match_at(s@, i as int, seq!['n', 'u', 'l', 'l']) && e@ == (SpecError {
                kind: ErrorKind::LiteralMismatch,
                pos: i as int,
                fatal: false,
                trail: Seq::<Rule>::empty(),
            }),
        }),
{
    if s.len() - i >= 4 && s[i] == 'n' && s[i + 1] == 'u' && s[i + 2] == 'l' && s[i + 3] == 'l' {
        proof {
            assert(s@.subrange(i as int, i as int + 4) =~= seq!['n', 'u', 'l', 'l']);
        }
        Ok(i + 4)
    } else {
        proof {
            let kw = seq!['n', 'u', 'l', 'l'];
            if match_at(s@, i as int, kw) {
                assert(s@.subrange(i as int, i as int + 4)[0] == 'n');
                assert(s@.subrange(i as int, i as int + 4)[1] == 'u');
                assert(s@.subrange(i as int, i as int + 4)[2] == 'l');
                assert(s@.subrange(i as int, i as int + 4)[3] == 'l');
            }
        }
        Err(ParseError::new(ErrorKind::LiteralMismatch, i, false))
    }
}

/// The number rule: returns the matched literal text.
fn parse_number(s: &[char], i: usize) -> (r: Result<(String, usize), ParseError>)
    requires
        i as int <= s@.len(),
    ensures
        (match r {
            Ok((raw, next)) => spec_parse_number(s@, i as int) == (SpecResult::Found {
                v: raw@,
                next: next as int,
            }) && i < next && next as int <= s@.len(),
            Err(e) => spec_parse_number(s@, i as int) == SpecResult::<Seq<char>>::Failed(e@),
        }),
{
    let n = s.len();
    let j0 = if i < n && s[i] == '-' {
        i + 1
    } else {
        i
    };
    if !(j0 < n && is_digit_char(s[j0])) {
        return Err(ParseError::new(ErrorKind::LiteralMismatch, j0, false));
    }
    let j1 = if s[j0] == '0' {
        j0 + 1
    } else {
        let r = digits_end(s, j0);
        proof {
            crate::grammar::digit_run_end_bounds(s@, j0 as int + 1);
        }
        r
    };
    let j2 = if j1 < n && s[j1] == '.' && j1 + 1 < n && is_digit_char(s[j1 + 1]) {
        digits_end(s, j1 + 1)
    } else {
        j1
    };
    let j3 = if j2 < n && (s[j2] == 'e' || s[j2] == 'E') {
        let k = if j2 + 1 < n && (s[j2 + 1] == '+' || s[j2 + 1] == '-') {
            j2 + 2
        } else {
            j2 + 1
        };
        if k < n && is_digit_char(s[k]) {
            digits_end(s, k)
        } else {
            j2
        }
    } else {
        j2
    };
    let raw = chars_to_string(s, i, j3);
    Ok((raw, j3))
}

/// Exactly four hexadecimal digits, read as a 16-bit code unit.
fn parse_hex4(s: &[char], i: usize) -> (r: Result<(u32, usize), ParseError>)
    requires
        i as int <= s@.len(),
    ensures
        (match r {
            Ok((u, next)) => spec_hex4(s@, i as int) == (SpecResult::Found {
                v: u as int,
                next: next as int,
            }) && next == i + 4 && next as int <= s@.len() && u <= 0xFFFF,
            Err(e) => spec_hex4(s@, i as int) == SpecResult::<int>::Failed(e@),
        }),
{
    let n = s.len();
    if !(i < n && is_hex_char(s[i])) {
        return Err(ParseError::new(ErrorKind::InvalidEscape, i, true));
    }
    if !(i + 1 < n && is_hex_char(s[i + 1])) {
        return Err(ParseError::new(ErrorKind::InvalidEscape, i + 1, true));
    }
    if !(i + 2 < n && is_hex_char(s[i + 2])) {
        return Err(ParseError::new(ErrorKind::InvalidEscape, i + 2, true));
    }
    if !(i + 3 < n && is_hex_char(s[i + 3])) {
        return Err(ParseError::new(ErrorKind::InvalidEscape, i + 3, true));
    }
    let h0 = hex_digit_val(s[i]);
    let h1 = hex_digit_val(s[i + 1]);
    let h2 = hex_digit_val(s[i + 2]);
    let h3 = hex_digit_val(s[i + 3]);
    Ok((4096 * h0 + 256 * h1 + 16 * h2 + h3, i + 4))
}

/// The Unicode escape rule, entered just past `\u`; `esc` is the
/// position of the backslash, reported for surrogate faults.
fn parse_unicode_escape(s: &[char], i: usize, esc: usize) -> (r: Result<(char, usize), ParseError>)
    requires
        i as int <= s@.len(),
        esc < i,
    ensures
        (match r {
            Ok((c, next)) => spec_unicode_escape(s@, i as int, esc as int) == (SpecResult::Found {
                v: c,
                next: next as int,
            }) && i < next && next as int <= s@.len(),
            Err(e) => spec_unicode_escape(s@, i as int, esc as int) == SpecResult::<char>::Failed(
                e@,
            ),
        }),
{
    let n = s.len();
    let (u, j) = match parse_hex4(s, i) {
        Err(e) => {
            return Err(e);
        },
        Ok(p) => p,
    };
    if u < 0xD800 || u >= 0xE000 {
        match char_from_u32(u) {
            Some(c) => {
                proof {
                    assert(((u as int) as u32) == u);
                    vstd::utf8::char_u32_cast(c, u);
                }
                return Ok((c, j));
            },
            None => {
                return vstd::pervasive::unreached();
            },
        }
    }
    if u < 0xDC00 {
        // A high surrogate: exactly `\u` and a low surrogate must follow.
        if n - j > 1 && s[j] == '\\' && s[j + 1] == 'u' {
            let (lo, j2) = match parse_hex4(s, j + 2) {
                Err(e) => {
                    return Err(e);
                },
                Ok(p) => p,
            };
            if 0xDC00 <= lo && lo < 0xE000 {
                let scalar = (u - 0xD800) * 0x400 + (lo - 0xDC00) + 0x10000;
                proof {
                    assert(scalar as int == combine_surrogates(u as int, lo as int));
                }
                match char_from_u32(scalar) {
                    Some(c) => {
                        proof {
                            assert((combine_surrogates(u as int, lo as int) as u32) == scalar);
                            vstd::utf8::char_u32_cast(c, scalar);
                        }
                        return Ok((c, j2));
                    },
                    None => {
                        return vstd::pervasive::unreached();
                    },
                }
            } else {
                return Err(ParseError::new(ErrorKind::InvalidCodepoint, j, true));
            }
        } else {
            return Err(ParseError::new(ErrorKind::InvalidCodepoint, esc, true));
        }
    }
    // A low surrogate where a high surrogate or a direct value was
    // expected.
    Err(ParseError::new(ErrorKind::InvalidCodepoint, esc, true))
}

/// Splices already-decoded characters ahead of the outcome for the rest
/// of a string body.
spec fn prepend_chars(p: Seq<char>, r: SpecResult<Seq<char>>) -> SpecResult<Seq<char>> {
    match r {
        SpecResult::Found { v, next } => SpecResult::Found { v: p + v, next },
        SpecResult::Failed(e) => SpecResult::Failed(e),
    }
}

proof fn lemma_prepend_push(p: Seq<char>, c: char, r: SpecResult<Seq<char>>)
    ensures
        prepend_chars(p, crate::grammar::prepend_char(c, r)) == prepend_chars(p.push(c), r),
{
    match r {
        SpecResult::Found { v, next } => {
            assert(p + (seq![c] + v) =~= p.push(c) + v);
        },
        SpecResult::Failed(_) => {
        },
    }
}

/// Splices already-parsed items ahead of the outcome for the rest of a
/// container's items.
spec fn splice<T>(p: Seq<T>, r: SpecResult<Seq<T>>) -> SpecResult<Seq<T>> {
    match r {
        SpecResult::Found { v, next } => SpecResult::Found { v: p + v, next },
        SpecResult::Failed(e) => SpecResult::Failed(e),
    }
}

proof fn lemma_splice_push<T>(p: Seq<T>, x: T, r: SpecResult<Seq<T>>)
    ensures
        splice(p, splice(seq![x], r)) == splice(p.push(x), r),
{
    match r {
        SpecResult::Found { v, next } => {
            assert(p + (seq![x] + v) =~= p.push(x) + v);
        },
        SpecResult::Failed(_) => {
        },
    }
}

/// The mathematical values of a vector of parsed values.
spec fn deep_seq(vs: Seq<JsonValue>) -> Seq<SpecValue> {
    vs.map_values(|v: JsonValue| v@)
}

/// The mathematical members of a vector of parsed members.
spec fn member_views(ms: Seq<(String, JsonValue)>) -> Seq<(Seq<char>, SpecValue)> {
    ms.map_values(|p: (String, JsonValue)| (p.0@, p.1@))
}

/// An array value's mathematical form is the sequence of its elements'
/// forms.
proof fn lemma_array_view(v: JsonValue)
    requires
        v is Array,
    ensures
        v@ == SpecValue::Array(deep_seq(v->Array_0@)),
{
    let es = v@->Array_0;
    assert(v@ is Array);
    assert forall|q: int| 0 <= q < es.len() implies es[q] == deep_seq(v->Array_0@)[q] by {
    }
    assert(es =~= deep_seq(v->Array_0@));
    assert(v@ == SpecValue::Array(es));
}

/// An object value's mathematical form is the sequence of its members'
/// forms.
proof fn lemma_object_view(v: JsonValue)
    requires
        v is Object,
    ensures
        v@ == SpecValue::Object(member_views(v->Object_0@)),
{
    let ms = v@->Object_0;
    assert(v@ is Object);
    assert forall|q: int| 0 <= q < ms.len() implies ms[q] == member_views(v->Object_0@)[q] by {
    }
    assert(ms =~= member_views(v->Object_0@));
    assert(v@ == SpecValue::Object(ms));
}

proof fn lemma_obj_of_pairs_push(ps: Seq<(Seq<char>, SpecValue)>, k: Seq<char>, v: SpecValue)
    ensures
        obj_of_pairs(ps.push((k, v))) == obj_insert(obj_of_pairs(ps), k, v),
{
    assert(ps.push((k, v)).drop_last() =~= ps);
}

proof fn lemma_member_views_index(ms: Seq<(String, JsonValue)>, q: int)
    requires
        0 <= q < ms.len(),
    ensures
        member_views(ms).len() == ms.len(),
        member_views(ms)[q] == (ms[q].0@, ms[q].1@),
{
}

/// Adds one member under last-write-wins: an existing key keeps its
/// position and takes the new value; a new key is appended.
fn insert_member(obj: &mut Vec<(String, JsonValue)>, key: String, v: JsonValue)
    ensures
        member_views(final (obj)@) == obj_insert(member_views(old(obj)@), key@, v@),
{
    let ghost mv = member_views(old(obj)@);
    let n = obj.len();
    let mut t: usize = 0;
    while t < n && !(obj[t].0 == key)
        invariant
            t <= n,
            obj@ == old(obj)@,
            mv == member_views(old(obj)@),
            n == obj@.len(),
            key_index(mv, key@, 0) == key_index(mv, key@, t as int),
        decreases n - t,
    {
        proof {
            lemma_member_views_index(old(obj)@, t as int);
            assert(mv[t as int].0 != key@);
        }
        t = t + 1;
    }
    if t < n {
        proof {
            assert(mv[t as int].0 == key@);
            assert(key_index(mv, key@, t as int) == t as int);
        }
        obj[t] = (key, v);
        proof {
            let new_mv = member_views(obj@);
            let tgt = obj_insert(mv, key@, v@);
            assert forall|q: int| 0 <= q < new_mv.len() implies new_mv[q] == tgt[q] by {
            }
            assert(new_mv =~= tgt);
        }
    } else {
        proof {
            assert(key_index(mv, key@, n as int) == -1);
        }
        obj.push((key, v));
        proof {
            let new_mv = member_views(obj@);
            let tgt = obj_insert(mv, key@, v@);
            assert forall|q: int| 0 <= q < new_mv.len() implies new_mv[q] == tgt[q] by {
            }
            assert(new_mv =~= tgt);
        }
    }
}

/// The string rule, entered at the opening quote the dispatcher saw.
fn parse_string(s: &[char], i: usize) -> (r: Result<(String, usize), ParseError>)
    requires
        (i as int) < s@.len(),
        s@[i as int] == '"',
    ensures
        (match r {
            Ok((out, next)) => spec_parse_string(s@, i as int) == (SpecResult::Found {
                v: out@,
                next: next as int,
            }) && i < next && next as int <= s@.len(),
            Err(e) => spec_parse_string(s@, i as int) == SpecResult::<Seq<char>>::Failed(e@),
        }),
{
    let n = s.len();
    let mut out = String::new();
    let mut j = i + 1;
    proof {
        assert(out@ =~= Seq::<char>::empty());
    }
    loop
        invariant
            i as int + 1 <= j as int <= s@.len(),
            n == s@.len(),
            (i as int) < s@.len(),
            s@[i as int] == '"',
            spec_string_tail(s@, i as int + 1) == prepend_chars(out@, spec_string_tail(s@, j as int)),
        decreases s@.len() - j,
    {
        if j >= n {
            let e = ParseError::new(ErrorKind::StructuralViolation, n, true);
            return Err(e.committed_in(Rule::StringLit));
        }
        let c = s[j];
        if c == '"' {
            proof {
                assert(out@ + Seq::<char>::empty() =~= out@);
            }
            return Ok((out, j + 1));
        } else if c == '\\' {
            if j + 1 >= n {
                let e = ParseError::new(ErrorKind::InvalidEscape, n, true);
                return Err(e.committed_in(Rule::StringLit));
            }
            let d = s[j + 1];
            if d == 'u' {
                match parse_unicode_escape(s, j + 2, j) {
                    Err(err) => {
                        return Err(err.committed_in(Rule::StringLit));
                    },
                    Ok((ch, next)) => {
                        proof {
                            assert(step_past(j as int, next as int) == next as int);
                            lemma_prepend_push(out@, ch, spec_string_tail(s@, next as int));
                        }
                        push_char(&mut out, ch);
                        j = next;
                    },
                }
            } else if d == '"' || d == '\\' || d == '/' || d == 'b' || d == 'f' || d == 'n' || d
                == 'r' || d == 't' {
                let ch = if d == 'b' {
                    '\u{0008}'
                } else if d == 'f' {
                    '\u{000C}'
                } else if d == 'n' {
                    '\n'
                } else if d == 'r' {
                    '\r'
                } else if d == 't' {
                    '\t'
                } else {
                    d
                };
                proof {
                    assert(escape_char(d) == Some(ch));
                    lemma_prepend_push(out@, ch, spec_string_tail(s@, j as int + 2));
                }
                push_char(&mut out, ch);
                j = j + 2;
            } else {
                let e = ParseError::new(ErrorKind::InvalidEscape, j + 1, true);
                return Err(e.committed_in(Rule::StringLit));
            }
        } else {
            proof {
                lemma_prepend_push(out@, c, spec_string_tail(s@, j as int + 1));
            }
            push_char(&mut out, c);
            j = j + 1;
        }
    }
}

/// The value dispatcher: skip whitespace, inspect one lookahead
/// character without consuming it, and route to the production it
/// starts. `depth` is the remaining nesting allowance.
fn parse_value(s: &[char], i: usize, depth: u32) -> (r: Result<(JsonValue, usize), ParseError>)
    requires
        i as int <= s@.len(),
    ensures
        (match r {
            Ok((v, next)) => spec_parse_value(s@, i as int, depth) == (SpecResult::Found {
                v: v@,
                next: next as int,
            }) && i < next && next as int <= s@.len(),
            Err(e) => spec_parse_value(s@, i as int, depth) == SpecResult::<SpecValue>::Failed(e@),
        }),
    decreases depth, s@.len() - i, 0int,
{
    let n = s.len();
    let j = skip_whitespace(s, i);
    if j >= n {
        return Err(ParseError::new(ErrorKind::LiteralMismatch, n, false));
    }
    let c = s[j];
    if c == '{' {
        if depth == 0 {
            return Err(ParseError::new(ErrorKind::DepthExceeded, j, true));
        }
        parse_object(s, j, depth - 1)
    } else if c == '[' {
        if depth == 0 {
            return Err(ParseError::new(ErrorKind::DepthExceeded, j, true));
        }
        parse_array(s, j, depth - 1)
    } else if c == '"' {
        match parse_string(s, j) {
            Ok((out, next)) => Ok((JsonValue::Str(out), next)),
            Err(e) => Err(e),
        }
    } else if c == '-' || is_digit_char(c) {
        match parse_number(s, j) {
            Ok((raw, next)) => Ok((JsonValue::Num(raw), next)),
            Err(e) => Err(e),
        }
    } else if c == 't' {
        match parse_true(s, j) {
            Ok(next) => Ok((JsonValue::Boolean(true), next)),
            Err(e) => Err(e),
        }
    } else if c == 'f' {
        match parse_false(s, j) {
            Ok(next) => Ok((JsonValue::Boolean(false), next)),
            Err(e) => Err(e),
        }
    } else if c == 'n' {
        match parse_null(s, j) {
            Ok(next) => Ok((JsonValue::Null, next)),
            Err(e) => Err(e),
        }
    } else {
        Err(ParseError::new(ErrorKind::UnexpectedCharacter, j, true))
    }
}

/// The array rule, entered at the `[` the dispatcher saw. `depth` is
/// the children's nesting allowance.
#[verifier::rlimit(60)]
fn parse_array(s: &[char], i: usize, depth: u32) -> (r: Result<(JsonValue, usize), ParseError>)
    requires
        (i as int) < s@.len(),
        s@[i as int] == '[',
    ensures
        (match r {
            Ok((v, next)) => spec_parse_array(s@, i as int, depth) == (SpecResult::Found {
                v: v@,
                next: next as int,
            }) && i < next && next as int <= s@.len(),
            Err(e) => spec_parse_array(s@, i as int, depth) == SpecResult::<SpecValue>::Failed(e@),
        }),
    decreases depth, s@.len() - i, 2int,
{
    let n = s.len();
    let j = skip_whitespace(s, i + 1);
    if j < n && s[j] == ']' {
        let out = JsonValue::Array(Vec::new());
        proof {
            lemma_array_view(out);
            assert(deep_seq(out->Array_0@) =~= Seq::<SpecValue>::empty());
        }
        return Ok((out, j + 1));
    }
    let mut elems: Vec<JsonValue> = Vec::new();
    let mut k = j;
    proof {
        assert(deep_seq(elems@) =~= Seq::<SpecValue>::empty());
        match spec_array_items(s@, j as int, depth) {
            SpecResult::Found { v, next } => {
                assert(Seq::<SpecValue>::empty() + v =~= v);
            },
            SpecResult::Failed(_) => {},
        }
    }
    loop
        invariant
            (i as int) < s@.len(),
            s@[i as int] == '[',
            n == s@.len(),
            i < j,
            j <= k,
            k as int <= s@.len(),
            j as int == skip_ws(s@, i as int + 1),
            !((j as int) < s@.len() && s@[j as int] == ']'),
            spec_array_items(s@, j as int, depth) == splice(
                deep_seq(elems@),
                spec_array_items(s@, k as int, depth),
            ),
        decreases s@.len() - k,
    {
        match parse_value(s, k, depth) {
            Err(e) => {
                return Err(e.committed_in(Rule::Array));
            },
            Ok((v, vnext)) => {
                proof {
                    crate::grammar::skip_ws_bounds(s@, k as int);
                }
                let m = skip_whitespace(s, vnext);
                if m < n && s[m] == ',' {
                    let t = skip_whitespace(s, m + 1);
                    if t < n && s[t] == ']' {
                        let e = ParseError::new(ErrorKind::StructuralViolation, t, true);
                        return Err(e.committed_in(Rule::Array));
                    }
                    proof {
                        lemma_splice_push(
                            deep_seq(elems@),
                            v@,
                            spec_array_items(s@, m as int + 1, depth),
                        );
                        assert(deep_seq(elems@.push(v)) =~= deep_seq(elems@).push(v@));
                    }
                    elems.push(v);
                    k = m + 1;
                } else {
                    proof {
                        assert(deep_seq(elems@) + seq![v@] =~= deep_seq(elems@.push(v)));
                    }
                    elems.push(v);
                    if m < n && s[m] == ']' {
                        let out = JsonValue::Array(elems);
                        proof {
                            lemma_array_view(out);
                        }
                        return Ok((out, m + 1));
                    } else {
                        let e = ParseError::new(ErrorKind::StructuralViolation, m, true);
                        return Err(e.committed_in(Rule::Array));
                    }
                }
            },
        }
    }
}

/// The object rule, entered at the `{` the dispatcher saw. `depth` is
/// the children's nesting allowance.
#[verifier::rlimit(60)]
fn parse_object(s: &[char], i: usize, depth: u32) -> (r: Result<(JsonValue, usize), ParseError>)
    requires
        (i as int) < s@.len(),
        s@[i as int] == '{',
    ensures
        (match r {
            Ok((v, next)) => spec_parse_object(s@, i as int, depth) == (SpecResult::Found {
                v: v@,
                next: next as int,
            }) && i < next && next as int <= s@.len(),
            Err(e) => spec_parse_object(s@, i as int, depth) == SpecResult::<SpecValue>::Failed(
                e@,
            ),
        }),
    decreases depth, s@.len() - i, 2int,
{
    let n = s.len();
    let j = skip_whitespace(s, i + 1);
    if j < n && s[j] == '}' {
        let out = JsonValue::Object(Vec::new());
        proof {
            lemma_object_view(out);
            assert(member_views(out->Object_0@) =~= Seq::<(Seq<char>, SpecValue)>::empty());
        }
        return Ok((out, j + 1));
    }
    let mut obj: Vec<(String, JsonValue)> = Vec::new();
    let ghost mut gpairs: Seq<(Seq<char>, SpecValue)> = Seq::empty();
    let mut k = j;
    proof {
        assert(member_views(obj@) =~= Seq::<(Seq<char>, SpecValue)>::empty());
        assert(obj_of_pairs(gpairs) == member_views(obj@));
        match spec_object_members(s@, j as int, depth) {
            SpecResult::Found { v, next } => {
                assert(Seq::<(Seq<char>, SpecValue)>::empty() + v =~= v);
            },
            SpecResult::Failed(_) => {},
        }
    }
    loop
        invariant
            (i as int) < s@.len(),
            s@[i as int] == '{',
            n == s@.len(),
            i < j,
            j <= k,
            k as int <= s@.len(),
            j as int == skip_ws(s@, i as int + 1),
            !((j as int) < s@.len() && s@[j as int] == '}'),
            member_views(obj@) == obj_of_pairs(gpairs),
            spec_object_members(s@, j as int, depth) == splice(
                gpairs,
                spec_object_members(s@, k as int, depth),
            ),
        decreases s@.len() - k,
    {
        let kc = skip_whitespace(s, k);
        if !(kc < n && s[kc] == '"') {
            let e = ParseError::new(ErrorKind::LiteralMismatch, kc, false);
            return Err(e.committed_in(Rule::Object));
        }
        match parse_string(s, kc) {
            Err(e) => {
                return Err(e.committed_in(Rule::Object));
            },
            Ok((key, knext)) => {
                let c1 = skip_whitespace(s, knext);
                if !(c1 < n && s[c1] == ':') {
                    let e = ParseError::new(ErrorKind::StructuralViolation, c1, true);
                    return Err(e.committed_in(Rule::Object));
                }
                match parse_value(s, c1 + 1, depth) {
                    Err(e) => {
                        return Err(e.committed_in(Rule::Object));
                    },
                    Ok((v, vnext)) => {
                        let m = skip_whitespace(s, vnext);
                        if m < n && s[m] == ',' {
                            let t = skip_whitespace(s, m + 1);
                            if t < n && s[t] == '}' {
                                let e = ParseError::new(ErrorKind::StructuralViolation, t, true);
                                return Err(e.committed_in(Rule::Object));
                            }
                            proof {
                                lemma_splice_push(
                                    gpairs,
                                    (key@, v@),
                                    spec_object_members(s@, m as int + 1, depth),
                                );
                                lemma_obj_of_pairs_push(gpairs, key@, v@);
                            }
                            insert_member(&mut obj, key, v);
                            proof {
                                gpairs = gpairs.push((key@, v@));
                            }
                            k = m + 1;
                        } else {
                            proof {
                                assert(gpairs + seq![(key@, v@)] =~= gpairs.push((key@, v@)));
                                lemma_obj_of_pairs_push(gpairs, key@, v@);
                            }
                            insert_member(&mut obj, key, v);
                            proof {
                                gpairs = gpairs.push((key@, v@));
                            }
                            if m < n && s[m] == '}' {
                                let out = JsonValue::Object(obj);
                                proof {
                                    lemma_object_view(out);
                                }
                                return Ok((out, m + 1));
                            } else {
                                let e = ParseError::new(ErrorKind::StructuralViolation, m, true);
                                return Err(e.committed_in(Rule::Object));
                            }
                        }
                    },
                }
            },
        }
    }
}

/// The input as a vector of its characters.
fn to_char_vec(s: &str) -> (r: Vec<char>)
    ensures
        r@ == s@,
{
    let n = s.unicode_len();
    let mut out: Vec<char> = Vec::new();
    let mut k: usize = 0;
    while k < n
        invariant
            k <= n,
            n == s@.len(),
            out@ == s@.subrange(0, k as int),
        decreases n - k,
    {
        let c = s.get_char(k);
        out.push(c);
        k = k + 1;
        proof {
            assert(out@ =~= s@.subrange(0, k as int));
        }
    }
    proof {
        assert(out@ =~= s@);
    }
    out
}

/// The nesting allowance [`parse`] grants: plenty for ordinary
/// documents, well clear of the call stack.
pub const DEFAULT_DEPTH_LIMIT: u32 = 256;

/// Parses one complete text with a caller-chosen nesting limit: a value
/// nested more than `depth_limit` levels deep fails with a dedicated
/// depth error instead of exhausting the call stack.
///
/// Returns the value tree exactly when the whole input is one value of
/// the grammar with nothing but whitespace around it, and otherwise the
/// error — kind, position, fatality and context trail — that the
/// grammar assigns to the input.
pub fn parse_with_limit(input: &str, depth_limit: u32) -> (r: Result<JsonValue, ParseError>)
    ensures
        (match r {
            Ok(v) => spec_parse_text(input@, depth_limit) == (SpecResult::Found {
                v: v@,
                next: input@.len() as int,
            }),
            Err(e) => spec_parse_text(input@, depth_limit) == SpecResult::<SpecValue>::Failed(e@),
        }),
{
    let cs = to_char_vec(input);
    let s = cs.as_slice();
    match parse_value(s, 0, depth_limit) {
        Err(e) => Err(e),
        Ok((v, next)) => {
            let j = skip_whitespace(s, next);
            if j == s.len() {
                Ok(v)
            } else {
                Err(ParseError::new(ErrorKind::TrailingInput, j, true))
            }
        },
    }
}

/// Parses one complete text under the default nesting limit; see
/// [`parse_with_limit`].
pub fn parse(input: &str) -> (r: Result<JsonValue, ParseError>)
    ensures
        (match r {
            Ok(v) => spec_parse_text(input@, DEFAULT_DEPTH_LIMIT) == (SpecResult::Found {
                v: v@,
                next: input@.len() as int,
            }),
            Err(e) => spec_parse_text(input@, DEFAULT_DEPTH_LIMIT)
                == SpecResult::<SpecValue>::Failed(e@),
        }),
{
    parse_with_limit(input, DEFAULT_DEPTH_LIMIT)
}

} // verus!
