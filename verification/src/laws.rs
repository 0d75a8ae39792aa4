//! Laws the parser's results obey, proved from the grammar alone.

use vstd::prelude::*;

use crate::grammar::SpecResult;
use crate::grammar::digit_run_end;
use crate::grammar::is_digit;
use crate::grammar::is_number_lit;
use crate::grammar::key_index;
use crate::grammar::number_end;
use crate::grammar::obj_insert;
use crate::grammar::obj_of_pairs;
use crate::grammar::rem;
use crate::grammar::spec_array_items;
use crate::grammar::spec_object_members;
use crate::grammar::spec_parse_number;
use crate::grammar::spec_parse_object;
use crate::grammar::spec_parse_string;
use crate::grammar::spec_parse_text;
use crate::grammar::spec_string_tail;
use crate::grammar::spec_parse_value;
use crate::value::SpecValue;

verus! {

/// No two members of an object carry the same key.
pub open spec fn unique_keys(ms: Seq<(Seq<char>, SpecValue)>) -> bool {
    forall|q1: int, q2: int|
        0 <= q1 < q2 < ms.len() ==> #[trigger] ms[q1].0 != #[trigger] ms[q2].0
}

/// A well-formed value tree: every numeric literal is exactly one
/// number of the grammar, and every object's keys are unique. This is
/// the shape the parser promises of everything it returns.
pub open spec fn wf(v: SpecValue) -> bool
    decreases v,
{
    match v {
        SpecValue::Null => true,
        SpecValue::Str(_) => true,
        SpecValue::Boolean(_) => true,
        SpecValue::Num(raw) => is_number_lit(raw),
        SpecValue::Array(vs) => forall|q: int| 0 <= q < vs.len() ==> wf(#[trigger] vs[q]),
        SpecValue::Object(ms) => unique_keys(ms) && forall|q: int|
            0 <= q < ms.len() ==> wf(#[trigger] ms[q].1),
    }
}

/// A digit run inside `s` reads the same inside the piece of `s` cut
/// out between `a` and `b`, as long as the run does not reach past `b`.
proof fn lemma_digit_run_subrange(s: Seq<char>, a: int, b: int, p: int)
    requires
        0 <= a <= p <= b <= s.len(),
        digit_run_end(s, p) <= b,
    ensures
        digit_run_end(s.subrange(a, b), p - a) == digit_run_end(s, p) - a,
    decreases s.len() - p,
{
    let t = s.subrange(a, b);
    if p < b {
        assert(t[p - a] == s[p]);
        if is_digit(s[p]) {
            assert(digit_run_end(s, p) == digit_run_end(s, p + 1));
            lemma_digit_run_subrange(s, a, b, p + 1);
        }
    } else {
        if p < s.len() && is_digit(s[p]) {
            crate::grammar::digit_run_end_bounds(s, p + 1);
            assert(digit_run_end(s, p) > b);
        }
    }
}

/// The text a number match cuts out of its input is itself exactly one
/// numeric literal.
proof fn lemma_number_subrange_is_lit(s: Seq<char>, i: int, end: int)
    requires
        0 <= i <= s.len(),
        number_end(s, i) == Some(end),
    ensures
        is_number_lit(s.subrange(i, end)),
{
    let t = s.subrange(i, end);
    let j0 = if 0 <= i < s.len() && s[i] == '-' {
        i + 1
    } else {
        i
    };
    assert(0 <= j0 < s.len() && is_digit(s[j0]));
    let j1 = if s[j0] == '0' {
        j0 + 1
    } else {
        digit_run_end(s, j0)
    };
    if s[j0] != '0' {
        assert(digit_run_end(s, j0) == digit_run_end(s, j0 + 1));
        crate::grammar::digit_run_end_bounds(s, j0 + 1);
    }
    assert(j0 < j1 <= s.len());
    let frac = j1 < s.len() && s[j1] == '.' && j1 + 1 < s.len() && is_digit(s[j1 + 1]);
    let j2 = if frac {
        digit_run_end(s, j1 + 1)
    } else {
        j1
    };
    if frac {
        assert(digit_run_end(s, j1 + 1) == digit_run_end(s, j1 + 2));
        crate::grammar::digit_run_end_bounds(s, j1 + 2);
    }
    assert(j1 <= j2 <= s.len());
    assert(frac ==> j1 + 1 < j2);
    let k = if j2 + 1 < s.len() && (s[j2 + 1] == '+' || s[j2 + 1] == '-') {
        j2 + 2
    } else {
        j2 + 1
    };
    let expo = j2 < s.len() && (s[j2] == 'e' || s[j2] == 'E') && k < s.len() && is_digit(s[k]);
    let j3 = if expo {
        digit_run_end(s, k)
    } else {
        j2
    };
    if expo {
        assert(digit_run_end(s, k) == digit_run_end(s, k + 1));
        crate::grammar::digit_run_end_bounds(s, k + 1);
    }
    assert(j2 <= j3 <= s.len());
    assert(expo ==> k < j3);
    assert(end == j3);
    assert(t.len() == end - i);

    // Replay the scan inside the cut-out text.
    assert(t[0] == s[i]);
    let i0 = if 0 <= 0 < t.len() && t[0] == '-' {
        1int
    } else {
        0int
    };
    assert(i0 == j0 - i);
    assert(t[j0 - i] == s[j0]);
    if s[j0] != '0' {
        lemma_digit_run_subrange(s, i, end, j0);
    }
    let i1 = if t[i0] == '0' {
        i0 + 1
    } else {
        digit_run_end(t, i0)
    };
    assert(i1 == j1 - i);
    if j1 < end {
        assert(t[j1 - i] == s[j1]);
    }
    if j1 + 1 < end {
        assert(t[j1 - i + 1] == s[j1 + 1]);
    }
    let tfrac = i1 < t.len() && t[i1] == '.' && i1 + 1 < t.len() && is_digit(t[i1 + 1]);
    assert(tfrac == frac);
    if frac {
        lemma_digit_run_subrange(s, i, end, j1 + 1);
    }
    let i2 = if tfrac {
        digit_run_end(t, i1 + 1)
    } else {
        i1
    };
    assert(i2 == j2 - i);
    if j2 < end {
        assert(t[j2 - i] == s[j2]);
    }
    if j2 + 1 < end {
        assert(t[j2 - i + 1] == s[j2 + 1]);
    }
    let tk = if i2 + 1 < t.len() && (t[i2 + 1] == '+' || t[i2 + 1] == '-') {
        i2 + 2
    } else {
        i2 + 1
    };
    let texpo = i2 < t.len() && (t[i2] == 'e' || t[i2] == 'E') && tk < t.len() && is_digit(t[tk]);
    if expo {
        assert(k < end);
        assert(tk == k - i);
        assert(t[k - i] == s[k]);
        assert(texpo);
        lemma_digit_run_subrange(s, i, end, k);
    }
    if !expo {
        // Either no exponent marker stands at the end of the literal, or
        // its digits are missing; in the cut-out text the marker (if
        // any) sits at or past the end.
        if i2 < t.len() && (t[i2] == 'e' || t[i2] == 'E') {
            assert(j2 < end);
            assert(s[j2] == 'e' || s[j2] == 'E');
            if tk < t.len() {
                assert(tk == k - i);
                assert(t[tk] == s[k]);
            }
            assert(!texpo);
        }
    }
    let i3 = if texpo {
        digit_run_end(t, tk)
    } else {
        i2
    };
    assert(i3 == j3 - i);
    assert(number_end(t, 0) == Some(t.len() as int));
}

/// What may follow a value inside a container or at the top level:
/// a separator, a closing delimiter, or whitespace.
pub open spec fn is_delim(c: char) -> bool {
    c == ',' || c == ']' || c == '}' || crate::grammar::is_ws(c)
}

/// A digit run inside an embedded piece of text reads the same in the
/// surrounding text, as long as no digit stands right after the piece.
proof fn lemma_digit_run_embed(s: Seq<char>, i: int, raw: Seq<char>, p: int)
    requires
        0 <= i,
        i + raw.len() <= s.len(),
        s.subrange(i, i + raw.len()) == raw,
        0 <= p <= raw.len(),
        i + raw.len() < s.len() ==> !is_digit(s[i + raw.len()]),
    ensures
        digit_run_end(s, i + p) == i + digit_run_end(raw, p),
    decreases raw.len() - p,
{
    if p < raw.len() {
        assert(s[i + p] == raw[p]);
        if is_digit(raw[p]) {
            assert(digit_run_end(raw, p) == digit_run_end(raw, p + 1));
            assert(digit_run_end(s, i + p) == digit_run_end(s, i + p + 1));
            lemma_digit_run_embed(s, i, raw, p + 1);
        }
    }
}

/// A numeric literal keeps its end when it stands embedded in a larger
/// text, as long as the character right after it (if any) cannot extend
/// it.
proof fn lemma_number_in_context(s: Seq<char>, i: int, raw: Seq<char>)
    requires
        0 <= i,
        i + raw.len() <= s.len(),
        s.subrange(i, i + raw.len()) == raw,
        is_number_lit(raw),
        i + raw.len() < s.len() ==> is_delim(s[i + raw.len()]),
    ensures
        number_end(s, i) == Some(i + raw.len()),
{
    let n = raw.len() as int;
    let b = i + n;
    assert forall|q: int| 0 <= q < n implies s[i + q] == raw[q] by {
        assert(s.subrange(i, b)[q] == s[i + q]);
    }
    // The raw-side scan, replayed.
    assert(number_end(raw, 0) == Some(n));
    let r0 = if 0 <= 0 < raw.len() && raw[0] == '-' {
        1int
    } else {
        0int
    };
    assert(0 <= r0 < n && is_digit(raw[r0]));
    let r1 = if raw[r0] == '0' {
        r0 + 1
    } else {
        digit_run_end(raw, r0)
    };
    if raw[r0] != '0' {
        assert(digit_run_end(raw, r0) == digit_run_end(raw, r0 + 1));
        crate::grammar::digit_run_end_bounds(raw, r0 + 1);
    }
    assert(r0 < r1 <= n);
    let rfrac = r1 < raw.len() && raw[r1] == '.' && r1 + 1 < raw.len() && is_digit(raw[r1 + 1]);
    let r2 = if rfrac {
        digit_run_end(raw, r1 + 1)
    } else {
        r1
    };
    if rfrac {
        assert(digit_run_end(raw, r1 + 1) == digit_run_end(raw, r1 + 2));
        crate::grammar::digit_run_end_bounds(raw, r1 + 2);
    }
    assert(r1 <= r2 <= n);
    let rk = if r2 + 1 < raw.len() && (raw[r2 + 1] == '+' || raw[r2 + 1] == '-') {
        r2 + 2
    } else {
        r2 + 1
    };
    let rexpo = r2 < raw.len() && (raw[r2] == 'e' || raw[r2] == 'E') && rk < raw.len() && is_digit(
        raw[rk],
    );
    let r3 = if rexpo {
        digit_run_end(raw, rk)
    } else {
        r2
    };
    if rexpo {
        assert(digit_run_end(raw, rk) == digit_run_end(raw, rk + 1));
        crate::grammar::digit_run_end_bounds(raw, rk + 1);
    }
    assert(r2 <= r3 <= n);
    assert(r3 == n);

    // The s-side scan lands on the same positions, shifted by `i`.
    assert(b < s.len() ==> !is_digit(s[b]) && s[b] != '.' && s[b] != 'e' && s[b] != 'E' && s[b]
        != '+' && s[b] != '-');
    assert(s[i + 0] == raw[0]);
    let j0 = if 0 <= i < s.len() && s[i] == '-' {
        i + 1
    } else {
        i
    };
    assert(j0 == i + r0);
    assert(s[i + r0] == raw[r0]);
    if raw[r0] != '0' {
        lemma_digit_run_embed(s, i, raw, r0);
    }
    let j1 = if s[j0] == '0' {
        j0 + 1
    } else {
        digit_run_end(s, j0)
    };
    assert(j1 == i + r1);
    if r1 < n {
        assert(s[i + r1] == raw[r1]);
    }
    if r1 + 1 < n {
        assert(s[i + r1 + 1] == raw[r1 + 1]);
    }
    let sfrac = j1 < s.len() && s[j1] == '.' && j1 + 1 < s.len() && is_digit(s[j1 + 1]);
    if sfrac && !rfrac {
        // The dot or its digit would have to sit at or past the end of
        // the literal, where only a delimiter may stand.
        if r1 < n && raw[r1] == '.' {
            assert(r1 + 1 >= n);
            assert(j1 + 1 == b);
        } else {
            assert(j1 >= b);
        }
        assert(false);
    }
    assert(sfrac == rfrac);
    if rfrac {
        lemma_digit_run_embed(s, i, raw, r1 + 1);
    }
    let j2 = if sfrac {
        digit_run_end(s, j1 + 1)
    } else {
        j1
    };
    assert(j2 == i + r2);
    if r2 < n {
        assert(s[i + r2] == raw[r2]);
    }
    if r2 + 1 < n {
        assert(s[i + r2 + 1] == raw[r2 + 1]);
    }
    let sk = if j2 + 1 < s.len() && (s[j2 + 1] == '+' || s[j2 + 1] == '-') {
        j2 + 2
    } else {
        j2 + 1
    };
    let sexpo = j2 < s.len() && (s[j2] == 'e' || s[j2] == 'E') && sk < s.len() && is_digit(s[sk]);
    if sexpo && !rexpo {
        if r2 < n && (raw[r2] == 'e' || raw[r2] == 'E') {
            // The exponent's digits would have to sit at or past the end
            // of the literal, where only a delimiter may stand.
            if rk < n {
                assert(s[i + rk] == raw[rk]);
                assert(sk == i + rk);
            } else {
                assert(sk >= b);
                if r2 + 1 < n {
                    assert(s[i + r2 + 1] == raw[r2 + 1]);
                }
            }
        } else {
            assert(j2 >= b);
        }
        assert(false);
    }
    if rexpo {
        assert(s[i + r2] == raw[r2]);
        if r2 + 1 < n {
            assert(s[i + r2 + 1] == raw[r2 + 1]);
        }
        assert(sk == i + rk);
        assert(s[i + rk] == raw[rk]);
        assert(sexpo);
        lemma_digit_run_embed(s, i, raw, rk);
    }
    let j3 = if sexpo {
        digit_run_end(s, sk)
    } else {
        j2
    };
    assert(j3 == i + r3);
    assert(number_end(s, i) == Some(j3));
}

/// `key_index` finds a position that carries the key, and `-1` only
/// when no position at or after `from` does.
proof fn lemma_key_index(ms: Seq<(Seq<char>, SpecValue)>, k: Seq<char>, from: int)
    requires
        0 <= from,
    ensures
        key_index(ms, k, from) == -1 || key_index(ms, k, from) >= from,
        key_index(ms, k, from) == -1 ==> forall|q: int|
            from <= q < ms.len() ==> (#[trigger] ms[q]).0 != k,
        key_index(ms, k, from) >= 0 ==> from <= key_index(ms, k, from) < ms.len() && ms[key_index(
            ms,
            k,
            from,
        )].0 == k,
    decreases ms.len() - from,
{
    if from < ms.len() && ms[from].0 != k {
        lemma_key_index(ms, k, from + 1);
    }
}

/// Inserting a member preserves key uniqueness and the members' shape.
proof fn lemma_obj_insert_wf(ms: Seq<(Seq<char>, SpecValue)>, k: Seq<char>, v: SpecValue)
    requires
        unique_keys(ms),
        forall|q: int| 0 <= q < ms.len() ==> wf(#[trigger] ms[q].1),
        wf(v),
    ensures
        unique_keys(obj_insert(ms, k, v)),
        forall|q: int| 0 <= q < obj_insert(ms, k, v).len() ==> wf(#[trigger] obj_insert(ms, k, v)[q].1),
{
    lemma_key_index(ms, k, 0);
    let idx = key_index(ms, k, 0);
    if idx >= 0 {
        let r = ms.update(idx, (k, v));
        assert(obj_insert(ms, k, v) == r);
        assert(ms[idx].0 == k);
        assert forall|q1: int, q2: int| 0 <= q1 < q2 < r.len() implies #[trigger] r[q1].0
            != #[trigger] r[q2].0 by {
            assert(ms[q1].0 != ms[q2].0);
        }
    } else {
        let r = ms.push((k, v));
        assert(obj_insert(ms, k, v) == r);
        assert(forall|q: int| 0 <= q < ms.len() ==> (#[trigger] ms[q]).0 != k);
        assert forall|q1: int, q2: int| 0 <= q1 < q2 < r.len() implies #[trigger] r[q1].0
            != #[trigger] r[q2].0 by {
            if q2 == ms.len() {
                assert(ms[q1].0 != k);
            } else {
                assert(ms[q1].0 != ms[q2].0);
            }
        }
    }
}

/// Folding members preserves key uniqueness and well-formed values.
proof fn lemma_obj_of_pairs_wf(pairs: Seq<(Seq<char>, SpecValue)>)
    requires
        forall|q: int| 0 <= q < pairs.len() ==> wf(#[trigger] pairs[q].1),
    ensures
        unique_keys(obj_of_pairs(pairs)),
        forall|q: int| 0 <= q < obj_of_pairs(pairs).len() ==> wf(#[trigger] obj_of_pairs(pairs)[q].1),
    decreases pairs.len(),
{
    if pairs.len() == 0 {
    } else {
        assert(forall|q: int|
            0 <= q < pairs.drop_last().len() ==> wf(#[trigger] pairs.drop_last()[q].1));
        lemma_obj_of_pairs_wf(pairs.drop_last());
        lemma_obj_insert_wf(obj_of_pairs(pairs.drop_last()), pairs.last().0, pairs.last().1);
    }
}

/// One hexadecimal digit as the canonical encoder writes it.
pub open spec fn hex_char(d: int) -> char {
    if d == 0 {
        '0'
    } else if d == 1 {
        '1'
    } else if d == 2 {
        '2'
    } else if d == 3 {
        '3'
    } else if d == 4 {
        '4'
    } else if d == 5 {
        '5'
    } else if d == 6 {
        '6'
    } else if d == 7 {
        '7'
    } else if d == 8 {
        '8'
    } else if d == 9 {
        '9'
    } else if d == 10 {
        'a'
    } else if d == 11 {
        'b'
    } else if d == 12 {
        'c'
    } else if d == 13 {
        'd'
    } else if d == 14 {
        'e'
    } else {
        'f'
    }
}

proof fn lemma_hex_char(d: int)
    requires
        0 <= d < 16,
    ensures
        crate::grammar::is_hex(hex_char(d)),
        crate::grammar::hex_val(hex_char(d)) == d,
{
}

/// The canonical escape of one character inside a string literal: the
/// quote and the backslash get their short escapes, any other control
/// character a `\u00XX` escape, and everything else stands literally.
pub open spec fn enc_char(c: char) -> Seq<char> {
    if c == '"' {
        seq!['\\', '"']
    } else if c == '\\' {
        seq!['\\', '\\']
    } else if (c as u32) < 32 {
        seq!['\\', 'u', '0', '0', hex_char((c as u32) as int / 16), hex_char((c as u32) as int % 16)]
    } else {
        seq![c]
    }
}

/// The canonical body of a string literal.
pub open spec fn encode_string(t: Seq<char>) -> Seq<char>
    decreases t.len(),
{
    if t.len() == 0 {
        Seq::<char>::empty()
    } else {
        enc_char(t[0]) + encode_string(t.drop_first())
    }
}

/// The canonical text of a value: no whitespace, strings escaped by
/// [`enc_char`], numbers as their kept literal text, container items
/// separated by single commas.
pub open spec fn encode_value(v: SpecValue) -> Seq<char>
    decreases v, 1int,
{
    match v {
        SpecValue::Null => seq!['n', 'u', 'l', 'l'],
        SpecValue::Boolean(b) => if b {
            seq!['t', 'r', 'u', 'e']
        } else {
            seq!['f', 'a', 'l', 's', 'e']
        },
        SpecValue::Num(raw) => raw,
        SpecValue::Str(t) => seq!['"'] + encode_string(t) + seq!['"'],
        SpecValue::Array(vs) => seq!['['] + encode_items(vs) + seq![']'],
        SpecValue::Object(ms) => seq!['{'] + encode_members(ms) + seq!['}'],
    }
}

/// The canonical texts of an array's elements, comma-separated.
pub open spec fn encode_items(vs: Seq<SpecValue>) -> Seq<char>
    decreases vs, 0int,
{
    if vs.len() == 0 {
        Seq::<char>::empty()
    } else if vs.len() == 1 {
        encode_value(vs[0])
    } else {
        encode_value(vs[0]) + seq![','] + encode_items(vs.drop_first())
    }
}

/// The canonical texts of an object's members, comma-separated.
pub open spec fn encode_members(ms: Seq<(Seq<char>, SpecValue)>) -> Seq<char>
    decreases ms, 0int,
{
    if ms.len() == 0 {
        Seq::<char>::empty()
    } else {
        let one = seq!['"'] + encode_string(ms[0].0) + seq!['"', ':'] + encode_value(ms[0].1);
        if ms.len() == 1 {
            one
        } else {
            one + seq![','] + encode_members(ms.drop_first())
        }
    }
}

/// How deeply a value nests: the least nesting allowance under which
/// the dispatcher will parse it.
pub open spec fn height(v: SpecValue) -> nat
    decreases v, 1int,
{
    match v {
        SpecValue::Null => 0,
        SpecValue::Boolean(_) => 0,
        SpecValue::Num(_) => 0,
        SpecValue::Str(_) => 0,
        SpecValue::Array(vs) => 1 + items_height(vs),
        SpecValue::Object(ms) => 1 + members_height(ms),
    }
}

pub open spec fn items_height(vs: Seq<SpecValue>) -> nat
    decreases vs, 0int,
{
    if vs.len() == 0 {
        0
    } else if height(vs[0]) >= items_height(vs.drop_first()) {
        height(vs[0])
    } else {
        items_height(vs.drop_first())
    }
}

pub open spec fn members_height(ms: Seq<(Seq<char>, SpecValue)>) -> nat
    decreases ms, 0int,
{
    if ms.len() == 0 {
        0
    } else if height(ms[0].1) >= members_height(ms.drop_first()) {
        height(ms[0].1)
    } else {
        members_height(ms.drop_first())
    }
}

/// A value's canonical text is never empty and opens with a character
/// that is neither whitespace nor a separator nor a closing delimiter.
proof fn lemma_encode_value_first(v: SpecValue)
    requires
        wf(v),
    ensures
        encode_value(v).len() >= 1,
        !crate::grammar::is_ws(encode_value(v)[0]),
        !is_delim(encode_value(v)[0]),
        encode_value(v)[0] != ':',
{
    match v {
        SpecValue::Num(raw) => {
            assert(number_end(raw, 0) == Some(raw.len() as int));
            assert(raw.len() > 0);
            assert(raw[0] == '-' || is_digit(raw[0]));
        },
        _ => {
        },
    }
}

/// Decoding inverts the canonical escaping: a string body written by
/// [`encode_string`] and closed by a quote decodes to exactly the
/// original characters.
proof fn lemma_string_tail_round_trip(s: Seq<char>, i: int, t: Seq<char>)
    requires
        0 <= i,
        i + encode_string(t).len() + 1 <= s.len(),
        s.subrange(i, i + encode_string(t).len() + 1) == encode_string(t).push('"'),
    ensures
        spec_string_tail(s, i) == (SpecResult::Found {
            v: t,
            next: i + encode_string(t).len() + 1,
        }),
    decreases t.len(),
{
    let enc = encode_string(t);
    assert forall|q: int| 0 <= q < enc.len() + 1 implies s[i + q] == enc.push('"')[q] by {
        assert(s.subrange(i, i + enc.len() + 1)[q] == s[i + q]);
    }
    if t.len() == 0 {
        assert(enc.push('"')[0] == '"');
        assert(s[i] == '"');
        assert(t =~= Seq::<char>::empty());
    } else {
        let c = t[0];
        let e0 = enc_char(c);
        let rest = encode_string(t.drop_first());
        assert(enc == e0 + rest);
        assert(seq![c] + t.drop_first() =~= t);
        assert forall|q: int| 0 <= q < e0.len() implies s[i + q] == e0[q] by {
            assert(enc.push('"')[q] == enc[q]);
            assert(enc[q] == e0[q]);
        }
        assert(s.subrange(i + e0.len(), i + e0.len() + rest.len() + 1) =~= rest.push('"')) by {
            assert forall|q: int|
                0 <= q < rest.len() + 1 implies s.subrange(
                i + e0.len(),
                i + e0.len() + rest.len() + 1,
            )[q] == rest.push('"')[q] by {
                assert(s[i + e0.len() + q] == enc.push('"')[e0.len() + q]);
                if q < rest.len() {
                    assert(enc.push('"')[e0.len() + q] == rest[q]);
                } else {
                    assert(enc.push('"')[e0.len() + q] == '"');
                }
            }
        }
        lemma_string_tail_round_trip(s, i + e0.len(), t.drop_first());
        if c == '"' {
            assert(s[i] == '\\' && s[i + 1] == '"');
            assert(crate::grammar::escape_char('"') == Some('"'));
        } else if c == '\\' {
            assert(s[i] == '\\' && s[i + 1] == '\\');
            assert(crate::grammar::escape_char('\\') == Some('\\'));
        } else if (c as u32) < 32 {
            let cu = (c as u32) as int;
            assert(0 <= cu && cu < 32);
            let hi = cu / 16;
            let lo = cu % 16;
            lemma_hex_char(hi);
            lemma_hex_char(lo);
            assert(s[i] == '\\' && s[i + 1] == 'u');
            assert(s[i + 2] == '0' && s[i + 3] == '0');
            assert(s[i + 4] == hex_char(hi) && s[i + 5] == hex_char(lo));
            assert(crate::grammar::is_hex('0') && crate::grammar::hex_val('0') == 0);
            assert(crate::grammar::spec_hex4(s, i + 2) == (SpecResult::Found {
                v: 16 * hi + lo,
                next: i + 6,
            }));
            assert(16 * hi + lo == cu);
            assert((cu as u32) == c as u32);
            vstd::utf8::char_u32_cast(c, c as u32);
            assert(crate::grammar::spec_unicode_escape(s, i + 2, i) == (SpecResult::Found {
                v: c,
                next: i + 6,
            }));
            assert(crate::grammar::step_past(i, i + 6) == i + 6);
        } else {
            assert(s[i] == c);
        }
    }
}

/// One character of an embedded piece of text, read from the
/// surrounding text.
proof fn lemma_embedded_index(s: Seq<char>, i: int, piece: Seq<char>, q: int)
    requires
        0 <= i,
        i + piece.len() <= s.len(),
        s.subrange(i, i + piece.len()) == piece,
        0 <= q < piece.len(),
    ensures
        s[i + q] == piece[q],
{
    assert(s.subrange(i, i + piece.len())[q] == s[i + q]);
}

/// A slice of an embedded piece of text is embedded at the shifted
/// position.
proof fn lemma_embedded_subrange(s: Seq<char>, i: int, piece: Seq<char>, a: int, b: int)
    requires
        0 <= i,
        i + piece.len() <= s.len(),
        s.subrange(i, i + piece.len()) == piece,
        0 <= a <= b <= piece.len(),
    ensures
        s.subrange(i + a, i + b) == piece.subrange(a, b),
{
    assert forall|q: int| 0 <= q < b - a implies s.subrange(i + a, i + b)[q] == piece.subrange(
        a,
        b,
    )[q] by {
        assert(s.subrange(i + a, i + b)[q] == s[i + a + q]);
        lemma_embedded_index(s, i, piece, a + q);
        assert(piece.subrange(a, b)[q] == piece[a + q]);
    }
    assert(s.subrange(i + a, i + b) =~= piece.subrange(a, b));
}

/// A key that no member carries is not found.
proof fn lemma_key_index_absent(ms: Seq<(Seq<char>, SpecValue)>, k: Seq<char>, from: int)
    requires
        0 <= from,
        forall|q: int| from <= q < ms.len() ==> (#[trigger] ms[q]).0 != k,
    ensures
        key_index(ms, k, from) == -1,
    decreases ms.len() - from,
{
    if from < ms.len() {
        lemma_key_index_absent(ms, k, from + 1);
    }
}

/// Folding members whose keys are already unique changes nothing.
proof fn lemma_obj_of_pairs_identity(ms: Seq<(Seq<char>, SpecValue)>)
    requires
        unique_keys(ms),
    ensures
        obj_of_pairs(ms) == ms,
    decreases ms.len(),
{
    if ms.len() > 0 {
        let front = ms.drop_last();
        assert(unique_keys(front));
        lemma_obj_of_pairs_identity(front);
        assert(forall|q: int| 0 <= q < front.len() ==> (#[trigger] front[q]).0 != ms.last().0);
        lemma_key_index_absent(front, ms.last().0, 0);
        assert(front.push(ms.last()) =~= ms);
    }
}

/// The anatomy of a wrapped text `l mid r`: its length, its ends, its
/// middle, and its tail.
proof fn lemma_wrapped(l: char, mid: Seq<char>, r: char)
    ensures
        (seq![l] + mid + seq![r]).len() == mid.len() + 2,
        (seq![l] + mid + seq![r])[0] == l,
        forall|q: int| 0 <= q < mid.len() ==> (seq![l] + mid + seq![r])[1 + q] == mid[q],
        (seq![l] + mid + seq![r])[1 + mid.len() as int] == r,
        (seq![l] + mid + seq![r]).subrange(1, 1 + mid.len() as int) == mid,
        (seq![l] + mid + seq![r]).subrange(1, (seq![l] + mid + seq![r]).len() as int) == mid.push(
            r,
        ),
{
    let w = seq![l] + mid + seq![r];
    assert(w.subrange(1, 1 + mid.len() as int) =~= mid);
    assert(w.subrange(1, w.len() as int) =~= mid.push(r));
}

/// Re-parsing the canonical text of a well-formed value, embedded in a
/// larger text and followed by a delimiter or the end of that text,
/// yields exactly that value.
#[verifier::rlimit(100)]
#[verifier::spinoff_prover]
proof fn lemma_value_round_trip_at(s: Seq<char>, i: int, v: SpecValue, depth: u32)
    requires
        wf(v),
        height(v) <= depth,
        0 <= i,
        i + encode_value(v).len() <= s.len(),
        s.subrange(i, i + encode_value(v).len()) == encode_value(v),
        i + encode_value(v).len() < s.len() ==> is_delim(s[i + encode_value(v).len()]),
    ensures
        spec_parse_value(s, i, depth) == (SpecResult::Found {
            v,
            next: i + encode_value(v).len(),
        }),
    decreases v, 1int,
{
    let enc = encode_value(v);
    lemma_encode_value_first(v);
    lemma_embedded_index(s, i, enc, 0);
    assert(crate::grammar::skip_ws(s, i) == i);
    match v {
        SpecValue::Null => {
            lemma_embedded_subrange(s, i, enc, 0, 4);
            assert(enc.subrange(0, 4) =~= seq!['n', 'u', 'l', 'l']);
        },
        SpecValue::Boolean(b) => {
            if b {
                lemma_embedded_subrange(s, i, enc, 0, 4);
                assert(enc.subrange(0, 4) =~= seq!['t', 'r', 'u', 'e']);
            } else {
                lemma_embedded_subrange(s, i, enc, 0, 5);
                assert(enc.subrange(0, 5) =~= seq!['f', 'a', 'l', 's', 'e']);
            }
        },
        SpecValue::Num(raw) => {
            lemma_number_in_context(s, i, raw);
            assert(number_end(raw, 0) == Some(raw.len() as int));
            assert(raw.len() > 0);
            assert(raw[0] == '-' || is_digit(raw[0]));
            assert(spec_parse_number(s, i) == (SpecResult::Found {
                v: s.subrange(i, i + raw.len()),
                next: i + raw.len(),
            }));
        },
        SpecValue::Str(t) => {
            let body = encode_string(t);
            lemma_wrapped('"', body, '"');
            lemma_embedded_subrange(s, i, enc, 1, enc.len() as int);
            lemma_string_tail_round_trip(s, i + 1, t);
        },
        SpecValue::Array(vs) => {
            lemma_array_case(s, i, v, depth);
        },
        SpecValue::Object(ms) => {
            lemma_object_case(s, i, v, depth);
        },
    }
}

/// The array case of [`lemma_value_round_trip_at`].
#[verifier::rlimit(100)]
#[verifier::spinoff_prover]
proof fn lemma_array_case(s: Seq<char>, i: int, v: SpecValue, depth: u32)
    requires
        v is Array,
        wf(v),
        height(v) <= depth,
        0 <= i,
        i + encode_value(v).len() <= s.len(),
        s.subrange(i, i + encode_value(v).len()) == encode_value(v),
    ensures
        height(v) >= 1,
        crate::grammar::spec_parse_array(s, i, (depth - 1) as u32) == (SpecResult::Found {
            v,
            next: i + encode_value(v).len(),
        }),
    decreases v, 0int,
{
    let enc = encode_value(v);
    let vs = v->Array_0;
    lemma_embedded_index(s, i, enc, 0);
    assert(enc[0] == '[');
    let d2 = (depth - 1) as u32;
    if vs.len() == 0 {
        assert(enc =~= seq!['[', ']']);
        lemma_embedded_index(s, i, enc, 1);
        assert(s[i + 1] == ']');
        assert(crate::grammar::ws_from(s, i + 1) == i + 1);
        assert(vs =~= Seq::<SpecValue>::empty());
    } else {
        let inner = encode_items(vs);
        assert(enc == seq!['['] + inner + seq![']']);
        lemma_wrapped('[', inner, ']');
        assert(wf(vs[0]));
        lemma_encode_value_first(vs[0]);
        assert(inner[0] == encode_value(vs[0])[0]) by {
            if vs.len() > 1 {
                assert(inner == encode_value(vs[0]) + seq![','] + encode_items(vs.drop_first()));
            }
        }
        assert(enc[1] == inner[0]);
        lemma_embedded_index(s, i, enc, 1);
        assert(crate::grammar::skip_ws(s, i + 1) == i + 1);
        assert(crate::grammar::ws_from(s, i + 1) == i + 1);
        assert(s[i + 1] != ']');
        lemma_embedded_subrange(s, i, enc, 1, 1 + inner.len() as int);
        lemma_embedded_index(s, i, enc, 1 + inner.len() as int);
        assert(s[i + 1 + inner.len()] == ']');
        lemma_items_round_trip(s, i + 1, vs, d2);
        let next = i + 1 + inner.len();
        assert(crate::grammar::skip_ws(s, next) == next);
    }
}

/// The object case of [`lemma_value_round_trip_at`].
#[verifier::rlimit(100)]
#[verifier::spinoff_prover]
proof fn lemma_object_case(s: Seq<char>, i: int, v: SpecValue, depth: u32)
    requires
        v is Object,
        wf(v),
        height(v) <= depth,
        0 <= i,
        i + encode_value(v).len() <= s.len(),
        s.subrange(i, i + encode_value(v).len()) == encode_value(v),
    ensures
        height(v) >= 1,
        crate::grammar::spec_parse_object(s, i, (depth - 1) as u32) == (SpecResult::Found {
            v,
            next: i + encode_value(v).len(),
        }),
    decreases v, 0int,
{
    let enc = encode_value(v);
    let ms = v->Object_0;
    lemma_embedded_index(s, i, enc, 0);
    assert(enc[0] == '{');
    let d2 = (depth - 1) as u32;
    if ms.len() == 0 {
        assert(enc =~= seq!['{', '}']);
        lemma_embedded_index(s, i, enc, 1);
        assert(s[i + 1] == '}');
        assert(crate::grammar::ws_from(s, i + 1) == i + 1);
        assert(ms =~= Seq::<(Seq<char>, SpecValue)>::empty());
    } else {
        let inner = encode_members(ms);
        assert(enc == seq!['{'] + inner + seq!['}']);
        lemma_wrapped('{', inner, '}');
        assert(inner[0] == '"') by {
            let one = seq!['"'] + encode_string(ms[0].0) + seq!['"', ':'] + encode_value(ms[0].1);
            assert(one[0] == '"');
            if ms.len() > 1 {
                assert(inner == one + seq![','] + encode_members(ms.drop_first()));
            }
        }
        assert(enc[1] == inner[0]);
        lemma_embedded_index(s, i, enc, 1);
        assert(crate::grammar::skip_ws(s, i + 1) == i + 1);
        assert(crate::grammar::ws_from(s, i + 1) == i + 1);
        assert(s[i + 1] != '}');
        lemma_embedded_subrange(s, i, enc, 1, 1 + inner.len() as int);
        lemma_embedded_index(s, i, enc, 1 + inner.len() as int);
        assert(s[i + 1 + inner.len()] == '}');
        lemma_members_round_trip(s, i + 1, ms, d2);
        let next = i + 1 + inner.len();
        assert(crate::grammar::skip_ws(s, next) == next);
        lemma_obj_of_pairs_identity(ms);
    }
}

/// Re-parsing the canonical comma-separated texts of well-formed array
/// elements, followed by the closing bracket, yields exactly those
/// elements.
#[verifier::rlimit(100)]
#[verifier::spinoff_prover]
proof fn lemma_items_round_trip(s: Seq<char>, i: int, vs: Seq<SpecValue>, depth: u32)
    requires
        vs.len() >= 1,
        forall|q: int| 0 <= q < vs.len() ==> wf(#[trigger] vs[q]),
        items_height(vs) <= depth,
        0 <= i,
        i + encode_items(vs).len() < s.len(),
        s.subrange(i, i + encode_items(vs).len()) == encode_items(vs),
        s[i + encode_items(vs).len()] == ']',
    ensures
        spec_array_items(s, i, depth) == (SpecResult::Found {
            v: vs,
            next: i + encode_items(vs).len(),
        }),
    decreases vs, 0int,
{
    let enc = encode_items(vs);
    let e0 = encode_value(vs[0]);
    assert(wf(vs[0]));
    lemma_encode_value_first(vs[0]);
    if vs.len() == 1 {
        assert(enc == e0);
        lemma_value_round_trip_at(s, i, vs[0], depth);
        let ve = i + e0.len();
        assert(crate::grammar::step_past(i, ve) == ve);
        assert(crate::grammar::skip_ws(s, ve) == ve);
        assert(crate::grammar::ws_from(s, ve) == ve);
        assert(s[ve] == ']');
        assert(seq![vs[0]] =~= vs);
    } else {
        let rest = vs.drop_first();
        let er = encode_items(rest);
        assert(enc == e0 + seq![','] + er);
        assert(enc[e0.len() as int] == ',');
        lemma_embedded_index(s, i, enc, e0.len() as int);
        let ve = i + e0.len();
        assert(s[ve] == ',');
        lemma_embedded_subrange(s, i, enc, 0, e0.len() as int);
        assert(enc.subrange(0, e0.len() as int) =~= e0) by {
            assert forall|q: int|
                0 <= q < e0.len() implies enc.subrange(0, e0.len() as int)[q] == e0[q] by {
                assert(enc.subrange(0, e0.len() as int)[q] == enc[q]);
                assert(enc[q] == e0[q]);
            }
        }
        lemma_value_round_trip_at(s, i, vs[0], depth);
        assert(crate::grammar::step_past(i, ve) == ve);
        assert(crate::grammar::skip_ws(s, ve) == ve);
        assert(crate::grammar::ws_from(s, ve) == ve);
        lemma_embedded_subrange(s, i, enc, e0.len() as int + 1, enc.len() as int);
        assert(enc.subrange(e0.len() as int + 1, enc.len() as int) =~= er) by {
            assert forall|q: int|
                0 <= q < er.len() implies enc.subrange(e0.len() as int + 1, enc.len() as int)[q]
                == er[q] by {
                assert(enc.subrange(e0.len() as int + 1, enc.len() as int)[q] == enc[e0.len() as int + 1 + q]);
                assert(enc[e0.len() as int + 1 + q] == er[q]);
            }
        }
        assert(wf(rest[0]));
        lemma_encode_value_first(rest[0]);
        assert(er[0] == encode_value(rest[0])[0]) by {
            if rest.len() > 1 {
                assert(er == encode_value(rest[0]) + seq![','] + encode_items(rest.drop_first()));
            }
        }
        lemma_embedded_index(s, ve + 1, er, 0);
        assert(crate::grammar::skip_ws(s, ve + 1) == ve + 1);
        assert(s[ve + 1] != ']');
        assert(ve + 1 + er.len() == i + enc.len());
        lemma_items_round_trip(s, ve + 1, rest, depth);
        assert(seq![vs[0]] + rest =~= vs);
    }
}

/// Re-parsing the canonical comma-separated texts of an object's
/// members, followed by the closing brace, yields exactly those members
/// in order.
#[verifier::rlimit(100)]
#[verifier::spinoff_prover]
proof fn lemma_members_round_trip(s: Seq<char>, i: int, ms: Seq<(Seq<char>, SpecValue)>, depth: u32)
    requires
        ms.len() >= 1,
        forall|q: int| 0 <= q < ms.len() ==> wf(#[trigger] ms[q].1),
        members_height(ms) <= depth,
        0 <= i,
        i + encode_members(ms).len() < s.len(),
        s.subrange(i, i + encode_members(ms).len()) == encode_members(ms),
        s[i + encode_members(ms).len()] == '}',
    ensures
        spec_object_members(s, i, depth) == (SpecResult::Found {
            v: ms,
            next: i + encode_members(ms).len(),
        }),
    decreases ms, 0int,
{
    let enc = encode_members(ms);
    let key = ms[0].0;
    let kbody = encode_string(key);
    let ev = encode_value(ms[0].1);
    let one = seq!['"'] + kbody + seq!['"', ':'] + ev;
    assert(one.len() == kbody.len() as int + 3 + ev.len());
    if ms.len() == 1 {
        assert(enc == one);
    } else {
        assert(enc == one + seq![','] + encode_members(ms.drop_first()));
    }
    assert forall|q: int| 0 <= q < one.len() implies enc[q] == one[q] by {
    }
    assert(one[0] == '"');
    lemma_embedded_index(s, i, enc, 0);
    assert(s[i] == '"');
    assert(crate::grammar::skip_ws(s, i) == i);
    assert(crate::grammar::ws_from(s, i) == i);
    // The key decodes back.
    lemma_embedded_subrange(s, i, enc, 1, kbody.len() as int + 2);
    assert(enc.subrange(1, kbody.len() as int + 2) =~= kbody.push('"')) by {
        assert forall|q: int|
            0 <= q < kbody.len() + 1 implies enc.subrange(1, kbody.len() as int + 2)[q] == kbody.push(
            '"',
        )[q] by {
            assert(enc.subrange(1, kbody.len() as int + 2)[q] == enc[1 + q]);
            assert(enc[1 + q] == one[1 + q]);
            if q < kbody.len() {
                assert(one[1 + q] == kbody[q]);
            } else {
                assert(one[1 + q] == '"');
            }
        }
    }
    lemma_string_tail_round_trip(s, i + 1, key);
    let ke = i + kbody.len() as int + 2;
    assert(crate::grammar::spec_parse_string(s, i) == (SpecResult::Found { v: key, next: ke }));
    assert(one[kbody.len() as int + 2] == ':');
    lemma_embedded_index(s, i, enc, kbody.len() as int + 2);
    assert(s[ke] == ':');
    assert(crate::grammar::step_past(i, ke) == ke);
    assert(crate::grammar::skip_ws(s, ke) == ke);
    assert(crate::grammar::ws_from(s, ke) == ke);
    // The member's value decodes back.
    let vstart = ke + 1;
    assert(wf(ms[0].1));
    lemma_embedded_subrange(s, i, enc, kbody.len() as int + 3, kbody.len() as int + 3 + ev.len());
    assert(enc.subrange(kbody.len() as int + 3, kbody.len() as int + 3 + ev.len()) =~= ev) by {
        assert forall|q: int|
            0 <= q < ev.len() implies enc.subrange(kbody.len() as int + 3, kbody.len() as int + 3 + ev.len())[q]
            == ev[q] by {
            assert(enc.subrange(kbody.len() as int + 3, kbody.len() as int + 3 + ev.len())[q] == enc[kbody.len()
                + 3 + q]);
            assert(enc[kbody.len() as int + 3 + q] == one[kbody.len() as int + 3 + q]);
            assert(one[kbody.len() as int + 3 + q] == ev[q]);
        }
    }
    let ve = vstart + ev.len();
    assert(ve == i + one.len());
    if ms.len() == 1 {
        assert(s[ve] == '}');
    } else {
        assert(enc[one.len() as int] == ',');
        lemma_embedded_index(s, i, enc, one.len() as int);
        assert(s[ve] == ',');
    }
    assert(is_delim(s[ve]));
    lemma_value_round_trip_at(s, vstart, ms[0].1, depth);
    assert(crate::grammar::step_past(vstart - 1, ve) == ve);
    assert(crate::grammar::skip_ws(s, ve) == ve);
    assert(crate::grammar::ws_from(s, ve) == ve);
    if ms.len() == 1 {
        assert((key, ms[0].1) == ms[0]);
        assert(seq![(key, ms[0].1)] =~= ms);
    } else {
        let rest = ms.drop_first();
        let er = encode_members(rest);
        lemma_embedded_subrange(s, i, enc, one.len() as int + 1, enc.len() as int);
        assert(enc.subrange(one.len() as int + 1, enc.len() as int) =~= er) by {
            assert forall|q: int|
                0 <= q < er.len() implies enc.subrange(one.len() as int + 1, enc.len() as int)[q]
                == er[q] by {
                assert(enc.subrange(one.len() as int + 1, enc.len() as int)[q] == enc[one.len() as int + 1 + q]);
                assert(enc[one.len() as int + 1 + q] == er[q]);
            }
        }
        assert(er[0] == '"') by {
            let one2 = seq!['"'] + encode_string(rest[0].0) + seq!['"', ':'] + encode_value(
                rest[0].1,
            );
            assert(one2[0] == '"');
            if rest.len() > 1 {
                assert(er == one2 + seq![','] + encode_members(rest.drop_first()));
            }
        }
        lemma_embedded_index(s, ve + 1, er, 0);
        assert(crate::grammar::skip_ws(s, ve + 1) == ve + 1);
        assert(s[ve + 1] != '}');
        assert(ve + 1 + er.len() == i + enc.len());
        lemma_members_round_trip(s, ve + 1, rest, depth);
        assert((key, ms[0].1) == ms[0]);
        assert(seq![(key, ms[0].1)] + rest =~= ms);
    }
}

/// The round-trip law: re-parsing the canonical text of any well-formed
/// value tree, under any nesting allowance at least the tree's height,
/// yields an equal value tree with the whole text consumed.
pub proof fn lemma_round_trip(v: SpecValue, depth: u32)
    requires
        wf(v),
        height(v) <= depth,
    ensures
        spec_parse_text(encode_value(v), depth) == (SpecResult::Found {
            v,
            next: encode_value(v).len() as int,
        }),
{
    let s = encode_value(v);
    assert(s.subrange(0, s.len() as int) =~= s);
    lemma_value_round_trip_at(s, 0, v, depth);
    assert(crate::grammar::skip_ws(s, s.len() as int) == s.len() as int);
}

/// Every value the value rule returns is well-formed.
pub proof fn lemma_value_wf(s: Seq<char>, i: int, depth: u32)
    ensures
        (match spec_parse_value(s, i, depth) {
            SpecResult::Found { v, next } => wf(v),
            SpecResult::Failed(_) => true,
        }),
    decreases depth, rem(s, i), 0int,
{
    let j = crate::grammar::skip_ws(s, i);
    if 0 <= j < s.len() {
        let c = s[j];
        if c == '{' {
            if depth != 0 {
                lemma_object_wf(s, j, (depth - 1) as u32);
            }
        } else if c == '[' {
            if depth != 0 {
                lemma_array_wf(s, j, (depth - 1) as u32);
            }
        } else if c == '-' || is_digit(c) {
            match number_end(s, j) {
                Some(end) => {
                    crate::grammar::skip_ws_bounds(s, if 0 <= i <= s.len() {
                        i
                    } else {
                        j
                    });
                    if 0 <= j <= s.len() {
                        lemma_number_subrange_is_lit(s, j, end);
                    }
                },
                None => {
                },
            }
        }
    }
}

/// Every element list the array rule returns holds well-formed values.
proof fn lemma_items_wf(s: Seq<char>, i: int, depth: u32)
    ensures
        (match spec_array_items(s, i, depth) {
            SpecResult::Found { v: vs, next } => forall|q: int|
                0 <= q < vs.len() ==> wf(#[trigger] vs[q]),
            SpecResult::Failed(_) => true,
        }),
    decreases depth, rem(s, i), 1int,
{
    if 0 <= i < s.len() {
        lemma_value_wf(s, i, depth);
        match spec_parse_value(s, i, depth) {
            SpecResult::Failed(_) => {
            },
            SpecResult::Found { v, next } => {
                let ve = crate::grammar::step_past(i, next);
                let m = crate::grammar::ws_from(s, ve);
                if m < s.len() && s[m] == ',' {
                    let t = crate::grammar::skip_ws(s, m + 1);
                    if !(t < s.len() && s[t] == ']') {
                        lemma_items_wf(s, m + 1, depth);
                    }
                }
            },
        }
    }
}

/// Every array the array rule returns is well-formed.
proof fn lemma_array_wf(s: Seq<char>, i: int, depth: u32)
    ensures
        (match crate::grammar::spec_parse_array(s, i, depth) {
            SpecResult::Found { v, next } => wf(v),
            SpecResult::Failed(_) => true,
        }),
    decreases depth, rem(s, i), 2int,
{
    if 0 <= i < s.len() && s[i] == '[' {
        let j = crate::grammar::ws_from(s, i + 1);
        if !(j < s.len() && s[j] == ']') {
            lemma_items_wf(s, j, depth);
        }
    }
}

/// Every member list the object rule returns holds well-formed values.
proof fn lemma_members_wf(s: Seq<char>, i: int, depth: u32)
    ensures
        (match spec_object_members(s, i, depth) {
            SpecResult::Found { v: pairs, next } => forall|q: int|
                0 <= q < pairs.len() ==> wf(#[trigger] pairs[q].1),
            SpecResult::Failed(_) => true,
        }),
    decreases depth, rem(s, i), 1int,
{
    if 0 <= i < s.len() {
        let kc = crate::grammar::ws_from(s, i);
        match crate::grammar::spec_parse_string(s, kc) {
            SpecResult::Failed(_) => {
            },
            SpecResult::Found { v: key, next: knext } => {
                let ke = crate::grammar::step_past(kc, knext);
                let c1 = crate::grammar::ws_from(s, ke);
                if c1 < s.len() && s[c1] == ':' {
                    lemma_value_wf(s, c1 + 1, depth);
                    match spec_parse_value(s, c1 + 1, depth) {
                        SpecResult::Failed(_) => {
                        },
                        SpecResult::Found { v, next } => {
                            let ve = crate::grammar::step_past(c1, next);
                            let m = crate::grammar::ws_from(s, ve);
                            if m < s.len() && s[m] == ',' {
                                let t = crate::grammar::skip_ws(s, m + 1);
                                if !(t < s.len() && s[t] == '}') {
                                    lemma_members_wf(s, m + 1, depth);
                                }
                            }
                        },
                    }
                }
            },
        }
    }
}

/// Every object the object rule returns is well-formed: unique keys,
/// well-formed member values.
proof fn lemma_object_wf(s: Seq<char>, i: int, depth: u32)
    ensures
        (match spec_parse_object(s, i, depth) {
            SpecResult::Found { v, next } => wf(v),
            SpecResult::Failed(_) => true,
        }),
    decreases depth, rem(s, i), 2int,
{
    if 0 <= i < s.len() && s[i] == '{' {
        let j = crate::grammar::ws_from(s, i + 1);
        if !(j < s.len() && s[j] == '}') {
            lemma_members_wf(s, j, depth);
            match spec_object_members(s, j, depth) {
                SpecResult::Failed(_) => {
                },
                SpecResult::Found { v: pairs, next } => {
                    lemma_obj_of_pairs_wf(pairs);
                },
            }
        }
    }
}

/// Everything a successful parse returns is well-formed: every object's
/// keys are unique (a later duplicate in the input overwrote the
/// earlier one's value) and every numeric literal in the tree is
/// exactly one number of the grammar.
pub proof fn lemma_parsed_text_wf(s: Seq<char>, depth: u32)
    ensures
        (match spec_parse_text(s, depth) {
            SpecResult::Found { v, next } => wf(v),
            SpecResult::Failed(_) => true,
        }),
{
    lemma_value_wf(s, 0, depth);
}

} // verus!
