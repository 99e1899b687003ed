//! The JSON value model: a tree of plain values, its well-formedness
//! invariant (duplicate-free object keys, sound number tokens), structural
//! equality with numbers compared by value, depth, and the canonical
//! compact and pretty text renderings.
use vstd::prelude::*;
use crate::text::{is_digit_c, digit_char, digits_val};

verus! {

broadcast use vstd::seq::group_seq_axioms, vstd::std_specs::vec::group_vec_axioms;

/// Mathematical model of a JSON value. Numbers keep their literal token;
/// object members keep document order.
pub enum JsonV {
    Null,
    Bool(bool),
    Num(Seq<char>),
    Str(Seq<char>),
    Arr(Seq<JsonV>),
    Obj(Seq<(Seq<char>, JsonV)>),
}

/// A JSON value as executable data.
pub enum Json {
    Null,
    Bool(bool),
    Num(Vec<char>),
    Str(Vec<char>),
    Arr(Vec<Json>),
    Obj(Vec<(Vec<char>, Json)>),
}

pub open spec fn view_seq(a: Seq<Json>) -> Seq<JsonV>
    decreases a, 0int,
{
    if a.len() == 0 {
        Seq::empty()
    } else {
        view_seq(a.drop_last()).push(jview(a.last()))
    }
}

pub open spec fn view_pairs(m: Seq<(Vec<char>, Json)>) -> Seq<(Seq<char>, JsonV)>
    decreases m, 0int,
{
    if m.len() == 0 {
        Seq::empty()
    } else {
        view_pairs(m.drop_last()).push((m.last().0@, jview(m.last().1)))
    }
}

pub open spec fn jview(j: Json) -> JsonV
    decreases j, 1int,
{
    match j {
        Json::Null => JsonV::Null,
        Json::Bool(b) => JsonV::Bool(b),
        Json::Num(t) => JsonV::Num(t@),
        Json::Str(t) => JsonV::Str(t@),
        Json::Arr(a) => JsonV::Arr(view_seq(a@)),
        Json::Obj(m) => JsonV::Obj(view_pairs(m@)),
    }
}

impl View for Json {
    type V = JsonV;

    open spec fn view(&self) -> JsonV {
        jview(*self)
    }
}

pub broadcast proof fn lemma_view_seq_len(a: Seq<Json>)
    ensures
        (#[trigger] view_seq(a)).len() == a.len(),
    decreases a,
{
    if a.len() > 0 {
        lemma_view_seq_len(a.drop_last());
    }
}

pub broadcast proof fn lemma_view_seq_index(a: Seq<Json>, i: int)
    requires
        0 <= i < a.len(),
    ensures
        #[trigger] view_seq(a)[i] == jview(a[i]),
    decreases a,
{
    lemma_view_seq_len(a);
    if a.len() > 0 {
        lemma_view_seq_len(a.drop_last());
        if i < a.len() - 1 {
            lemma_view_seq_index(a.drop_last(), i);
            assert(a.drop_last()[i] == a[i]);
        }
    }
}

pub broadcast proof fn lemma_view_pairs_len(m: Seq<(Vec<char>, Json)>)
    ensures
        (#[trigger] view_pairs(m)).len() == m.len(),
    decreases m,
{
    if m.len() > 0 {
        lemma_view_pairs_len(m.drop_last());
    }
}

pub broadcast proof fn lemma_view_pairs_index(m: Seq<(Vec<char>, Json)>, i: int)
    requires
        0 <= i < m.len(),
    ensures
        #[trigger] view_pairs(m)[i] == (m[i].0@, jview(m[i].1)),
    decreases m,
{
    lemma_view_pairs_len(m);
    if m.len() > 0 {
        lemma_view_pairs_len(m.drop_last());
        if i < m.len() - 1 {
            lemma_view_pairs_index(m.drop_last(), i);
            assert(m.drop_last()[i] == m[i]);
        }
    }
}

// ------------------------------------------------------------------
// Number tokens
// ------------------------------------------------------------------

/// First position at or after `i` that does not hold a decimal digit.
pub open spec fn digits_end(s: Seq<char>, i: int) -> int
    decreases s.len() - i,
{
    if 0 <= i < s.len() && is_digit_c(s[i]) {
        digits_end(s, i + 1)
    } else {
        i
    }
}

pub open spec fn num_sp(s: Seq<char>) -> int {
    if s.len() > 0 && s[0] == '-' { 1int } else { 0int }
}

pub open spec fn num_ie(s: Seq<char>) -> int {
    digits_end(s, num_sp(s))
}

pub open spec fn num_has_frac(s: Seq<char>) -> bool {
    num_ie(s) < s.len() && s[num_ie(s)] == '.'
}

pub open spec fn num_fe(s: Seq<char>) -> int {
    if num_has_frac(s) {
        digits_end(s, num_ie(s) + 1)
    } else {
        num_ie(s)
    }
}

pub open spec fn num_frac_len(s: Seq<char>) -> int {
    if num_has_frac(s) { num_fe(s) - num_ie(s) - 1 } else { 0int }
}

pub open spec fn num_has_exp(s: Seq<char>) -> bool {
    num_fe(s) < s.len() && (s[num_fe(s)] == 'e' || s[num_fe(s)] == 'E')
}

/// Start of the exponent digit run (after an optional sign).
pub open spec fn num_es(s: Seq<char>) -> int {
    if num_has_exp(s) {
        if num_fe(s) + 1 < s.len() && (s[num_fe(s) + 1] == '+' || s[num_fe(s) + 1] == '-') {
            num_fe(s) + 2
        } else {
            num_fe(s) + 1
        }
    } else {
        num_fe(s)
    }
}

pub open spec fn num_ee(s: Seq<char>) -> int {
    digits_end(s, num_es(s))
}

pub open spec fn num_exp_val(s: Seq<char>) -> int {
    if num_has_exp(s) {
        let v = digits_val(s.subrange(num_es(s), num_ee(s)));
        if num_es(s) == num_fe(s) + 2 && s[num_fe(s) + 1] == '-' { -v } else { v }
    } else {
        0int
    }
}

/// The shape a stored number token always has: an optional minus, a
/// non-empty integer digit run, an optional non-empty fraction, an
/// optional non-empty exponent of at most 17 digits, nothing after.
pub open spec fn num_token_wf(s: Seq<char>) -> bool {
    &&& num_ie(s) > num_sp(s)
    &&& (num_has_frac(s) ==> num_fe(s) > num_ie(s) + 1)
    &&& (num_has_exp(s) ==> num_ee(s) > num_es(s) && num_ee(s) - num_es(s) <= 17
        && num_ee(s) == s.len())
    &&& (!num_has_exp(s) ==> num_fe(s) == s.len())
}

/// Significand digits: integer digits followed by fraction digits.
pub open spec fn num_mantissa(s: Seq<char>) -> Seq<char> {
    s.subrange(num_sp(s), num_ie(s)) + if num_has_frac(s) {
        s.subrange(num_ie(s) + 1, num_fe(s))
    } else {
        Seq::empty()
    }
}

/// First position at or after `i` in `m` that is not a `'0'`.
pub open spec fn zeros_end(m: Seq<char>, i: int) -> int
    decreases m.len() - i,
{
    if 0 <= i < m.len() && m[i] == '0' {
        zeros_end(m, i + 1)
    } else {
        i
    }
}

/// Position after the last non-`'0'` at or above `a`, scanning back from `i`.
pub open spec fn zeros_back(m: Seq<char>, i: int, a: int) -> int
    decreases i,
{
    if 0 <= a && a < i <= m.len() && m[i - 1] == '0' {
        zeros_back(m, i - 1, a)
    } else {
        i
    }
}

/// Normal form of a number token: sign, significant digits with leading
/// and trailing zeros stripped, and the power of ten of the last kept
/// digit. Zero normalizes to a fixed triple. Two tokens denote the same
/// numeric value exactly when their normal forms agree.
pub open spec fn num_norm(s: Seq<char>) -> (bool, Seq<char>, int) {
    let m = num_mantissa(s);
    let a = zeros_end(m, 0);
    let b = zeros_back(m, m.len() as int, a);
    if a >= b {
        (false, Seq::empty(), 0int)
    } else {
        (num_sp(s) == 1, m.subrange(a, b), num_exp_val(s) - num_frac_len(s) + (m.len() - b))
    }
}

// ------------------------------------------------------------------
// Well-formedness, equality, depth
// ------------------------------------------------------------------

/// Invariant of every value the library builds: object keys are
/// duplicate-free and number tokens have the stored shape.
pub open spec fn wf(j: JsonV) -> bool
    decreases j, 1int,
{
    match j {
        JsonV::Null => true,
        JsonV::Bool(_) => true,
        JsonV::Num(t) => num_token_wf(t),
        JsonV::Str(_) => true,
        JsonV::Arr(a) => wf_seq(a),
        JsonV::Obj(m) => wf_pairs(m),
    }
}

pub open spec fn wf_seq(a: Seq<JsonV>) -> bool
    decreases a, 0int,
{
    if a.len() == 0 {
        true
    } else {
        wf_seq(a.drop_last()) && wf(a.last())
    }
}

pub open spec fn wf_pairs(m: Seq<(Seq<char>, JsonV)>) -> bool
    decreases m, 0int,
{
    if m.len() == 0 {
        true
    } else {
        wf_pairs(m.drop_last()) && wf(m.last().1)
            && (forall|i: int| 0 <= i < m.len() - 1 ==> (#[trigger] m[i].0) != m.last().0)
    }
}

pub broadcast proof fn lemma_wf_seq_index(a: Seq<JsonV>, i: int)
    requires
        wf_seq(a),
        0 <= i < a.len(),
    ensures
        wf(#[trigger] a[i]),
    decreases a,
{
    if i < a.len() - 1 {
        assert(a.drop_last()[i] == a[i]);
        lemma_wf_seq_index(a.drop_last(), i);
    }
}

pub broadcast proof fn lemma_wf_pairs_index(m: Seq<(Seq<char>, JsonV)>, i: int)
    requires
        wf_pairs(m),
        0 <= i < m.len(),
    ensures
        wf((#[trigger] m[i]).1),
    decreases m,
{
    if i < m.len() - 1 {
        assert(m.drop_last()[i] == m[i]);
        lemma_wf_pairs_index(m.drop_last(), i);
    }
}

pub proof fn lemma_wf_pairs_distinct(m: Seq<(Seq<char>, JsonV)>, i: int, j: int)
    requires
        wf_pairs(m),
        0 <= i < j < m.len(),
    ensures
        m[i].0 != m[j].0,
    decreases m,
{
    if j == m.len() - 1 {
        assert(m[j] == m.last());
    } else {
        assert(m.drop_last()[i] == m[i]);
        assert(m.drop_last()[j] == m[j]);
        lemma_wf_pairs_distinct(m.drop_last(), i, j);
    }
}

/// Structural equality: numbers by value, arrays element-wise in order,
/// objects by key lookup regardless of member order.
pub open spec fn spec_json_eq(x: JsonV, y: JsonV) -> bool
    decreases x, 1int,
{
    match (x, y) {
        (JsonV::Null, JsonV::Null) => true,
        (JsonV::Bool(a), JsonV::Bool(b)) => a == b,
        (JsonV::Num(a), JsonV::Num(b)) => num_norm(a) == num_norm(b),
        (JsonV::Str(a), JsonV::Str(b)) => a == b,
        (JsonV::Arr(a), JsonV::Arr(b)) => a.len() == b.len() && eq_seq(a, b, a.len() as int),
        (JsonV::Obj(a), JsonV::Obj(b)) => a.len() == b.len() && eq_pairs(a, b, a.len() as int),
        _ => false,
    }
}

/// The first `n` elements of `a` equal their counterparts in `b`.
pub open spec fn eq_seq(a: Seq<JsonV>, b: Seq<JsonV>, n: int) -> bool
    decreases a, 0int, n,
{
    if n <= 0 || n > a.len() || a.len() != b.len() {
        true
    } else {
        eq_seq(a, b, n - 1) && spec_json_eq(a[n - 1], b[n - 1])
    }
}

/// Each of the first `n` members of `a` has a member of `b` with the
/// same key and an equal value.
pub open spec fn eq_pairs(a: Seq<(Seq<char>, JsonV)>, b: Seq<(Seq<char>, JsonV)>, n: int) -> bool
    decreases a, 0int, n,
{
    if n <= 0 || n > a.len() {
        true
    } else {
        eq_pairs(a, b, n - 1) && exists|j: int|
            0 <= j < b.len() && (#[trigger] b[j]).0 == a[n - 1].0 && spec_json_eq(a[n - 1].1, b[j].1)
    }
}

/// Nesting depth: scalars are 0, arrays and objects one more than their
/// deepest child, 1 when empty.
pub open spec fn spec_depth(j: JsonV) -> int
    decreases j, 1int,
{
    match j {
        JsonV::Arr(a) => 1 + depth_seq(a),
        JsonV::Obj(m) => 1 + depth_pairs(m),
        _ => 0int,
    }
}

pub open spec fn depth_seq(a: Seq<JsonV>) -> int
    decreases a, 0int,
{
    if a.len() == 0 {
        0int
    } else {
        let d1 = depth_seq(a.drop_last());
        let d2 = spec_depth(a.last());
        if d1 > d2 { d1 } else { d2 }
    }
}

pub open spec fn depth_pairs(m: Seq<(Seq<char>, JsonV)>) -> int
    decreases m, 0int,
{
    if m.len() == 0 {
        0int
    } else {
        let d1 = depth_pairs(m.drop_last());
        let d2 = spec_depth(m.last().1);
        if d1 > d2 { d1 } else { d2 }
    }
}

/// The kind of a value, as introspection reports it.
pub open spec fn spec_type_name(j: JsonV) -> Seq<char> {
    match j {
        JsonV::Null => seq!['n', 'u', 'l', 'l'],
        JsonV::Bool(_) => seq!['b', 'o', 'o', 'l', 'e', 'a', 'n'],
        JsonV::Num(_) => seq!['n', 'u', 'm', 'b', 'e', 'r'],
        JsonV::Str(_) => seq!['s', 't', 'r', 'i', 'n', 'g'],
        JsonV::Arr(_) => seq!['a', 'r', 'r', 'a', 'y'],
        JsonV::Obj(_) => seq!['o', 'b', 'j', 'e', 'c', 't'],
    }
}

// ------------------------------------------------------------------
// Canonical text
// ------------------------------------------------------------------

pub open spec fn hex_digit(d: int) -> char {
    if d < 10 { digit_char(d) }
    else if d == 10 { 'a' }
    else if d == 11 { 'b' }
    else if d == 12 { 'c' }
    else if d == 13 { 'd' }
    else if d == 14 { 'e' }
    else { 'f' }
}

/// Escape of one character inside a JSON string literal.
pub open spec fn esc_char(c: char) -> Seq<char> {
    if c == '"' { seq!['\\', '"'] }
    else if c == '\\' { seq!['\\', '\\'] }
    else if c == '\u{8}' { seq!['\\', 'b'] }
    else if c == '\u{c}' { seq!['\\', 'f'] }
    else if c == '\n' { seq!['\\', 'n'] }
    else if c == '\r' { seq!['\\', 'r'] }
    else if c == '\t' { seq!['\\', 't'] }
    else if (c as u32) < 0x20 {
        seq!['\\', 'u', '0', '0', hex_digit(c as u32 as int / 16), hex_digit(c as u32 as int % 16)]
    } else {
        seq![c]
    }
}

pub open spec fn esc_seq(s: Seq<char>) -> Seq<char>
    decreases s.len(),
{
    if s.len() == 0 {
        Seq::empty()
    } else {
        esc_seq(s.drop_last()) + esc_char(s.last())
    }
}

/// A quoted, escaped string literal.
pub open spec fn str_text(s: Seq<char>) -> Seq<char> {
    seq!['"'] + esc_seq(s) + seq!['"']
}

pub open spec fn indent_seq(n: int) -> Seq<char> {
    Seq::new(if n >= 0 { (2 * n) as nat } else { 0nat }, |i: int| ' ')
}

pub open spec fn bump(ind: int) -> int {
    if ind < 1000000 { ind + 1 } else { ind }
}

/// Canonical text of a value; `p` selects the two-space pretty form.
pub open spec fn json_text_fmt(v: JsonV, p: bool, ind: int) -> Seq<char>
    decreases v, 1int,
{
    match v {
        JsonV::Null => seq!['n', 'u', 'l', 'l'],
        JsonV::Bool(b) => if b {
            seq!['t', 'r', 'u', 'e']
        } else {
            seq!['f', 'a', 'l', 's', 'e']
        },
        JsonV::Num(t) => t,
        JsonV::Str(s) => str_text(s),
        JsonV::Arr(a) => if a.len() == 0 {
            seq!['[', ']']
        } else if p {
            seq!['['] + seq!['\n'] + items_fmt(a, p, bump(ind)) + seq!['\n'] + indent_seq(ind)
                + seq![']']
        } else {
            seq!['['] + items_fmt(a, p, bump(ind)) + seq![']']
        },
        JsonV::Obj(m) => if m.len() == 0 {
            seq!['{', '}']
        } else if p {
            seq!['{'] + seq!['\n'] + members_fmt(m, p, bump(ind)) + seq!['\n'] + indent_seq(ind)
                + seq!['}']
        } else {
            seq!['{'] + members_fmt(m, p, bump(ind)) + seq!['}']
        },
    }
}

/// Comma-separated element list; in pretty form each element sits on its
/// own indented line.
pub open spec fn items_fmt(a: Seq<JsonV>, p: bool, ind: int) -> Seq<char>
    decreases a, 0int,
{
    if a.len() == 0 {
        Seq::empty()
    } else {
        let last = (if p { indent_seq(ind) } else { Seq::empty() }) + json_text_fmt(
            a.last(), p, ind);
        if a.len() == 1 {
            last
        } else {
            items_fmt(a.drop_last(), p, ind) + seq![','] + (if p {
                seq!['\n']
            } else {
                Seq::empty()
            }) + last
        }
    }
}

/// One object member: quoted key, colon, value.
pub open spec fn member_fmt(kv: (Seq<char>, JsonV), p: bool, ind: int) -> Seq<char>
    decreases kv, 2int,
{
    str_text(kv.0) + seq![':'] + (if p { seq![' '] } else { Seq::empty() })
        + json_text_fmt(kv.1, p, ind)
}

pub open spec fn members_fmt(m: Seq<(Seq<char>, JsonV)>, p: bool, ind: int) -> Seq<char>
    decreases m, 0int,
{
    if m.len() == 0 {
        Seq::empty()
    } else {
        let last = (if p { indent_seq(ind) } else { Seq::empty() }) + member_fmt(m.last(), p, ind);
        if m.len() == 1 {
            last
        } else {
            members_fmt(m.drop_last(), p, ind) + seq![','] + (if p {
                seq!['\n']
            } else {
                Seq::empty()
            }) + last
        }
    }
}

/// Compact canonical text, as extraction and assertion messages use it.
pub open spec fn json_text(v: JsonV) -> Seq<char> {
    json_text_fmt(v, false, 0)
}

/// Pretty canonical text with two-space indentation.
pub open spec fn json_pretty(v: JsonV) -> Seq<char> {
    json_text_fmt(v, true, 0)
}

} // verus!
