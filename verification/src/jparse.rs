//! The JSON text grammar: a recursive-descent definition of parsing at
//! the specification level, an executable parser proved to implement it,
//! and lemmas giving well-formedness and a depth bound of every parse.
use vstd::prelude::*;
use crate::text::{is_blank, is_blank_x, is_digit_c, skip_blank, digits_val, chars_eq,
    str_to_chars, char_from_code};
use crate::json::{JsonV, Json, jview, view_seq, view_pairs, wf, wf_seq, wf_pairs,
    spec_depth, depth_seq, depth_pairs, digits_end, num_sp, num_ie, num_fe, num_es, num_ee,
    num_has_frac, num_has_exp, num_token_wf, lemma_view_pairs_len, lemma_view_pairs_index};

verus! {

broadcast use vstd::seq::group_seq_axioms, vstd::std_specs::vec::group_vec_axioms;

/// Nesting budget, matching the depth limit common to JSON readers.
pub open spec fn depth_budget() -> int {
    128int
}

/// The char with the given Unicode scalar value.
pub open spec fn char_of(n: int) -> char {
    choose|c: char| (#[trigger] (c as u32)) as int == n
}

/// Two chars with the same scalar value are the same char.
proof fn lemma_char_inj(c1: char, c2: char)
    requires
        c1 as u32 == c2 as u32,
    ensures
        c1 == c2,
{
}

/// A char witnesses its own scalar value.
proof fn lemma_char_exists(c: char, n: int)
    requires
        (c as u32) as int == n,
    ensures
        exists|cc: char| (#[trigger] (cc as u32)) as int == n,
        char_of(n) == c,
{
    assert((c as u32) as int == n);
    let w = char_of(n);
    assert((w as u32) as int == n);
    lemma_char_inj(c, w);
}

pub open spec fn is_hex_c(c: char) -> bool {
    is_digit_c(c) || ('a' <= c && c <= 'f') || ('A' <= c && c <= 'F')
}

pub open spec fn hex_val(c: char) -> int {
    if is_digit_c(c) {
        c as u32 as int - 48
    } else if 'a' <= c && c <= 'f' {
        c as u32 as int - 87
    } else {
        c as u32 as int - 55
    }
}

/// Value of the four hex digits at `i`, if they are all hex digits.
pub open spec fn hex4_at(s: Seq<char>, i: int) -> Option<int> {
    if 0 <= i && i + 4 <= s.len() && is_hex_c(s[i]) && is_hex_c(s[i + 1]) && is_hex_c(s[i + 2])
        && is_hex_c(s[i + 3]) {
        Some(hex_val(s[i]) * 4096 + hex_val(s[i + 1]) * 256 + hex_val(s[i + 2]) * 16 + hex_val(
            s[i + 3]))
    } else {
        None
    }
}

/// String body parse, starting just after the opening quote: the decoded
/// characters and the position after the closing quote.
pub open spec fn parse_string(s: Seq<char>, i: int) -> Option<(Seq<char>, int)>
    decreases s.len() - i,
{
    if !(0 <= i < s.len()) {
        None
    } else {
        let c = s[i];
        if c == '"' {
            Some((Seq::empty(), i + 1))
        } else if c == '\\' {
            if i + 1 >= s.len() {
                None
            } else {
                let e = s[i + 1];
                if e == 'u' {
                    match hex4_at(s, i + 2) {
                        Some(code) => {
                            if 0xD800 <= code < 0xDC00 {
                                // a high surrogate needs a low surrogate escape next
                                if i + 12 <= s.len() && s[i + 6] == '\\' && s[i + 7] == 'u' {
                                    match hex4_at(s, i + 8) {
                                        Some(low) => if 0xDC00 <= low < 0xE000 {
                                            let cp = 0x10000 + (code - 0xD800) * 0x400 + (low
                                                - 0xDC00);
                                            match parse_string(s, i + 12) {
                                                Some((t, j)) => Some((seq![char_of(cp)] + t, j)),
                                                None => None,
                                            }
                                        } else {
                                            None
                                        },
                                        None => None,
                                    }
                                } else {
                                    None
                                }
                            } else if 0xDC00 <= code < 0xE000 {
                                None
                            } else {
                                match parse_string(s, i + 6) {
                                    Some((t, j)) => Some((seq![char_of(code)] + t, j)),
                                    None => None,
                                }
                            }
                        },
                        None => None,
                    }
                } else {
                    let dec: Option<char> = if e == '"' { Some('"') }
                        else if e == '\\' { Some('\\') }
                        else if e == '/' { Some('/') }
                        else if e == 'b' { Some('\u{8}') }
                        else if e == 'f' { Some('\u{c}') }
                        else if e == 'n' { Some('\n') }
                        else if e == 'r' { Some('\r') }
                        else if e == 't' { Some('\t') }
                        else { None };
                    match dec {
                        Some(d) => match parse_string(s, i + 2) {
                            Some((t, j)) => Some((seq![d] + t, j)),
                            None => None,
                        },
                        None => None,
                    }
                }
            }
        } else if (c as u32) < 0x20 {
            None
        } else {
            match parse_string(s, i + 1) {
                Some((t, j)) => Some((seq![c] + t, j)),
                None => None,
            }
        }
    }
}

/// Number token parse at `i`: strict JSON grammar with an exponent of at
/// most 17 digits; yields the token and the position after it.
pub open spec fn parse_number(s: Seq<char>, i: int) -> Option<(JsonV, int)> {
    if !(0 <= i < s.len()) {
        None
    } else {
        let sp2 = if s[i] == '-' { i + 1 } else { i };
        if !(sp2 < s.len() && is_digit_c(s[sp2])) {
            None
        } else {
            let ie = if s[sp2] == '0' { sp2 + 1 } else { digits_end(s, sp2) };
            if s[sp2] == '0' && ie < s.len() && is_digit_c(s[ie]) {
                None
            } else if ie < s.len() && s[ie] == '.' {
                let fe = digits_end(s, ie + 1);
                if fe == ie + 1 {
                    None
                } else {
                    parse_number_exp(s, i, fe)
                }
            } else {
                parse_number_exp(s, i, ie)
            }
        }
    }
}

/// Optional exponent beginning at `fe`; finishes the token started at `i`.
pub open spec fn parse_number_exp(s: Seq<char>, i: int, fe: int) -> Option<(JsonV, int)> {
    if fe < s.len() && (s[fe] == 'e' || s[fe] == 'E') {
        let es = if fe + 1 < s.len() && (s[fe + 1] == '+' || s[fe + 1] == '-') {
            fe + 2
        } else {
            fe + 1
        };
        let ee = digits_end(s, es);
        if ee == es || ee - es > 17 {
            None
        } else {
            Some((JsonV::Num(s.subrange(i, ee)), ee))
        }
    } else {
        Some((JsonV::Num(s.subrange(i, fe)), fe))
    }
}

/// Index of the member of `m` holding `key`, or -1.
pub open spec fn find_key(m: Seq<(Seq<char>, JsonV)>, key: Seq<char>) -> int
    decreases m.len(),
{
    if m.len() == 0 {
        -1int
    } else if m[0].0 == key {
        0int
    } else {
        let r = find_key(m.skip(1), key);
        if r < 0 { -1int } else { r + 1 }
    }
}

/// Member insertion with the last value winning for a repeated key.
pub open spec fn obj_insert(m: Seq<(Seq<char>, JsonV)>, key: Seq<char>, v: JsonV) -> Seq<
    (Seq<char>, JsonV),
> {
    let idx = find_key(m, key);
    if idx >= 0 {
        m.update(idx, (key, v))
    } else {
        m.push((key, v))
    }
}

/// Value parse at `i` with nesting budget `d`: skips blanks, then
/// dispatches on the first character.
pub open spec fn parse_value(s: Seq<char>, i: int, d: int) -> Option<(JsonV, int)>
    decreases d, s.len() - i, 0int,
{
    let j = skip_blank(s, i);
    if !(0 <= i <= s.len()) || j >= s.len() {
        None
    } else {
        let c = s[j];
        if c == '{' {
            if d <= 0 {
                None
            } else {
                let k = skip_blank(s, j + 1);
                if !(j + 1 <= k <= s.len()) {
                    None
                } else if k < s.len() && s[k] == '}' {
                    Some((JsonV::Obj(Seq::empty()), k + 1))
                } else {
                    parse_members(s, k, d - 1, Seq::empty())
                }
            }
        } else if c == '[' {
            if d <= 0 {
                None
            } else {
                let k = skip_blank(s, j + 1);
                if !(j + 1 <= k <= s.len()) {
                    None
                } else if k < s.len() && s[k] == ']' {
                    Some((JsonV::Arr(Seq::empty()), k + 1))
                } else {
                    parse_elems(s, k, d - 1, Seq::empty())
                }
            }
        } else if c == '"' {
            match parse_string(s, j + 1) {
                Some((t, j2)) => Some((JsonV::Str(t), j2)),
                None => None,
            }
        } else if c == 't' {
            if j + 4 <= s.len() && s[j + 1] == 'r' && s[j + 2] == 'u' && s[j + 3] == 'e' {
                Some((JsonV::Bool(true), j + 4))
            } else {
                None
            }
        } else if c == 'f' {
            if j + 5 <= s.len() && s[j + 1] == 'a' && s[j + 2] == 'l' && s[j + 3] == 's'
                && s[j + 4] == 'e' {
                Some((JsonV::Bool(false), j + 5))
            } else {
                None
            }
        } else if c == 'n' {
            if j + 4 <= s.len() && s[j + 1] == 'u' && s[j + 2] == 'l' && s[j + 3] == 'l' {
                Some((JsonV::Null, j + 4))
            } else {
                None
            }
        } else if c == '-' || is_digit_c(c) {
            parse_number(s, j)
        } else {
            None
        }
    }
}

/// Non-empty element list of an array whose `[` was already consumed;
/// `i` points at the first element.
pub open spec fn parse_elems(s: Seq<char>, i: int, d: int, acc: Seq<JsonV>) -> Option<
    (JsonV, int),
>
    decreases d, s.len() - i, 1int,
{
    if !(0 <= i <= s.len()) {
        None
    } else {
        match parse_value(s, i, d) {
            Some((v, j)) => {
                if j <= i || j > s.len() {
                    None
                } else {
                    let k = skip_blank(s, j);
                    if !(j <= k <= s.len()) {
                        None
                    } else if k < s.len() && s[k] == ',' {
                        parse_elems(s, k + 1, d, acc.push(v))
                    } else if k < s.len() && s[k] == ']' {
                        Some((JsonV::Arr(acc.push(v)), k + 1))
                    } else {
                        None
                    }
                }
            },
            None => None,
        }
    }
}

/// Non-empty member list of an object whose `{` was already consumed;
/// `i` points at the first key's quote.
pub open spec fn parse_members(
    s: Seq<char>,
    i: int,
    d: int,
    acc: Seq<(Seq<char>, JsonV)>,
) -> Option<(JsonV, int)>
    decreases d, s.len() - i, 1int,
{
    if !(0 <= i <= s.len()) || !(i < s.len() && s[i] == '"') {
        None
    } else {
        match parse_string(s, i + 1) {
            Some((key, j)) => {
                if j <= i + 1 || j > s.len() {
                    None
                } else {
                    let k = skip_blank(s, j);
                    if !(j <= k && k < s.len() && s[k] == ':') {
                        None
                    } else {
                        match parse_value(s, k + 1, d) {
                            Some((v, j2)) => {
                                if j2 <= k || j2 > s.len() {
                                    None
                                } else {
                                    let acc2 = obj_insert(acc, key, v);
                                    let k2 = skip_blank(s, j2);
                                    if !(j2 <= k2 <= s.len()) {
                                        None
                                    } else if k2 < s.len() && s[k2] == ',' {
                                        let k3 = skip_blank(s, k2 + 1);
                                        if !(k2 + 1 <= k3 && k3 < s.len() && s[k3] == '"') {
                                            None
                                        } else {
                                            parse_members(s, k3, d, acc2)
                                        }
                                    } else if k2 < s.len() && s[k2] == '}' {
                                        Some((JsonV::Obj(acc2), k2 + 1))
                                    } else {
                                        None
                                    }
                                }
                            },
                            None => None,
                        }
                    }
                }
            },
            None => None,
        }
    }
}

/// A whole document: one value with nothing but blanks after it.
pub open spec fn spec_parse_json(s: Seq<char>) -> Option<JsonV> {
    match parse_value(s, 0, depth_budget()) {
        Some((v, j)) => if 0 <= j <= s.len() && skip_blank(s, j) == s.len() {
            Some(v)
        } else {
            None
        },
        None => None,
    }
}

// ------------------------------------------------------------------
// Scan helpers
// ------------------------------------------------------------------

/// Basic facts about a digit run.
pub proof fn lemma_digits_end_props(s: Seq<char>, i: int)
    requires
        0 <= i <= s.len(),
    ensures
        i <= digits_end(s, i) <= s.len(),
        forall|k: int| i <= k < digits_end(s, i) ==> is_digit_c(#[trigger] s[k]),
        digits_end(s, i) < s.len() ==> !is_digit_c(s[digits_end(s, i)]),
    decreases s.len() - i,
{
    if i < s.len() && is_digit_c(s[i]) {
        lemma_digits_end_props(s, i + 1);
    }
}

/// A digit run that ends within a window scans the same inside the window.
pub proof fn lemma_digits_end_sub(s: Seq<char>, lo: int, hi: int, x: int)
    requires
        0 <= lo <= hi <= s.len(),
        0 <= x <= hi - lo,
        digits_end(s, lo + x) <= hi,
    ensures
        digits_end(s.subrange(lo, hi), x) == digits_end(s, lo + x) - lo,
    decreases hi - lo - x,
{
    let t = s.subrange(lo, hi);
    lemma_digits_end_props(s, lo + x);
    if x < hi - lo && is_digit_c(t[x]) {
        assert(t[x] == s[lo + x]);
        lemma_digits_end_sub(s, lo, hi, x + 1);
    } else {
        if x < hi - lo {
            assert(t[x] == s[lo + x]);
            assert(!is_digit_c(s[lo + x]));
        }
    }
}

fn sw_x(v: &Vec<char>, i: usize) -> (r: usize)
    requires
        i <= v@.len(),
    ensures
        r as int == skip_blank(v@, i as int),
        i <= r <= v@.len(),
{
    let n: usize = v.len();
    let mut p: usize = i;
    while p < n && is_blank_x(v[p])
        invariant
            i <= p <= n,
            n == v@.len(),
            skip_blank(v@, i as int) == skip_blank(v@, p as int),
        decreases n - p,
    {
        p = p + 1;
    }
    p
}

pub fn digits_run_pub(v: &Vec<char>, i: usize) -> (r: usize)
    requires
        i <= v@.len(),
    ensures
        r as int == digits_end(v@, i as int),
        i <= r <= v@.len(),
{
    let n: usize = v.len();
    let mut p: usize = i;
    while p < n && v[p] >= '0' && v[p] <= '9'
        invariant
            i <= p <= n,
            n == v@.len(),
            digits_end(v@, i as int) == digits_end(v@, p as int),
        decreases n - p,
    {
        p = p + 1;
    }
    p
}

fn hex_of(c: char) -> (r: Option<u32>)
    ensures
        is_hex_c(c) ==> r == Some(hex_val(c) as u32) && hex_val(c) < 16,
        !is_hex_c(c) ==> r is None,
{
    if c >= '0' && c <= '9' {
        Some(c as u32 - 48)
    } else if c >= 'a' && c <= 'f' {
        Some(c as u32 - 87)
    } else if c >= 'A' && c <= 'F' {
        Some(c as u32 - 55)
    } else {
        None
    }
}

fn p_hex4(v: &Vec<char>, i: usize) -> (r: Option<u32>)
    requires
        i <= v@.len(),
    ensures
        match r {
            Some(x) => hex4_at(v@, i as int) == Some(x as int) && x < 0x10000,
            None => hex4_at(v@, i as int) is None,
        },
{
    let n: usize = v.len();
    if n - i < 4 {
        return None;
    }
    let h0 = hex_of(v[i]);
    let h1 = hex_of(v[i + 1]);
    let h2 = hex_of(v[i + 2]);
    let h3 = hex_of(v[i + 3]);
    match (h0, h1, h2, h3) {
        (Some(a), Some(b), Some(c), Some(d)) => Some(a * 4096 + b * 256 + c * 16 + d),
        _ => None,
    }
}

// ------------------------------------------------------------------
// Executable parser
// ------------------------------------------------------------------

/// The char for a known-valid scalar value.
fn scalar_char(code: u32) -> (ch: char)
    requires
        code < 0xD800 || (0xE000 <= code && code <= 0x10FFFF),
    ensures
        ch == char_of(code as int),
        ch as u32 == code,
{
    let cho = char_from_code(code);
    proof {
        assert(cho is Some);
    }
    let ch = cho.unwrap();
    proof {
        assert(ch as u32 == code);
        lemma_char_exists(ch, code as int);
    }
    ch
}

fn p_string(v: &Vec<char>, i: usize) -> (r: Option<(Vec<char>, usize)>)
    requires
        i <= v@.len(),
    ensures
        match r {
            Some(p) => parse_string(v@, i as int) == Some((p.0@, p.1 as int)) && i < p.1
                <= v@.len(),
            None => parse_string(v@, i as int) is None,
        },
    decreases v@.len() - i,
{
    let n: usize = v.len();
    if i >= n {
        return None;
    }
    let c = v[i];
    if c == '"' {
        let t: Vec<char> = Vec::new();
        assert(t@ =~= Seq::<char>::empty());
        return Some((t, i + 1));
    }
    if c == '\\' {
        if n - i < 2 {
            return None;
        }
        let e = v[i + 1];
        if e == 'u' {
            match p_hex4(v, i + 2) {
                Some(code) => {
                    if 0xD800 <= code && code < 0xDC00 {
                        if n - i >= 12 && v[i + 6] == '\\' && v[i + 7] == 'u' {
                            match p_hex4(v, i + 8) {
                                Some(low) => {
                                    if 0xDC00 <= low && low < 0xE000 {
                                        let cp: u32 = 0x10000 + (code - 0xD800) * 0x400 + (low
                                            - 0xDC00);
                                        let ch = scalar_char(cp);
                                        match p_string(v, i + 12) {
                                            Some((t, j)) => {
                                                let mut t = t;
                                                let mut t2: Vec<char> = Vec::new();
                                                t2.push(ch);
                                                t2.append(&mut t);
                                                assert(t2@ =~= seq![ch] + t2@.skip(1));
                                                Some((t2, j))
                                            },
                                            None => None,
                                        }
                                    } else {
                                        None
                                    }
                                },
                                None => None,
                            }
                        } else {
                            None
                        }
                    } else if 0xDC00 <= code && code < 0xE000 {
                        None
                    } else {
                        let ch = scalar_char(code);
                        match p_string(v, i + 6) {
                            Some((t, j)) => {
                                let mut t = t;
                                let mut t2: Vec<char> = Vec::new();
                                t2.push(ch);
                                t2.append(&mut t);
                                assert(t2@ =~= seq![ch] + t2@.skip(1));
                                Some((t2, j))
                            },
                            None => None,
                        }
                    }
                },
                None => None,
            }
        } else {
            let dec: Option<char> = if e == '"' { Some('"') }
                else if e == '\\' { Some('\\') }
                else if e == '/' { Some('/') }
                else if e == 'b' { Some('\u{8}') }
                else if e == 'f' { Some('\u{c}') }
                else if e == 'n' { Some('\n') }
                else if e == 'r' { Some('\r') }
                else if e == 't' { Some('\t') }
                else { None };
            match dec {
                Some(d) => match p_string(v, i + 2) {
                    Some((t, j)) => {
                        let mut t = t;
                        let mut t2: Vec<char> = Vec::new();
                        t2.push(d);
                        t2.append(&mut t);
                        assert(t2@ =~= seq![d] + t2@.skip(1));
                        Some((t2, j))
                    },
                    None => None,
                },
                None => None,
            }
        }
    } else if (c as u32) < 0x20 {
        None
    } else {
        match p_string(v, i + 1) {
            Some((t, j)) => {
                let mut t = t;
                let mut t2: Vec<char> = Vec::new();
                t2.push(c);
                t2.append(&mut t);
                assert(t2@ =~= seq![c] + t2@.skip(1));
                Some((t2, j))
            },
            None => None,
        }
    }
}

fn copy_range(v: &Vec<char>, from: usize, to: usize) -> (r: Vec<char>)
    requires
        from <= to <= v@.len(),
    ensures
        r@ == v@.subrange(from as int, to as int),
{
    let mut r: Vec<char> = Vec::new();
    let mut i: usize = from;
    assert(r@ =~= v@.subrange(from as int, from as int));
    while i < to
        invariant
            from <= i <= to <= v@.len(),
            r@ == v@.subrange(from as int, i as int),
        decreases to - i,
    {
        r.push(v[i]);
        i = i + 1;
        assert(r@ =~= v@.subrange(from as int, i as int));
    }
    r
}

fn p_number(v: &Vec<char>, i: usize) -> (r: Option<(Json, usize)>)
    requires
        i < v@.len(),
    ensures
        match r {
            Some(p) => parse_number(v@, i as int) == Some((p.0@, p.1 as int)) && i < p.1
                <= v@.len(),
            None => parse_number(v@, i as int) is None,
        },
{
    let n: usize = v.len();
    let sp2: usize = if v[i] == '-' { i + 1 } else { i };
    if !(sp2 < n && v[sp2] >= '0' && v[sp2] <= '9') {
        return None;
    }
    let ie: usize = if v[sp2] == '0' { sp2 + 1 } else { digits_run_pub(v, sp2) };
    proof {
        lemma_digits_end_props(v@, sp2 as int);
        if v@[sp2 as int] != '0' {
            lemma_digits_end_props(v@, sp2 + 1);
            assert(digits_end(v@, sp2 as int) == digits_end(v@, sp2 + 1));
        }
        assert(sp2 < ie);
    }
    if v[sp2] == '0' && ie < n && v[ie] >= '0' && v[ie] <= '9' {
        return None;
    }
    let fe: usize;
    if ie < n && v[ie] == '.' {
        let fe0 = digits_run_pub(v, ie + 1);
        if fe0 == ie + 1 {
            return None;
        }
        fe = fe0;
    } else {
        fe = ie;
    }
    proof {
        if ie < v@.len() && v@[ie as int] == '.' {
            lemma_digits_end_props(v@, ie + 1);
        }
        assert(i < fe);
    }
    // optional exponent
    if fe < n && (v[fe] == 'e' || v[fe] == 'E') {
        let es: usize = if fe + 1 < n && (v[fe + 1] == '+' || v[fe + 1] == '-') {
            fe + 2
        } else {
            fe + 1
        };
        let ee = digits_run_pub(v, es);
        if ee == es || ee - es > 17 {
            return None;
        }
        let t = copy_range(v, i, ee);
        Some((Json::Num(t), ee))
    } else {
        let t = copy_range(v, i, fe);
        Some((Json::Num(t), fe))
    }
}

fn p_value(v: &Vec<char>, i: usize, d: u32) -> (r: Option<(Json, usize)>)
    requires
        i <= v@.len(),
    ensures
        match r {
            Some(p) => parse_value(v@, i as int, d as int) == Some((p.0@, p.1 as int)) && i < p.1
                <= v@.len(),
            None => parse_value(v@, i as int, d as int) is None,
        },
    decreases d, v@.len() - i, 0int,
{
    let n: usize = v.len();
    let j = sw_x(v, i);
    if j >= n {
        return None;
    }
    let c = v[j];
    if c == '{' {
        if d == 0 {
            return None;
        }
        let k = sw_x(v, j + 1);
        if k < n && v[k] == '}' {
            let m: Vec<(Vec<char>, Json)> = Vec::new();
            assert(view_pairs(m@) =~= Seq::<(Seq<char>, JsonV)>::empty());
            Some((Json::Obj(m), k + 1))
        } else {
            let acc: Vec<(Vec<char>, Json)> = Vec::new();
            assert(view_pairs(acc@) =~= Seq::<(Seq<char>, JsonV)>::empty());
            p_members(v, k, d - 1, acc)
        }
    } else if c == '[' {
        if d == 0 {
            return None;
        }
        let k = sw_x(v, j + 1);
        if k < n && v[k] == ']' {
            let a: Vec<Json> = Vec::new();
            assert(view_seq(a@) =~= Seq::<JsonV>::empty());
            Some((Json::Arr(a), k + 1))
        } else {
            let acc: Vec<Json> = Vec::new();
            assert(view_seq(acc@) =~= Seq::<JsonV>::empty());
            p_elems(v, k, d - 1, acc)
        }
    } else if c == '"' {
        match p_string(v, j + 1) {
            Some((t, j2)) => Some((Json::Str(t), j2)),
            None => None,
        }
    } else if c == 't' {
        if n - j >= 4 && v[j + 1] == 'r' && v[j + 2] == 'u' && v[j + 3] == 'e' {
            Some((Json::Bool(true), j + 4))
        } else {
            None
        }
    } else if c == 'f' {
        if n - j >= 5 && v[j + 1] == 'a' && v[j + 2] == 'l' && v[j + 3] == 's' && v[j + 4] == 'e' {
            Some((Json::Bool(false), j + 5))
        } else {
            None
        }
    } else if c == 'n' {
        if n - j >= 4 && v[j + 1] == 'u' && v[j + 2] == 'l' && v[j + 3] == 'l' {
            Some((Json::Null, j + 4))
        } else {
            None
        }
    } else if c == '-' || (c >= '0' && c <= '9') {
        p_number(v, j)
    } else {
        None
    }
}

fn p_elems(v: &Vec<char>, i: usize, d: u32, acc: Vec<Json>) -> (r: Option<(Json, usize)>)
    requires
        i <= v@.len(),
    ensures
        match r {
            Some(p) => parse_elems(v@, i as int, d as int, view_seq(acc@)) == Some(
                (p.0@, p.1 as int),
            ) && i < p.1 <= v@.len(),
            None => parse_elems(v@, i as int, d as int, view_seq(acc@)) is None,
        },
    decreases d, v@.len() - i, 1int,
{
    let n: usize = v.len();
    match p_value(v, i, d) {
        Some((e, j)) => {
            let k = sw_x(v, j);
            let ghost va = view_seq(acc@);
            let mut acc = acc;
            let ghost accs = acc@;
            acc.push(e);
            proof {
                assert(acc@.drop_last() =~= accs);
                assert(view_seq(acc@) =~= va.push(e@));
            }
            if k < n && v[k] == ',' {
                p_elems(v, k + 1, d, acc)
            } else if k < n && v[k] == ']' {
                Some((Json::Arr(acc), k + 1))
            } else {
                None
            }
        },
        None => None,
    }
}

pub fn obj_insert_x(m: Vec<(Vec<char>, Json)>, key: Vec<char>, val: Json) -> (r: Vec<
    (Vec<char>, Json),
>)
    ensures
        view_pairs(r@) == obj_insert(view_pairs(m@), key@, jview(val)),
{
    broadcast use lemma_view_pairs_len, lemma_view_pairs_index;

    let ghost vm = view_pairs(m@);
    proof {
        lemma_find_key_first(vm, key@);
    }
    let n: usize = m.len();
    let mut idx: usize = 0;
    while idx < n
        invariant
            n == m@.len(),
            idx <= n,
            vm == view_pairs(m@),
            vm.len() == n,
            forall|k: int| 0 <= k < idx ==> (#[trigger] vm[k]).0 != key@,
        decreases n - idx,
    {
        let same = chars_eq(&m[idx].0, &key);
        proof {
            lemma_view_pairs_index(m@, idx as int);
            lemma_find_key_first(vm, key@);
        }
        if same {
            assert(vm[idx as int].0 == key@);
            proof {
                let fk = find_key(vm, key@);
                assert(fk != -1) by {
                    if fk == -1 {
                        assert(vm[idx as int].0 != key@);
                    }
                }
                assert(!(fk < (idx as int))) by {
                    if 0 <= fk && fk < (idx as int) {
                        assert(vm[fk].0 != key@);
                    }
                }
                assert(!((idx as int) < fk)) by {
                    if (idx as int) < fk {
                        assert(vm[idx as int].0 != key@);
                    }
                }
                assert(fk == idx as int);
            }
            let ghost keyg = key;
            let ghost valg = val;
            let mut m = m;
            let ghost ms0 = m@;
            m.remove(idx);
            m.insert(idx, (key, val));
            proof {
                assert(m@ =~= ms0.update(idx as int, (keyg, valg)));
                lemma_view_pairs_len(m@);
                lemma_view_pairs_len(ms0);
                assert forall|k: int| 0 <= k < m@.len() implies #[trigger] view_pairs(m@)[k] == (
                    m@[k].0@,
                    jview(m@[k].1),
                ) by {
                    lemma_view_pairs_index(m@, k);
                }
                assert forall|k: int| 0 <= k < ms0.len() implies #[trigger] vm[k] == (
                    ms0[k].0@,
                    jview(ms0[k].1),
                ) by {
                    lemma_view_pairs_index(ms0, k);
                }
                assert(view_pairs(m@) =~= vm.update(idx as int, (keyg@, jview(valg))));
            }
            return m;
        }
        idx = idx + 1;
    }
    proof {
        lemma_find_key_first(vm, key@);
        if find_key(vm, key@) >= 0 {
            assert(vm[find_key(vm, key@)].0 == key@);
        }
        assert(find_key(vm, key@) == -1);
    }
    let ghost keyg = key;
    let ghost valg = val;
    let mut m = m;
    let ghost ms = m@;
    m.push((key, val));
    proof {
        assert(m@.drop_last() =~= ms);
        assert(m@.last() == (keyg, valg));
        assert(view_pairs(m@) =~= vm.push((keyg@, jview(valg))));
    }
    m
}

/// `find_key` names the first member with the key, or -1 when none has it.
pub proof fn lemma_find_key_first(m: Seq<(Seq<char>, JsonV)>, key: Seq<char>)
    ensures
        find_key(m, key) == -1 ==> forall|k: int| 0 <= k < m.len() ==> (#[trigger] m[k]).0 != key,
        find_key(m, key) >= 0 ==> 0 <= find_key(m, key) < m.len() && m[find_key(m, key)].0 == key
            && forall|k: int| 0 <= k < find_key(m, key) ==> (#[trigger] m[k]).0 != key,
    decreases m.len(),
{
    if m.len() > 0 && m[0].0 != key {
        lemma_find_key_first(m.skip(1), key);
        assert(forall|k: int| 1 <= k < m.len() ==> (#[trigger] m[k]) == m.skip(1)[k - 1]);
    }
}

fn p_members(v: &Vec<char>, i: usize, d: u32, acc: Vec<(Vec<char>, Json)>) -> (r: Option<
    (Json, usize),
>)
    requires
        i <= v@.len(),
    ensures
        match r {
            Some(p) => parse_members(v@, i as int, d as int, view_pairs(acc@)) == Some(
                (p.0@, p.1 as int),
            ) && i < p.1 <= v@.len(),
            None => parse_members(v@, i as int, d as int, view_pairs(acc@)) is None,
        },
    decreases d, v@.len() - i, 1int,
{
    let n: usize = v.len();
    if !(i < n && v[i] == '"') {
        return None;
    }
    match p_string(v, i + 1) {
        Some((key, j)) => {
            let k = sw_x(v, j);
            if !(k < n && v[k] == ':') {
                return None;
            }
            match p_value(v, k + 1, d) {
                Some((val, j2)) => {
                    let ghost va = view_pairs(acc@);
                    let ghost keyv = key@;
                    let ghost valv = val@;
                    let acc2 = obj_insert_x(acc, key, val);
                    let k2 = sw_x(v, j2);
                    if k2 < n && v[k2] == ',' {
                        let k3 = sw_x(v, k2 + 1);
                        if k3 < n && v[k3] == '"' {
                            p_members(v, k3, d, acc2)
                        } else {
                            None
                        }
                    } else if k2 < n && v[k2] == '}' {
                        Some((Json::Obj(acc2), k2 + 1))
                    } else {
                        None
                    }
                },
                None => None,
            }
        },
        None => None,
    }
}

pub fn parse_json_chars(v: &Vec<char>) -> (r: Option<Json>)
    ensures
        match r {
            Some(j) => spec_parse_json(v@) == Some(j@) && wf(j@) && spec_depth(j@)
                <= depth_budget() + 1,
            None => spec_parse_json(v@) is None,
        },
{
    match p_value(v, 0, 128) {
        Some((jv, j)) => {
            let k = sw_x(v, j);
            if k == v.len() {
                proof {
                    lemma_pv_wf(v@, 0, 128);
                }
                Some(jv)
            } else {
                None
            }
        },
        None => None,
    }
}

/// Parse a document given as a string slice.
pub fn parse_json_str(s: &str) -> (r: Option<Json>)
    ensures
        match r {
            Some(j) => spec_parse_json(s@) == Some(j@) && wf(j@) && spec_depth(j@)
                <= depth_budget() + 1,
            None => spec_parse_json(s@) is None,
        },
{
    let v = str_to_chars(s);
    parse_json_chars(&v)
}

// ------------------------------------------------------------------
// Every parse is well formed and of bounded depth
// ------------------------------------------------------------------

/// Flat form of array well-formedness.
pub proof fn lemma_wf_seq_alt(a: Seq<JsonV>)
    ensures
        wf_seq(a) <==> (forall|i: int| 0 <= i < a.len() ==> wf(#[trigger] a[i])),
    decreases a,
{
    if a.len() > 0 {
        lemma_wf_seq_alt(a.drop_last());
        assert(forall|i: int| 0 <= i < a.len() - 1 ==> #[trigger] a[i] == a.drop_last()[i]);
        assert(a.last() == a[a.len() - 1]);
    }
}

/// Flat form of object well-formedness.
pub proof fn lemma_wf_pairs_alt(m: Seq<(Seq<char>, JsonV)>)
    ensures
        wf_pairs(m) <==> ((forall|i: int| 0 <= i < m.len() ==> wf((#[trigger] m[i]).1)) && (forall|
            i: int,
            j: int,
        | 0 <= i < j < m.len() ==> m[i].0 != m[j].0)),
    decreases m,
{
    if m.len() > 0 {
        lemma_wf_pairs_alt(m.drop_last());
        assert(forall|i: int| 0 <= i < m.len() - 1 ==> #[trigger] m[i] == m.drop_last()[i]);
        assert(m.last() == m[m.len() - 1]);
    }
}

/// An array is no deeper than a bound its elements all meet.
pub proof fn lemma_depth_seq_bound(a: Seq<JsonV>, bound: int)
    requires
        bound >= 0,
        forall|i: int| 0 <= i < a.len() ==> spec_depth(#[trigger] a[i]) <= bound,
    ensures
        0 <= depth_seq(a) <= bound,
    decreases a,
{
    if a.len() > 0 {
        assert(forall|i: int| 0 <= i < a.len() - 1 ==> #[trigger] a.drop_last()[i] == a[i]);
        lemma_depth_seq_bound(a.drop_last(), bound);
        assert(a.last() == a[a.len() - 1]);
    }
}

pub proof fn lemma_depth_pairs_bound(m: Seq<(Seq<char>, JsonV)>, bound: int)
    requires
        bound >= 0,
        forall|i: int| 0 <= i < m.len() ==> spec_depth((#[trigger] m[i]).1) <= bound,
    ensures
        0 <= depth_pairs(m) <= bound,
    decreases m,
{
    if m.len() > 0 {
        assert(forall|i: int| 0 <= i < m.len() - 1 ==> #[trigger] m.drop_last()[i] == m[i]);
        lemma_depth_pairs_bound(m.drop_last(), bound);
        assert(m.last() == m[m.len() - 1]);
    }
}

/// Insertion keeps well-formedness and any depth bound of the members.
pub proof fn lemma_obj_insert_wf(m: Seq<(Seq<char>, JsonV)>, key: Seq<char>, v: JsonV, bound: int)
    requires
        wf_pairs(m),
        wf(v),
        bound >= 0,
        spec_depth(v) <= bound,
        forall|i: int| 0 <= i < m.len() ==> spec_depth((#[trigger] m[i]).1) <= bound,
    ensures
        wf_pairs(obj_insert(m, key, v)),
        forall|i: int|
            0 <= i < obj_insert(m, key, v).len() ==> spec_depth(
                (#[trigger] obj_insert(m, key, v)[i]).1,
            ) <= bound,
        obj_insert(m, key, v).len() <= m.len() + 1,
{
    let r = obj_insert(m, key, v);
    lemma_find_key_first(m, key);
    lemma_wf_pairs_alt(m);
    lemma_wf_pairs_alt(r);
    let idx = find_key(m, key);
    if idx >= 0 {
        assert(forall|i: int| 0 <= i < r.len() && i != idx ==> #[trigger] r[i] == m[i]);
        assert(r[idx] == (key, v));
        assert(forall|i: int, j: int| 0 <= i < j < r.len() ==> r[i].0 != r[j].0) by {
            assert(forall|i: int| 0 <= i < r.len() ==> (#[trigger] r[i]).0 == m[i].0);
        }
    } else {
        assert(forall|i: int| 0 <= i < m.len() ==> #[trigger] r[i] == m[i]);
        assert(r[m.len() as int] == (key, v));
    }
}

/// A parsed value is well formed, one deeper than its budget at most.
pub proof fn lemma_pv_wf(s: Seq<char>, i: int, d: int)
    requires
        d >= 0,
    ensures
        match parse_value(s, i, d) {
            Some(p) => wf(p.0) && spec_depth(p.0) <= d + 1,
            None => true,
        },
    decreases d, s.len() - i, 0int,
{
    let j = skip_blank(s, i);
    if 0 <= i <= s.len() && j < s.len() {
        let c = s[j];
        if c == '{' {
            if d > 0 {
                let k = skip_blank(s, j + 1);
                if j + 1 <= k <= s.len() {
                    if !(k < s.len() && s[k] == '}') {
                        lemma_pm_wf(s, k, d - 1, Seq::empty());
                    }
                }
            }
        } else if c == '[' {
            if d > 0 {
                let k = skip_blank(s, j + 1);
                if j + 1 <= k <= s.len() {
                    if !(k < s.len() && s[k] == ']') {
                        lemma_pe_wf(s, k, d - 1, Seq::empty());
                    }
                }
            }
        } else if c == '-' || is_digit_c(c) {
            lemma_parse_number_wf(s, j);
        }
    }
}

pub proof fn lemma_pe_wf(s: Seq<char>, i: int, d: int, acc: Seq<JsonV>)
    requires
        d >= 0,
        wf_seq(acc),
        forall|x: int| 0 <= x < acc.len() ==> spec_depth(#[trigger] acc[x]) <= d + 1,
    ensures
        match parse_elems(s, i, d, acc) {
            Some(p) => wf(p.0) && spec_depth(p.0) <= d + 2,
            None => true,
        },
    decreases d, s.len() - i, 1int,
{
    if 0 <= i <= s.len() {
        lemma_pv_wf(s, i, d);
        match parse_value(s, i, d) {
            Some((v, j)) => {
                if i < j <= s.len() {
                    let k = skip_blank(s, j);
                    if j <= k <= s.len() {
                        let acc2 = acc.push(v);
                        lemma_wf_seq_alt(acc);
                        lemma_wf_seq_alt(acc2);
                        assert(forall|x: int| 0 <= x < acc.len() ==> #[trigger] acc2[x] == acc[x]);
                        assert(acc2[acc.len() as int] == v);
                        if k < s.len() && s[k] == ',' {
                            lemma_pe_wf(s, k + 1, d, acc2);
                        } else if k < s.len() && s[k] == ']' {
                            lemma_depth_seq_bound(acc2, d + 1);
                        }
                    }
                }
            },
            None => {},
        }
    }
}

pub proof fn lemma_pm_wf(s: Seq<char>, i: int, d: int, acc: Seq<(Seq<char>, JsonV)>)
    requires
        d >= 0,
        wf_pairs(acc),
        forall|x: int| 0 <= x < acc.len() ==> spec_depth((#[trigger] acc[x]).1) <= d + 1,
    ensures
        match parse_members(s, i, d, acc) {
            Some(p) => wf(p.0) && spec_depth(p.0) <= d + 2,
            None => true,
        },
    decreases d, s.len() - i, 1int,
{
    if 0 <= i < s.len() && s[i] == '"' {
        match parse_string(s, i + 1) {
            Some((key, j)) => {
                if i + 1 < j <= s.len() {
                    let k = skip_blank(s, j);
                    if j <= k && k < s.len() && s[k] == ':' {
                        lemma_pv_wf(s, k + 1, d);
                        match parse_value(s, k + 1, d) {
                            Some((v, j2)) => {
                                if k < j2 <= s.len() {
                                    let acc2 = obj_insert(acc, key, v);
                                    lemma_obj_insert_wf(acc, key, v, d + 1);
                                    let k2 = skip_blank(s, j2);
                                    if j2 <= k2 <= s.len() {
                                        if k2 < s.len() && s[k2] == ',' {
                                            let k3 = skip_blank(s, k2 + 1);
                                            if k2 + 1 <= k3 && k3 < s.len() && s[k3] == '"' {
                                                lemma_pm_wf(s, k3, d, acc2);
                                            }
                                        } else if k2 < s.len() && s[k2] == '}' {
                                            lemma_depth_pairs_bound(acc2, d + 1);
                                        }
                                    }
                                }
                            },
                            None => {},
                        }
                    }
                }
            },
            None => {},
        }
    }
}

/// A number token coming out of the grammar has the stored shape.
pub proof fn lemma_parse_number_wf(s: Seq<char>, i: int)
    ensures
        match parse_number(s, i) {
            Some(p) => wf(p.0) && spec_depth(p.0) == 0,
            None => true,
        },
{
    if 0 <= i < s.len() {
        let sp2 = if s[i] == '-' { i + 1 } else { i };
        if sp2 < s.len() && is_digit_c(s[sp2]) {
            lemma_digits_end_props(s, sp2);
            let ie = if s[sp2] == '0' { sp2 + 1 } else { digits_end(s, sp2) };
            if !(s[sp2] == '0' && ie < s.len() && is_digit_c(s[ie])) {
                if ie < s.len() && s[ie] == '.' {
                    lemma_digits_end_props(s, ie + 1);
                    let fe = digits_end(s, ie + 1);
                    if fe != ie + 1 {
                        lemma_parse_number_exp_wf(s, i, fe);
                    }
                } else {
                    lemma_parse_number_exp_wf(s, i, ie);
                }
            }
        }
    }
}

proof fn lemma_parse_number_exp_wf(s: Seq<char>, i: int, fe: int)
    requires
        parse_number(s, i) == parse_number_exp(s, i, fe),
        0 <= i < s.len(),
        i <= fe <= s.len(),
        ({
            let sp2 = if s[i] == '-' { i + 1 } else { i };
            &&& sp2 < s.len() && is_digit_c(s[sp2])
            &&& {
                let ie = if s[sp2] == '0' { sp2 + 1 } else { digits_end(s, sp2) };
                &&& ie == (if s[sp2] == '0' { sp2 + 1 } else { digits_end(s, sp2) })
                &&& !(s[sp2] == '0' && ie < s.len() && is_digit_c(s[ie]))
                &&& (if ie < s.len() && s[ie] == '.' {
                    fe == digits_end(s, ie + 1) && fe > ie + 1
                } else {
                    fe == ie
                })
            }
        }),
    ensures
        match parse_number_exp(s, i, fe) {
            Some(p) => wf(p.0) && spec_depth(p.0) == 0,
            None => true,
        },
{
    let sp2 = if s[i] == '-' { i + 1 } else { i };
    let ie = if s[sp2] == '0' { sp2 + 1 } else { digits_end(s, sp2) };
    lemma_digits_end_props(s, sp2);
    let has_e = fe < s.len() && (s[fe] == 'e' || s[fe] == 'E');
    let es = if has_e {
        if fe + 1 < s.len() && (s[fe + 1] == '+' || s[fe + 1] == '-') { fe + 2 } else { fe + 1 }
    } else {
        fe
    };
    let ee = digits_end(s, es);
    lemma_digits_end_props(s, es);
    let end = if has_e { ee } else { fe };
    if has_e && (ee == es || ee - es > 17) {
    } else {
        let t = s.subrange(i, end);
        // the sign
        assert(t[0] == s[i]);
        assert(num_sp(t) == sp2 - i);
        // the integer digit run
        assert(digits_end(s, sp2) <= end) by {
            if s[sp2] == '0' {
                lemma_digits_end_props(s, sp2 + 1);
            }
        }
        assert(digits_end(s, sp2) == ie) by {
            if s[sp2] == '0' {
                if sp2 + 1 < s.len() && is_digit_c(s[sp2 + 1]) {
                    assert(!(s[sp2] == '0' && ie < s.len() && is_digit_c(s[ie])));
                    assert(false);
                }
                lemma_digits_end_props(s, sp2 + 1);
            }
        }
        lemma_digits_end_sub(s, i, end, sp2 - i);
        assert(num_ie(t) == ie - i);
        // the fraction
        if ie < s.len() && s[ie] == '.' {
            assert(ie < end);
            assert(t[ie - i] == s[ie]);
            assert(num_has_frac(t));
            lemma_digits_end_props(s, ie + 1);
            lemma_digits_end_sub(s, i, end, ie + 1 - i);
            assert(num_fe(t) == fe - i);
        } else {
            assert(num_ie(t) == ie - i);
            if ie - i < t.len() {
                assert(t[ie - i] == s[ie]);
            }
            assert(!num_has_frac(t));
            assert(num_fe(t) == ie - i);
        }
        // the exponent
        if has_e {
            assert(t[fe - i] == s[fe]);
            assert(num_has_exp(t));
            if fe + 1 < end {
                assert(t[fe + 1 - i] == s[fe + 1]);
            }
            assert(num_es(t) == es - i);
            lemma_digits_end_sub(s, i, end, es - i);
            assert(num_ee(t) == ee - i);
            assert(num_token_wf(t));
        } else {
            if fe - i < t.len() {
                assert(t[fe - i] == s[fe]);
            }
            assert(!num_has_exp(t));
            assert(num_token_wf(t));
        }
    }
}

} // verus!
