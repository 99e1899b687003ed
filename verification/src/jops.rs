//! Executable operations on JSON values: structural equality with
//! numbers compared by value, nesting depth, and rendering to canonical
//! compact or pretty text.
use vstd::prelude::*;
use crate::text::{is_digit_c, digit_char, digits_val, all_digits, chars_eq, parse_magnitude,
    lemma_digits_val_nonneg};
use crate::json::{Json, JsonV, jview, view_seq, view_pairs, wf, wf_seq, wf_pairs, spec_depth,
    depth_seq, depth_pairs, spec_json_eq, eq_seq, eq_pairs, num_norm, num_token_wf, num_sp,
    num_ie, num_fe, num_es, num_ee, num_has_frac, num_has_exp, num_frac_len, num_exp_val,
    num_mantissa, zeros_end, zeros_back, digits_end, esc_char, esc_seq, str_text, json_text_fmt,
    items_fmt, members_fmt, member_fmt, indent_seq, bump, json_text, json_pretty, spec_type_name,
    hex_digit, lemma_view_seq_len, lemma_view_seq_index, lemma_view_pairs_len,
    lemma_view_pairs_index, lemma_wf_seq_index, lemma_wf_pairs_index, lemma_wf_pairs_distinct};
use crate::jparse::lemma_digits_end_props;

verus! {

broadcast use vstd::seq::group_seq_axioms, vstd::std_specs::vec::group_vec_axioms;

pub open spec fn pow10(k: nat) -> int
    decreases k,
{
    if k == 0 {
        1int
    } else {
        10 * pow10((k - 1) as nat)
    }
}

proof fn lemma_digits_val_bound(s: Seq<char>)
    requires
        all_digits(s),
    ensures
        0 <= digits_val(s) < pow10(s.len()),
    decreases s.len(),
{
    if s.len() > 0 {
        assert(all_digits(s.drop_last())) by {
            assert(forall|i: int| 0 <= i < s.len() - 1 ==> s.drop_last()[i] == s[i]);
        }
        lemma_digits_val_bound(s.drop_last());
        let p = pow10((s.len() - 1) as nat);
        let v = digits_val(s.drop_last());
        assert(v * 10 <= (p - 1) * 10) by (nonlinear_arith)
            requires
                v <= p - 1;
    }
}

proof fn lemma_pow10_mono(a: nat, b: nat)
    requires
        a <= b,
    ensures
        pow10(a) <= pow10(b),
        pow10(a) >= 1,
    decreases b,
{
    if a == b {
        if a > 0 {
            lemma_pow10_mono((a - 1) as nat, (a - 1) as nat);
        }
    } else {
        lemma_pow10_mono(a, (b - 1) as nat);
    }
}

proof fn lemma_pow10_17()
    ensures
        pow10(17) == 0x16345785D8A0000,
{
    reveal_with_fuel(pow10, 20);
}

/// Normal form of a well-shaped number token, as executable data.
#[verifier::loop_isolation(false)]
#[verifier::rlimit(100)]
fn num_norm_x(t: &Vec<char>) -> (r: (bool, Vec<char>, i128))
    requires
        num_token_wf(t@),
    ensures
        (r.0, r.1@, r.2 as int) == num_norm(t@),
{
    let n: usize = t.len();
    proof {
        if n == 0 {
            assert(digits_end(t@, 0) == 0);
            assert(false);
        }
    }
    let sp: usize = if t[0] == '-' { 1 } else { 0 };
    assert(sp as int == num_sp(t@));
    let ie = crate::jparse::digits_run_pub(t, sp);
    assert(ie as int == num_ie(t@));
    proof {
        lemma_digits_end_props(t@, sp as int);
    }
    let has_frac: bool = ie < n && t[ie] == '.';
    assert(has_frac == num_has_frac(t@));
    let fe: usize;
    if has_frac {
        fe = crate::jparse::digits_run_pub(t, ie + 1);
    } else {
        fe = ie;
    }
    assert(fe as int == num_fe(t@));
    proof {
        if has_frac {
            lemma_digits_end_props(t@, ie + 1);
        }
    }
    let frac_len: usize = if has_frac { fe - (ie + 1) } else { 0 };
    assert(frac_len as int == num_frac_len(t@));
    // significand digits
    let mut m: Vec<char> = Vec::new();
    let mut i: usize = sp;
    assert(m@ =~= t@.subrange(sp as int, sp as int));
    while i < ie
        invariant
            sp <= i <= ie <= n,
            n == t@.len(),
            m@ == t@.subrange(sp as int, i as int),
        decreases ie - i,
    {
        m.push(t[i]);
        i = i + 1;
        assert(m@ =~= t@.subrange(sp as int, i as int));
    }
    if has_frac {
        let ghost m0 = m@;
        let mut i: usize = ie + 1;
        assert(m@ =~= m0 + t@.subrange(ie + 1, ie + 1));
        while i < fe
            invariant
                ie + 1 <= i <= fe <= n,
                n == t@.len(),
                m@ == m0 + t@.subrange(ie + 1, i as int),
            decreases fe - i,
        {
            m.push(t[i]);
            i = i + 1;
            assert(m@ =~= m0 + t@.subrange(ie + 1, i as int));
        }
    }
    assert(m@ =~= num_mantissa(t@));
    // exponent value
    let has_exp: bool = fe < n && (t[fe] == 'e' || t[fe] == 'E');
    assert(has_exp == num_has_exp(t@));
    let exp_val: i128;
    if has_exp {
        let es: usize = if fe + 1 < n && (t[fe + 1] == '+' || t[fe + 1] == '-') {
            fe + 2
        } else {
            fe + 1
        };
        assert(es as int == num_es(t@));
        let ee = crate::jparse::digits_run_pub(t, es);
        assert(ee as int == num_ee(t@));
        let ghost run = t@.subrange(es as int, ee as int);
        proof {
            lemma_digits_end_props(t@, es as int);
            assert(all_digits(run)) by {
                assert(forall|k: int| 0 <= k < run.len() ==> run[k] == t@[es + k]);
            }
            lemma_digits_val_bound(run);
            lemma_pow10_mono(run.len() as nat, 17);
            lemma_pow10_17();
        }
        let ev = match parse_magnitude(t, es, ee, 0x16345785D8A0000u64) {
            Some(ev) => ev,
            None => {
                proof {
                    assert(false);
                }
                0u64
            },
        };
        let negexp: bool = es == fe + 2 && t[fe + 1] == '-';
        exp_val = if negexp {
            -(ev as i128)
        } else {
            ev as i128
        };
        assert(exp_val as int == num_exp_val(t@));
    } else {
        exp_val = 0;
        assert(exp_val as int == num_exp_val(t@));
    }
    // strip zeros
    let ml: usize = m.len();
    let mut a: usize = 0;
    while a < ml && m[a] == '0'
        invariant
            a <= ml,
            ml == m@.len(),
            zeros_end(m@, 0) == zeros_end(m@, a as int),
        decreases ml - a,
    {
        a = a + 1;
    }
    assert(zeros_end(m@, 0) == a as int);
    let mut b: usize = ml;
    while b > a && m[b - 1] == '0'
        invariant
            a <= b <= ml,
            ml == m@.len(),
            zeros_back(m@, ml as int, a as int) == zeros_back(m@, b as int, a as int),
        decreases b,
    {
        b = b - 1;
    }
    assert(zeros_back(m@, ml as int, a as int) == b as int);
    if a >= b {
        let empty: Vec<char> = Vec::new();
        assert(empty@ =~= Seq::<char>::empty());
        (false, empty, 0i128)
    } else {
        let mut digs: Vec<char> = Vec::new();
        let mut i: usize = a;
        assert(digs@ =~= m@.subrange(a as int, a as int));
        while i < b
            invariant
                a <= i <= b <= ml,
                ml == m@.len(),
                digs@ == m@.subrange(a as int, i as int),
            decreases b - i,
        {
            digs.push(m[i]);
            i = i + 1;
            assert(digs@ =~= m@.subrange(a as int, i as int));
        }
        let trail: usize = ml - b;
        let e: i128 = exp_val - (frac_len as i128) + (trail as i128);
        let neg: bool = t[0] == '-';
        (neg, digs, e)
    }
}

/// Two number tokens denote the same numeric value.
pub fn num_eq_x(a: &Vec<char>, b: &Vec<char>) -> (r: bool)
    requires
        num_token_wf(a@),
        num_token_wf(b@),
    ensures
        r == (num_norm(a@) == num_norm(b@)),
{
    let na = num_norm_x(a);
    let nb = num_norm_x(b);
    let same = na.0 == nb.0 && chars_eq(&na.1, &nb.1) && na.2 == nb.2;
    proof {
        if same {
            assert(num_norm(a@) == num_norm(b@));
        } else {
            assert(num_norm(a@) != num_norm(b@));
        }
    }
    same
}

proof fn lemma_eq_seq_index(a: Seq<JsonV>, b: Seq<JsonV>, n: int, k: int)
    requires
        a.len() == b.len(),
        0 <= k < n <= a.len(),
        eq_seq(a, b, n),
    ensures
        spec_json_eq(a[k], b[k]),
    decreases n,
{
    if k < n - 1 {
        lemma_eq_seq_index(a, b, n - 1, k);
    }
}

proof fn lemma_eq_pairs_index(a: Seq<(Seq<char>, JsonV)>, b: Seq<(Seq<char>, JsonV)>, n: int, k: int)
    requires
        0 <= k < n <= a.len(),
        eq_pairs(a, b, n),
    ensures
        exists|j: int| 0 <= j < b.len() && (#[trigger] b[j]).0 == a[k].0 && spec_json_eq(
            a[k].1, b[j].1),
    decreases n,
{
    if k < n - 1 {
        lemma_eq_pairs_index(a, b, n - 1, k);
    }
}

/// Structural equality of two well-formed values: numbers by value,
/// objects regardless of member order.
#[verifier::loop_isolation(false)]
pub fn json_eq(x: &Json, y: &Json) -> (r: bool)
    requires
        wf(x@),
        wf(y@),
    ensures
        r == spec_json_eq(x@, y@),
    decreases *x,
{
    broadcast use crate::json::lemma_view_seq_len, crate::json::lemma_view_seq_index,
        crate::json::lemma_view_pairs_len, crate::json::lemma_view_pairs_index;

    match (x, y) {
        (Json::Null, Json::Null) => true,
        (Json::Bool(p), Json::Bool(q)) => p == q,
        (Json::Num(p), Json::Num(q)) => num_eq_x(p, q),
        (Json::Str(p), Json::Str(q)) => chars_eq(p, q),
        (Json::Arr(p), Json::Arr(q)) => {
            let ghost va = view_seq(p@);
            let ghost vb = view_seq(q@);
            let n: usize = p.len();
            if n != q.len() {
                return false;
            }
            let mut i: usize = 0;
            while i < n
                invariant
                    n == p@.len() == q@.len(),
                    i <= n,
                    va == view_seq(p@),
                    vb == view_seq(q@),
                    va.len() == n && vb.len() == n,
                    wf(x@),
                    wf(y@),
                    x@ == JsonV::Arr(va),
                    y@ == JsonV::Arr(vb),
                    eq_seq(va, vb, i as int),
                decreases n - i,
            {
                proof {
                    lemma_view_seq_len(p@);
                    lemma_view_seq_len(q@);
                    lemma_view_seq_index(p@, i as int);
                    lemma_view_seq_index(q@, i as int);
                    lemma_wf_seq_index(va, i as int);
                    lemma_wf_seq_index(vb, i as int);
                }
                let ok = json_eq(&p[i], &q[i]);
                if !ok {
                    proof {
                        if spec_json_eq(x@, y@) {
                            lemma_eq_seq_index(va, vb, n as int, i as int);
                        }
                    }
                    return false;
                }
                i = i + 1;
            }
            true
        },
        (Json::Obj(p), Json::Obj(q)) => {
            let ghost va = view_pairs(p@);
            let ghost vb = view_pairs(q@);
            let n: usize = p.len();
            if n != q.len() {
                return false;
            }
            let nb: usize = q.len();
            let mut i: usize = 0;
            while i < n
                invariant
                    n == p@.len() == q@.len(),
                    nb == n,
                    i <= n,
                    va == view_pairs(p@),
                    vb == view_pairs(q@),
                    va.len() == n && vb.len() == n,
                    wf(x@),
                    wf(y@),
                    x@ == JsonV::Obj(va),
                    y@ == JsonV::Obj(vb),
                    eq_pairs(va, vb, i as int),
                decreases n - i,
            {
                proof {
                    lemma_wf_pairs_index(va, i as int);
                }
                let mut j: usize = 0;
                let mut found: bool = false;
                let mut ok: bool = false;
                while j < nb
                    invariant
                        n == p@.len() == q@.len(),
                        nb == n,
                        i < n,
                        j <= nb,
                        va == view_pairs(p@),
                        vb == view_pairs(q@),
                        va.len() == n && vb.len() == n,
                        wf(x@),
                        wf(y@),
                        x@ == JsonV::Obj(va),
                        y@ == JsonV::Obj(vb),
                        !found ==> forall|k: int| 0 <= k < j ==> (#[trigger] vb[k]).0 != va[
                            i as int].0,
                        found ==> exists|k: int| 0 <= k < j && (#[trigger] vb[k]).0 == va[
                            i as int].0 && ok == spec_json_eq(va[i as int].1, vb[k].1),
                    decreases nb - j,
                {
                    if !found {
                        proof {
                            lemma_view_pairs_len(p@);
                            lemma_view_pairs_len(q@);
                            lemma_view_pairs_index(p@, i as int);
                            lemma_view_pairs_index(q@, j as int);
                        }
                        let keq = chars_eq(&q[j].0, &p[i].0);
                        if keq {
                            proof {
                                lemma_view_pairs_len(p@);
                                lemma_view_pairs_len(q@);
                                lemma_view_pairs_index(p@, i as int);
                                lemma_view_pairs_index(q@, j as int);
                                lemma_wf_pairs_index(va, i as int);
                                lemma_wf_pairs_index(vb, j as int);
                            }
                            let veq = json_eq(&p[i].1, &q[j].1);
                            found = true;
                            ok = veq;
                        }
                    }
                    j = j + 1;
                }
                if !found {
                    proof {
                        if spec_json_eq(x@, y@) {
                            lemma_eq_pairs_index(va, vb, n as int, i as int);
                        }
                    }
                    return false;
                }
                if !ok {
                    proof {
                        let kw = choose|k: int| 0 <= k < nb && (#[trigger] vb[k]).0 == va[
                            i as int].0 && ok == spec_json_eq(va[i as int].1, vb[k].1);
                        if spec_json_eq(x@, y@) {
                            lemma_eq_pairs_index(va, vb, n as int, i as int);
                            let jw = choose|j2: int| 0 <= j2 < vb.len() && (#[trigger] vb[j2]).0
                                == va[i as int].0 && spec_json_eq(va[i as int].1, vb[j2].1);
                            if jw != kw {
                                lemma_wf_pairs_distinct(vb, if jw < kw { jw } else { kw },
                                    if jw < kw { kw } else { jw });
                            }
                        }
                    }
                    return false;
                }
                proof {
                    let kw = choose|k: int| 0 <= k < nb && (#[trigger] vb[k]).0 == va[i as int].0
                        && ok == spec_json_eq(va[i as int].1, vb[k].1);
                    assert(eq_pairs(va, vb, i + 1));
                }
                i = i + 1;
            }
            true
        },
        _ => false,
    }
}

/// The kind of a value, as introspection names it.
pub fn type_name_x(v: &Json) -> (r: Vec<char>)
    ensures
        r@ == spec_type_name(v@),
{
    let mut out: Vec<char> = Vec::new();
    match v {
        Json::Null => {
            out.push('n'); out.push('u'); out.push('l'); out.push('l');
        },
        Json::Bool(_) => {
            out.push('b'); out.push('o'); out.push('o'); out.push('l'); out.push('e');
            out.push('a'); out.push('n');
        },
        Json::Num(_) => {
            out.push('n'); out.push('u'); out.push('m'); out.push('b'); out.push('e');
            out.push('r');
        },
        Json::Str(_) => {
            out.push('s'); out.push('t'); out.push('r'); out.push('i'); out.push('n');
            out.push('g');
        },
        Json::Arr(_) => {
            out.push('a'); out.push('r'); out.push('r'); out.push('a'); out.push('y');
        },
        Json::Obj(_) => {
            out.push('o'); out.push('b'); out.push('j'); out.push('e'); out.push('c');
            out.push('t');
        },
    }
    assert(out@ =~= spec_type_name(v@));
    out
}

/// Every child of an array is at most as deep as the array's bound says.
proof fn lemma_depth_seq_index(a: Seq<JsonV>, i: int)
    requires
        0 <= i < a.len(),
    ensures
        spec_depth(a[i]) <= depth_seq(a),
        depth_seq(a) >= 0,
    decreases a,
{
    if a.len() > 0 {
        if i == a.len() - 1 {
            if a.len() > 1 {
                lemma_depth_seq_index(a.drop_last(), 0);
            } else {
                assert(a.drop_last() =~= Seq::<JsonV>::empty());
                assert(depth_seq(a.drop_last()) == 0);
            }
        } else {
            lemma_depth_seq_index(a.drop_last(), i);
            assert(a.drop_last()[i] == a[i]);
        }
    }
}

proof fn lemma_depth_pairs_index(m: Seq<(Seq<char>, JsonV)>, i: int)
    requires
        0 <= i < m.len(),
    ensures
        spec_depth(m[i].1) <= depth_pairs(m),
        depth_pairs(m) >= 0,
    decreases m,
{
    if m.len() > 0 {
        if i == m.len() - 1 {
            if m.len() > 1 {
                lemma_depth_pairs_index(m.drop_last(), 0);
            } else {
                assert(m.drop_last() =~= Seq::<(Seq<char>, JsonV)>::empty());
                assert(depth_pairs(m.drop_last()) == 0);
            }
        } else {
            lemma_depth_pairs_index(m.drop_last(), i);
            assert(m.drop_last()[i] == m[i]);
        }
    }
}

/// Nesting depth of a value of bounded depth.
#[verifier::loop_isolation(false)]
pub fn depth_x(v: &Json) -> (d: u64)
    requires
        spec_depth(v@) <= 1000000,
    ensures
        d as int == spec_depth(v@),
    decreases *v,
{
    broadcast use crate::json::lemma_view_seq_len, crate::json::lemma_view_seq_index,
        crate::json::lemma_view_pairs_len, crate::json::lemma_view_pairs_index;

    match v {
        Json::Arr(a) => {
            let ghost va = view_seq(a@);
            let n: usize = a.len();
            let mut best: u64 = 0;
            let mut i: usize = 0;
            assert(depth_seq(va.take(0)) == 0) by {
                assert(va.take(0) =~= Seq::<JsonV>::empty());
            }
            while i < n
                invariant
                    n == a@.len(),
                    i <= n,
                    va == view_seq(a@),
                    va.len() == n,
                    v@ == JsonV::Arr(va),
                    spec_depth(v@) <= 1000000,
                    best as int == depth_seq(va.take(i as int)),
                    best <= 1000000,
                decreases n - i,
            {
                proof {
                    lemma_view_seq_len(a@);
                    lemma_view_seq_index(a@, i as int);
                    lemma_depth_seq_index(va, i as int);
                    assert(spec_depth(va[i as int]) <= 999999);
                }
                let di = depth_x(&a[i]);
                if di > best {
                    best = di;
                }
                proof {
                    assert(va.take(i + 1).drop_last() =~= va.take(i as int));
                    assert(va.take(i + 1).last() == va[i as int]);
                }
                i = i + 1;
            }
            proof {
                assert(va.take(n as int) =~= va);
            }
            1 + best
        },
        Json::Obj(m) => {
            let ghost vm = view_pairs(m@);
            let n: usize = m.len();
            let mut best: u64 = 0;
            let mut i: usize = 0;
            assert(depth_pairs(vm.take(0)) == 0) by {
                assert(vm.take(0) =~= Seq::<(Seq<char>, JsonV)>::empty());
            }
            while i < n
                invariant
                    n == m@.len(),
                    i <= n,
                    vm == view_pairs(m@),
                    vm.len() == n,
                    v@ == JsonV::Obj(vm),
                    spec_depth(v@) <= 1000000,
                    best as int == depth_pairs(vm.take(i as int)),
                    best <= 1000000,
                decreases n - i,
            {
                proof {
                    lemma_view_pairs_len(m@);
                    lemma_view_pairs_index(m@, i as int);
                    lemma_depth_pairs_index(vm, i as int);
                    assert(spec_depth(vm[i as int].1) <= 999999);
                }
                let di = depth_x(&m[i].1);
                if di > best {
                    best = di;
                }
                proof {
                    assert(vm.take(i + 1).drop_last() =~= vm.take(i as int));
                    assert(vm.take(i + 1).last() == vm[i as int]);
                }
                i = i + 1;
            }
            proof {
                assert(vm.take(n as int) =~= vm);
            }
            1 + best
        },
        _ => 0,
    }
}

fn hex_digit_x(d: u32) -> (c: char)
    requires
        d < 16,
    ensures
        c == hex_digit(d as int),
{
    match d {
        0 => '0', 1 => '1', 2 => '2', 3 => '3', 4 => '4', 5 => '5', 6 => '6', 7 => '7',
        8 => '8', 9 => '9', 10 => 'a', 11 => 'b', 12 => 'c', 13 => 'd', 14 => 'e',
        _ => 'f',
    }
}

fn push_esc_char(out: &mut Vec<char>, c: char)
    ensures
        final(out)@ == old(out)@ + esc_char(c),
{
    if c == '"' {
        out.push('\\'); out.push('"');
    } else if c == '\\' {
        out.push('\\'); out.push('\\');
    } else if c == '\u{8}' {
        out.push('\\'); out.push('b');
    } else if c == '\u{c}' {
        out.push('\\'); out.push('f');
    } else if c == '\n' {
        out.push('\\'); out.push('n');
    } else if c == '\r' {
        out.push('\\'); out.push('r');
    } else if c == '\t' {
        out.push('\\'); out.push('t');
    } else if (c as u32) < 0x20 {
        let d = c as u32;
        out.push('\\'); out.push('u'); out.push('0'); out.push('0');
        out.push(hex_digit_x(d / 16));
        out.push(hex_digit_x(d % 16));
    } else {
        out.push(c);
    }
    assert(out@ =~= old(out)@ + esc_char(c));
}

/// Append the quoted, escaped form of a string.
#[verifier::loop_isolation(false)]
fn push_str_text(out: &mut Vec<char>, s: &Vec<char>)
    ensures
        final(out)@ == old(out)@ + str_text(s@),
{
    out.push('"');
    let n: usize = s.len();
    let mut i: usize = 0;
    assert(esc_seq(s@.take(0)) =~= Seq::<char>::empty()) by {
        assert(s@.take(0) =~= Seq::<char>::empty());
    }
    while i < n
        invariant
            n == s@.len(),
            i <= n,
            out@ == old(out)@ + seq!['"'] + esc_seq(s@.take(i as int)),
        decreases n - i,
    {
        push_esc_char(out, s[i]);
        proof {
            assert(s@.take(i + 1).drop_last() =~= s@.take(i as int));
            assert(s@.take(i + 1).last() == s@[i as int]);
            assert(esc_seq(s@.take(i + 1)) == esc_seq(s@.take(i as int)) + esc_char(s@[i as int]));
        }
        i = i + 1;
    }
    assert(s@.take(n as int) =~= s@);
    out.push('"');
    assert(out@ =~= old(out)@ + str_text(s@));
}

#[verifier::loop_isolation(false)]
fn push_indent(out: &mut Vec<char>, ind: usize)
    requires
        ind <= 2000000,
    ensures
        final(out)@ == old(out)@ + indent_seq(ind as int),
{
    let mut k: usize = 0;
    while k < 2 * ind
        invariant
            k <= 2 * ind,
            ind <= 2000000,
            out@ == old(out)@ + indent_seq(ind as int).subrange(0, k as int),
        decreases 2 * ind - k,
    {
        out.push(' ');
        k = k + 1;
        assert(out@ =~= old(out)@ + indent_seq(ind as int).subrange(0, k as int));
    }
    assert(indent_seq(ind as int).subrange(0, 2 * ind) =~= indent_seq(ind as int));
}

/// Append the canonical text of a value; `p` selects the pretty form.
#[verifier::loop_isolation(false)]
pub fn write_json_fmt(v: &Json, p: bool, ind: usize, out: &mut Vec<char>)
    requires
        ind <= 1000000,
    ensures
        final(out)@ == old(out)@ + json_text_fmt(v@, p, ind as int),
    decreases *v, 1int,
{
    match v {
        Json::Null => {
            out.push('n'); out.push('u'); out.push('l'); out.push('l');
            assert(out@ =~= old(out)@ + json_text_fmt(v@, p, ind as int));
        },
        Json::Bool(b) => {
            if *b {
                out.push('t'); out.push('r'); out.push('u'); out.push('e');
            } else {
                out.push('f'); out.push('a'); out.push('l'); out.push('s'); out.push('e');
            }
            assert(out@ =~= old(out)@ + json_text_fmt(v@, p, ind as int));
        },
        Json::Num(t) => {
            let n: usize = t.len();
            let mut i: usize = 0;
            while i < n
                invariant
                    n == t@.len(),
                    i <= n,
                    out@ == old(out)@ + t@.subrange(0, i as int),
                decreases n - i,
            {
                out.push(t[i]);
                i = i + 1;
                assert(out@ =~= old(out)@ + t@.subrange(0, i as int));
            }
            assert(t@.subrange(0, n as int) =~= t@);
            assert(out@ =~= old(out)@ + json_text_fmt(v@, p, ind as int));
        },
        Json::Str(t) => {
            push_str_text(out, t);
        },
        Json::Arr(a) => {
            write_arr(a, p, ind, out);
        },
        Json::Obj(m) => {
            write_obj(m, p, ind, out);
        },
    }
}

/// Array rendering: brackets around a comma-separated element list.
#[verifier::loop_isolation(false)]
#[verifier::rlimit(100)]
fn write_arr(a: &Vec<Json>, p: bool, ind: usize, out: &mut Vec<char>)
    requires
        ind <= 1000000,
    ensures
        final(out)@ == old(out)@ + json_text_fmt(JsonV::Arr(view_seq(a@)), p, ind as int),
    decreases *a, 0int,
{
    let ghost va = view_seq(a@);
    proof {
        lemma_view_seq_len(a@);
    }
    let n: usize = a.len();
    if n == 0 {
        out.push('['); out.push(']');
        assert(out@ =~= old(out)@ + json_text_fmt(JsonV::Arr(va), p, ind as int));
        return;
    }
    let ind2: usize = if ind < 1000000 { ind + 1 } else { ind };
    assert(ind2 as int == bump(ind as int));
    out.push('[');
    if p {
        out.push('\n');
    }
    let ghost pre = out@;
    let mut i: usize = 0;
    while i < n
        invariant
            i <= n,
            i == 0 ==> out@ == pre,
            i > 0 ==> out@ == pre + items_fmt(va.take(i as int), p, ind2 as int),
        decreases n - i,
    {
        if i > 0 {
            out.push(',');
            if p {
                out.push('\n');
            }
        }
        if p {
            push_indent(out, ind2);
        }
        proof {
            lemma_view_seq_index(a@, i as int);
        }
        write_json_fmt(&a[i], p, ind2, out);
        proof {
            assert(va.take(i + 1).drop_last() =~= va.take(i as int));
            assert(va.take(i + 1).last() == va[i as int]);
            assert(out@ =~= pre + items_fmt(va.take(i + 1), p, ind2 as int));
        }
        i = i + 1;
    }
    proof {
        assert(va.take(n as int) =~= va);
    }
    if p {
        out.push('\n');
        push_indent(out, ind);
    }
    out.push(']');
    assert(out@ =~= old(out)@ + json_text_fmt(JsonV::Arr(va), p, ind as int));
}

/// One member: quoted key, colon, value.
#[verifier::loop_isolation(false)]
fn write_member(k: &Vec<char>, v: &Json, p: bool, ind: usize, out: &mut Vec<char>)
    requires
        ind <= 1000000,
    ensures
        final(out)@ == old(out)@ + member_fmt((k@, v@), p, ind as int),
    decreases *v, 2int,
{
    push_str_text(out, k);
    out.push(':');
    if p {
        out.push(' ');
    }
    write_json_fmt(v, p, ind, out);
    assert(out@ =~= old(out)@ + member_fmt((k@, v@), p, ind as int));
}

/// Object rendering: braces around quoted keys, colons and values.
#[verifier::loop_isolation(false)]
#[verifier::rlimit(100)]
fn write_obj(m: &Vec<(Vec<char>, Json)>, p: bool, ind: usize, out: &mut Vec<char>)
    requires
        ind <= 1000000,
    ensures
        final(out)@ == old(out)@ + json_text_fmt(JsonV::Obj(view_pairs(m@)), p, ind as int),
    decreases *m, 0int,
{
    let ghost vm = view_pairs(m@);
    proof {
        lemma_view_pairs_len(m@);
    }
    let n: usize = m.len();
    if n == 0 {
        out.push('{'); out.push('}');
        assert(out@ =~= old(out)@ + json_text_fmt(JsonV::Obj(vm), p, ind as int));
        return;
    }
    let ind2: usize = if ind < 1000000 { ind + 1 } else { ind };
    assert(ind2 as int == bump(ind as int));
    out.push('{');
    if p {
        out.push('\n');
    }
    let ghost pre = out@;
    let mut i: usize = 0;
    while i < n
        invariant
            i <= n,
            i == 0 ==> out@ == pre,
            i > 0 ==> out@ == pre + members_fmt(vm.take(i as int), p, ind2 as int),
        decreases n - i,
    {
        if i > 0 {
            out.push(',');
            if p {
                out.push('\n');
            }
        }
        if p {
            push_indent(out, ind2);
        }
        proof {
            lemma_view_pairs_index(m@, i as int);
        }
        write_member(&m[i].0, &m[i].1, p, ind2, out);
        proof {
            assert(vm.take(i + 1).drop_last() =~= vm.take(i as int));
            assert(vm.take(i + 1).last() == vm[i as int]);
            assert(out@ =~= pre + members_fmt(vm.take(i + 1), p, ind2 as int));
        }
        i = i + 1;
    }
    proof {
        assert(vm.take(n as int) =~= vm);
    }
    if p {
        out.push('\n');
        push_indent(out, ind);
    }
    out.push('}');
    assert(out@ =~= old(out)@ + json_text_fmt(JsonV::Obj(vm), p, ind as int));
}

/// Compact canonical text of a value.
pub fn to_compact(v: &Json) -> (r: Vec<char>)
    ensures
        r@ == json_text(v@),
{
    let mut out: Vec<char> = Vec::new();
    write_json_fmt(v, false, 0, &mut out);
    assert(out@ =~= json_text(v@));
    out
}

/// Pretty canonical text of a value, two-space indented.
pub fn to_pretty(v: &Json) -> (r: Vec<char>)
    ensures
        r@ == json_pretty(v@),
{
    let mut out: Vec<char> = Vec::new();
    write_json_fmt(v, true, 0, &mut out);
    assert(out@ =~= json_pretty(v@));
    out
}

/// A deep copy of a value, equal to the original in the model.
#[verifier::loop_isolation(false)]
pub fn json_clone(v: &Json) -> (r: Json)
    ensures
        r@ == v@,
    decreases *v,
{
    broadcast use crate::json::lemma_view_seq_len, crate::json::lemma_view_seq_index,
        crate::json::lemma_view_pairs_len, crate::json::lemma_view_pairs_index;

    match v {
        Json::Null => Json::Null,
        Json::Bool(b) => Json::Bool(*b),
        Json::Num(t) => {
            let mut c: Vec<char> = Vec::new();
            let n: usize = t.len();
            let mut i: usize = 0;
            while i < n
                invariant
                    i <= n,
                    n == t@.len(),
                    c@ == t@.subrange(0, i as int),
                decreases n - i,
            {
                c.push(t[i]);
                i = i + 1;
                assert(c@ =~= t@.subrange(0, i as int));
            }
            assert(c@ =~= t@);
            Json::Num(c)
        },
        Json::Str(t) => {
            let mut c: Vec<char> = Vec::new();
            let n: usize = t.len();
            let mut i: usize = 0;
            while i < n
                invariant
                    i <= n,
                    n == t@.len(),
                    c@ == t@.subrange(0, i as int),
                decreases n - i,
            {
                c.push(t[i]);
                i = i + 1;
                assert(c@ =~= t@.subrange(0, i as int));
            }
            assert(c@ =~= t@);
            Json::Str(c)
        },
        Json::Arr(a) => {
            let ghost va = view_seq(a@);
            let mut c: Vec<Json> = Vec::new();
            let n: usize = a.len();
            let mut i: usize = 0;
            proof {
                lemma_view_seq_len(a@);
                assert(view_seq(c@) =~= va.take(0));
            }
            while i < n
                invariant
                    i <= n,
                    n == a@.len(),
                    va == view_seq(a@),
                    va.len() == n,
                    view_seq(c@) == va.take(i as int),
                decreases n - i,
            {
                proof {
                    lemma_view_seq_index(a@, i as int);
                }
                let e = json_clone(&a[i]);
                let ghost cs = c@;
                c.push(e);
                proof {
                    assert(c@.drop_last() =~= cs);
                    assert(view_seq(c@) =~= va.take(i + 1));
                }
                i = i + 1;
            }
            proof {
                assert(va.take(n as int) =~= va);
            }
            Json::Arr(c)
        },
        Json::Obj(m) => {
            let ghost vm = view_pairs(m@);
            let mut c: Vec<(Vec<char>, Json)> = Vec::new();
            let n: usize = m.len();
            let mut i: usize = 0;
            proof {
                lemma_view_pairs_len(m@);
                assert(view_pairs(c@) =~= vm.take(0));
            }
            while i < n
                invariant
                    i <= n,
                    n == m@.len(),
                    vm == view_pairs(m@),
                    vm.len() == n,
                    view_pairs(c@) == vm.take(i as int),
                decreases n - i,
            {
                proof {
                    lemma_view_pairs_index(m@, i as int);
                }
                let mut k: Vec<char> = Vec::new();
                let kl: usize = m[i].0.len();
                let mut x: usize = 0;
                while x < kl
                    invariant
                        x <= kl,
                        i < n == m@.len(),
                        kl == m@[i as int].0@.len(),
                        k@ == m@[i as int].0@.subrange(0, x as int),
                    decreases kl - x,
                {
                    k.push(m[i].0[x]);
                    x = x + 1;
                    assert(k@ =~= m@[i as int].0@.subrange(0, x as int));
                }
                assert(k@ =~= m@[i as int].0@);
                let e = json_clone(&m[i].1);
                let ghost cs = c@;
                c.push((k, e));
                proof {
                    assert(c@.drop_last() =~= cs);
                    assert(view_pairs(c@) =~= vm.take(i + 1));
                }
                i = i + 1;
            }
            proof {
                assert(vm.take(n as int) =~= vm);
            }
            Json::Obj(c)
        },
    }
}

} // verus!
