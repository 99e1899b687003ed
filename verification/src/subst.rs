//! The template engine: `{{name}}` placeholders replaced from a variable
//! table, scanning left to right in a single pass, with the trimmed
//! interior as the variable name and unknown names left verbatim.
use vstd::prelude::*;
use crate::text::{spec_trim, trim_range, contains_at, contains_seq, chars_eq};

verus! {

broadcast use vstd::seq::group_seq_axioms, vstd::std_specs::vec::group_vec_axioms;

/// First `}` at or after `i`, or the length.
pub open spec fn first_close(s: Seq<char>, i: int) -> int
    decreases s.len() - i,
{
    if 0 <= i < s.len() {
        if s[i] == '}' {
            i
        } else {
            first_close(s, i + 1)
        }
    } else {
        i
    }
}

/// A placeholder starts at `i`: `{{`, a non-empty brace-free interior,
/// then `}}`.
pub open spec fn match_at(s: Seq<char>, i: int) -> bool {
    0 <= i && i + 1 < s.len() && s[i] == '{' && s[i + 1] == '{' && first_close(s, i + 2) > i + 2
        && first_close(s, i + 2) + 1 < s.len() && s[first_close(s, i + 2) + 1] == '}'
}

/// Index of the first `}` of the closing pair of the placeholder at `i`.
pub open spec fn close_of(s: Seq<char>, i: int) -> int {
    first_close(s, i + 2)
}

/// The variable a placeholder names: its interior, trimmed.
pub open spec fn name_of(s: Seq<char>, i: int) -> Seq<char> {
    spec_trim(s.subrange(i + 2, close_of(s, i)))
}

/// The substituted text from position `i` on: a matched placeholder is
/// replaced by the table's value, or kept verbatim when the name is
/// absent; replacement text is never rescanned.
pub open spec fn spec_subst(s: Seq<char>, i: int, vars: Map<Seq<char>, Seq<char>>) -> Seq<char>
    decreases s.len() - i,
{
    if !(0 <= i < s.len()) {
        Seq::empty()
    } else if match_at(s, i) {
        let j = close_of(s, i);
        let nm = name_of(s, i);
        (if vars.contains_key(nm) {
            vars[nm]
        } else {
            s.subrange(i, j + 2)
        }) + spec_subst(s, j + 2, vars)
    } else {
        seq![s[i]] + spec_subst(s, i + 1, vars)
    }
}

/// All placeholder names the scan meets, in order, with repeats.
pub open spec fn spec_names(s: Seq<char>, i: int) -> Seq<Seq<char>>
    decreases s.len() - i,
{
    if !(0 <= i < s.len()) {
        Seq::empty()
    } else if match_at(s, i) {
        seq![name_of(s, i)] + spec_names(s, close_of(s, i) + 2)
    } else {
        spec_names(s, i + 1)
    }
}

/// First occurrences only, in order of first occurrence.
pub open spec fn dedup_from(l: Seq<Seq<char>>, i: int, acc: Seq<Seq<char>>) -> Seq<Seq<char>>
    decreases l.len() - i,
{
    if !(0 <= i < l.len()) {
        acc
    } else if acc.contains(l[i]) {
        dedup_from(l, i + 1, acc)
    } else {
        dedup_from(l, i + 1, acc.push(l[i]))
    }
}

/// The ordered, de-duplicated names of the placeholders in `s`.
pub open spec fn spec_find_vars(s: Seq<char>) -> Seq<Seq<char>> {
    dedup_from(spec_names(s, 0), 0, Seq::empty())
}

/// Whether the scan meets any placeholder at or after `i`.
pub open spec fn spec_has_var(s: Seq<char>, i: int) -> bool
    decreases s.len() - i,
{
    if !(0 <= i < s.len()) {
        false
    } else if match_at(s, i) {
        true
    } else {
        spec_has_var(s, i + 1)
    }
}

/// The variable table a sequence of pairs denotes, later pairs winning.
pub open spec fn table_view(t: Seq<(Vec<char>, Vec<char>)>) -> Map<Seq<char>, Seq<char>>
    decreases t.len(),
{
    if t.len() == 0 {
        Map::empty()
    } else {
        table_view(t.drop_last()).insert(t.last().0@, t.last().1@)
    }
}

// ------------------------------------------------------------------
// Executable scan
// ------------------------------------------------------------------

fn first_close_x(s: &Vec<char>, i: usize) -> (r: usize)
    requires
        i <= s@.len(),
    ensures
        r as int == first_close(s@, i as int),
        i <= r <= s@.len(),
{
    let n: usize = s.len();
    let mut p: usize = i;
    while p < n && s[p] != '}'
        invariant
            i <= p <= n,
            n == s@.len(),
            first_close(s@, i as int) == first_close(s@, p as int),
        decreases n - p,
    {
        p = p + 1;
    }
    p
}

/// The table's value for a name, by last match.
#[verifier::loop_isolation(false)]
fn table_get<'a>(t: &'a Vec<(Vec<char>, Vec<char>)>, name: &Vec<char>) -> (r: Option<
    &'a Vec<char>>)
    ensures
        match r {
            Some(v) => table_view(t@).contains_key(name@) && table_view(t@)[name@] == v@,
            None => !table_view(t@).contains_key(name@),
        },
{
    let n: usize = t.len();
    let mut i: usize = n;
    proof {
        assert(t@.subrange(0, n as int) =~= t@);
    }
    while i > 0
        invariant
            i <= n,
            n == t@.len(),
            !table_view(t@.subrange(0, i as int)).contains_key(name@) ==> !table_view(
                t@).contains_key(name@),
            table_view(t@.subrange(0, i as int)).contains_key(name@) ==> table_view(
                t@).contains_key(name@) && table_view(t@)[name@] == table_view(
                t@.subrange(0, i as int))[name@],
        decreases i,
    {
        proof {
            assert(t@.subrange(0, i as int).drop_last() =~= t@.subrange(0, i - 1));
            assert(t@.subrange(0, i as int).last() == t@[i - 1]);
        }
        if chars_eq(&t[i - 1].0, name) {
            return Some(&t[i - 1].1);
        }
        i = i - 1;
    }
    proof {
        assert(t@.subrange(0, 0) =~= Seq::<(Vec<char>, Vec<char>)>::empty());
    }
    None
}

fn push_range(out: &mut Vec<char>, s: &Vec<char>, lo: usize, hi: usize)
    requires
        lo <= hi <= s@.len(),
    ensures
        final(out)@ == old(out)@ + s@.subrange(lo as int, hi as int),
{
    let mut i: usize = lo;
    assert(out@ =~= old(out)@ + s@.subrange(lo as int, lo as int));
    while i < hi
        invariant
            lo <= i <= hi <= s@.len(),
            out@ == old(out)@ + s@.subrange(lo as int, i as int),
        decreases hi - i,
    {
        out.push(s[i]);
        i = i + 1;
        assert(out@ =~= old(out)@ + s@.subrange(lo as int, i as int));
    }
}

/// Pointwise description of the deep view of a list of char vectors.
pub proof fn lemma_vv_deep(v: &Vec<Vec<char>>)
    ensures
        v.deep_view().len() == v@.len(),
        forall|i: int| 0 <= i < v@.len() ==> v.deep_view()[i] == (#[trigger] v@[i])@,
{
    assert forall|i: int| 0 <= i < v@.len() implies v.deep_view()[i] == (#[trigger] v@[i])@ by {
        assert(v@[i].deep_view() =~= v@[i]@);
    }
}

/// Substitute all placeholders of `text` from the table.
#[verifier::loop_isolation(false)]
pub fn subst_chars(text: &Vec<char>, table: &Vec<(Vec<char>, Vec<char>)>) -> (r: Vec<char>)
    ensures
        r@ == spec_subst(text@, 0, table_view(table@)),
{
    let ghost m = table_view(table@);
    let n: usize = text.len();
    let mut out: Vec<char> = Vec::new();
    let mut i: usize = 0;
    while i < n
        invariant
            i <= n,
            spec_subst(text@, 0, m) == out@ + spec_subst(text@, i as int, m),
        decreases n - i,
    {
        let mut matched: bool = false;
        let mut close: usize = 0;
        if i + 1 < n && text[i] == '{' && text[i + 1] == '{' {
            let j = first_close_x(text, i + 2);
            if j > i + 2 && n - j >= 2 && text[j + 1] == '}' {
                matched = true;
                close = j;
            }
        }
        assert(matched == match_at(text@, i as int));
        let ghost i0 = i as int;
        let ghost out0 = out@;
        if matched {
            let j = close;
            assert(j as int == close_of(text@, i as int));
            let name = trim_range(text, i + 2, j);
            assert(name@ == name_of(text@, i as int));
            match table_get(table, &name) {
                Some(v) => {
                    push_range(&mut out, v, 0, v.len());
                    proof {
                        assert(v@.subrange(0, v@.len() as int) =~= v@);
                    }
                },
                None => {
                    push_range(&mut out, text, i, j + 2);
                },
            }
            i = j + 2;
            proof {
                assert(out@ + spec_subst(text@, i as int, m) =~= out0 + spec_subst(
                    text@, i0, m));
            }
        } else {
            out.push(text[i]);
            i = i + 1;
            proof {
                assert(out@ + spec_subst(text@, i as int, m) =~= out0 + spec_subst(
                    text@, i0, m));
            }
        }
    }
    assert(spec_subst(text@, n as int, m) =~= Seq::<char>::empty());
    assert(out@ + spec_subst(text@, n as int, m) =~= out@);
    out
}

/// The ordered, de-duplicated, trimmed placeholder names of `text`.
#[verifier::loop_isolation(false)]
pub fn find_vars_chars(text: &Vec<char>) -> (r: Vec<Vec<char>>)
    ensures
        r.deep_view() == spec_find_vars(text@),
{
    let n: usize = text.len();
    let mut out: Vec<Vec<char>> = Vec::new();
    let mut i: usize = 0;
    proof {
        lemma_vv_deep(&out);
        assert(out.deep_view() =~~= Seq::<Seq<char>>::empty());
    }
    while i < n
        invariant
            i <= n,
            spec_find_vars(text@) == dedup_from(spec_names(text@, i as int), 0, out.deep_view()),
        decreases n - i,
    {
        let ghost names_i = spec_names(text@, i as int);
        let mut matched: bool = false;
        let mut close: usize = 0;
        if i + 1 < n && text[i] == '{' && text[i + 1] == '{' {
            let j = first_close_x(text, i + 2);
            if j > i + 2 && n - j >= 2 && text[j + 1] == '}' {
                matched = true;
                close = j;
            }
        }
        assert(matched == match_at(text@, i as int));
        if matched {
            let j = close;
            let name = trim_range(text, i + 2, j);
            assert(name@ == name_of(text@, i as int));
            let mut seen: bool = false;
            let mut k: usize = 0;
            let nl: usize = out.len();
            while k < nl && !seen
                invariant
                    k <= nl,
                    nl == out@.len(),
                    seen ==> k < nl && out@[k as int]@ == name@,
                    !seen ==> (forall|x: int| 0 <= x < k ==> out@[x]@ != name@),
                decreases nl - k + (if seen { 0int } else { 1int }),
            {
                if chars_eq(&out[k], &name) {
                    seen = true;
                } else {
                    k = k + 1;
                }
            }
            let ghost dv0 = out.deep_view();
            let ghost rest = spec_names(text@, j + 2);
            proof {
                lemma_vv_deep(&out);
                if seen {
                    assert(dv0[k as int] == name@);
                    assert(dv0.contains(name@));
                } else {
                    if dv0.contains(name@) {
                        let w = choose|w: int| 0 <= w < dv0.len() && dv0[w] == name@;
                        assert(out@[w]@ == name@);
                        assert(false);
                    }
                }
                assert(names_i == seq![name@] + rest);
                assert(names_i[0] == name@);
                assert(names_i.len() == rest.len() + 1);
                assert(forall|x: int| 0 <= x < rest.len() ==> names_i[x + 1] == #[trigger] rest[
                    x]);
            }
            if !seen {
                let ghost outs = out@;
                out.push(name);
                proof {
                    lemma_vv_deep(&out);
                    assert(out.deep_view() =~~= dv0.push(name@));
                }
            }
            proof {
                lemma_dedup_shift(names_i, rest, out.deep_view());
                assert(dedup_from(names_i, 0, dv0) == dedup_from(rest, 0, out.deep_view()));
            }
            i = j + 2;
        } else {
            i = i + 1;
        }
    }
    proof {
        assert(spec_names(text@, n as int) =~= Seq::<Seq<char>>::empty());
    }
    out
}

/// Dropping a processed head shifts the de-duplication scan by one.
proof fn lemma_dedup_shift(l: Seq<Seq<char>>, rest: Seq<Seq<char>>, acc: Seq<Seq<char>>)
    requires
        l.len() == rest.len() + 1,
        forall|x: int| 0 <= x < rest.len() ==> l[x + 1] == #[trigger] rest[x],
    ensures
        dedup_from(l, 1, acc) == dedup_from(rest, 0, acc),
    decreases rest.len() + acc.len(),
{
    lemma_dedup_shift_at(l, rest, acc, 0);
}

proof fn lemma_dedup_shift_at(l: Seq<Seq<char>>, rest: Seq<Seq<char>>, acc: Seq<Seq<char>>, k: int)
    requires
        l.len() == rest.len() + 1,
        forall|x: int| 0 <= x < rest.len() ==> l[x + 1] == #[trigger] rest[x],
        0 <= k <= rest.len(),
    ensures
        dedup_from(l, k + 1, acc) == dedup_from(rest, k, acc),
    decreases rest.len() - k,
{
    if k < rest.len() {
        assert(l[k + 1] == rest[k]);
        if acc.contains(rest[k]) {
            lemma_dedup_shift_at(l, rest, acc, k + 1);
        } else {
            lemma_dedup_shift_at(l, rest, acc.push(rest[k]), k + 1);
        }
    }
}

/// Whether `text` holds at least one well-formed placeholder.
#[verifier::loop_isolation(false)]
pub fn has_vars_chars(text: &Vec<char>) -> (r: bool)
    ensures
        r == spec_has_var(text@, 0),
{
    let n: usize = text.len();
    let mut i: usize = 0;
    while i < n
        invariant
            i <= n,
            spec_has_var(text@, 0) == spec_has_var(text@, i as int),
        decreases n - i,
    {
        if i + 1 < n && text[i] == '{' && text[i + 1] == '{' {
            let j = first_close_x(text, i + 2);
            if j > i + 2 && n - j >= 2 && text[j + 1] == '}' {
                assert(match_at(text@, i as int));
                return true;
            }
        }
        assert(!match_at(text@, i as int));
        i = i + 1;
    }
    false
}

// ------------------------------------------------------------------
// Laws of the scan
// ------------------------------------------------------------------

/// Substitution changes nothing when the table is empty or the text has
/// no `{{` at all.
pub proof fn lemma_subst_noop(s: Seq<char>, i: int, vars: Map<Seq<char>, Seq<char>>)
    requires
        0 <= i <= s.len(),
        vars.dom() =~= Set::empty() || (forall|k: int|
            0 <= k < s.len() - 1 ==> !(#[trigger] s[k] == '{' && s[k + 1] == '{')),
    ensures
        spec_subst(s, i, vars) == s.subrange(i, s.len() as int),
    decreases s.len() - i,
{
    if i < s.len() {
        if match_at(s, i) {
            assert(vars.dom() =~= Set::empty());
            assert(!vars.contains_key(name_of(s, i)));
            let j = close_of(s, i);
            lemma_first_close_le(s, i + 2);
            lemma_subst_noop(s, j + 2, vars);
            assert(s.subrange(i, j + 2) + s.subrange(j + 2, s.len() as int) =~= s.subrange(
                i, s.len() as int));
        } else {
            lemma_subst_noop(s, i + 1, vars);
            assert(seq![s[i]] + s.subrange(i + 1, s.len() as int) =~= s.subrange(
                i, s.len() as int));
        }
    } else {
        assert(s.subrange(i, s.len() as int) =~= Seq::<char>::empty());
    }
}

proof fn lemma_first_close_le(s: Seq<char>, i: int)
    requires
        0 <= i <= s.len(),
    ensures
        i <= first_close(s, i) <= s.len(),
    decreases s.len() - i,
{
    if i < s.len() && s[i] != '}' {
        lemma_first_close_le(s, i + 1);
    }
}

/// Positions the scan visits when it starts at `i`.
pub open spec fn scan_visits(s: Seq<char>, i: int, p: int) -> bool
    decreases s.len() - i,
{
    if i == p {
        true
    } else if !(0 <= i < s.len()) {
        false
    } else if match_at(s, i) {
        close_of(s, i) + 2 > i && scan_visits(s, close_of(s, i) + 2, p)
    } else {
        scan_visits(s, i + 1, p)
    }
}

/// A placeholder the scan visits whose name is not in the table appears
/// verbatim in the output.
pub proof fn lemma_absent_kept(s: Seq<char>, i: int, p: int, vars: Map<Seq<char>, Seq<char>>)
    requires
        0 <= i <= s.len(),
        scan_visits(s, i, p),
        match_at(s, p),
        !vars.contains_key(name_of(s, p)),
    ensures
        contains_seq(spec_subst(s, i, vars), s.subrange(p, close_of(s, p) + 2)),
    decreases s.len() - i,
{
    lemma_first_close_le(s, p + 2);
    let piece = s.subrange(p, close_of(s, p) + 2);
    if i == p {
        let j = close_of(s, i);
        assert(spec_subst(s, i, vars) == piece + spec_subst(s, j + 2, vars));
        assert(contains_at(spec_subst(s, i, vars), 0, piece)) by {
            assert((piece + spec_subst(s, j + 2, vars)).subrange(0, piece.len() as int)
                =~= piece);
        }
    } else if 0 <= i && i < s.len() {
        if match_at(s, i) {
            let j = close_of(s, i);
            lemma_first_close_le(s, i + 2);
            lemma_absent_kept(s, j + 2, p, vars);
            let head = if vars.contains_key(name_of(s, i)) {
                vars[name_of(s, i)]
            } else {
                s.subrange(i, j + 2)
            };
            lemma_contains_shift(head, spec_subst(s, j + 2, vars), piece);
        } else {
            lemma_absent_kept(s, i + 1, p, vars);
            lemma_contains_shift(seq![s[i]], spec_subst(s, i + 1, vars), piece);
        }
    }
}

/// A substring of the tail is a substring of the whole.
proof fn lemma_contains_shift(head: Seq<char>, tail: Seq<char>, sub: Seq<char>)
    requires
        contains_seq(tail, sub),
    ensures
        contains_seq(head + tail, sub),
{
    let w = choose|w: int| contains_at(tail, w, sub);
    assert(contains_at(head + tail, head.len() + w, sub)) by {
        assert((head + tail).subrange(head.len() + w, head.len() + w + sub.len() as int)
            =~= tail.subrange(w, w + sub.len() as int));
    }
}

/// The de-duplicated name list: no repeats, and order by first
/// occurrence in the raw name list.
pub proof fn lemma_dedup_props(l: Seq<Seq<char>>, i: int, acc: Seq<Seq<char>>)
    requires
        0 <= i <= l.len(),
        forall|a: int, b: int| 0 <= a < b < acc.len() ==> acc[a] != acc[b],
    ensures
        ({
            let r = dedup_from(l, i, acc);
            &&& forall|a: int, b: int| 0 <= a < b < r.len() ==> r[a] != r[b]
            &&& forall|x: int| 0 <= x < acc.len() ==> r[x] == #[trigger] acc[x]
            &&& acc.len() <= r.len()
            &&& forall|x: int|
                acc.len() <= x < r.len() ==> exists|y: int|
                    i <= y < l.len() && l[y] == #[trigger] r[x]
        }),
    decreases l.len() - i,
{
    let r = dedup_from(l, i, acc);
    if 0 <= i < l.len() {
        if acc.contains(l[i]) {
            lemma_dedup_props(l, i + 1, acc);
            assert forall|x: int| acc.len() <= x < r.len() implies exists|y: int|
                i <= y < l.len() && l[y] == #[trigger] r[x] by {
                let w = choose|y: int| i + 1 <= y < l.len() && l[y] == r[x];
                assert(i <= w < l.len() && l[w] == r[x]);
            }
        } else {
            assert forall|a: int| 0 <= a < acc.len() implies acc[a] != l[i] by {
                if acc[a] == l[i] {
                    assert(acc.contains(l[i]));
                }
            }
            assert(forall|a: int, b: int|
                0 <= a < b < acc.push(l[i]).len() ==> acc.push(l[i])[a] != acc.push(l[i])[b]) by {
                assert(forall|a: int| 0 <= a < acc.len() ==> acc.push(l[i])[a] == #[trigger] acc[
                    a]);
            }
            lemma_dedup_props(l, i + 1, acc.push(l[i]));
            assert(forall|x: int| 0 <= x < acc.len() ==> acc.push(l[i])[x] == #[trigger] acc[x]);
            assert(r[acc.len() as int] == acc.push(l[i])[acc.len() as int]);
            assert(r[acc.len() as int] == l[i]);
            assert forall|x: int| acc.len() <= x < r.len() implies exists|y: int|
                i <= y < l.len() && l[y] == #[trigger] r[x] by {
                if x == acc.len() {
                    assert(i <= i < l.len() && l[i] == r[x]);
                } else {
                    let w = choose|y: int| i + 1 <= y < l.len() && l[y] == r[x];
                    assert(i <= w < l.len() && l[w] == r[x]);
                }
            }
        }
    }
}

} // verus!
