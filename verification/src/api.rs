//! The string boundary: every operation takes serialized text and hands
//! serialized text back, degrading to the documented fallback instead of
//! failing when an input does not parse.
use vstd::prelude::*;
use vstd::string::StrSliceExecFns;
use vstd::string::StringSliceAdditionalSpecFns;
use crate::text::{spec_dec_u, str_to_chars, chars_to_string, push_dec_u64, parse_i64_chars,
    spec_parse_i64, chars_eq};
use crate::json::{Json, JsonV, jview, view_seq, view_pairs, wf, wf_pairs, spec_depth, json_text,
    json_pretty, spec_type_name, num_has_frac, num_has_exp, num_token_wf, num_ie, num_fe,
    lemma_view_seq_len, lemma_view_seq_index, lemma_view_pairs_len, lemma_view_pairs_index,
    lemma_wf_pairs_index, digits_end};
use crate::jparse::{spec_parse_json, parse_json_str, obj_insert, obj_insert_x, find_key,
    lemma_find_key_first, digits_run_pub};
use crate::jops::{to_compact, to_pretty, depth_x, type_name_x, json_clone};
use crate::path::{spec_resolve, resolve_path};
use crate::subst::{spec_subst, spec_find_vars, spec_has_var, table_view, subst_chars,
    find_vars_chars, has_vars_chars, lemma_subst_noop};
use crate::checks::{AssertionDef, AssertionV, AssertionResult, ResultV, ResponseData, ResponseV,
    spec_single, spec_run_list, defs_view, results_view, run_assertion_list, headers_view};

verus! {

broadcast use vstd::seq::group_seq_axioms, vstd::std_specs::vec::group_vec_axioms;

// ------------------------------------------------------------------
// Reading compound inputs out of parsed JSON
// ------------------------------------------------------------------

/// A string-to-string table read off an object's members; `None` when a
/// value is not a string.
pub open spec fn pairs_table(m: Seq<(Seq<char>, JsonV)>) -> Option<Seq<(Seq<char>, Seq<char>)>>
    decreases m.len(),
{
    if m.len() == 0 {
        Some(Seq::empty())
    } else {
        match pairs_table(m.drop_last()) {
            Some(t) => match m.last().1 {
                JsonV::Str(s) => Some(t.push((m.last().0, s))),
                _ => None,
            },
            None => None,
        }
    }
}

/// The variable table a document denotes: an object whose values are
/// all strings.
pub open spec fn spec_table_of(v: JsonV) -> Option<Seq<(Seq<char>, Seq<char>)>> {
    match v {
        JsonV::Obj(m) => pairs_table(m),
        _ => None,
    }
}

/// The map a table denotes, later pairs winning.
pub open spec fn table_map(t: Seq<(Seq<char>, Seq<char>)>) -> Map<Seq<char>, Seq<char>>
    decreases t.len(),
{
    if t.len() == 0 {
        Map::empty()
    } else {
        table_map(t.drop_last()).insert(t.last().0, t.last().1)
    }
}

/// A list of strings read off an array; `None` when an element is not a
/// string.
pub open spec fn spec_texts_of(v: JsonV) -> Option<Seq<Seq<char>>> {
    match v {
        JsonV::Arr(a) => texts_list(a),
        _ => None,
    }
}

pub open spec fn texts_list(a: Seq<JsonV>) -> Option<Seq<Seq<char>>>
    decreases a.len(),
{
    if a.len() == 0 {
        Some(Seq::empty())
    } else {
        match texts_list(a.drop_last()) {
            Some(t) => match a.last() {
                JsonV::Str(s) => Some(t.push(s)),
                _ => None,
            },
            None => None,
        }
    }
}

// ------------------------------------------------------------------
// Template substitution
// ------------------------------------------------------------------

/// What substitution returns: the input unchanged when the variable
/// table does not deserialize, else the scanned text.
pub open spec fn spec_substitute(text: Seq<char>, vars_json: Seq<char>) -> Seq<char> {
    match spec_parse_json(vars_json) {
        Some(v) => match spec_table_of(v) {
            Some(t) => spec_subst(text, 0, table_map(t)),
            None => text,
        },
        None => text,
    }
}

/// Exec table extraction, mirroring `spec_table_of`.
fn table_of_x(v: &Json) -> (r: Option<Vec<(Vec<char>, Vec<char>)>>)
    ensures
        match r {
            Some(t) => spec_table_of(v@) matches Some(st) && table_view(t@) == table_map(st),
            None => spec_table_of(v@) is None,
        },
{
    broadcast use crate::json::lemma_view_pairs_len, crate::json::lemma_view_pairs_index;

    match v {
        Json::Obj(m) => {
            let ghost vm = view_pairs(m@);
            let n: usize = m.len();
            let mut out: Vec<(Vec<char>, Vec<char>)> = Vec::new();
            let mut i: usize = 0;
            proof {
                lemma_view_pairs_len(m@);
                assert(vm.take(0) =~= Seq::<(Seq<char>, JsonV)>::empty());
            }
            while i < n
                invariant
                    i <= n,
                    n == m@.len(),
                    vm == view_pairs(m@),
                    vm.len() == n,
                    v@ == JsonV::Obj(vm),
                    pairs_table(vm.take(i as int)) matches Some(st) && table_view(out@)
                        == table_map(st),
                decreases n - i,
            {
                proof {
                    lemma_view_pairs_index(m@, i as int);
                    assert(vm.take(i + 1).drop_last() =~= vm.take(i as int));
                    assert(vm.take(i + 1).last() == vm[i as int]);
                }
                match &m[i].1 {
                    Json::Str(val) => {
                        let mut k: Vec<char> = Vec::new();
                        crate::checks::append_chars(&mut k, &m[i].0);
                        let mut w: Vec<char> = Vec::new();
                        crate::checks::append_chars(&mut w, val);
                        let ghost outs = out@;
                        let ghost st0 = pairs_table(vm.take(i as int))->0;
                        out.push((k, w));
                        proof {
                            assert(out@.drop_last() =~= outs);
                            assert(vm[i as int].1 == JsonV::Str(val@));
                            let stn = pairs_table(vm.take(i + 1))->0;
                            assert(stn == st0.push((vm[i as int].0, val@)));
                            assert(stn.drop_last() =~= st0);
                            assert(stn.last() == (vm[i as int].0, val@));
                            assert(table_map(stn) == table_map(st0).insert(vm[i as int].0, val@));
                            assert(out@.last().0@ == vm[i as int].0);
                            assert(out@.last().1@ == val@);
                            assert(table_view(out@) == table_view(outs).insert(vm[i as int].0,
                                val@));
                        }
                    },
                    _ => {
                        proof {
                            assert(pairs_table(vm.take(i + 1)) is None);
                            lemma_pairs_table_none(vm, i + 1);
                        }
                        return None;
                    },
                }
                i = i + 1;
            }
            proof {
                assert(vm.take(n as int) =~= vm);
            }
            Some(out)
        },
        _ => None,
    }
}

/// Once a prefix fails to be a table, the whole member list fails.
proof fn lemma_pairs_table_none(m: Seq<(Seq<char>, JsonV)>, k: int)
    requires
        0 <= k <= m.len(),
        pairs_table(m.take(k)) is None,
    ensures
        pairs_table(m) is None,
    decreases m.len() - k,
{
    if k < m.len() {
        assert(m.take(k + 1).drop_last() =~= m.take(k));
        lemma_pairs_table_none(m, k + 1);
    } else {
        assert(m.take(k) =~= m);
    }
}

proof fn lemma_texts_list_none(a: Seq<JsonV>, k: int)
    requires
        0 <= k <= a.len(),
        texts_list(a.take(k)) is None,
    ensures
        texts_list(a) is None,
    decreases a.len() - k,
{
    if k < a.len() {
        assert(a.take(k + 1).drop_last() =~= a.take(k));
        lemma_texts_list_none(a, k + 1);
    } else {
        assert(a.take(k) =~= a);
    }
}

/// Substitute `{{name}}` placeholders in `text` using a JSON object of
/// variables; malformed variables leave the text unchanged.
pub fn substitute_variables(text: &str, variables_json: &str) -> (r: String)
    ensures
        r@ == spec_substitute(text@, variables_json@),
{
    let tv = str_to_chars(text);
    if !has_vars_opener(&tv) {
        proof {
            lemma_no_opener(text@, variables_json@);
        }
        return text.to_owned();
    }
    match parse_json_str(variables_json) {
        Some(v) => match table_of_x(&v) {
            Some(t) => {
                let out = subst_chars(&tv, &t);
                chars_to_string(&out)
            },
            None => text.to_owned(),
        },
        None => text.to_owned(),
    }
}

/// Whether the text holds `{{` anywhere.
fn has_vars_opener(v: &Vec<char>) -> (r: bool)
    ensures
        r == exists|k: int| 0 <= k < v@.len() - 1 && v@[k] == '{' && #[trigger] v@[k + 1] == '{',
{
    let n: usize = v.len();
    if n < 2 {
        return false;
    }
    let mut i: usize = 0;
    while i < n - 1
        invariant
            i <= n - 1,
            n == v@.len(),
            2 <= n,
            forall|k: int| 0 <= k < i ==> !(v@[k] == '{' && #[trigger] v@[k + 1] == '{'),
        decreases n - i,
    {
        if v[i] == '{' && v[i + 1] == '{' {
            return true;
        }
        i = i + 1;
    }
    false
}

/// Without a `{{` opener, substitution is the identity, whatever the
/// variables look like.
proof fn lemma_no_opener(text: Seq<char>, vars_json: Seq<char>)
    requires
        !(exists|k: int| 0 <= k < text.len() - 1 && text[k] == '{' && #[trigger] text[k + 1]
            == '{'),
    ensures
        spec_substitute(text, vars_json) == text,
{
    assert(forall|k: int| 0 <= k < text.len() - 1 ==> !(text[k] == '{' && #[trigger] text[k + 1]
        == '{'));
    match spec_parse_json(vars_json) {
        Some(v) => match spec_table_of(v) {
            Some(t) => {
                lemma_subst_noop(text, 0, table_map(t));
                assert(text.subrange(0, text.len() as int) =~= text);
            },
            None => {},
        },
        None => {},
    }
}

/// The batch result: each text substituted independently, rendered as a
/// JSON array; an unparsable list yields `[]`, an unparsable table the
/// inputs verbatim.
pub open spec fn spec_substitute_batch(texts_json: Seq<char>, vars_json: Seq<char>) -> Seq<char> {
    match spec_parse_json(texts_json) {
        Some(tv) => match spec_texts_of(tv) {
            Some(texts) => match spec_parse_json(vars_json) {
                Some(v) => match spec_table_of(v) {
                    Some(t) => json_text(JsonV::Arr(strs_of(subst_each(texts, table_map(t))))),
                    None => json_text(JsonV::Arr(strs_of(texts))),
                },
                None => json_text(JsonV::Arr(strs_of(texts))),
            },
            None => "[]"@,
        },
        None => "[]"@,
    }
}

pub open spec fn subst_each(texts: Seq<Seq<char>>, m: Map<Seq<char>, Seq<char>>) -> Seq<Seq<char>> {
    texts.map_values(|t: Seq<char>| spec_subst(t, 0, m))
}

pub open spec fn strs_of(texts: Seq<Seq<char>>) -> Seq<JsonV> {
    texts.map_values(|t: Seq<char>| JsonV::Str(t))
}

/// Exec list extraction, mirroring `spec_texts_of`.
fn texts_of_x(v: &Json) -> (r: Option<Vec<Vec<char>>>)
    ensures
        match r {
            Some(t) => spec_texts_of(v@) == Some(t.deep_view()),
            None => spec_texts_of(v@) is None,
        },
{
    broadcast use crate::json::lemma_view_seq_len, crate::json::lemma_view_seq_index;

    match v {
        Json::Arr(a) => {
            let ghost va = view_seq(a@);
            let n: usize = a.len();
            let mut out: Vec<Vec<char>> = Vec::new();
            let mut i: usize = 0;
            proof {
                lemma_view_seq_len(a@);
                assert(va.take(0) =~= Seq::<JsonV>::empty());
                crate::subst::lemma_vv_deep(&out);
                assert(out.deep_view() =~~= Seq::<Seq<char>>::empty());
            }
            while i < n
                invariant
                    i <= n,
                    n == a@.len(),
                    va == view_seq(a@),
                    va.len() == n,
                    v@ == JsonV::Arr(va),
                    texts_list(va.take(i as int)) == Some(out.deep_view()),
                decreases n - i,
            {
                proof {
                    lemma_view_seq_index(a@, i as int);
                    assert(va.take(i + 1).drop_last() =~= va.take(i as int));
                    assert(va.take(i + 1).last() == va[i as int]);
                }
                match &a[i] {
                    Json::Str(t) => {
                        let mut c: Vec<char> = Vec::new();
                        crate::checks::append_chars(&mut c, t);
                        let ghost dv = out.deep_view();
                        out.push(c);
                        proof {
                            crate::subst::lemma_vv_deep(&out);
                            assert(out.deep_view() =~~= dv.push(va.take(i + 1).last()->Str_0));
                        }
                    },
                    _ => {
                        proof {
                            lemma_texts_list_none(va, i + 1);
                        }
                        return None;
                    },
                }
                i = i + 1;
            }
            proof {
                assert(va.take(n as int) =~= va);
            }
            Some(out)
        },
        _ => None,
    }
}

/// Substitute each text of a JSON array of strings, rendering the
/// results as a JSON array.
pub fn substitute_variables_batch(texts_json: &str, variables_json: &str) -> (r: String)
    ensures
        r@ == spec_substitute_batch(texts_json@, variables_json@),
{
    let parsed = match parse_json_str(texts_json) {
        Some(p) => p,
        None => {
            return lit_brackets();
        },
    };
    let texts = match texts_of_x(&parsed) {
        Some(t) => t,
        None => {
            return lit_brackets();
        },
    };
    let table: Option<Vec<(Vec<char>, Vec<char>)>> = match parse_json_str(variables_json) {
        Some(v) => table_of_x(&v),
        None => None,
    };
    let n: usize = texts.len();
    let mut items: Vec<Json> = Vec::new();
    let ghost goal: Seq<Seq<char>> = match &table {
        Some(t) => subst_each(texts.deep_view(), table_view(t@)),
        None => texts.deep_view(),
    };
    let mut i: usize = 0;
    proof {
        assert(view_seq(items@) =~= strs_of(goal).take(0));
        assert(goal.len() == n) by {
            crate::subst::lemma_vv_deep(&texts);
        }
    }
    while i < n
        invariant
            i <= n,
            n == texts@.len(),
            goal.len() == n,
            goal == (match &table {
                Some(t) => subst_each(texts.deep_view(), table_view(t@)),
                None => texts.deep_view(),
            }),
            view_seq(items@) == strs_of(goal).take(i as int),
        decreases n - i,
    {
        proof {
            crate::subst::lemma_vv_deep(&texts);
            assert(texts.deep_view()[i as int] == texts@[i as int]@);
        }
        let one: Vec<char> = match &table {
            Some(t) => subst_chars(&texts[i], t),
            None => {
                let mut c: Vec<char> = Vec::new();
                crate::checks::append_chars(&mut c, &texts[i]);
                c
            },
        };
        assert(one@ == goal[i as int]);
        let ghost onev = one@;
        let ghost items0 = items@;
        items.push(Json::Str(one));
        proof {
            assert(items@.drop_last() =~= items0);
            assert(items@.last() =~= Json::Str(one));
            assert(jview(items@.last()) == JsonV::Str(onev));
            assert(view_seq(items@) == view_seq(items0).push(JsonV::Str(onev)));
            assert(strs_of(goal)[i as int] == JsonV::Str(goal[i as int]));
            assert(view_seq(items@) =~= strs_of(goal).take(i + 1));
        }
        i = i + 1;
    }
    proof {
        assert(strs_of(goal).take(n as int) =~= strs_of(goal));
    }
    let arr = Json::Arr(items);
    let out = to_compact(&arr);
    chars_to_string(&out)
}

/// The literal empty-list rendering.
fn lit_brackets() -> (r: String)
    ensures
        r@ == "[]"@,
{
    "[]".to_owned()
}

/// The ordered, de-duplicated placeholder names, as a JSON array.
pub open spec fn spec_find_variables(text: Seq<char>) -> Seq<char> {
    json_text(JsonV::Arr(strs_of(spec_find_vars(text))))
}

pub fn find_variables(text: &str) -> (r: String)
    ensures
        r@ == spec_find_variables(text@),
{
    let tv = str_to_chars(text);
    let names = find_vars_chars(&tv);
    let ghost goal = spec_find_vars(text@);
    let n: usize = names.len();
    let mut items: Vec<Json> = Vec::new();
    let mut i: usize = 0;
    proof {
        crate::subst::lemma_vv_deep(&names);
        assert(view_seq(items@) =~= strs_of(goal).take(0));
    }
    while i < n
        invariant
            i <= n,
            n == names@.len(),
            goal == names.deep_view(),
            goal.len() == n,
            view_seq(items@) == strs_of(goal).take(i as int),
        decreases n - i,
    {
        proof {
            crate::subst::lemma_vv_deep(&names);
            assert(names.deep_view()[i as int] == names@[i as int]@);
        }
        let mut c: Vec<char> = Vec::new();
        crate::checks::append_chars(&mut c, &names[i]);
        let ghost onev = c@;
        let ghost items0 = items@;
        items.push(Json::Str(c));
        proof {
            assert(items@.drop_last() =~= items0);
            assert(jview(items@.last()) == JsonV::Str(onev));
            assert(view_seq(items@) == view_seq(items0).push(JsonV::Str(onev)));
            assert(strs_of(goal)[i as int] == JsonV::Str(goal[i as int]));
            assert(view_seq(items@) =~= strs_of(goal).take(i + 1));
        }
        i = i + 1;
    }
    proof {
        assert(strs_of(goal).take(n as int) =~= strs_of(goal));
    }
    let arr = Json::Arr(items);
    let out = to_compact(&arr);
    chars_to_string(&out)
}

/// Whether the text holds at least one well-formed placeholder.
pub fn has_variables(text: &str) -> (r: bool)
    ensures
        r == spec_has_var(text@, 0),
{
    let tv = str_to_chars(text);
    has_vars_chars(&tv)
}

// ------------------------------------------------------------------
// JSON navigation and introspection
// ------------------------------------------------------------------

/// What extraction returns: the canonical text of the resolved node, or
/// the sentinel `undefined` for an unparsable document or a path that
/// does not resolve.
pub open spec fn spec_json_extract(doc: Seq<char>, path: Seq<char>) -> Seq<char> {
    match spec_parse_json(doc) {
        Some(v) => match spec_resolve(v, path) {
            Some(node) => json_text(node),
            None => "undefined"@,
        },
        None => "undefined"@,
    }
}

pub fn json_extract(json_str: &str, path: &str) -> (r: String)
    ensures
        r@ == spec_json_extract(json_str@, path@),
{
    match parse_json_str(json_str) {
        Some(doc) => {
            let pv = str_to_chars(path);
            match resolve_path(&doc, &pv) {
                Some(node) => {
                    let out = to_compact(node);
                    chars_to_string(&out)
                },
                None => "undefined".to_owned(),
            }
        },
        None => "undefined".to_owned(),
    }
}

/// The batch extraction result: an object mapping each resolvable path
/// to its value, unresolvable paths left out; `{}` when either input
/// fails to parse.
/// Pairs accumulated left to right, later repeats of a path winning.
pub open spec fn batch_fold(doc: JsonV, paths: Seq<Seq<char>>, i: int, acc: Seq<
    (Seq<char>, JsonV)>) -> Seq<(Seq<char>, JsonV)>
    decreases paths.len() - i,
{
    if !(0 <= i < paths.len()) {
        acc
    } else {
        match spec_resolve(doc, paths[i]) {
            Some(v) => batch_fold(doc, paths, i + 1, obj_insert(acc, paths[i], v)),
            None => batch_fold(doc, paths, i + 1, acc),
        }
    }
}

pub open spec fn spec_json_extract_batch(doc: Seq<char>, paths_json: Seq<char>) -> Seq<char> {
    match spec_parse_json(doc) {
        Some(v) => match spec_parse_json(paths_json) {
            Some(pv) => match spec_texts_of(pv) {
                Some(paths) => json_text(JsonV::Obj(batch_fold(v, paths, 0, Seq::empty()))),
                None => "{}"@,
            },
            None => "{}"@,
        },
        None => "{}"@,
    }
}

pub fn json_extract_batch(json_str: &str, paths_json: &str) -> (r: String)
    ensures
        r@ == spec_json_extract_batch(json_str@, paths_json@),
{
    let doc = match parse_json_str(json_str) {
        Some(d) => d,
        None => {
            return lit_braces();
        },
    };
    let paths = match parse_json_str(paths_json) {
        Some(p) => match texts_of_x(&p) {
            Some(t) => t,
            None => {
                return lit_braces();
            },
        },
        None => {
            return lit_braces();
        },
    };
    let ghost pathsv = paths.deep_view();
    let n: usize = paths.len();
    let mut acc: Vec<(Vec<char>, Json)> = Vec::new();
    let mut i: usize = 0;
    proof {
        crate::subst::lemma_vv_deep(&paths);
        assert(view_pairs(acc@) =~= Seq::<(Seq<char>, JsonV)>::empty());
    }
    while i < n
        invariant
            i <= n,
            n == paths@.len(),
            pathsv == paths.deep_view(),
            pathsv.len() == n,
            batch_fold(doc@, pathsv, 0, Seq::empty()) == batch_fold(doc@, pathsv, i as int,
                view_pairs(acc@)),
        decreases n - i,
    {
        proof {
            crate::subst::lemma_vv_deep(&paths);
            assert(pathsv[i as int] == paths@[i as int]@);
        }
        let ghost acc0 = view_pairs(acc@);
        match resolve_path(&doc, &paths[i]) {
            Some(node) => {
                let owned = json_clone(node);
                let mut k: Vec<char> = Vec::new();
                crate::checks::append_chars(&mut k, &paths[i]);
                acc = obj_insert_x(acc, k, owned);
                proof {
                    assert(view_pairs(acc@) == obj_insert(acc0, pathsv[i as int], node@));
                    assert(batch_fold(doc@, pathsv, i as int, acc0) == batch_fold(doc@, pathsv,
                        i + 1, view_pairs(acc@)));
                }
            },
            None => {
                proof {
                    assert(batch_fold(doc@, pathsv, i as int, acc0) == batch_fold(doc@, pathsv,
                        i + 1, view_pairs(acc@)));
                }
            },
        }
        i = i + 1;
    }
    proof {
        assert(batch_fold(doc@, pathsv, n as int, view_pairs(acc@)) == view_pairs(acc@));
    }
    let obj = Json::Obj(acc);
    let out = to_compact(&obj);
    chars_to_string(&out)
}

fn lit_braces() -> (r: String)
    ensures
        r@ == "{}"@,
{
    "{}".to_owned()
}

/// Pretty form of a document, or the input unchanged when it does not
/// parse.
pub open spec fn spec_json_format(s: Seq<char>) -> Seq<char> {
    match spec_parse_json(s) {
        Some(v) => json_pretty(v),
        None => s,
    }
}

pub fn json_format(json_str: &str) -> (r: String)
    ensures
        r@ == spec_json_format(json_str@),
{
    match parse_json_str(json_str) {
        Some(v) => {
            let out = to_pretty(&v);
            chars_to_string(&out)
        },
        None => json_str.to_owned(),
    }
}

/// Compact form of a document, or the input unchanged when it does not
/// parse.
pub open spec fn spec_json_minify(s: Seq<char>) -> Seq<char> {
    match spec_parse_json(s) {
        Some(v) => json_text(v),
        None => s,
    }
}

pub fn json_minify(json_str: &str) -> (r: String)
    ensures
        r@ == spec_json_minify(json_str@),
{
    match parse_json_str(json_str) {
        Some(v) => {
            let out = to_compact(&v);
            chars_to_string(&out)
        },
        None => json_str.to_owned(),
    }
}

/// Whether the text is a valid JSON document.
pub fn json_validate(json_str: &str) -> (r: bool)
    ensures
        r == (spec_parse_json(json_str@) is Some),
{
    match parse_json_str(json_str) {
        Some(_) => true,
        None => false,
    }
}

// ------------------------------------------------------------------
// Introspection
// ------------------------------------------------------------------

/// The members of the info object for a document that parsed.
pub open spec fn info_pairs(size: int, v: JsonV) -> Seq<(Seq<char>, JsonV)> {
    seq![
        ("depth"@, JsonV::Num(spec_dec_u(spec_depth(v) as nat))),
        ("keys"@, JsonV::Num(spec_dec_u(obj_count(v) as nat))),
        ("length"@, JsonV::Num(spec_dec_u(arr_count(v) as nat))),
        ("size"@, JsonV::Num(spec_dec_u(size as nat))),
        ("type"@, JsonV::Str(spec_type_name(v))),
        ("valid"@, JsonV::Bool(true)),
    ]
}

pub open spec fn obj_count(v: JsonV) -> int {
    match v {
        JsonV::Obj(m) => m.len() as int,
        _ => 0int,
    }
}

pub open spec fn arr_count(v: JsonV) -> int {
    match v {
        JsonV::Arr(a) => a.len() as int,
        _ => 0int,
    }
}

/// The info record: validity and byte size always, and kind, depth and
/// member counts when the document parses.
pub open spec fn spec_json_info(s: Seq<char>, size: int) -> Seq<char> {
    match spec_parse_json(s) {
        Some(v) => json_text(JsonV::Obj(info_pairs(size, v))),
        None => json_text(JsonV::Obj(seq![
            ("size"@, JsonV::Num(spec_dec_u(size as nat))),
            ("valid"@, JsonV::Bool(false)),
        ])),
    }
}

fn num_of_u64(n: u64) -> (r: Json)
    ensures
        jview(r) == JsonV::Num(spec_dec_u(n as nat)),
{
    let mut t: Vec<char> = Vec::new();
    push_dec_u64(&mut t, n);
    assert(t@ =~= spec_dec_u(n as nat));
    Json::Num(t)
}

pub fn json_info(json_str: &str) -> (r: String)
    ensures
        r@ == spec_json_info(json_str@, ((json_str.spec_bytes().len() as usize) as int)),
{
    let size: usize = json_str.len();
    match parse_json_str(json_str) {
        Some(v) => {
            let mut pairs: Vec<(Vec<char>, Json)> = Vec::new();
            let d: u64 = depth_x(&v);
            pairs.push((str_to_chars("depth"), num_of_u64(d)));
            let kc: u64 = match &v {
                Json::Obj(m) => m.len() as u64,
                _ => 0u64,
            };
            proof {
                match &v {
                    Json::Obj(m) => {
                        lemma_view_pairs_len(m@);
                    },
                    _ => {},
                }
            }
            assert(kc as int == obj_count(v@));
            pairs.push((str_to_chars("keys"), num_of_u64(kc)));
            let lc: u64 = match &v {
                Json::Arr(a) => a.len() as u64,
                _ => 0u64,
            };
            proof {
                match &v {
                    Json::Arr(a) => {
                        lemma_view_seq_len(a@);
                    },
                    _ => {},
                }
            }
            assert(lc as int == arr_count(v@));
            pairs.push((str_to_chars("length"), num_of_u64(lc)));
            pairs.push((str_to_chars("size"), num_of_u64(size as u64)));
            pairs.push((str_to_chars("type"), Json::Str(type_name_x(&v))));
            pairs.push((str_to_chars("valid"), Json::Bool(true)));
            proof {
                lemma_view_pairs_len(pairs@);
                lemma_view_pairs_index(pairs@, 0);
                lemma_view_pairs_index(pairs@, 1);
                lemma_view_pairs_index(pairs@, 2);
                lemma_view_pairs_index(pairs@, 3);
                lemma_view_pairs_index(pairs@, 4);
                lemma_view_pairs_index(pairs@, 5);
                assert(view_pairs(pairs@) =~= info_pairs(size as int, v@));
            }
            let obj = Json::Obj(pairs);
            let out = to_compact(&obj);
            chars_to_string(&out)
        },
        None => {
            let mut pairs: Vec<(Vec<char>, Json)> = Vec::new();
            pairs.push((str_to_chars("size"), num_of_u64(size as u64)));
            pairs.push((str_to_chars("valid"), Json::Bool(false)));
            proof {
                lemma_view_pairs_len(pairs@);
                lemma_view_pairs_index(pairs@, 0);
                lemma_view_pairs_index(pairs@, 1);
                assert(view_pairs(pairs@) =~= seq![
                    ("size"@, JsonV::Num(spec_dec_u(size as nat))),
                    ("valid"@, JsonV::Bool(false)),
                ]);
            }
            let obj = Json::Obj(pairs);
            let out = to_compact(&obj);
            chars_to_string(&out)
        },
    }
}

// ------------------------------------------------------------------
// Assertion evaluation over serialized inputs
// ------------------------------------------------------------------

/// The member of an object under `name`.
pub open spec fn field_of(m: Seq<(Seq<char>, JsonV)>, name: Seq<char>) -> Option<JsonV> {
    if find_key(m, name) >= 0 {
        Some(m[find_key(m, name)].1)
    } else {
        None
    }
}

pub open spec fn str_field(m: Seq<(Seq<char>, JsonV)>, name: Seq<char>) -> Option<Seq<char>> {
    match field_of(m, name) {
        Some(JsonV::Str(s)) => Some(s),
        _ => None,
    }
}

pub open spec fn bool_field(m: Seq<(Seq<char>, JsonV)>, name: Seq<char>) -> Option<bool> {
    match field_of(m, name) {
        Some(JsonV::Bool(b)) => Some(b),
        _ => None,
    }
}

/// The integer a number token denotes, if it has no fraction and no
/// exponent and fits a signed 64-bit value.
pub open spec fn int_of_token(t: Seq<char>) -> Option<int> {
    if !num_has_frac(t) && !num_has_exp(t) {
        spec_parse_i64(t)
    } else {
        None
    }
}

pub open spec fn int_field(m: Seq<(Seq<char>, JsonV)>, name: Seq<char>, lo: int, hi: int) ->
    Option<int> {
    match field_of(m, name) {
        Some(JsonV::Num(t)) => match int_of_token(t) {
            Some(v) => if lo <= v <= hi {
                Some(v)
            } else {
                None
            },
            None => None,
        },
        _ => None,
    }
}

/// One assertion read off an object: five string fields and a boolean.
pub open spec fn spec_assertion_of(v: JsonV) -> Option<AssertionV> {
    match v {
        JsonV::Obj(m) => {
            if str_field(m, "id"@) is Some && str_field(m, "type"@) is Some && str_field(
                m, "property"@) is Some && str_field(m, "operator"@) is Some && str_field(
                m, "expected"@) is Some && bool_field(m, "enabled"@) is Some {
                Some(AssertionV {
                    id: str_field(m, "id"@)->0,
                    kind: str_field(m, "type"@)->0,
                    property: str_field(m, "property"@)->0,
                    operator: str_field(m, "operator"@)->0,
                    expected: str_field(m, "expected"@)->0,
                    enabled: bool_field(m, "enabled"@)->0,
                })
            } else {
                None
            }
        },
        _ => None,
    }
}

pub open spec fn spec_assertions_of(a: Seq<JsonV>) -> Option<Seq<AssertionV>>
    decreases a.len(),
{
    if a.len() == 0 {
        Some(Seq::empty())
    } else {
        match spec_assertions_of(a.drop_last()) {
            Some(t) => match spec_assertion_of(a.last()) {
                Some(one) => Some(t.push(one)),
                None => None,
            },
            None => None,
        }
    }
}

/// The response read off an object: status and timing as integers,
/// headers as a string table, and the raw body.
pub open spec fn spec_response_of(v: JsonV) -> Option<ResponseV> {
    match v {
        JsonV::Obj(m) => {
            let st = int_field(m, "statusCode"@, i32::MIN as int, i32::MAX as int);
            let tm = int_field(m, "timingMs"@, i64::MIN as int, i64::MAX as int);
            let bd = str_field(m, "body"@);
            let hd = match field_of(m, "headers"@) {
                Some(JsonV::Obj(hm)) => pairs_table(hm),
                _ => None,
            };
            if st is Some && tm is Some && bd is Some && hd is Some {
                Some(ResponseV {
                    status: st->0,
                    headers: hd->0,
                    body: bd->0,
                    timing: tm->0,
                })
            } else {
                None
            }
        },
        _ => None,
    }
}

pub open spec fn result_json(r: ResultV) -> JsonV {
    JsonV::Obj(seq![
        ("assertionId"@, JsonV::Str(r.id)),
        ("passed"@, JsonV::Bool(r.passed)),
        ("actual"@, JsonV::Str(r.actual)),
        ("message"@, JsonV::Str(r.message)),
    ])
}

pub open spec fn results_json(rs: Seq<ResultV>) -> Seq<JsonV> {
    rs.map_values(|r: ResultV| result_json(r))
}

/// The whole evaluation over serialized inputs: `[]` when either input
/// does not deserialize, else one verdict per assertion, in order.
pub open spec fn spec_run_assertions(aj: Seq<char>, rj: Seq<char>) -> Seq<char> {
    match spec_parse_json(aj) {
        Some(JsonV::Arr(items)) => match spec_assertions_of(items) {
            Some(defs) => match spec_parse_json(rj) {
                Some(rv) => match spec_response_of(rv) {
                    Some(resp) => json_text(JsonV::Arr(results_json(spec_run_list_v(defs, resp,
                        spec_parse_json(resp.body))))),
                    None => "[]"@,
                },
                None => "[]"@,
            },
            None => "[]"@,
        },
        _ => "[]"@,
    }
}

/// Verdicts for a list of assertion views.
pub open spec fn spec_run_list_v(l: Seq<AssertionV>, resp: ResponseV, body: Option<JsonV>) -> Seq<
    ResultV>
    decreases l.len(),
{
    if l.len() == 0 {
        Seq::empty()
    } else {
        spec_run_list_v(l.drop_last(), resp, body).push(spec_single(l.last(), resp, body))
    }
}

/// The member of an object under a literal name.
#[verifier::loop_isolation(false)]
fn get_field<'a>(m: &'a Vec<(Vec<char>, Json)>, name: &str) -> (r: Option<&'a Json>)
    ensures
        match r {
            Some(v) => field_of(view_pairs(m@), name@) == Some(v@),
            None => field_of(view_pairs(m@), name@) is None,
        },
{
    let ghost vm = view_pairs(m@);
    let key = str_to_chars(name);
    proof {
        lemma_view_pairs_len(m@);
        lemma_find_key_first(vm, name@);
    }
    let n: usize = m.len();
    let mut j: usize = 0;
    while j < n
        invariant
            j <= n,
            forall|k: int| 0 <= k < j ==> (#[trigger] vm[k]).0 != name@,
        decreases n - j,
    {
        proof {
            lemma_view_pairs_index(m@, j as int);
        }
        if chars_eq(&m[j].0, &key) {
            proof {
                lemma_find_key_first(vm, name@);
                assert(vm[j as int].0 == name@);
                if find_key(vm, name@) == -1 {
                    assert(vm[j as int].0 != name@);
                }
                assert(!(find_key(vm, name@) < (j as int))) by {
                    if 0 <= find_key(vm, name@) && find_key(vm, name@) < (j as int) {
                        assert(vm[find_key(vm, name@)].0 == name@);
                    }
                }
                assert(!((j as int) < find_key(vm, name@))) by {
                    if (j as int) < find_key(vm, name@) {
                        assert(vm[j as int].0 != name@);
                    }
                }
            }
            return Some(&m[j].1);
        }
        j = j + 1;
    }
    proof {
        if find_key(vm, name@) >= 0 {
            assert(vm[find_key(vm, name@)].0 == name@);
        }
    }
    None
}

/// A string field as owned text.
fn get_str_field(m: &Vec<(Vec<char>, Json)>, name: &str) -> (r: Option<String>)
    ensures
        match r {
            Some(v) => str_field(view_pairs(m@), name@) == Some(v@),
            None => str_field(view_pairs(m@), name@) is None,
        },
{
    match get_field(m, name) {
        Some(f) => match f {
            Json::Str(t) => Some(chars_to_string(t)),
            _ => None,
        },
        None => None,
    }
}

/// The integer a well-shaped number token denotes, if it is plain.
fn int_of_token_x(t: &Vec<char>) -> (r: Option<i64>)
    requires
        num_token_wf(t@),
    ensures
        match r {
            Some(v) => int_of_token(t@) == Some(v as int),
            None => int_of_token(t@) is None,
        },
{
    let n: usize = t.len();
    proof {
        if n == 0 {
            assert(digits_end(t@, 0) == 0);
            assert(false);
        }
    }
    let sp: usize = if t[0] == '-' { 1 } else { 0 };
    let ie = digits_run_pub(t, sp);
    assert(ie as int == num_ie(t@));
    let has_frac: bool = ie < n && t[ie] == '.';
    assert(has_frac == num_has_frac(t@));
    if has_frac {
        return None;
    }
    let fe = ie;
    assert(fe as int == num_fe(t@));
    let has_exp: bool = fe < n && (t[fe] == 'e' || t[fe] == 'E');
    assert(has_exp == num_has_exp(t@));
    if has_exp {
        return None;
    }
    parse_i64_chars(t)
}

/// An integer field within bounds.
fn get_int_field(m: &Vec<(Vec<char>, Json)>, name: &str, lo: i64, hi: i64) -> (r: Option<i64>)
    requires
        wf_pairs(view_pairs(m@)),
    ensures
        match r {
            Some(v) => int_field(view_pairs(m@), name@, lo as int, hi as int) == Some(v as int),
            None => int_field(view_pairs(m@), name@, lo as int, hi as int) is None,
        },
{
    match get_field(m, name) {
        Some(f) => match f {
            Json::Num(t) => {
                proof {
                    let vm = view_pairs(m@);
                    lemma_find_key_first(vm, name@);
                    if find_key(vm, name@) >= 0 {
                        lemma_wf_pairs_index(vm, find_key(vm, name@));
                    }
                }
                match int_of_token_x(t) {
                    Some(v) => if lo <= v && v <= hi {
                        Some(v)
                    } else {
                        None
                    },
                    None => None,
                }
            },
            _ => None,
        },
        None => None,
    }
}

/// One assertion read off an object value.
fn assertion_of_x(v: &Json) -> (r: Option<AssertionDef>)
    ensures
        match r {
            Some(a) => spec_assertion_of(v@) == Some(a@),
            None => spec_assertion_of(v@) is None,
        },
{
    match v {
        Json::Obj(m) => {
            let id = match get_str_field(m, "id") {
                Some(x) => x,
                None => {
                    return None;
                },
            };
            let kind = match get_str_field(m, "type") {
                Some(x) => x,
                None => {
                    return None;
                },
            };
            let property = match get_str_field(m, "property") {
                Some(x) => x,
                None => {
                    return None;
                },
            };
            let operator = match get_str_field(m, "operator") {
                Some(x) => x,
                None => {
                    return None;
                },
            };
            let expected = match get_str_field(m, "expected") {
                Some(x) => x,
                None => {
                    return None;
                },
            };
            let enabled = match get_field(m, "enabled") {
                Some(f) => match f {
                    Json::Bool(b) => *b,
                    _ => {
                        return None;
                    },
                },
                None => {
                    return None;
                },
            };
            Some(AssertionDef { id, kind, property, operator, expected, enabled })
        },
        _ => None,
    }
}

/// The response read off an object value.
fn response_of_x(v: &Json) -> (r: Option<ResponseData>)
    requires
        wf(v@),
    ensures
        match r {
            Some(d) => spec_response_of(v@) == Some(d@),
            None => spec_response_of(v@) is None,
        },
{
    match v {
        Json::Obj(m) => {
            proof {
                assert(wf_pairs(view_pairs(m@)));
            }
            let status = match get_int_field(m, "statusCode", i32::MIN as i64, i32::MAX as i64) {
                Some(x) => x as i32,
                None => {
                    return None;
                },
            };
            let timing = match get_int_field(m, "timingMs", i64::MIN, i64::MAX) {
                Some(x) => x,
                None => {
                    return None;
                },
            };
            let body = match get_str_field(m, "body") {
                Some(x) => x,
                None => {
                    return None;
                },
            };
            let headers = match get_field(m, "headers") {
                Some(f) => match f {
                    Json::Obj(hm) => {
                        match table_of_strings(hm) {
                            Some(h) => h,
                            None => {
                                return None;
                            },
                        }
                    },
                    _ => {
                        return None;
                    },
                },
                None => {
                    return None;
                },
            };
            let d = ResponseData { status_code: status, headers, body, timing_ms: timing };
            proof {
                assert(headers_view(d.headers@) =~= spec_response_of(v@)->0.headers);
            }
            Some(d)
        },
        _ => None,
    }
}

/// A string table as owned strings, in member order.
fn table_of_strings(m: &Vec<(Vec<char>, Json)>) -> (r: Option<Vec<(String, String)>>)
    ensures
        match r {
            Some(t) => pairs_table(view_pairs(m@)) matches Some(st) && headers_view(t@) =~= st,
            None => pairs_table(view_pairs(m@)) is None,
        },
{
    broadcast use crate::json::lemma_view_pairs_len, crate::json::lemma_view_pairs_index;

    let ghost vm = view_pairs(m@);
    let n: usize = m.len();
    let mut out: Vec<(String, String)> = Vec::new();
    let mut i: usize = 0;
    proof {
        lemma_view_pairs_len(m@);
        assert(vm.take(0) =~= Seq::<(Seq<char>, JsonV)>::empty());
        assert(headers_view(out@) =~= Seq::<(Seq<char>, Seq<char>)>::empty());
    }
    while i < n
        invariant
            i <= n,
            n == m@.len(),
            vm == view_pairs(m@),
            vm.len() == n,
            pairs_table(vm.take(i as int)) matches Some(st) && headers_view(out@) == st,
        decreases n - i,
    {
        proof {
            lemma_view_pairs_index(m@, i as int);
            assert(vm.take(i + 1).drop_last() =~= vm.take(i as int));
            assert(vm.take(i + 1).last() == vm[i as int]);
        }
        match &m[i].1 {
            Json::Str(val) => {
                let k = chars_to_string(&m[i].0);
                let w = chars_to_string(val);
                let ghost outs = out@;
                out.push((k, w));
                proof {
                    assert(vm[i as int].1 == JsonV::Str(val@));
                    let st0 = pairs_table(vm.take(i as int))->0;
                    assert(pairs_table(vm.take(i + 1))->0 == st0.push((vm[i as int].0, val@)));
                    assert(headers_view(out@) =~= headers_view(outs).push((vm[i as int].0,
                        val@)));
                }
            },
            _ => {
                proof {
                    lemma_pairs_table_none(vm, i + 1);
                }
                return None;
            },
        }
        i = i + 1;
    }
    proof {
        assert(vm.take(n as int) =~= vm);
    }
    Some(out)
}

/// Every assertion of a serialized list evaluated against a serialized
/// response; either failing to deserialize yields the empty list.
#[verifier::loop_isolation(false)]
pub fn run_assertions(assertions_json: &str, response_json: &str) -> (r: String)
    ensures
        r@ == spec_run_assertions(assertions_json@, response_json@),
{
    broadcast use crate::json::lemma_view_seq_len, crate::json::lemma_view_seq_index;

    let parsed = match parse_json_str(assertions_json) {
        Some(p) => p,
        None => {
            return lit_brackets();
        },
    };
    let items = match parsed {
        Json::Arr(items) => items,
        _ => {
            return lit_brackets();
        },
    };
    let ghost itemsv = view_seq(items@);
    let n: usize = items.len();
    let mut defs: Vec<AssertionDef> = Vec::new();
    let mut i: usize = 0;
    proof {
        lemma_view_seq_len(items@);
        assert(itemsv.take(0) =~= Seq::<JsonV>::empty());
        assert(defs_view(defs@) =~= Seq::<AssertionV>::empty());
    }
    while i < n
        invariant
            i <= n,
            n == items@.len(),
            itemsv == view_seq(items@),
            itemsv.len() == n,
            spec_assertions_of(itemsv.take(i as int)) == Some(defs_view(defs@)),
        decreases n - i,
    {
        proof {
            lemma_view_seq_index(items@, i as int);
            assert(itemsv.take(i + 1).drop_last() =~= itemsv.take(i as int));
            assert(itemsv.take(i + 1).last() == itemsv[i as int]);
        }
        match assertion_of_x(&items[i]) {
            Some(a) => {
                let ghost defs0 = defs@;
                defs.push(a);
                proof {
                    assert(defs@.drop_last() =~= defs0);
                }
            },
            None => {
                proof {
                    lemma_assertions_of_none(itemsv, i + 1);
                }
                return lit_brackets();
            },
        }
        i = i + 1;
    }
    proof {
        assert(itemsv.take(n as int) =~= itemsv);
    }
    let rparsed = match parse_json_str(response_json) {
        Some(p) => p,
        None => {
            return lit_brackets();
        },
    };
    let resp = match response_of_x(&rparsed) {
        Some(d) => d,
        None => {
            return lit_brackets();
        },
    };
    let results = run_assertion_list(&defs, &resp);
    let ghost rs = spec_run_list(defs_view(defs@), resp@, spec_parse_json(resp@.body));
    proof {
        lemma_run_lists_agree(defs_view(defs@), resp@, spec_parse_json(resp@.body));
    }
    let rn: usize = results.len();
    let mut out_items: Vec<Json> = Vec::new();
    let mut k: usize = 0;
    proof {
        lemma_results_view_len(results@);
        assert(view_seq(out_items@) =~= results_json(rs).take(0));
    }
    while k < rn
        invariant
            k <= rn,
            rn == results@.len(),
            rs == results_view(results@),
            rs.len() == rn,
            view_seq(out_items@) == results_json(rs).take(k as int),
        decreases rn - k,
    {
        proof {
            lemma_results_view_index(results@, k as int);
        }
        let one = &results[k];
        let mut pairs: Vec<(Vec<char>, Json)> = Vec::new();
        pairs.push((str_to_chars("assertionId"), Json::Str(str_to_chars(
            one.assertion_id.as_str()))));
        pairs.push((str_to_chars("passed"), Json::Bool(one.passed)));
        pairs.push((str_to_chars("actual"), Json::Str(str_to_chars(one.actual.as_str()))));
        pairs.push((str_to_chars("message"), Json::Str(str_to_chars(one.message.as_str()))));
        proof {
            lemma_view_pairs_len(pairs@);
            lemma_view_pairs_index(pairs@, 0);
            lemma_view_pairs_index(pairs@, 1);
            lemma_view_pairs_index(pairs@, 2);
            lemma_view_pairs_index(pairs@, 3);
            assert(view_pairs(pairs@) =~= (result_json(rs[k as int]))->Obj_0);
        }
        let ghost oi0 = out_items@;
        out_items.push(Json::Obj(pairs));
        proof {
            assert(out_items@.drop_last() =~= oi0);
            assert(jview(out_items@.last()) == result_json(rs[k as int]));
            assert(results_json(rs)[k as int] == result_json(rs[k as int]));
            assert(view_seq(out_items@) =~= results_json(rs).take(k + 1));
        }
        k = k + 1;
    }
    proof {
        assert(results_json(rs).take(rn as int) =~= results_json(rs));
    }
    let arr = Json::Arr(out_items);
    let out = to_compact(&arr);
    chars_to_string(&out)
}

proof fn lemma_assertions_of_none(a: Seq<JsonV>, k: int)
    requires
        0 <= k <= a.len(),
        spec_assertions_of(a.take(k)) is None,
    ensures
        spec_assertions_of(a) is None,
    decreases a.len() - k,
{
    if k < a.len() {
        assert(a.take(k + 1).drop_last() =~= a.take(k));
        lemma_assertions_of_none(a, k + 1);
    } else {
        assert(a.take(k) =~= a);
    }
}

/// The two list runners agree: they are the same recursion.
proof fn lemma_run_lists_agree(l: Seq<AssertionV>, resp: ResponseV, body: Option<JsonV>)
    ensures
        spec_run_list(l, resp, body) == spec_run_list_v(l, resp, body),
    decreases l.len(),
{
    if l.len() > 0 {
        lemma_run_lists_agree(l.drop_last(), resp, body);
    }
}

proof fn lemma_results_view_len(l: Seq<AssertionResult>)
    ensures
        results_view(l).len() == l.len(),
    decreases l.len(),
{
    if l.len() > 0 {
        lemma_results_view_len(l.drop_last());
    }
}

proof fn lemma_results_view_index(l: Seq<AssertionResult>, i: int)
    requires
        0 <= i < l.len(),
    ensures
        results_view(l)[i] == l[i]@,
    decreases l.len(),
{
    lemma_results_view_len(l);
    if l.len() > 0 {
        lemma_results_view_len(l.drop_last());
        if i < l.len() - 1 {
            lemma_results_view_index(l.drop_last(), i);
            assert(l.drop_last()[i] == l[i]);
        }
    }
}

} // verus!
