//! Properties the engines keep, stated and proved once over the same
//! spec functions the public contracts use.
use vstd::prelude::*;
use crate::json::{JsonV, spec_depth, depth_seq, depth_pairs, json_text};
use crate::jparse::spec_parse_json;
use crate::path::spec_resolve;
use crate::api::spec_json_extract;
use crate::text::{lower_seq, contains_seq, contains_at};
use crate::checks::{AssertionV, ResponseV, spec_single, header_find};

verus! {

broadcast use vstd::seq::group_seq_axioms;

pub open spec fn is_scalar(v: JsonV) -> bool {
    match v {
        JsonV::Null => true,
        JsonV::Bool(_) => true,
        JsonV::Num(_) => true,
        JsonV::Str(_) => true,
        _ => false,
    }
}

proof fn lemma_depth_seq_const(a: Seq<JsonV>, d: int)
    requires
        a.len() > 0,
        d >= 0,
        forall|i: int| 0 <= i < a.len() ==> spec_depth(#[trigger] a[i]) == d,
    ensures
        depth_seq(a) == d,
    decreases a,
{
    assert(forall|i: int| 0 <= i < a.len() - 1 ==> #[trigger] a.drop_last()[i] == a[i]);
    assert(a.last() == a[a.len() - 1]);
    if a.len() == 1 {
        assert(a.drop_last() =~= Seq::<JsonV>::empty());
        assert(depth_seq(a.drop_last()) == 0);
    } else {
        lemma_depth_seq_const(a.drop_last(), d);
    }
}

proof fn lemma_depth_pairs_const(m: Seq<(Seq<char>, JsonV)>, d: int)
    requires
        m.len() > 0,
        d >= 0,
        forall|i: int| 0 <= i < m.len() ==> spec_depth((#[trigger] m[i]).1) == d,
    ensures
        depth_pairs(m) == d,
    decreases m,
{
    assert(forall|i: int| 0 <= i < m.len() - 1 ==> #[trigger] m.drop_last()[i] == m[i]);
    assert(m.last() == m[m.len() - 1]);
    if m.len() == 1 {
        assert(m.drop_last() =~= Seq::<(Seq<char>, JsonV)>::empty());
        assert(depth_pairs(m.drop_last()) == 0);
    } else {
        lemma_depth_pairs_const(m.drop_last(), d);
    }
}

/// A container whose own children are all scalars.
pub open spec fn is_flat(v: JsonV) -> bool {
    match v {
        JsonV::Arr(a) => forall|i: int| 0 <= i < a.len() ==> is_scalar(#[trigger] a[i]),
        JsonV::Obj(m) => forall|i: int| 0 <= i < m.len() ==> is_scalar((#[trigger] m[i]).1),
        _ => false,
    }
}

/// Depth by shape: a scalar has depth 0, an array or object of scalars
/// (the empty one included) depth 1, and one whose children are
/// containers of scalars depth 2.
pub proof fn lemma_depth_shape(v: JsonV)
    ensures
        is_scalar(v) ==> spec_depth(v) == 0,
        is_flat(v) ==> spec_depth(v) == 1,
        v matches JsonV::Arr(a) && a.len() > 0 && (forall|i: int|
            0 <= i < a.len() ==> is_flat(#[trigger] a[i])) ==> spec_depth(v) == 2,
        v matches JsonV::Obj(m) && m.len() > 0 && (forall|i: int|
            0 <= i < m.len() ==> is_flat((#[trigger] m[i]).1)) ==> spec_depth(v) == 2,
    decreases v,
{
    match v {
        JsonV::Arr(a) => {
            if is_flat(v) {
                if a.len() == 0 {
                } else {
                    assert forall|i: int| 0 <= i < a.len() implies spec_depth(#[trigger] a[i])
                        == 0 by {
                        assert(is_scalar(a[i]));
                    }
                    lemma_depth_seq_const(a, 0);
                }
            } else if a.len() > 0 && (forall|i: int| 0 <= i < a.len() ==> is_flat(
                #[trigger] a[i])) {
                assert forall|i: int| 0 <= i < a.len() implies spec_depth(#[trigger] a[i])
                    == 1 by {
                    lemma_depth_shape(a[i]);
                }
                lemma_depth_seq_const(a, 1);
            }
        },
        JsonV::Obj(m) => {
            if is_flat(v) {
                if m.len() == 0 {
                } else {
                    assert forall|i: int| 0 <= i < m.len() implies spec_depth((#[trigger] m[i]).1)
                        == 0 by {
                        assert(is_scalar(m[i].1));
                    }
                    lemma_depth_pairs_const(m, 0);
                }
            } else if m.len() > 0 && (forall|i: int| 0 <= i < m.len() ==> is_flat(
                (#[trigger] m[i]).1)) {
                assert forall|i: int| 0 <= i < m.len() implies spec_depth((#[trigger] m[i]).1)
                    == 1 by {
                    lemma_depth_shape(m[i].1);
                }
                lemma_depth_pairs_const(m, 1);
            }
        },
        _ => {},
    }
}

/// A present null and an absent node render differently: extraction
/// yields the text `null` for the first and the sentinel `undefined`
/// for the second, and the two texts never coincide.
pub proof fn lemma_extract_null_vs_undefined(doc: Seq<char>, path: Seq<char>)
    ensures
        spec_parse_json(doc) matches Some(v) && spec_resolve(v, path) == Some(JsonV::Null)
            ==> spec_json_extract(doc, path) == "null"@,
        spec_parse_json(doc) matches Some(v) && spec_resolve(v, path) is None
            ==> spec_json_extract(doc, path) == "undefined"@,
        "null"@ != "undefined"@,
{
    reveal_strlit("null");
    reveal_strlit("undefined");
    assert(json_text(JsonV::Null) =~= "null"@);
    assert("null"@.len() != "undefined"@.len());
}

/// A disabled assertion passes with the fixed message, whatever its
/// type, operator and expected value say.
pub proof fn lemma_disabled_passes(a: AssertionV, resp: ResponseV, body: Option<JsonV>)
    requires
        !a.enabled,
    ensures
        spec_single(a, resp, body).passed,
        spec_single(a, resp, body).actual == Seq::<char>::empty(),
        spec_single(a, resp, body).message == "Skipped (disabled)"@,
{
}

/// An unrecognized assertion type fails, and its message carries the
/// offending type text.
pub proof fn lemma_unknown_type_fails(a: AssertionV, resp: ResponseV, body: Option<JsonV>)
    requires
        a.enabled,
        a.kind != "status"@,
        a.kind != "responseTime"@,
        a.kind != "bodyContains"@,
        a.kind != "bodyJson"@,
        a.kind != "headerExists"@,
        a.kind != "headerEquals"@,
    ensures
        !spec_single(a, resp, body).passed,
        contains_seq(spec_single(a, resp, body).message, a.kind),
{
    let msg = spec_single(a, resp, body).message;
    let off = "Unknown assertion type: "@.len() as int;
    assert(contains_at(msg, off, a.kind)) by {
        assert(msg.subrange(off, off + a.kind.len() as int) =~= a.kind);
    }
}

/// Header lookup is case-insensitive on the key: it cannot tell two
/// names apart that fold to the same letters, nor two header lists
/// whose stored names differ only in case.
pub proof fn lemma_header_lookup_case_insensitive(
    hs1: Seq<(Seq<char>, Seq<char>)>,
    hs2: Seq<(Seq<char>, Seq<char>)>,
    n1: Seq<char>,
    n2: Seq<char>,
)
    requires
        lower_seq(n1) == lower_seq(n2),
        hs1.len() == hs2.len(),
        forall|i: int| 0 <= i < hs1.len() ==> lower_seq((#[trigger] hs1[i]).0) == lower_seq(
            hs2[i].0) && hs1[i].1 == hs2[i].1,
    ensures
        header_find(hs1, n1) == header_find(hs2, n2),
    decreases hs1.len(),
{
    if hs1.len() > 0 {
        assert(hs1[0].1 == hs2[0].1);
        assert(forall|i: int| 0 <= i < hs1.len() - 1 ==> #[trigger] hs1.skip(1)[i] == hs1[i + 1]);
        assert(forall|i: int| 0 <= i < hs2.len() - 1 ==> #[trigger] hs2.skip(1)[i] == hs2[i + 1]);
        lemma_header_lookup_case_insensitive(hs1.skip(1), hs2.skip(1), n1, n2);
    }
}

} // verus!
