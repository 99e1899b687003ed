//! Dotted-path navigation of a JSON value: segments split on `.`, a
//! segment of the shape `key[index]` first selects the object field and
//! then the array element; any failure ends the whole resolution.
use vstd::prelude::*;
use crate::text::{is_digit_c, all_digits, digits_val, parse_usize_digits, chars_eq,
    lemma_digits_val_nonneg};
use crate::json::{Json, JsonV, jview, view_seq, view_pairs, wf, wf_seq, wf_pairs,
    lemma_view_seq_len, lemma_view_seq_index, lemma_view_pairs_len, lemma_view_pairs_index,
    lemma_wf_seq_index, lemma_wf_pairs_index};
use crate::jparse::{find_key, lemma_find_key_first};

verus! {

broadcast use vstd::seq::group_seq_axioms, vstd::std_specs::vec::group_vec_axioms;

/// First `.` at or after `i`, or the length.
pub open spec fn first_dot(s: Seq<char>, i: int) -> int
    decreases s.len() - i,
{
    if 0 <= i < s.len() {
        if s[i] == '.' {
            i
        } else {
            first_dot(s, i + 1)
        }
    } else {
        i
    }
}

/// Last `[` strictly inside `[lo, hi)`, or `lo - 1`.
pub open spec fn last_open(s: Seq<char>, lo: int, hi: int) -> int
    decreases hi - lo,
{
    if lo < hi && 0 <= lo && hi <= s.len() {
        if s[hi - 1] == '[' {
            hi - 1
        } else {
            last_open(s, lo, hi - 1)
        }
    } else {
        lo - 1
    }
}

/// The field of an object under `key`, by exact match.
pub open spec fn obj_get(cur: JsonV, key: Seq<char>) -> Option<JsonV> {
    match cur {
        JsonV::Obj(m) => {
            let idx = find_key(m, key);
            if idx >= 0 {
                Some(m[idx].1)
            } else {
                None
            }
        },
        _ => None,
    }
}

/// The array element at `idx`.
pub open spec fn arr_get(cur: JsonV, idx: int) -> Option<JsonV> {
    match cur {
        JsonV::Arr(a) => if 0 <= idx < a.len() {
            Some(a[idx])
        } else {
            None
        },
        _ => None,
    }
}

/// Whether the segment `s[lo..hi)` has the `key[index]` shape: a
/// non-empty key, then `[`, one or more digits, and a closing `]` at the
/// very end. The key is everything before the last `[`.
pub open spec fn seg_indexed(s: Seq<char>, lo: int, hi: int) -> bool {
    0 <= lo && lo < hi && hi <= s.len() && s[hi - 1] == ']' && last_open(s, lo, hi) > lo
        && last_open(s, lo, hi) + 1 < hi - 1 && all_digits(
        s.subrange(last_open(s, lo, hi) + 1, hi - 1),
    )
}

/// One segment applied to the current node.
pub open spec fn seg_step(cur: JsonV, s: Seq<char>, lo: int, hi: int) -> Option<JsonV> {
    if seg_indexed(s, lo, hi) {
        let p = last_open(s, lo, hi);
        let idx = digits_val(s.subrange(p + 1, hi - 1));
        match obj_get(cur, s.subrange(lo, p)) {
            Some(v2) => if idx <= usize::MAX {
                arr_get(v2, idx)
            } else {
                None
            },
            None => None,
        }
    } else {
        obj_get(cur, s.subrange(lo, hi))
    }
}

/// Resolution from position `i` of the path.
pub open spec fn resolve_rec(cur: JsonV, s: Seq<char>, i: int) -> Option<JsonV>
    decreases s.len() - i,
{
    if !(0 <= i <= s.len()) {
        None
    } else {
        let k = first_dot(s, i);
        if !(i <= k <= s.len()) {
            None
        } else {
            match seg_step(cur, s, i, k) {
                Some(nxt) => if k < s.len() {
                    resolve_rec(nxt, s, k + 1)
                } else {
                    Some(nxt)
                },
                None => None,
            }
        }
    }
}

/// The node a path names, if any; the empty path names the whole value.
pub open spec fn spec_resolve(doc: JsonV, path: Seq<char>) -> Option<JsonV> {
    if path.len() == 0 {
        Some(doc)
    } else {
        resolve_rec(doc, path, 0)
    }
}

// ------------------------------------------------------------------
// Executable resolver
// ------------------------------------------------------------------

fn first_dot_x(s: &Vec<char>, i: usize) -> (r: usize)
    requires
        i <= s@.len(),
    ensures
        r as int == first_dot(s@, i as int),
        i <= r <= s@.len(),
{
    let n: usize = s.len();
    let mut p: usize = i;
    while p < n && s[p] != '.'
        invariant
            i <= p <= n,
            n == s@.len(),
            first_dot(s@, i as int) == first_dot(s@, p as int),
        decreases n - p,
    {
        p = p + 1;
    }
    p
}

fn last_open_x(s: &Vec<char>, lo: usize, hi: usize) -> (r: Option<usize>)
    requires
        lo <= hi <= s@.len(),
    ensures
        match r {
            Some(p) => p as int == last_open(s@, lo as int, hi as int) && lo <= p < hi,
            None => last_open(s@, lo as int, hi as int) == lo - 1,
        },
{
    let mut h: usize = hi;
    while h > lo && s[h - 1] != '['
        invariant
            lo <= h <= hi <= s@.len(),
            last_open(s@, lo as int, hi as int) == last_open(s@, lo as int, h as int),
        decreases h,
    {
        h = h - 1;
    }
    if h > lo {
        Some(h - 1)
    } else {
        None
    }
}

/// Whether `key@ == s@[lo..hi)`.
fn key_matches(key: &Vec<char>, s: &Vec<char>, lo: usize, hi: usize) -> (r: bool)
    requires
        lo <= hi <= s@.len(),
    ensures
        r == (key@ == s@.subrange(lo as int, hi as int)),
{
    let n: usize = key.len();
    if n != hi - lo {
        return false;
    }
    let mut i: usize = 0;
    while i < n
        invariant
            n == key@.len(),
            n == hi - lo,
            lo <= hi <= s@.len(),
            i <= n,
            forall|k: int| 0 <= k < i ==> key@[k] == s@[lo + k],
        decreases n - i,
    {
        if key[i] != s[lo + i] {
            assert(s@.subrange(lo as int, hi as int)[i as int] == s@[lo + i]);
            return false;
        }
        i = i + 1;
    }
    assert(key@ =~= s@.subrange(lo as int, hi as int));
    true
}

/// The member of `m` whose key is `s@[lo..hi)`, by first match.
#[verifier::loop_isolation(false)]
fn obj_get_x<'a>(m: &'a Vec<(Vec<char>, Json)>, s: &Vec<char>, lo: usize, hi: usize) -> (r:
    Option<&'a Json>)
    requires
        lo <= hi <= s@.len(),
    ensures
        match r {
            Some(v) => obj_get(JsonV::Obj(view_pairs(m@)), s@.subrange(lo as int, hi as int))
                == Some(v@),
            None => obj_get(JsonV::Obj(view_pairs(m@)), s@.subrange(lo as int, hi as int))
                is None,
        },
{
    let ghost vm = view_pairs(m@);
    let ghost key = s@.subrange(lo as int, hi as int);
    proof {
        lemma_view_pairs_len(m@);
        lemma_find_key_first(vm, key);
    }
    let n: usize = m.len();
    let mut j: usize = 0;
    while j < n
        invariant
            j <= n,
            forall|k: int| 0 <= k < j ==> (#[trigger] vm[k]).0 != key,
        decreases n - j,
    {
        proof {
            lemma_view_pairs_index(m@, j as int);
        }
        if key_matches(&m[j].0, s, lo, hi) {
            proof {
                lemma_find_key_first(vm, key);
                assert(vm[j as int].0 == key);
                if find_key(vm, key) == -1 {
                    assert(vm[j as int].0 != key);
                }
                assert(!(find_key(vm, key) < (j as int))) by {
                    if 0 <= find_key(vm, key) && find_key(vm, key) < (j as int) {
                        assert(vm[find_key(vm, key)].0 == key);
                    }
                }
                assert(!((j as int) < find_key(vm, key))) by {
                    if (j as int) < find_key(vm, key) {
                        assert(vm[j as int].0 != key);
                    }
                }
                assert(find_key(vm, key) == j as int);
            }
            return Some(&m[j].1);
        }
        j = j + 1;
    }
    proof {
        if find_key(vm, key) >= 0 {
            assert(vm[find_key(vm, key)].0 == key);
        }
    }
    None
}

/// Decide whether `s[lo..hi)` has the `key[index]` shape; when it does,
/// also give the position of the `[`.
#[verifier::loop_isolation(false)]
fn seg_indexed_x(s: &Vec<char>, lo: usize, hi: usize) -> (r: (bool, usize))
    requires
        lo <= hi <= s@.len(),
    ensures
        r.0 == seg_indexed(s@, lo as int, hi as int),
        r.0 ==> lo < r.1 && r.1 as int == last_open(s@, lo as int, hi as int),
{
    if lo >= hi {
        return (false, 0);
    }
    match last_open_x(s, lo, hi) {
        None => (false, 0),
        Some(p) => {
            if !(s[hi - 1] == ']' && p > lo && p + 1 < hi - 1) {
                (false, 0)
            } else {
                let mut alldig: bool = true;
                let mut q: usize = p + 1;
                while q < hi - 1 && alldig
                    invariant
                        p + 1 <= q <= hi - 1,
                        alldig ==> (forall|x: int| p + 1 <= x < q ==> is_digit_c(
                            #[trigger] s@[x])),
                        !alldig ==> q < hi - 1 && !is_digit_c(s@[q as int]),
                    decreases hi - 1 - q + (if alldig { 1int } else { 0int }),
                {
                    let c = s[q];
                    if !(c >= '0' && c <= '9') {
                        alldig = false;
                    } else {
                        q = q + 1;
                    }
                }
                if alldig {
                    assert forall|x: int| 0 <= x < (hi - 1 - (p + 1)) implies is_digit_c(
                        #[trigger] s@.subrange(p + 1, hi as int - 1)[x]) by {
                        assert(s@.subrange(p + 1, hi as int - 1)[x] == s@[p + 1 + x]);
                    }
                    assert(seg_indexed(s@, lo as int, hi as int));
                    (true, p)
                } else {
                    assert(!all_digits(s@.subrange(p + 1, hi as int - 1))) by {
                        assert(s@.subrange(p + 1, hi as int - 1)[q - (p + 1)] == s@[q as int]);
                    }
                    (false, 0)
                }
            }
        },
    }
}

/// Resolve the path from position `i` against the current node.
#[verifier::loop_isolation(false)]
pub fn resolve_at<'a>(cur: &'a Json, path: &Vec<char>, i: usize) -> (r: Option<&'a Json>)
    requires
        i <= path@.len(),
    ensures
        match r {
            Some(v) => resolve_rec(cur@, path@, i as int) == Some(v@),
            None => resolve_rec(cur@, path@, i as int) is None,
        },
    decreases path@.len() - i,
{
    let n: usize = path.len();
    let k = first_dot_x(path, i);
    let seg = seg_indexed_x(path, i, k);
    let stepped: Option<&'a Json>;
    if seg.0 {
        let p = seg.1;
        match cur {
            Json::Obj(m) => {
                match obj_get_x(m, path, i, p) {
                    Some(v2) => {
                        match parse_usize_digits(path, p + 1, k - 1) {
                            Some(idx) => {
                                proof {
                                    lemma_digits_val_nonneg(path@.subrange(p + 1, k as int - 1));
                                }
                                match v2 {
                                    Json::Arr(a) => {
                                        proof {
                                            lemma_view_seq_len(a@);
                                        }
                                        if idx < a.len() {
                                            proof {
                                                lemma_view_seq_index(a@, idx as int);
                                            }
                                            stepped = Some(&a[idx]);
                                        } else {
                                            stepped = None;
                                        }
                                    },
                                    _ => {
                                        stepped = None;
                                    },
                                }
                            },
                            None => {
                                stepped = None;
                            },
                        }
                    },
                    None => {
                        stepped = None;
                    },
                }
            },
            _ => {
                stepped = None;
            },
        }
    } else {
        match cur {
            Json::Obj(m) => {
                stepped = obj_get_x(m, path, i, k);
            },
            _ => {
                stepped = None;
            },
        }
    }
    match stepped {
        Some(nxt) => {
            if k < n {
                resolve_at(nxt, path, k + 1)
            } else {
                Some(nxt)
            }
        },
        None => None,
    }
}

/// Resolution never leaves well-formedness: any node found in a
/// well-formed document is well formed.
pub proof fn lemma_seg_step_wf(cur: JsonV, s: Seq<char>, lo: int, hi: int)
    requires
        wf(cur),
    ensures
        seg_step(cur, s, lo, hi) matches Some(v) ==> wf(v),
{
    lemma_obj_get_wf(cur, s.subrange(lo, hi));
    if seg_indexed(s, lo, hi) {
        let p = last_open(s, lo, hi);
        lemma_obj_get_wf(cur, s.subrange(lo, p));
        match obj_get(cur, s.subrange(lo, p)) {
            Some(v2) => {
                let idx = digits_val(s.subrange(p + 1, hi - 1));
                match v2 {
                    JsonV::Arr(a) => {
                        if 0 <= idx < a.len() {
                            lemma_wf_seq_index(a, idx);
                        }
                    },
                    _ => {},
                }
            },
            None => {},
        }
    }
}

proof fn lemma_obj_get_wf(cur: JsonV, key: Seq<char>)
    requires
        wf(cur),
    ensures
        obj_get(cur, key) matches Some(v) ==> wf(v),
{
    match cur {
        JsonV::Obj(m) => {
            lemma_find_key_first(m, key);
            if find_key(m, key) >= 0 {
                lemma_wf_pairs_index(m, find_key(m, key));
            }
        },
        _ => {},
    }
}

pub proof fn lemma_resolve_rec_wf(cur: JsonV, s: Seq<char>, i: int)
    requires
        wf(cur),
    ensures
        resolve_rec(cur, s, i) matches Some(v) ==> wf(v),
    decreases s.len() - i,
{
    if 0 <= i <= s.len() {
        let k = first_dot(s, i);
        if i <= k <= s.len() {
            lemma_seg_step_wf(cur, s, i, k);
            match seg_step(cur, s, i, k) {
                Some(nxt) => {
                    if k < s.len() {
                        lemma_resolve_rec_wf(nxt, s, k + 1);
                    }
                },
                None => {},
            }
        }
    }
}

/// A resolved node of a well-formed document is well formed.
pub proof fn lemma_resolve_wf(doc: JsonV, path: Seq<char>)
    requires
        wf(doc),
    ensures
        spec_resolve(doc, path) matches Some(v) ==> wf(v),
{
    if path.len() != 0 {
        lemma_resolve_rec_wf(doc, path, 0);
    }
}

/// The node a path names in a document, or nothing.
pub fn resolve_path<'a>(doc: &'a Json, path: &Vec<char>) -> (r: Option<&'a Json>)
    ensures
        match r {
            Some(v) => spec_resolve(doc@, path@) == Some(v@),
            None => spec_resolve(doc@, path@) is None,
        },
{
    if path.len() == 0 {
        Some(doc)
    } else {
        resolve_at(doc, path, 0)
    }
}

} // verus!
