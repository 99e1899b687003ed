//! The assertion evaluator: six checkers over a response description,
//! dispatched on an assertion's type tag, each yielding a uniform
//! verdict record; a disabled assertion always passes untouched.
use vstd::prelude::*;
use vstd::string::StrSliceExecFns;
use vstd::string::StringExecFns;
use crate::text::{spec_dec_i, spec_parse_i32, spec_parse_i64, contains_seq, lower_seq,
    str_to_chars, str_eq, chars_eq, chars_to_string, push_dec_i64, parse_i32_chars,
    parse_i64_chars, chars_contain, lower_chars_of};
use crate::json::{Json, JsonV, wf, spec_json_eq, json_text};
use crate::jparse::{spec_parse_json, parse_json_str};
use crate::jops::{json_eq, to_compact};
use crate::path::{spec_resolve, resolve_path};

verus! {

broadcast use vstd::seq::group_seq_axioms, vstd::std_specs::vec::group_vec_axioms;

/// One declarative assertion, as the caller supplies it.
pub struct AssertionDef {
    pub id: String,
    pub kind: String,
    pub property: String,
    pub operator: String,
    pub expected: String,
    pub enabled: bool,
}

pub struct AssertionV {
    pub id: Seq<char>,
    pub kind: Seq<char>,
    pub property: Seq<char>,
    pub operator: Seq<char>,
    pub expected: Seq<char>,
    pub enabled: bool,
}

impl View for AssertionDef {
    type V = AssertionV;

    open spec fn view(&self) -> AssertionV {
        AssertionV {
            id: self.id@,
            kind: self.kind@,
            property: self.property@,
            operator: self.operator@,
            expected: self.expected@,
            enabled: self.enabled,
        }
    }
}

/// What one evaluation observed: outcome, rendered actual value, and a
/// human-readable message.
pub struct AssertionResult {
    pub assertion_id: String,
    pub passed: bool,
    pub actual: String,
    pub message: String,
}

pub struct ResultV {
    pub id: Seq<char>,
    pub passed: bool,
    pub actual: Seq<char>,
    pub message: Seq<char>,
}

impl View for AssertionResult {
    type V = ResultV;

    open spec fn view(&self) -> ResultV {
        ResultV {
            id: self.assertion_id@,
            passed: self.passed,
            actual: self.actual@,
            message: self.message@,
        }
    }
}

/// The response under test: status, headers, raw body, elapsed time.
pub struct ResponseData {
    pub status_code: i32,
    pub headers: Vec<(String, String)>,
    pub body: String,
    pub timing_ms: i64,
}

pub struct ResponseV {
    pub status: int,
    pub headers: Seq<(Seq<char>, Seq<char>)>,
    pub body: Seq<char>,
    pub timing: int,
}

pub open spec fn headers_view(h: Seq<(String, String)>) -> Seq<(Seq<char>, Seq<char>)> {
    h.map_values(|p: (String, String)| (p.0@, p.1@))
}

impl View for ResponseData {
    type V = ResponseV;

    open spec fn view(&self) -> ResponseV {
        ResponseV {
            status: self.status_code as int,
            headers: headers_view(self.headers@),
            body: self.body@,
            timing: self.timing_ms as int,
        }
    }
}

/// `expected` read as an integer, malformed text counting as zero.
pub open spec fn expected_i32(s: Seq<char>) -> int {
    match spec_parse_i32(s) {
        Some(v) => v,
        None => 0,
    }
}

pub open spec fn expected_i64(s: Seq<char>) -> int {
    match spec_parse_i64(s) {
        Some(v) => v,
        None => 0,
    }
}

/// Value of the first header whose name matches case-insensitively.
pub open spec fn header_find(hs: Seq<(Seq<char>, Seq<char>)>, name: Seq<char>) -> Option<
    Seq<char>>
    decreases hs.len(),
{
    if hs.len() == 0 {
        None
    } else if lower_seq(hs[0].0) == lower_seq(name) {
        Some(hs[0].1)
    } else {
        header_find(hs.skip(1), name)
    }
}

/// Result of the whole-result record for a status check.
pub open spec fn spec_status(a: AssertionV, code: int) -> ResultV {
    let exp = expected_i32(a.expected);
    let actual = spec_dec_i(code);
    if a.operator == "equals"@ {
        ResultV {
            id: a.id,
            passed: code == exp,
            actual: actual,
            message: if code == exp {
                "Status code is "@ + spec_dec_i(code)
            } else {
                "Expected "@ + spec_dec_i(exp) + ", got "@ + spec_dec_i(code)
            },
        }
    } else if a.operator == "notEquals"@ {
        ResultV {
            id: a.id,
            passed: code != exp,
            actual: actual,
            message: if code != exp {
                "Status code is not "@ + spec_dec_i(exp)
            } else {
                "Expected not "@ + spec_dec_i(exp) + ", got "@ + spec_dec_i(code)
            },
        }
    } else if a.operator == "lessThan"@ {
        ResultV {
            id: a.id,
            passed: code < exp,
            actual: actual,
            message: if code < exp {
                "Status code "@ + spec_dec_i(code) + " < "@ + spec_dec_i(exp)
            } else {
                "Expected < "@ + spec_dec_i(exp) + ", got "@ + spec_dec_i(code)
            },
        }
    } else if a.operator == "greaterThan"@ {
        ResultV {
            id: a.id,
            passed: code > exp,
            actual: actual,
            message: if code > exp {
                "Status code "@ + spec_dec_i(code) + " > "@ + spec_dec_i(exp)
            } else {
                "Expected > "@ + spec_dec_i(exp) + ", got "@ + spec_dec_i(code)
            },
        }
    } else {
        ResultV {
            id: a.id,
            passed: false,
            actual: actual,
            message: "Unknown operator: "@ + a.operator,
        }
    }
}

/// Response-time check: only the two order operators are known.
pub open spec fn spec_timing(a: AssertionV, ms: int) -> ResultV {
    let exp = expected_i64(a.expected);
    let actual = spec_dec_i(ms) + "ms"@;
    if a.operator == "lessThan"@ {
        ResultV {
            id: a.id,
            passed: ms < exp,
            actual: actual,
            message: if ms < exp {
                "Response time "@ + spec_dec_i(ms) + "ms < "@ + spec_dec_i(exp) + "ms"@
            } else {
                "Expected < "@ + spec_dec_i(exp) + "ms, got "@ + spec_dec_i(ms) + "ms"@
            },
        }
    } else if a.operator == "greaterThan"@ {
        ResultV {
            id: a.id,
            passed: ms > exp,
            actual: actual,
            message: if ms > exp {
                "Response time "@ + spec_dec_i(ms) + "ms > "@ + spec_dec_i(exp) + "ms"@
            } else {
                "Expected > "@ + spec_dec_i(exp) + "ms, got "@ + spec_dec_i(ms) + "ms"@
            },
        }
    } else {
        ResultV {
            id: a.id,
            passed: false,
            actual: actual,
            message: "Unknown operator: "@ + a.operator,
        }
    }
}

/// What a compiled pattern accepts is regex_lite's affair: these two
/// names stand for compilation success and for a match on a haystack,
/// both functions of the given text alone.
pub uninterp spec fn regex_ok(pat: Seq<char>) -> bool;

pub uninterp spec fn regex_match(pat: Seq<char>, hay: Seq<char>) -> bool;

/// Relies on regex_lite::Regex::new and Regex::is_match: whether a
/// pattern compiles depends on the pattern alone, and whether it
/// matches depends on pattern and haystack alone.
#[verifier::external_body]
fn regex_test(pat: &str, hay: &str) -> (r: Option<bool>)
    ensures
        r is Some <==> regex_ok(pat@),
        r matches Some(b) ==> b == regex_match(pat@, hay@),
{
    match regex_lite::Regex::new(pat) {
        Ok(re) => Some(re.is_match(hay)),
        Err(_) => None,
    }
}

/// Body preview: the whole body, or its first 100 characters and an
/// ellipsis.
pub open spec fn body_preview(body: Seq<char>) -> Seq<char> {
    if body.len() > 100 {
        body.subrange(0, 100) + "..."@
    } else {
        body
    }
}

/// Body text check: substring containment, or a regex match where an
/// invalid pattern fails the one assertion only.
pub open spec fn spec_body_contains(a: AssertionV, body: Seq<char>) -> ResultV {
    let actual = body_preview(body);
    if a.operator == "contains"@ {
        ResultV {
            id: a.id,
            passed: contains_seq(body, a.expected),
            actual: actual,
            message: if contains_seq(body, a.expected) {
                "Body contains \""@ + a.expected + "\""@
            } else {
                "Body does not contain \""@ + a.expected + "\""@
            },
        }
    } else if a.operator == "notContains"@ {
        ResultV {
            id: a.id,
            passed: !contains_seq(body, a.expected),
            actual: actual,
            message: if !contains_seq(body, a.expected) {
                "Body does not contain \""@ + a.expected + "\""@
            } else {
                "Body contains \""@ + a.expected + "\""@
            },
        }
    } else if a.operator == "matches"@ {
        if regex_ok(a.expected) {
            ResultV {
                id: a.id,
                passed: regex_match(a.expected, body),
                actual: actual,
                message: if regex_match(a.expected, body) {
                    "Body matches pattern \""@ + a.expected + "\""@
                } else {
                    "Body does not match pattern \""@ + a.expected + "\""@
                },
            }
        } else {
            ResultV {
                id: a.id,
                passed: false,
                actual: actual,
                message: "Invalid regex pattern: "@ + a.expected,
            }
        }
    } else {
        ResultV {
            id: a.id,
            passed: false,
            actual: actual,
            message: "Unknown operator: "@ + a.operator,
        }
    }
}

/// The JSON value `expected` denotes, null when it is not valid JSON.
pub open spec fn expected_json(s: Seq<char>) -> JsonV {
    match spec_parse_json(s) {
        Some(v) => v,
        None => JsonV::Null,
    }
}

/// Body-JSON check against the body parsed once per evaluation.
pub open spec fn spec_body_json(a: AssertionV, body: Option<JsonV>) -> ResultV {
    match body {
        None => ResultV {
            id: a.id,
            passed: false,
            actual: "Invalid JSON"@,
            message: "Response body is not valid JSON"@,
        },
        Some(doc) => {
            let found = spec_resolve(doc, a.property);
            let actual = match found {
                Some(v) => json_text(v),
                None => "undefined"@,
            };
            if a.operator == "exists"@ {
                ResultV {
                    id: a.id,
                    passed: found is Some,
                    actual: actual,
                    message: if found is Some {
                        "Property \""@ + a.property + "\" exists"@
                    } else {
                        "Property \""@ + a.property + "\" does not exist"@
                    },
                }
            } else if a.operator == "notExists"@ {
                ResultV {
                    id: a.id,
                    passed: found is None,
                    actual: actual,
                    message: if found is None {
                        "Property \""@ + a.property + "\" does not exist"@
                    } else {
                        "Property \""@ + a.property + "\" exists"@
                    },
                }
            } else if a.operator == "equals"@ {
                let eq = found matches Some(v) && spec_json_eq(v, expected_json(a.expected));
                ResultV {
                    id: a.id,
                    passed: eq,
                    actual: actual,
                    message: if eq {
                        a.property + " equals "@ + a.expected
                    } else {
                        "Expected "@ + a.expected + ", got "@ + actual
                    },
                }
            } else if a.operator == "notEquals"@ {
                let neq = !(found matches Some(v) && spec_json_eq(v, expected_json(a.expected)));
                ResultV {
                    id: a.id,
                    passed: neq,
                    actual: actual,
                    message: if neq {
                        a.property + " does not equal "@ + a.expected
                    } else {
                        "Expected not "@ + a.expected + ", got "@ + actual
                    },
                }
            } else if a.operator == "contains"@ {
                let c = found matches Some(v) && contains_seq(json_text(v), a.expected);
                ResultV {
                    id: a.id,
                    passed: c,
                    actual: actual,
                    message: if c {
                        a.property + " contains \""@ + a.expected + "\""@
                    } else {
                        a.property + " does not contain \""@ + a.expected + "\""@
                    },
                }
            } else {
                ResultV {
                    id: a.id,
                    passed: false,
                    actual: actual,
                    message: "Unknown operator: "@ + a.operator,
                }
            }
        },
    }
}

/// Header-presence check, case-insensitive on the name.
pub open spec fn spec_header_exists(a: AssertionV, hs: Seq<(Seq<char>, Seq<char>)>) -> ResultV {
    let present = header_find(hs, a.property) is Some;
    let actual = if present {
        "exists"@
    } else {
        "not found"@
    };
    if a.operator == "exists"@ {
        ResultV {
            id: a.id,
            passed: present,
            actual: actual,
            message: if present {
                "Header \""@ + a.property + "\" exists"@
            } else {
                "Header \""@ + a.property + "\" not found"@
            },
        }
    } else if a.operator == "notExists"@ {
        ResultV {
            id: a.id,
            passed: !present,
            actual: actual,
            message: if !present {
                "Header \""@ + a.property + "\" does not exist"@
            } else {
                "Header \""@ + a.property + "\" exists"@
            },
        }
    } else {
        ResultV {
            id: a.id,
            passed: false,
            actual: actual,
            message: "Unknown operator: "@ + a.operator,
        }
    }
}

/// Header-value check; an absent header always fails.
pub open spec fn spec_header_equals(a: AssertionV, hs: Seq<(Seq<char>, Seq<char>)>) -> ResultV {
    match header_find(hs, a.property) {
        None => ResultV {
            id: a.id,
            passed: false,
            actual: "not found"@,
            message: "Header \""@ + a.property + "\" not found"@,
        },
        Some(value) => {
            if a.operator == "equals"@ {
                ResultV {
                    id: a.id,
                    passed: value == a.expected,
                    actual: value,
                    message: if value == a.expected {
                        "Header \""@ + a.property + "\" equals \""@ + a.expected + "\""@
                    } else {
                        "Expected \""@ + a.expected + "\", got \""@ + value + "\""@
                    },
                }
            } else if a.operator == "notEquals"@ {
                ResultV {
                    id: a.id,
                    passed: value != a.expected,
                    actual: value,
                    message: if value != a.expected {
                        "Header \""@ + a.property + "\" does not equal \""@ + a.expected + "\""@
                    } else {
                        "Expected not \""@ + a.expected + "\", got \""@ + value + "\""@
                    },
                }
            } else if a.operator == "contains"@ {
                ResultV {
                    id: a.id,
                    passed: contains_seq(value, a.expected),
                    actual: value,
                    message: if contains_seq(value, a.expected) {
                        "Header \""@ + a.property + "\" contains \""@ + a.expected + "\""@
                    } else {
                        "Header does not contain \""@ + a.expected + "\""@
                    },
                }
            } else {
                ResultV {
                    id: a.id,
                    passed: false,
                    actual: value,
                    message: "Unknown operator: "@ + a.operator,
                }
            }
        },
    }
}

/// One assertion evaluated: disabled short-circuits, then dispatch on
/// the type tag, and an unknown tag fails naming itself.
pub open spec fn spec_single(a: AssertionV, resp: ResponseV, body: Option<JsonV>) -> ResultV {
    if !a.enabled {
        ResultV { id: a.id, passed: true, actual: Seq::empty(), message: "Skipped (disabled)"@ }
    } else if a.kind == "status"@ {
        spec_status(a, resp.status)
    } else if a.kind == "responseTime"@ {
        spec_timing(a, resp.timing)
    } else if a.kind == "bodyContains"@ {
        spec_body_contains(a, resp.body)
    } else if a.kind == "bodyJson"@ {
        spec_body_json(a, body)
    } else if a.kind == "headerExists"@ {
        spec_header_exists(a, resp.headers)
    } else if a.kind == "headerEquals"@ {
        spec_header_equals(a, resp.headers)
    } else {
        ResultV {
            id: a.id,
            passed: false,
            actual: Seq::empty(),
            message: "Unknown assertion type: "@ + a.kind,
        }
    }
}

/// All assertions in order; the body is parsed once and shared.
pub open spec fn spec_run_list(l: Seq<AssertionV>, resp: ResponseV, body: Option<JsonV>) -> Seq<
    ResultV,
>
    decreases l.len(),
{
    if l.len() == 0 {
        Seq::empty()
    } else {
        spec_run_list(l.drop_last(), resp, body).push(spec_single(l.last(), resp, body))
    }
}

// ------------------------------------------------------------------
// Executable evaluation
// ------------------------------------------------------------------

fn push_lit(out: &mut Vec<char>, s: &str)
    ensures
        final(out)@ == old(out)@ + s@,
{
    let n: usize = s.unicode_len();
    let mut i: usize = 0;
    while i < n
        invariant
            n == s@.len(),
            i <= n,
            out@ == old(out)@ + s@.subrange(0, i as int),
        decreases n - i,
    {
        out.push(s.get_char(i));
        i = i + 1;
        assert(out@ =~= old(out)@ + s@.subrange(0, i as int));
    }
    assert(out@ =~= old(out)@ + s@);
}

pub fn append_chars(out: &mut Vec<char>, s: &Vec<char>)
    ensures
        final(out)@ == old(out)@ + s@,
{
    let n: usize = s.len();
    let mut i: usize = 0;
    while i < n
        invariant
            n == s@.len(),
            i <= n,
            out@ == old(out)@ + s@.subrange(0, i as int),
        decreases n - i,
    {
        out.push(s[i]);
        i = i + 1;
        assert(out@ =~= old(out)@ + s@.subrange(0, i as int));
    }
    assert(out@ =~= old(out)@ + s@);
}

fn mk_result(id: &String, passed: bool, actual: Vec<char>, message: Vec<char>) -> (r:
    AssertionResult)
    ensures
        r@ == (ResultV { id: id@, passed: passed, actual: actual@, message: message@ }),
{
    AssertionResult {
        assertion_id: id.clone(),
        passed: passed,
        actual: chars_to_string(&actual),
        message: chars_to_string(&message),
    }
}

/// The status checker.
pub fn check_status(a: &AssertionDef, code: i32) -> (r: AssertionResult)
    ensures
        r@ == spec_status(a@, code as int),
{
    let expv = str_to_chars(a.expected.as_str());
    let exp: i32 = match parse_i32_chars(&expv) {
        Some(v) => v,
        None => 0,
    };
    assert(exp as int == expected_i32(a@.expected));
    let mut actual: Vec<char> = Vec::new();
    push_dec_i64(&mut actual, code as i64);
    let mut msg: Vec<char> = Vec::new();
    let passed: bool;
    if str_eq(a.operator.as_str(), "equals") {
        passed = code == exp;
        if passed {
            push_lit(&mut msg, "Status code is ");
            push_dec_i64(&mut msg, code as i64);
        } else {
            push_lit(&mut msg, "Expected ");
            push_dec_i64(&mut msg, exp as i64);
            push_lit(&mut msg, ", got ");
            push_dec_i64(&mut msg, code as i64);
        }
    } else if str_eq(a.operator.as_str(), "notEquals") {
        passed = code != exp;
        if passed {
            push_lit(&mut msg, "Status code is not ");
            push_dec_i64(&mut msg, exp as i64);
        } else {
            push_lit(&mut msg, "Expected not ");
            push_dec_i64(&mut msg, exp as i64);
            push_lit(&mut msg, ", got ");
            push_dec_i64(&mut msg, code as i64);
        }
    } else if str_eq(a.operator.as_str(), "lessThan") {
        passed = code < exp;
        if passed {
            push_lit(&mut msg, "Status code ");
            push_dec_i64(&mut msg, code as i64);
            push_lit(&mut msg, " < ");
            push_dec_i64(&mut msg, exp as i64);
        } else {
            push_lit(&mut msg, "Expected < ");
            push_dec_i64(&mut msg, exp as i64);
            push_lit(&mut msg, ", got ");
            push_dec_i64(&mut msg, code as i64);
        }
    } else if str_eq(a.operator.as_str(), "greaterThan") {
        passed = code > exp;
        if passed {
            push_lit(&mut msg, "Status code ");
            push_dec_i64(&mut msg, code as i64);
            push_lit(&mut msg, " > ");
            push_dec_i64(&mut msg, exp as i64);
        } else {
            push_lit(&mut msg, "Expected > ");
            push_dec_i64(&mut msg, exp as i64);
            push_lit(&mut msg, ", got ");
            push_dec_i64(&mut msg, code as i64);
        }
    } else {
        passed = false;
        push_lit(&mut msg, "Unknown operator: ");
        append_chars(&mut msg, &str_to_chars(a.operator.as_str()));
    }
    proof {
        assert(actual@ =~= spec_status(a@, code as int).actual);
        assert(msg@ =~= spec_status(a@, code as int).message);
    }
    mk_result(&a.id, passed, actual, msg)
}

/// The response-time checker.
pub fn check_timing(a: &AssertionDef, ms: i64) -> (r: AssertionResult)
    ensures
        r@ == spec_timing(a@, ms as int),
{
    let expv = str_to_chars(a.expected.as_str());
    let exp: i64 = match parse_i64_chars(&expv) {
        Some(v) => v,
        None => 0,
    };
    assert(exp as int == expected_i64(a@.expected));
    let mut actual: Vec<char> = Vec::new();
    push_dec_i64(&mut actual, ms);
    push_lit(&mut actual, "ms");
    let mut msg: Vec<char> = Vec::new();
    let passed: bool;
    if str_eq(a.operator.as_str(), "lessThan") {
        passed = ms < exp;
        if passed {
            push_lit(&mut msg, "Response time ");
            push_dec_i64(&mut msg, ms);
            push_lit(&mut msg, "ms < ");
            push_dec_i64(&mut msg, exp);
            push_lit(&mut msg, "ms");
        } else {
            push_lit(&mut msg, "Expected < ");
            push_dec_i64(&mut msg, exp);
            push_lit(&mut msg, "ms, got ");
            push_dec_i64(&mut msg, ms);
            push_lit(&mut msg, "ms");
        }
    } else if str_eq(a.operator.as_str(), "greaterThan") {
        passed = ms > exp;
        if passed {
            push_lit(&mut msg, "Response time ");
            push_dec_i64(&mut msg, ms);
            push_lit(&mut msg, "ms > ");
            push_dec_i64(&mut msg, exp);
            push_lit(&mut msg, "ms");
        } else {
            push_lit(&mut msg, "Expected > ");
            push_dec_i64(&mut msg, exp);
            push_lit(&mut msg, "ms, got ");
            push_dec_i64(&mut msg, ms);
            push_lit(&mut msg, "ms");
        }
    } else {
        passed = false;
        push_lit(&mut msg, "Unknown operator: ");
        append_chars(&mut msg, &str_to_chars(a.operator.as_str()));
    }
    proof {
        assert(actual@ =~= spec_timing(a@, ms as int).actual);
        assert(msg@ =~= spec_timing(a@, ms as int).message);
    }
    mk_result(&a.id, passed, actual, msg)
}

/// The body-text checker.
pub fn check_body_contains(a: &AssertionDef, body: &str) -> (r: AssertionResult)
    ensures
        r@ == spec_body_contains(a@, body@),
{
    let bodyv = str_to_chars(body);
    let expv = str_to_chars(a.expected.as_str());
    let mut actual: Vec<char> = Vec::new();
    if bodyv.len() > 100 {
        let mut i: usize = 0;
        while i < 100
            invariant
                i <= 100 <= bodyv@.len(),
                actual@ == bodyv@.subrange(0, i as int),
            decreases 100 - i,
        {
            actual.push(bodyv[i]);
            i = i + 1;
            assert(actual@ =~= bodyv@.subrange(0, i as int));
        }
        push_lit(&mut actual, "...");
    } else {
        append_chars(&mut actual, &bodyv);
    }
    assert(actual@ =~= body_preview(body@));
    let mut msg: Vec<char> = Vec::new();
    let passed: bool;
    if str_eq(a.operator.as_str(), "contains") {
        passed = chars_contain(&bodyv, &expv);
        if passed {
            push_lit(&mut msg, "Body contains \"");
        } else {
            push_lit(&mut msg, "Body does not contain \"");
        }
        append_chars(&mut msg, &expv);
        push_lit(&mut msg, "\"");
    } else if str_eq(a.operator.as_str(), "notContains") {
        passed = !chars_contain(&bodyv, &expv);
        if passed {
            push_lit(&mut msg, "Body does not contain \"");
        } else {
            push_lit(&mut msg, "Body contains \"");
        }
        append_chars(&mut msg, &expv);
        push_lit(&mut msg, "\"");
    } else if str_eq(a.operator.as_str(), "matches") {
        match regex_test(a.expected.as_str(), body) {
            Some(b) => {
                passed = b;
                if passed {
                    push_lit(&mut msg, "Body matches pattern \"");
                } else {
                    push_lit(&mut msg, "Body does not match pattern \"");
                }
                append_chars(&mut msg, &expv);
                push_lit(&mut msg, "\"");
            },
            None => {
                passed = false;
                push_lit(&mut msg, "Invalid regex pattern: ");
                append_chars(&mut msg, &expv);
            },
        }
    } else {
        passed = false;
        push_lit(&mut msg, "Unknown operator: ");
        append_chars(&mut msg, &str_to_chars(a.operator.as_str()));
    }
    proof {
        assert(msg@ =~= spec_body_contains(a@, body@).message);
        assert(actual@ =~= spec_body_contains(a@, body@).actual);
    }
    mk_result(&a.id, passed, actual, msg)
}

pub open spec fn body_view(b: Option<Json>) -> Option<JsonV> {
    match b {
        Some(x) => Some(x@),
        None => None,
    }
}

/// The body-JSON checker, given the body parsed once per evaluation.
pub fn check_body_json(a: &AssertionDef, body: &Option<Json>) -> (r: AssertionResult)
    requires
        body matches Some(b) ==> wf(b@),
    ensures
        r@ == spec_body_json(a@, body_view(*body)),
{
    let doc = match body {
        Some(doc) => doc,
        None => {
            let mut actual: Vec<char> = Vec::new();
            push_lit(&mut actual, "Invalid JSON");
            let mut msg: Vec<char> = Vec::new();
            push_lit(&mut msg, "Response body is not valid JSON");
            proof {
                assert(actual@ =~= spec_body_json(a@, body_view(*body)).actual);
                assert(msg@ =~= spec_body_json(a@, body_view(*body)).message);
            }
            return mk_result(&a.id, false, actual, msg);
        },
    };
    let propv = str_to_chars(a.property.as_str());
    let found = resolve_path(doc, &propv);
    proof {
        crate::path::lemma_resolve_wf(doc@, propv@);
    }
    let mut actual: Vec<char> = Vec::new();
    match found {
        Some(v) => {
            let t = to_compact(v);
            append_chars(&mut actual, &t);
        },
        None => {
            push_lit(&mut actual, "undefined");
        },
    }
    assert(actual@ =~= spec_body_json(a@, body_view(*body)).actual);
    let expv = str_to_chars(a.expected.as_str());
    let mut msg: Vec<char> = Vec::new();
    let passed: bool;
    if str_eq(a.operator.as_str(), "exists") {
        passed = match found {
            Some(_) => true,
            None => false,
        };
        if passed {
            push_lit(&mut msg, "Property \"");
            append_chars(&mut msg, &propv);
            push_lit(&mut msg, "\" exists");
        } else {
            push_lit(&mut msg, "Property \"");
            append_chars(&mut msg, &propv);
            push_lit(&mut msg, "\" does not exist");
        }
    } else if str_eq(a.operator.as_str(), "notExists") {
        passed = match found {
            Some(_) => false,
            None => true,
        };
        if passed {
            push_lit(&mut msg, "Property \"");
            append_chars(&mut msg, &propv);
            push_lit(&mut msg, "\" does not exist");
        } else {
            push_lit(&mut msg, "Property \"");
            append_chars(&mut msg, &propv);
            push_lit(&mut msg, "\" exists");
        }
    } else if str_eq(a.operator.as_str(), "equals") {
        let expected = match crate::jparse::parse_json_chars(&expv) {
            Some(e) => e,
            None => Json::Null,
        };
        passed = match found {
            Some(v) => json_eq(v, &expected),
            None => false,
        };
        if passed {
            append_chars(&mut msg, &propv);
            push_lit(&mut msg, " equals ");
            append_chars(&mut msg, &expv);
        } else {
            push_lit(&mut msg, "Expected ");
            append_chars(&mut msg, &expv);
            push_lit(&mut msg, ", got ");
            append_chars(&mut msg, &actual);
        }
    } else if str_eq(a.operator.as_str(), "notEquals") {
        let expected = match crate::jparse::parse_json_chars(&expv) {
            Some(e) => e,
            None => Json::Null,
        };
        passed = match found {
            Some(v) => !json_eq(v, &expected),
            None => true,
        };
        if passed {
            append_chars(&mut msg, &propv);
            push_lit(&mut msg, " does not equal ");
            append_chars(&mut msg, &expv);
        } else {
            push_lit(&mut msg, "Expected not ");
            append_chars(&mut msg, &expv);
            push_lit(&mut msg, ", got ");
            append_chars(&mut msg, &actual);
        }
    } else if str_eq(a.operator.as_str(), "contains") {
        passed = match found {
            Some(v) => {
                let t = to_compact(v);
                chars_contain(&t, &expv)
            },
            None => false,
        };
        if passed {
            append_chars(&mut msg, &propv);
            push_lit(&mut msg, " contains \"");
            append_chars(&mut msg, &expv);
            push_lit(&mut msg, "\"");
        } else {
            append_chars(&mut msg, &propv);
            push_lit(&mut msg, " does not contain \"");
            append_chars(&mut msg, &expv);
            push_lit(&mut msg, "\"");
        }
    } else {
        passed = false;
        push_lit(&mut msg, "Unknown operator: ");
        append_chars(&mut msg, &str_to_chars(a.operator.as_str()));
    }
    proof {
        assert(msg@ =~= spec_body_json(a@, body_view(*body)).message);
    }
    mk_result(&a.id, passed, actual, msg)
}

/// First case-insensitive match among the headers.
fn header_find_x<'a>(hs: &'a Vec<(String, String)>, name: &str) -> (r: Option<&'a String>)
    ensures
        match r {
            Some(v) => header_find(headers_view(hs@), name@) == Some(v@),
            None => header_find(headers_view(hs@), name@) is None,
        },
{
    let ghost hv = headers_view(hs@);
    let namelow = lower_chars_of(name);
    let n: usize = hs.len();
    let mut i: usize = 0;
    proof {
        assert(hv.skip(0) =~= hv);
    }
    while i < n
        invariant
            i <= n,
            n == hs@.len(),
            hv == headers_view(hs@),
            hv.len() == n,
            header_find(hv, name@) == header_find(hv.skip(i as int), name@),
            namelow@ == lower_seq(name@),
        decreases n - i,
    {
        let klow = lower_chars_of(hs[i].0.as_str());
        proof {
            assert(hv[i as int] == (hs@[i as int].0@, hs@[i as int].1@));
            assert(hv.skip(i as int)[0] == hv[i as int]);
        }
        if chars_eq(&klow, &namelow) {
            return Some(&hs[i].1);
        }
        proof {
            assert(hv.skip(i as int).skip(1) =~= hv.skip(i + 1));
        }
        i = i + 1;
    }
    proof {
        assert(hv.skip(n as int) =~= Seq::<(Seq<char>, Seq<char>)>::empty());
    }
    None
}

/// The header-presence checker.
pub fn check_header_exists(a: &AssertionDef, hs: &Vec<(String, String)>) -> (r: AssertionResult)
    ensures
        r@ == spec_header_exists(a@, headers_view(hs@)),
{
    let present = match header_find_x(hs, a.property.as_str()) {
        Some(_) => true,
        None => false,
    };
    let mut actual: Vec<char> = Vec::new();
    if present {
        push_lit(&mut actual, "exists");
    } else {
        push_lit(&mut actual, "not found");
    }
    let propv = str_to_chars(a.property.as_str());
    let mut msg: Vec<char> = Vec::new();
    let passed: bool;
    if str_eq(a.operator.as_str(), "exists") {
        passed = present;
        if present {
            push_lit(&mut msg, "Header \"");
            append_chars(&mut msg, &propv);
            push_lit(&mut msg, "\" exists");
        } else {
            push_lit(&mut msg, "Header \"");
            append_chars(&mut msg, &propv);
            push_lit(&mut msg, "\" not found");
        }
    } else if str_eq(a.operator.as_str(), "notExists") {
        passed = !present;
        if passed {
            push_lit(&mut msg, "Header \"");
            append_chars(&mut msg, &propv);
            push_lit(&mut msg, "\" does not exist");
        } else {
            push_lit(&mut msg, "Header \"");
            append_chars(&mut msg, &propv);
            push_lit(&mut msg, "\" exists");
        }
    } else {
        passed = false;
        push_lit(&mut msg, "Unknown operator: ");
        append_chars(&mut msg, &str_to_chars(a.operator.as_str()));
    }
    proof {
        assert(actual@ =~= spec_header_exists(a@, headers_view(hs@)).actual);
        assert(msg@ =~= spec_header_exists(a@, headers_view(hs@)).message);
    }
    mk_result(&a.id, passed, actual, msg)
}

/// The header-value checker.
pub fn check_header_equals(a: &AssertionDef, hs: &Vec<(String, String)>) -> (r: AssertionResult)
    ensures
        r@ == spec_header_equals(a@, headers_view(hs@)),
{
    let propv = str_to_chars(a.property.as_str());
    let expv = str_to_chars(a.expected.as_str());
    match header_find_x(hs, a.property.as_str()) {
        None => {
            let mut actual: Vec<char> = Vec::new();
            push_lit(&mut actual, "not found");
            let mut msg: Vec<char> = Vec::new();
            push_lit(&mut msg, "Header \"");
            append_chars(&mut msg, &propv);
            push_lit(&mut msg, "\" not found");
            proof {
                assert(actual@ =~= spec_header_equals(a@, headers_view(hs@)).actual);
                assert(msg@ =~= spec_header_equals(a@, headers_view(hs@)).message);
            }
            mk_result(&a.id, false, actual, msg)
        },
        Some(value) => {
            let valv = str_to_chars(value.as_str());
            let mut actual: Vec<char> = Vec::new();
            append_chars(&mut actual, &valv);
            let mut msg: Vec<char> = Vec::new();
            let passed: bool;
            if str_eq(a.operator.as_str(), "equals") {
                passed = chars_eq(&valv, &expv);
                if passed {
                    push_lit(&mut msg, "Header \"");
                    append_chars(&mut msg, &propv);
                    push_lit(&mut msg, "\" equals \"");
                    append_chars(&mut msg, &expv);
                    push_lit(&mut msg, "\"");
                } else {
                    push_lit(&mut msg, "Expected \"");
                    append_chars(&mut msg, &expv);
                    push_lit(&mut msg, "\", got \"");
                    append_chars(&mut msg, &valv);
                    push_lit(&mut msg, "\"");
                }
            } else if str_eq(a.operator.as_str(), "notEquals") {
                passed = !chars_eq(&valv, &expv);
                if passed {
                    push_lit(&mut msg, "Header \"");
                    append_chars(&mut msg, &propv);
                    push_lit(&mut msg, "\" does not equal \"");
                    append_chars(&mut msg, &expv);
                    push_lit(&mut msg, "\"");
                } else {
                    push_lit(&mut msg, "Expected not \"");
                    append_chars(&mut msg, &expv);
                    push_lit(&mut msg, "\", got \"");
                    append_chars(&mut msg, &valv);
                    push_lit(&mut msg, "\"");
                }
            } else if str_eq(a.operator.as_str(), "contains") {
                passed = chars_contain(&valv, &expv);
                if passed {
                    push_lit(&mut msg, "Header \"");
                    append_chars(&mut msg, &propv);
                    push_lit(&mut msg, "\" contains \"");
                    append_chars(&mut msg, &expv);
                    push_lit(&mut msg, "\"");
                } else {
                    push_lit(&mut msg, "Header does not contain \"");
                    append_chars(&mut msg, &expv);
                    push_lit(&mut msg, "\"");
                }
            } else {
                passed = false;
                push_lit(&mut msg, "Unknown operator: ");
                append_chars(&mut msg, &str_to_chars(a.operator.as_str()));
            }
            proof {
                assert(actual@ =~= spec_header_equals(a@, headers_view(hs@)).actual);
                assert(msg@ =~= spec_header_equals(a@, headers_view(hs@)).message);
            }
            mk_result(&a.id, passed, actual, msg)
        },
    }
}

/// One assertion evaluated against the response.
pub fn run_single(a: &AssertionDef, resp: &ResponseData, body: &Option<Json>) -> (r:
    AssertionResult)
    requires
        body matches Some(b) ==> wf(b@),
    ensures
        r@ == spec_single(a@, resp@, body_view(*body)),
{
    if !a.enabled {
        let actual: Vec<char> = Vec::new();
        let mut msg: Vec<char> = Vec::new();
        push_lit(&mut msg, "Skipped (disabled)");
        proof {
            assert(actual@ =~= Seq::<char>::empty());
        }
        return mk_result(&a.id, true, actual, msg);
    }
    if str_eq(a.kind.as_str(), "status") {
        check_status(a, resp.status_code)
    } else if str_eq(a.kind.as_str(), "responseTime") {
        check_timing(a, resp.timing_ms)
    } else if str_eq(a.kind.as_str(), "bodyContains") {
        check_body_contains(a, resp.body.as_str())
    } else if str_eq(a.kind.as_str(), "bodyJson") {
        check_body_json(a, body)
    } else if str_eq(a.kind.as_str(), "headerExists") {
        check_header_exists(a, &resp.headers)
    } else if str_eq(a.kind.as_str(), "headerEquals") {
        check_header_equals(a, &resp.headers)
    } else {
        let actual: Vec<char> = Vec::new();
        let mut msg: Vec<char> = Vec::new();
        push_lit(&mut msg, "Unknown assertion type: ");
        append_chars(&mut msg, &str_to_chars(a.kind.as_str()));
        proof {
            assert(actual@ =~= Seq::<char>::empty());
            assert(msg@ =~= spec_single(a@, resp@, body_view(*body)).message);
        }
        mk_result(&a.id, false, actual, msg)
    }
}

pub open spec fn defs_view(l: Seq<AssertionDef>) -> Seq<AssertionV>
    decreases l.len(),
{
    if l.len() == 0 {
        Seq::empty()
    } else {
        defs_view(l.drop_last()).push(l.last()@)
    }
}

pub open spec fn results_view(l: Seq<AssertionResult>) -> Seq<ResultV>
    decreases l.len(),
{
    if l.len() == 0 {
        Seq::empty()
    } else {
        results_view(l.drop_last()).push(l.last()@)
    }
}

/// Every assertion evaluated in order; the body is parsed as JSON once
/// and the outcome shared by all bodyJson checks.
#[verifier::loop_isolation(false)]
pub fn run_assertion_list(l: &Vec<AssertionDef>, resp: &ResponseData) -> (r: Vec<AssertionResult>)
    ensures
        results_view(r@) == spec_run_list(defs_view(l@), resp@, spec_parse_json(resp@.body)),
{
    let body: Option<Json> = parse_json_str(resp.body.as_str());
    let ghost bodyv = spec_parse_json(resp@.body);
    proof {
        assert(body_view(body) == bodyv);
    }
    let n: usize = l.len();
    let mut out: Vec<AssertionResult> = Vec::new();
    let mut i: usize = 0;
    proof {
        assert(defs_view(l@.subrange(0, 0)) =~= Seq::<AssertionV>::empty());
        assert(results_view(out@) =~= Seq::<ResultV>::empty());
    }
    while i < n
        invariant
            i <= n,
            n == l@.len(),
            body_view(body) == bodyv,
            body matches Some(b) ==> wf(b@),
            results_view(out@) == spec_run_list(defs_view(l@.subrange(0, i as int)), resp@, bodyv),
        decreases n - i,
    {
        let one = run_single(&l[i], resp, &body);
        let ghost outs = out@;
        out.push(one);
        proof {
            assert(out@.drop_last() =~= outs);
            assert(l@.subrange(0, i + 1).drop_last() =~= l@.subrange(0, i as int));
            assert(l@.subrange(0, i + 1).last() == l@[i as int]);
            assert(defs_view(l@.subrange(0, i + 1)) == defs_view(l@.subrange(0, i as int)).push(
                l@[i as int]@));
            assert(defs_view(l@.subrange(0, i + 1)).drop_last() =~= defs_view(l@.subrange(
                0, i as int)));
            assert(defs_view(l@.subrange(0, i + 1)).last() == l@[i as int]@);
            assert(results_view(out@) == spec_run_list(defs_view(l@.subrange(0, i + 1)), resp@,
                bodyv));
        }
        i = i + 1;
    }
    proof {
        assert(l@.subrange(0, n as int) =~= l@);
    }
    out
}

} // verus!
