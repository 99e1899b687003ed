use volt_core::api::{
    find_variables, has_variables, json_extract, json_extract_batch, json_format, json_info,
    json_minify, json_validate, run_assertions, substitute_variables, substitute_variables_batch,
};

#[test]
fn test_substitute_variables() {
    let text = "https://{{baseUrl}}/users/{{userId}}";
    let vars = r#"{"baseUrl":"api.example.com","userId":"123"}"#;
    let result = substitute_variables(text, vars);
    assert_eq!(result, "https://api.example.com/users/123");
}

#[test]
fn test_substitute_variables_missing() {
    let text = "https://{{baseUrl}}/{{missing}}";
    let vars = r#"{"baseUrl":"api.example.com"}"#;
    let result = substitute_variables(text, vars);
    assert_eq!(result, "https://api.example.com/{{missing}}");
}

#[test]
fn test_find_variables() {
    let text = "{{baseUrl}}/users/{{userId}}?token={{token}}";
    let result = find_variables(text);
    let vars: Vec<String> = serde_json::from_str(&result).unwrap();
    assert_eq!(vars, vec!["baseUrl", "userId", "token"]);
}

#[test]
fn test_json_extract() {
    let json = r#"{"data":{"users":[{"name":"John"}]}}"#;
    let result = json_extract(json, "data.users[0].name");
    assert_eq!(result, "\"John\"");
}

#[test]
fn test_json_format() {
    let json = r#"{"name":"John","age":30}"#;
    let result = json_format(json);
    assert!(result.contains('\n'));
    assert!(result.contains("  "));
}

#[test]
fn test_json_validate() {
    assert!(json_validate(r#"{"valid": true}"#));
    assert!(!json_validate("not json"));
}

#[test]
fn test_has_variables() {
    assert!(has_variables("{{test}}"));
    assert!(!has_variables("no variables"));
}

// ------------------------------------------------------------------
// Substitution details
// ------------------------------------------------------------------

#[test]
fn substitute_empty_table_is_noop() {
    assert_eq!(substitute_variables("a {{x}} b", "{}"), "a {{x}} b");
}

#[test]
fn substitute_bad_table_is_noop() {
    assert_eq!(substitute_variables("a {{x}} b", "not json"), "a {{x}} b");
    assert_eq!(substitute_variables("a {{x}} b", r#"{"x":1}"#), "a {{x}} b");
}

#[test]
fn substitute_trims_interior() {
    assert_eq!(substitute_variables("{{ x }}", r#"{"x":"1"}"#), "1");
}

#[test]
fn substitute_keeps_untrimmed_original() {
    assert_eq!(substitute_variables("{{ gone }}", r#"{"x":"1"}"#), "{{ gone }}");
}

#[test]
fn substitute_single_pass() {
    assert_eq!(substitute_variables("{{a}}", r#"{"a":"{{b}}","b":"c"}"#), "{{b}}");
}

#[test]
fn substitute_batch_basic() {
    let out = substitute_variables_batch(r#"["{{a}}","x{{a}}y"]"#, r#"{"a":"Z"}"#);
    assert_eq!(out, r#"["Z","xZy"]"#);
}

#[test]
fn substitute_batch_bad_texts_is_empty_list() {
    assert_eq!(substitute_variables_batch("nope", r#"{"a":"Z"}"#), "[]");
    assert_eq!(substitute_variables_batch(r#"[1]"#, r#"{"a":"Z"}"#), "[]");
}

#[test]
fn substitute_batch_bad_table_returns_texts() {
    assert_eq!(substitute_variables_batch(r#"["{{a}}"]"#, "nope"), r#"["{{a}}"]"#);
}

#[test]
fn find_variables_dedups_in_order() {
    let out = find_variables("{{b}}{{a}}{{b}}{{ a }}");
    assert_eq!(out, r#"["b","a"]"#);
}

#[test]
fn find_variables_none() {
    assert_eq!(find_variables("plain text"), "[]");
}

// ------------------------------------------------------------------
// JSON navigation and introspection
// ------------------------------------------------------------------

#[test]
fn extract_null_is_not_undefined() {
    let doc = r#"{"a":null}"#;
    assert_eq!(json_extract(doc, "a"), "null");
    assert_eq!(json_extract(doc, "b"), "undefined");
}

#[test]
fn extract_empty_path_returns_document() {
    assert_eq!(json_extract(r#"{"a":1}"#, ""), r#"{"a":1}"#);
}

#[test]
fn extract_bad_document_is_undefined() {
    assert_eq!(json_extract("nope", "a"), "undefined");
}

#[test]
fn extract_reparses_to_resolved_value() {
    let doc = r#"{"data":{"users":[{"name":"John"}]}}"#;
    let sub = json_extract(doc, "data.users[0]");
    assert_eq!(sub, r#"{"name":"John"}"#);
    assert_eq!(json_extract(&sub, "name"), "\"John\"");
}

#[test]
fn extract_batch_skips_missing() {
    let doc = r#"{"a":1,"b":{"c":[10,20]}}"#;
    let out = json_extract_batch(doc, r#"["a","b.c[1]","nope"]"#);
    let v: serde_json::Value = serde_json::from_str(&out).unwrap();
    assert_eq!(v["a"].as_i64(), Some(1));
    assert_eq!(v["b.c[1]"].as_i64(), Some(20));
    assert!(v.get("nope").is_none());
}

#[test]
fn minify_removes_whitespace() {
    assert_eq!(json_minify("{ \"a\" : [ 1 , 2 ] }\n"), r#"{"a":[1,2]}"#);
}

#[test]
fn format_pretty_prints() {
    assert_eq!(json_format(r#"{"a":[1,2]}"#), "{\n  \"a\": [\n    1,\n    2\n  ]\n}");
}

#[test]
fn format_bad_input_unchanged() {
    assert_eq!(json_format("not json"), "not json");
    assert_eq!(json_minify("not json"), "not json");
}

#[test]
fn info_on_invalid() {
    assert_eq!(json_info("nope"), r#"{"size":4,"valid":false}"#);
}

#[test]
fn info_depth_scalar_is_zero() {
    let v: serde_json::Value = serde_json::from_str(&json_info("42")).unwrap();
    assert_eq!(v["depth"].as_i64(), Some(0));
    assert_eq!(v["type"].as_str(), Some("number"));
    assert_eq!(v["valid"].as_bool(), Some(true));
}

#[test]
fn info_depth_empty_container_is_one() {
    let v: serde_json::Value = serde_json::from_str(&json_info("[]")).unwrap();
    assert_eq!(v["depth"].as_i64(), Some(1));
    let v: serde_json::Value = serde_json::from_str(&json_info("{}")).unwrap();
    assert_eq!(v["depth"].as_i64(), Some(1));
    assert_eq!(v["keys"].as_i64(), Some(0));
}

#[test]
fn info_depth_one_nesting_is_two() {
    let v: serde_json::Value = serde_json::from_str(&json_info(r#"{"a":{"b":1}}"#)).unwrap();
    assert_eq!(v["depth"].as_i64(), Some(2));
    assert_eq!(v["keys"].as_i64(), Some(1));
}

#[test]
fn info_counts() {
    let v: serde_json::Value = serde_json::from_str(&json_info(r#"[1,2,3]"#)).unwrap();
    assert_eq!(v["length"].as_i64(), Some(3));
    assert_eq!(v["type"].as_str(), Some("array"));
    assert_eq!(v["size"].as_i64(), Some(7));
}

#[test]
fn validate_rejects_trailing_garbage() {
    assert!(!json_validate("{} extra"));
    assert!(json_validate("  {}  "));
}

// ------------------------------------------------------------------
// Assertions
// ------------------------------------------------------------------

fn results(assertions: &str, response: &str) -> Vec<serde_json::Value> {
    let out = run_assertions(assertions, response);
    serde_json::from_str(&out).unwrap()
}

fn plain_response(status: i64) -> String {
    format!(
        r#"{{"statusCode":{},"headers":{{"Content-Type":"application/json"}},"body":"{{}}","timingMs":5}}"#,
        status
    )
}

#[test]
fn status_equals_passes() {
    let a = r#"[{"id":"1","type":"status","property":"","operator":"equals","expected":"200","enabled":true}]"#;
    let r = results(a, &plain_response(200));
    assert_eq!(r[0]["passed"].as_bool(), Some(true));
    assert_eq!(r[0]["actual"].as_str(), Some("200"));
    assert_eq!(r[0]["message"].as_str(), Some("Status code is 200"));
    assert_eq!(r[0]["assertionId"].as_str(), Some("1"));
}

#[test]
fn status_bad_expected_defaults_to_zero() {
    let a = r#"[{"id":"1","type":"status","property":"","operator":"greaterThan","expected":"abc","enabled":true}]"#;
    let r = results(a, &plain_response(200));
    assert_eq!(r[0]["passed"].as_bool(), Some(true));
    assert_eq!(r[0]["message"].as_str(), Some("Status code 200 > 0"));
}

#[test]
fn status_unknown_operator_fails() {
    let a = r#"[{"id":"1","type":"status","property":"","operator":"between","expected":"200","enabled":true}]"#;
    let r = results(a, &plain_response(200));
    assert_eq!(r[0]["passed"].as_bool(), Some(false));
    assert_eq!(r[0]["message"].as_str(), Some("Unknown operator: between"));
}

#[test]
fn response_time_less_than() {
    let a = r#"[{"id":"t","type":"responseTime","property":"","operator":"lessThan","expected":"10","enabled":true}]"#;
    let r = results(a, &plain_response(200));
    assert_eq!(r[0]["passed"].as_bool(), Some(true));
    assert_eq!(r[0]["actual"].as_str(), Some("5ms"));
    assert_eq!(r[0]["message"].as_str(), Some("Response time 5ms < 10ms"));
}

#[test]
fn body_contains_and_truncation() {
    let body: String = "x".repeat(150);
    let resp = format!(
        r#"{{"statusCode":200,"headers":{{}},"body":"{}","timingMs":1}}"#,
        body
    );
    let a = r#"[{"id":"c","type":"bodyContains","property":"","operator":"contains","expected":"xxx","enabled":true}]"#;
    let r = results(a, &resp);
    assert_eq!(r[0]["passed"].as_bool(), Some(true));
    let actual = r[0]["actual"].as_str().unwrap();
    assert_eq!(actual.len(), 103);
    assert!(actual.ends_with("..."));
}

#[test]
fn body_matches_regex() {
    let resp = r#"{"statusCode":200,"headers":{},"body":"hello world","timingMs":1}"#;
    let a = r#"[{"id":"m","type":"bodyContains","property":"","operator":"matches","expected":"^h.*d$","enabled":true}]"#;
    let r = results(a, resp);
    assert_eq!(r[0]["passed"].as_bool(), Some(true));
    let a2 = r#"[{"id":"m","type":"bodyContains","property":"","operator":"matches","expected":"^z","enabled":true}]"#;
    let r2 = results(a2, resp);
    assert_eq!(r2[0]["passed"].as_bool(), Some(false));
}

#[test]
fn body_matches_invalid_regex() {
    let resp = r#"{"statusCode":200,"headers":{},"body":"hello","timingMs":1}"#;
    let a = r#"[{"id":"m","type":"bodyContains","property":"","operator":"matches","expected":"[invalid(","enabled":true}]"#;
    let r = results(a, resp);
    assert_eq!(r[0]["passed"].as_bool(), Some(false));
    assert_eq!(r[0]["message"].as_str(), Some("Invalid regex pattern: [invalid("));
}

#[test]
fn body_json_equals() {
    let resp = r#"{"statusCode":200,"headers":{},"body":"{\"user\":{\"age\":30}}","timingMs":1}"#;
    let a = r#"[{"id":"j","type":"bodyJson","property":"user.age","operator":"equals","expected":"30","enabled":true}]"#;
    let r = results(a, resp);
    assert_eq!(r[0]["passed"].as_bool(), Some(true));
    assert_eq!(r[0]["actual"].as_str(), Some("30"));
}

#[test]
fn body_json_numbers_compare_by_value() {
    let resp = r#"{"statusCode":200,"headers":{},"body":"{\"n\":1.0}","timingMs":1}"#;
    let a = r#"[{"id":"j","type":"bodyJson","property":"n","operator":"equals","expected":"1","enabled":true}]"#;
    let r = results(a, resp);
    assert_eq!(r[0]["passed"].as_bool(), Some(true));
}

#[test]
fn body_json_on_invalid_body() {
    let resp = r#"{"statusCode":200,"headers":{},"body":"not json","timingMs":1}"#;
    let a = r#"[{"id":"j","type":"bodyJson","property":"a","operator":"exists","expected":"","enabled":true}]"#;
    let r = results(a, resp);
    assert_eq!(r[0]["passed"].as_bool(), Some(false));
    assert_eq!(r[0]["actual"].as_str(), Some("Invalid JSON"));
    assert_eq!(r[0]["message"].as_str(), Some("Response body is not valid JSON"));
}

#[test]
fn body_json_undefined_vs_null() {
    let resp = r#"{"statusCode":200,"headers":{},"body":"{\"a\":null}","timingMs":1}"#;
    let a = r#"[
        {"id":"1","type":"bodyJson","property":"a","operator":"exists","expected":"","enabled":true},
        {"id":"2","type":"bodyJson","property":"b","operator":"notExists","expected":"","enabled":true},
        {"id":"3","type":"bodyJson","property":"b","operator":"equals","expected":"null","enabled":true}
    ]"#;
    let r = results(a, resp);
    assert_eq!(r[0]["passed"].as_bool(), Some(true));
    assert_eq!(r[0]["actual"].as_str(), Some("null"));
    assert_eq!(r[1]["passed"].as_bool(), Some(true));
    assert_eq!(r[1]["actual"].as_str(), Some("undefined"));
    assert_eq!(r[2]["passed"].as_bool(), Some(false));
}

#[test]
fn header_lookup_is_case_insensitive() {
    let resp = r#"{"statusCode":200,"headers":{"Content-Type":"application/json"},"body":"","timingMs":1}"#;
    let a = r#"[
        {"id":"1","type":"headerExists","property":"content-type","operator":"exists","expected":"","enabled":true},
        {"id":"2","type":"headerEquals","property":"CONTENT-TYPE","operator":"equals","expected":"application/json","enabled":true},
        {"id":"3","type":"headerEquals","property":"content-type","operator":"contains","expected":"json","enabled":true}
    ]"#;
    let r = results(a, resp);
    assert_eq!(r[0]["passed"].as_bool(), Some(true));
    assert_eq!(r[1]["passed"].as_bool(), Some(true));
    assert_eq!(r[1]["actual"].as_str(), Some("application/json"));
    assert_eq!(r[2]["passed"].as_bool(), Some(true));
}

#[test]
fn header_missing_always_fails() {
    let resp = r#"{"statusCode":200,"headers":{},"body":"","timingMs":1}"#;
    let a = r#"[{"id":"1","type":"headerEquals","property":"X-Nope","operator":"notEquals","expected":"v","enabled":true}]"#;
    let r = results(a, resp);
    assert_eq!(r[0]["passed"].as_bool(), Some(false));
    assert_eq!(r[0]["message"].as_str(), Some("Header \"X-Nope\" not found"));
}

#[test]
fn disabled_assertion_always_passes() {
    let resp = r#"{"statusCode":500,"headers":{},"body":"","timingMs":1}"#;
    let a = r#"[{"id":"d","type":"status","property":"","operator":"equals","expected":"200","enabled":false}]"#;
    let r = results(a, resp);
    assert_eq!(r[0]["passed"].as_bool(), Some(true));
    assert_eq!(r[0]["actual"].as_str(), Some(""));
    assert_eq!(r[0]["message"].as_str(), Some("Skipped (disabled)"));
}

#[test]
fn unknown_type_fails_naming_it() {
    let resp = r#"{"statusCode":200,"headers":{},"body":"","timingMs":1}"#;
    let a = r#"[{"id":"u","type":"mystery","property":"","operator":"equals","expected":"","enabled":true}]"#;
    let r = results(a, resp);
    assert_eq!(r[0]["passed"].as_bool(), Some(false));
    assert_eq!(r[0]["message"].as_str(), Some("Unknown assertion type: mystery"));
}

#[test]
fn bad_inputs_give_empty_result_list() {
    assert_eq!(run_assertions("nope", &plain_response(200)), "[]");
    assert_eq!(run_assertions("[]", "nope"), "[]");
    assert_eq!(run_assertions(r#"[{"id":"x"}]"#, &plain_response(200)), "[]");
}

#[test]
fn results_keep_order_and_length() {
    let resp = r#"{"statusCode":200,"headers":{},"body":"","timingMs":1}"#;
    let a = r#"[
        {"id":"a","type":"status","property":"","operator":"equals","expected":"200","enabled":true},
        {"id":"b","type":"status","property":"","operator":"equals","expected":"500","enabled":true}
    ]"#;
    let r = results(a, resp);
    assert_eq!(r.len(), 2);
    assert_eq!(r[0]["assertionId"].as_str(), Some("a"));
    assert_eq!(r[0]["passed"].as_bool(), Some(true));
    assert_eq!(r[1]["assertionId"].as_str(), Some("b"));
    assert_eq!(r[1]["passed"].as_bool(), Some(false));
    assert_eq!(r[1]["message"].as_str(), Some("Expected 500, got 200"));
}
