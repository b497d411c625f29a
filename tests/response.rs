use score_engine::response::response_json;

#[test]
fn plain_object_is_taken_whole() {
    assert_eq!(response_json("  {\"a\": [1, 2]}\n"), Some("{\"a\": [1, 2]}"));
}

#[test]
fn code_fences_are_removed() {
    assert_eq!(response_json("```json\n{\"k\": [3]}\n```"), Some("{\"k\": [3]}"));
    assert_eq!(response_json("```\n{}\n```"), Some("{}"));
}

#[test]
fn object_inside_prose_is_found() {
    assert_eq!(
        response_json("Here you go: {\"x\": [1]} hope it helps"),
        Some("{\"x\": [1]}")
    );
}

#[test]
fn non_objects_are_refused() {
    assert_eq!(response_json("[1, 2, 3]"), None);
    assert_eq!(response_json("no json here"), None);
    assert_eq!(response_json("} then {"), None);
    assert_eq!(response_json("{ broken"), None);
    assert_eq!(response_json(""), None);
}
