use harness_proxy::extract::{extract_anthropic, extract_gemini, extract_openai, summarize_anthropic, summarize_gemini, summarize_openai};
use harness_proxy::jcs::emit;
use harness_proxy::json::Json;

fn text_of(o: &Option<Json>) -> Option<String> {
    o.as_ref().map(emit)
}

#[test]
fn openai_message_content_reasoning_and_tools() {
    let body = br#"{"choices":[{"message":{"content":"hello","reasoning_content":"mull","tool_calls":[{"id":"c1","type":"function"}]}}]}"#;
    let (reason, think, act) = extract_openai(body);
    assert_eq!(reason, "hello");
    assert_eq!(text_of(&think), Some(r#""mull""#.to_string()));
    assert_eq!(text_of(&act), Some(r#"[{"id":"c1","type":"function"}]"#.to_string()));
}

#[test]
fn openai_nulls_and_missing_fields() {
    let body = br#"{"choices":[{"message":{"content":null,"tool_calls":null}}]}"#;
    let (reason, think, act) = extract_openai(body);
    assert_eq!(reason, "");
    assert!(think.is_none());
    assert!(act.is_none());
}

#[test]
fn openai_body_that_is_not_json() {
    let (reason, think, act) = extract_openai(b"<html>");
    assert_eq!(reason, "");
    assert!(think.is_none() && act.is_none());
}

#[test]
fn anthropic_blocks() {
    let body = br#"{"content":[
        {"type":"thinking","thinking":"hmm"},
        {"type":"text","text":"first"},
        {"type":"tool_use","id":"t1","name":"f","input":{}},
        {"type":"text","text":"second"}
    ]}"#;
    let (reason, think, act) = extract_anthropic(body);
    assert_eq!(reason, "firstsecond");
    assert_eq!(text_of(&think), Some(r#"[{"thinking":"hmm","type":"thinking"}]"#.to_string()));
    assert_eq!(text_of(&act), Some(r#"{"id":"t1","input":{},"name":"f","type":"tool_use"}"#.to_string()));
}

#[test]
fn anthropic_several_tool_uses_form_an_array() {
    let body = br#"{"content":[{"type":"tool_use","id":"a"},{"type":"tool_use","id":"b"},{"type":"image"}]}"#;
    let (reason, think, act) = extract_anthropic(body);
    assert_eq!(reason, "");
    assert!(think.is_none());
    assert_eq!(text_of(&act), Some(r#"[{"id":"a","type":"tool_use"},{"id":"b","type":"tool_use"}]"#.to_string()));
}

#[test]
fn anthropic_text_block_without_text() {
    let (reason, _, _) = extract_anthropic(br#"{"content":[{"type":"text","text":"x"},{"type":"text"}]}"#);
    assert_eq!(reason, "x");
}

#[test]
fn anthropic_text_blocks_around_a_tool_use_are_joined() {
    let body = br#"{"content":[{"type":"text","text":"a"},{"type":"tool_use","id":"t","name":"f","input":{}},{"type":"text","text":"b"}]}"#;
    let (reason, think, act) = extract_anthropic(body);
    assert_eq!(reason, "ab");
    assert!(think.is_none());
    assert_eq!(text_of(&act), Some(r#"{"id":"t","input":{},"name":"f","type":"tool_use"}"#.to_string()));
}

#[test]
fn gemini_parts() {
    let body = br#"{"candidates":[{"content":{"parts":[
        {"text":"plan","thought":true},
        {"text":"Hello, "},
        {"functionCall":{"name":"f","args":{"a":1}}},
        {"functionCall":null,"text":"world"}
    ]}}]}"#;
    let (reason, think, act) = extract_gemini(body);
    assert_eq!(reason, "Hello, world");
    assert_eq!(text_of(&think), Some(r#"[{"text":"plan","thought":true}]"#.to_string()));
    assert_eq!(text_of(&act), Some(r#"{"args":{"a":1},"name":"f"}"#.to_string()));
}

#[test]
fn gemini_without_candidates() {
    let (reason, think, act) = extract_gemini(br#"{"candidates":[]}"#);
    assert_eq!(reason, "");
    assert!(think.is_none() && act.is_none());
}

fn obj(members: Vec<(&str, Json)>) -> Json {
    Json::Object(members.into_iter().map(|(k, v)| (k.to_string(), v)).collect())
}

#[test]
fn summaries_of_parsed_responses() {
    let v = obj(vec![(
        "choices",
        Json::Array(vec![obj(vec![("message", obj(vec![("content", Json::Str("ok".to_string())), ("tool_calls", Json::Null)]))])]),
    )]);
    let (reason, think, act) = summarize_openai(&v);
    assert_eq!(reason, "ok");
    assert!(think.is_none() && act.is_none());
    let v = obj(vec![("content", Json::Str("not blocks".to_string()))]);
    let (reason, think, act) = summarize_anthropic(&v);
    assert_eq!(reason, "");
    assert!(think.is_none() && act.is_none());
    let part = obj(vec![("text", Json::Str("t".to_string())), ("thought", Json::Bool(false))]);
    let v = obj(vec![(
        "candidates",
        Json::Array(vec![obj(vec![("content", obj(vec![("parts", Json::Array(vec![part]))]))])]),
    )]);
    let (reason, think, act) = summarize_gemini(&v);
    assert_eq!(reason, "t");
    assert!(think.is_none() && act.is_none());
}
