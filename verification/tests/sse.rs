use harness_proxy::jcs::emit;
use harness_proxy::json::Json;
use harness_proxy::sse::{accumulate_sse_anthropic, accumulate_sse_gemini, accumulate_sse_openai, add_openai_chunk, tool_call_from, with_input};

fn text_of(o: &Option<Json>) -> Option<String> {
    o.as_ref().map(emit)
}

#[test]
fn openai_stream_accumulates_content_and_tool_calls() {
    let buf = [
        "data: {\"choices\":[{\"delta\":{\"content\":\"Hel\"}}]}\n\n",
        "data: {\"choices\":[{\"delta\":{\"content\":\"lo\",\"reasoning_content\":\"r1\"}}]}\n\n",
        "data: {\"choices\":[{\"delta\":{\"tool_calls\":[{\"index\":1,\"id\":\"b\",\"function\":{\"name\":\"g\",\"arguments\":\"not json\"}}]}}]}\n\n",
        "data: {\"choices\":[{\"delta\":{\"tool_calls\":[{\"index\":0,\"id\":\"a\",\"function\":{\"name\":\"f\",\"arguments\":\"{\\\"x\\\":\"}}]}}]}\n\n",
        "data: {\"choices\":[{\"delta\":{\"tool_calls\":[{\"index\":0,\"id\":\"z\",\"function\":{\"arguments\":\"1}\"}}]}}]}\n\n",
        "data: [DONE]\n\n"
    ].concat();
    let (reason, think, act) = accumulate_sse_openai(buf.as_bytes());
    assert_eq!(reason, "Hello");
    assert_eq!(text_of(&think), Some(r#""r1""#.to_string()));
    assert_eq!(
        text_of(&act),
        Some([
            r#"[{"function":{"arguments":{"x":1},"name":"f"},"id":"a","type":"function"},"#,
            r#"{"function":{"arguments":"not json","name":"g"},"id":"b","type":"function"}]"#
        ].concat().to_string())
    );
}

#[test]
fn openai_stream_with_nothing_but_done() {
    let (reason, think, act) = accumulate_sse_openai(b"data: [DONE]\n");
    assert_eq!(reason, "");
    assert!(think.is_none() && act.is_none());
}

#[test]
fn openai_stream_that_is_not_utf8_reads_as_empty() {
    let (reason, think, act) = accumulate_sse_openai(b"data: {\"choices\":[{\"delta\":{\"content\":\"x\"}}]}\n\xff");
    assert_eq!(reason, "");
    assert!(think.is_none() && act.is_none());
}

#[test]
fn anthropic_stream_rebuilds_tool_input() {
    let buf = [
        "event: content_block_start\n",
        "data: {\"type\":\"content_block_start\",\"index\":0,\"content_block\":{\"type\":\"text\",\"text\":\"\"}}\n",
        "data: {\"type\":\"content_block_delta\",\"index\":0,\"delta\":{\"type\":\"text_delta\",\"text\":\"Hi \"}}\n",
        "data: {\"type\":\"content_block_delta\",\"index\":0,\"delta\":{\"type\":\"thinking_delta\",\"thinking\":\"t\"}}\n",
        "data: {\"type\":\"content_block_start\",\"index\":1,\"content_block\":{\"type\":\"tool_use\",\"id\":\"u\",\"name\":\"f\",\"input\":{}}}\n",
        "data: {\"type\":\"content_block_delta\",\"index\":1,\"delta\":{\"type\":\"input_json_delta\",\"partial_json\":\"{\\\"a\\\":\"}}\n",
        "data: {\"type\":\"content_block_delta\",\"index\":1,\"delta\":{\"type\":\"input_json_delta\",\"partial_json\":\"[1]}\"}}\n",
        "data: {\"type\":\"content_block_delta\",\"index\":0,\"delta\":{\"type\":\"text_delta\",\"text\":\"there\"}}\n",
        "data: {\"type\":\"message_stop\"}\n"
    ].concat();
    let (reason, think, act) = accumulate_sse_anthropic(buf.as_bytes());
    assert_eq!(reason, "Hi there");
    assert_eq!(text_of(&think), Some(r#""t""#.to_string()));
    assert_eq!(text_of(&act), Some(r#"{"id":"u","input":{"a":[1]},"name":"f","type":"tool_use"}"#.to_string()));
}

#[test]
fn anthropic_stream_tool_without_input_gets_empty_object() {
    let buf = [
        "data: {\"type\":\"content_block_start\",\"index\":2,\"content_block\":{\"type\":\"tool_use\",\"id\":\"b\"}}\n",
        "data: {\"type\":\"content_block_start\",\"index\":1,\"content_block\":{\"type\":\"tool_use\",\"id\":\"a\"}}\n",
        "data: {\"type\":\"content_block_delta\",\"index\":1,\"delta\":{\"type\":\"input_json_delta\",\"partial_json\":\"{bad\"}}\n"
    ].concat();
    let (reason, think, act) = accumulate_sse_anthropic(buf.as_bytes());
    assert_eq!(reason, "");
    assert!(think.is_none());
    assert_eq!(
        text_of(&act),
        Some(r#"[{"id":"a","input":"{bad","type":"tool_use"},{"id":"b","input":{},"type":"tool_use"}]"#.to_string())
    );
}

#[test]
fn gemini_stream_accumulates_parts() {
    let buf = [
        "data: {\"candidates\":[{\"content\":{\"parts\":[{\"text\":\"a\",\"thought\":true},{\"text\":\"Hel\"}]}}]}\r\n\r\n",
        "data: {\"candidates\":[{\"content\":{\"parts\":[{\"text\":\"b\",\"thought\":true},{\"text\":\"lo\"}]}}]}\r\n",
        "data: {\"candidates\":[{\"content\":{\"parts\":[{\"functionCall\":{\"name\":\"f\"}}]}}]}\n",
        "data: {\"candidates\":[{\"content\":{\"parts\":[{\"functionCall\":{\"name\":\"g\"}}]}}]}\n"
    ].concat();
    let (reason, think, act) = accumulate_sse_gemini(buf.as_bytes());
    assert_eq!(reason, "Hello");
    assert_eq!(text_of(&think), Some(r#""ab""#.to_string()));
    assert_eq!(text_of(&act), Some(r#"[{"name":"f"},{"name":"g"}]"#.to_string()));
}

#[test]
fn tool_call_and_block_builders() {
    let call = tool_call_from(&"id1".to_string(), &"f".to_string(), Json::Bool(true));
    assert_eq!(emit(&call), r#"{"function":{"arguments":true,"name":"f"},"id":"id1","type":"function"}"#);
    let block = Json::Object(vec![("z".to_string(), Json::Null), ("a".to_string(), Json::Null)]);
    let done = with_input(&block, Json::Str("x".to_string()));
    assert_eq!(emit(&done), r#"{"a":null,"input":"x","z":null}"#);
    assert_eq!(with_input(&Json::Null, Json::Bool(true)), Json::Null);
}

#[test]
fn openai_chunk_added_to_running_state() {
    let delta = Json::Object(vec![("content".to_string(), Json::Str("b".to_string()))]);
    let choice = Json::Object(vec![("delta".to_string(), delta)]);
    let chunk = Json::Object(vec![("choices".to_string(), Json::Array(vec![choice]))]);
    let mut reason = "a".to_string();
    let mut thinking = String::new();
    let mut tools = Vec::new();
    add_openai_chunk(&chunk, &mut reason, &mut thinking, &mut tools);
    assert_eq!(reason, "ab");
    assert_eq!(thinking, "");
    assert!(tools.is_empty());
}
