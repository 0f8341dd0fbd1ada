use harness_proxy::json::{Json, JsonNumber};
use harness_proxy::ledger::EntryMeta;
use harness_proxy::proxy::{summarize, contains_str, decimal_text, forwarded_name, gemini_model, gemini_url, input_hash, is_event_stream, keep_header, model_of, next_step, plan_anthropic, plan_gemini, plan_openai, response_headers, session_id, trim_end_slashes, trim_suffix_str, upstream_url, Action, Event, Phase, Provider, ProxyError};

const STRIP: [&str; 2] = ["x-harness-session", "x-harness-upstream"];

fn obj(members: Vec<(&str, Json)>) -> Json {
    Json::Object(members.into_iter().map(|(k, v)| (k.to_string(), v)).collect())
}

fn num(n: u64) -> Json {
    Json::Number(JsonNumber::PosInt(n))
}

#[test]
fn trailing_slashes_are_trimmed() {
    assert_eq!(trim_end_slashes("https://a.example///"), "https://a.example");
    assert_eq!(trim_end_slashes("https://a.example"), "https://a.example");
    assert_eq!(trim_end_slashes("///"), "");
    assert_eq!(trim_end_slashes(""), "");
}

#[test]
fn suffixes_are_trimmed_repeatedly() {
    assert_eq!(trim_suffix_str("ab:x:x", ":x"), "ab");
    assert_eq!(trim_suffix_str("ab", ":x"), "ab");
    assert_eq!(trim_suffix_str("ab", ""), "ab");
}

#[test]
fn gemini_model_from_path() {
    assert_eq!(gemini_model("gemini-2.0-flash:streamGenerateContent"), "gemini-2.0-flash");
    assert_eq!(gemini_model("gemini-2.0-flash:generateContent"), "gemini-2.0-flash");
    assert_eq!(gemini_model("gemini-pro"), "gemini-pro");
    assert_eq!(gemini_model("m:generateContent:streamGenerateContent"), "m");
    assert_eq!(gemini_model("m:streamGenerateContent:generateContent"), "m:streamGenerateContent");
}

#[test]
fn substring_search() {
    assert!(contains_str("text/event-stream; charset=utf-8", "text/event-stream"));
    assert!(contains_str("abc", ""));
    assert!(!contains_str("text/event", "text/event-stream"));
    assert!(!contains_str("application/json", "text/event-stream"));
}

#[test]
fn event_stream_detection() {
    assert!(is_event_stream(Some("text/event-stream")));
    assert!(!is_event_stream(Some("application/json")));
    assert!(!is_event_stream(None));
}

#[test]
fn headers_forwarded_upstream() {
    assert!(keep_header("authorization", &STRIP));
    assert!(keep_header("x-api-key", &STRIP));
    assert!(!keep_header("host", &STRIP));
    assert!(!keep_header("Content-Length", &STRIP));
    assert!(!keep_header("x-harness-session", &STRIP));
    assert!(!keep_header("X-Harness-Upstream", &STRIP));
    assert!(keep_header("x-harness-seq", &STRIP));
}

#[test]
fn model_named_or_unknown() {
    assert_eq!(model_of(&obj(vec![("model", Json::Str("model-x".to_string()))])), "model-x");
    assert_eq!(model_of(&obj(vec![("model", num(4))])), "unknown");
    assert_eq!(model_of(&obj(vec![])), "unknown");
    assert_eq!(model_of(&Json::Array(vec![])), "unknown");
}

#[test]
fn urls() {
    assert_eq!(upstream_url(None, "https://api.openai.com", "/v1/chat/completions"), "https://api.openai.com/v1/chat/completions");
    assert_eq!(upstream_url(Some("http://localhost:9/"), "https://api.openai.com", "/v1/messages"), "http://localhost:9/v1/messages");
    assert_eq!(gemini_url("https://g.example", Some("/v1beta/models/m:generateContent?alt=sse")), "https://g.example/v1beta/models/m:generateContent?alt=sse");
    assert_eq!(gemini_url("https://g.example", None), "https://g.example/");
}

#[test]
fn input_hash_per_provider() {
    let openai = obj(vec![
        ("system", Json::Str("sys".to_string())),
        ("messages", Json::Array(vec![num(1)])),
        ("tools", Json::Array(vec![num(2)])),
    ]);
    assert_eq!(input_hash(&Provider::OpenAi, &openai), "sha256:5fe94859ec4ae7dd8e08b597823c82387ec399745be3f995c2aba32e5c29ef24");
    let openai_odd = obj(vec![("system", Json::Array(vec![]))]);
    assert_eq!(input_hash(&Provider::OpenAi, &openai_odd), "sha256:3fb5ee5ef5f83b9d1f136788fc0e1124c538f6734fadd661174d5f09c814cead");
    let anthropic = obj(vec![(
        "system",
        Json::Array(vec![obj(vec![("type", Json::Str("text".to_string())), ("text", Json::Str("a".to_string()))])]),
    )]);
    assert_eq!(input_hash(&Provider::Anthropic, &anthropic), "sha256:b9d9325e05855a7f8280843a7fb9cdf09d3353a6aef0cb109ec184305bfd2692");
    let gemini = obj(vec![
        ("systemInstruction", obj(vec![("parts", Json::Array(vec![obj(vec![("text", Json::Str("x".to_string()))])]))])),
        ("contents", Json::Array(vec![num(3)])),
    ]);
    assert_eq!(input_hash(&Provider::Gemini, &gemini), "sha256:768c42049b7c40a8ff23bafecb159ae3a347953410b0f28a1f1926eac869c808");
    let gemini_str = obj(vec![("systemInstruction", Json::Str("s".to_string()))]);
    assert_eq!(input_hash(&Provider::Gemini, &gemini_str), "sha256:2905d2d7e6115d1233a47aa53d8da14d05abe8b0baf5fe2315230716a178701f");
}

#[test]
fn session_from_header_or_fresh() {
    assert_eq!(session_id(Some("01ARZ3NDEKTSV4RRFFQ69G5FAV")), Some("01ARZ3NDEKTSV4RRFFQ69G5FAV".to_string()));
    assert_eq!(session_id(Some("../x")), None);
    assert_eq!(session_id(Some("01ABC")), None);
    let fresh = session_id(None).unwrap();
    assert_eq!(fresh.len(), 26);
}

#[test]
fn plans() {
    let body = br#"{"model":"m-1","system":"s","messages":[]}"#;
    let plan = plan_anthropic(body, Some("01ARZ3NDEKTSV4RRFFQ69G5FAV"), None, "https://api.anthropic.com/").unwrap();
    assert_eq!(plan.sid, "01ARZ3NDEKTSV4RRFFQ69G5FAV");
    assert_eq!(plan_anthropic(body, Some("../x"), None, "b"), Err(ProxyError::BadSession));
    assert_eq!(plan.url, "https://api.anthropic.com/v1/messages");
    assert_eq!(plan.model, "m-1");
    assert_eq!(plan.in_hash, input_hash(&Provider::Anthropic, &obj(vec![("system", Json::Str("s".to_string())), ("messages", Json::Array(vec![]))])));
    let plan = plan_openai(br#"{"messages":[]}"#, None, Some("http://up/"), "https://api.openai.com").unwrap();
    assert_eq!(plan.url, "http://up/v1/chat/completions");
    assert_eq!(plan.model, "unknown");
    assert_eq!(plan.sid.len(), 26);
    let plan = plan_gemini(br#"{"contents":[]}"#, None, "https://g", "gemini-pro:generateContent", Some("/v1beta/models/gemini-pro:generateContent")).unwrap();
    assert_eq!(plan.model, "gemini-pro");
    assert_eq!(plan.url, "https://g/v1beta/models/gemini-pro:generateContent");
}

#[test]
fn body_that_is_not_json_is_a_bad_request() {
    assert_eq!(plan_openai(b"{", None, None, "b"), Err(ProxyError::BadRequest));
    assert_eq!(plan_anthropic(b"", None, None, "b"), Err(ProxyError::BadRequest));
    assert_eq!(plan_gemini(b"nope", None, "b", "m", None), Err(ProxyError::BadRequest));
    assert_eq!(plan_openai(b"{", Some("../x"), None, "b"), Err(ProxyError::BadRequest));
    assert_eq!(ProxyError::BadRequest.status(), 400);
    assert_eq!(ProxyError::BadSession.status(), 400);
    assert_eq!(ProxyError::BadGateway.status(), 502);
    assert_eq!(ProxyError::LedgerWriteFailed.status(), 500);
}

#[test]
fn response_headers_per_provider() {
    let meta = EntryMeta { seq: 12, prev: "sha256:ab".to_string() };
    let s = |v: Vec<(&str, &str)>| -> Vec<(String, String)> { v.into_iter().map(|(a, b)| (a.to_string(), b.to_string())).collect() };
    assert_eq!(response_headers(&Provider::OpenAi, "S", None), s(vec![("x-harness-session", "S")]));
    assert_eq!(
        response_headers(&Provider::OpenAi, "S", Some(&meta)),
        s(vec![("x-harness-session", "S"), ("x-harness-seq", "12"), ("x-harness-prev", "sha256:ab")])
    );
    assert_eq!(
        response_headers(&Provider::Gemini, "S", Some(&meta)),
        s(vec![("x-harness-session", "S"), ("x-harness-seq", "12"), ("x-harness-prev", "sha256:ab")])
    );
    assert_eq!(
        response_headers(&Provider::Anthropic, "S", Some(&meta)),
        s(vec![("x-harness-session", "S"), ("x-harness-seq", "12")])
    );
    assert_eq!(decimal_text(0), "0");
    assert_eq!(decimal_text(u64::MAX), "18446744073709551615");
}

#[test]
fn buffered_response_is_released_only_after_recording() {
    assert_eq!(next_step(Phase::Sending, Event::Replied(false)), (Phase::Reading, Action::ReadBody));
    assert_eq!(next_step(Phase::Reading, Event::Read), (Phase::Recording, Action::Record));
    assert_eq!(next_step(Phase::Recording, Event::Recorded), (Phase::Released, Action::Release));
    assert_eq!(
        next_step(Phase::Recording, Event::RecordFailed),
        (Phase::Failed, Action::Reject(ProxyError::LedgerWriteFailed))
    );
}

#[test]
fn streams_are_read_whole_and_failures_refused() {
    assert_eq!(next_step(Phase::Sending, Event::Replied(true)), (Phase::Reading, Action::ReadBody));
    assert_eq!(next_step(Phase::Sending, Event::SendFailed), (Phase::Failed, Action::Reject(ProxyError::BadGateway)));
    assert_eq!(next_step(Phase::Reading, Event::ReadFailed), (Phase::Failed, Action::Reject(ProxyError::BadGateway)));
    assert_eq!(next_step(Phase::Released, Event::Recorded), (Phase::Released, Action::Ignore));
    assert_eq!(next_step(Phase::Sending, Event::Recorded), (Phase::Sending, Action::Ignore));
}

#[test]
fn forwarded_names_compare_exactly() {
    assert!(!forwarded_name("host", &STRIP));
    assert!(forwarded_name("Host", &STRIP));
    assert!(!forwarded_name("x-harness-upstream", &STRIP));
    assert!(forwarded_name("accept", &[]));
}

#[test]
fn summarize_reads_each_provider_and_form() {
    let anthropic = br#"{"content":[{"type":"text","text":"a"},{"type":"text","text":"b"}]}"#;
    assert_eq!(summarize(&Provider::Anthropic, false, anthropic).0, "ab");
    let anthropic_stream = b"data: {\"type\":\"content_block_delta\",\"index\":0,\"delta\":{\"type\":\"text_delta\",\"text\":\"a\"}}\ndata: {\"type\":\"content_block_delta\",\"index\":0,\"delta\":{\"type\":\"text_delta\",\"text\":\"b\"}}\n";
    assert_eq!(summarize(&Provider::Anthropic, true, anthropic_stream).0, "ab");
    let openai = br#"{"choices":[{"message":{"content":"hi"}}]}"#;
    assert_eq!(summarize(&Provider::OpenAi, false, openai).0, "hi");
    assert_eq!(summarize(&Provider::OpenAi, true, b"data: {\"choices\":[{\"delta\":{\"content\":\"x\"}}]}\n").0, "x");
    let gemini = br#"{"candidates":[{"content":{"parts":[{"text":"g"}]}}]}"#;
    assert_eq!(summarize(&Provider::Gemini, false, gemini).0, "g");
    assert_eq!(summarize(&Provider::Gemini, true, b"data: {\"candidates\":[{\"content\":{\"parts\":[{\"text\":\"s\"}]}}]}\n").0, "s");
    assert_eq!(summarize(&Provider::Gemini, true, gemini).0, "");
}
