use harness_proxy::jcs::{canonicalize, emit, emit_str};
use harness_proxy::json::{Json, JsonNumber};

fn canon(v: Json) -> String {
    String::from_utf8(canonicalize(&v)).unwrap()
}

fn num(n: u64) -> Json {
    Json::Number(JsonNumber::PosInt(n))
}

fn text(s: &str) -> Json {
    Json::Str(s.to_string())
}

fn obj(members: Vec<(&str, Json)>) -> Json {
    Json::Object(members.into_iter().map(|(k, v)| (k.to_string(), v)).collect())
}

// --- Key ordering ---

#[test]
fn sorts_object_keys_alphabetically() {
    assert_eq!(canon(obj(vec![("z", num(2)), ("a", num(1)), ("m", num(0))])), r#"{"a":1,"m":0,"z":2}"#);
}

#[test]
fn key_ordering_is_insertion_order_independent() {
    let fwd = canon(obj(vec![("a", num(1)), ("b", num(2))]));
    let rev = canon(obj(vec![("b", num(2)), ("a", num(1))]));
    assert_eq!(fwd, rev);
    assert_eq!(fwd, r#"{"a":1,"b":2}"#);
}

#[test]
fn sorts_nested_object_keys() {
    assert_eq!(
        canon(obj(vec![("z", obj(vec![("b", num(2)), ("a", num(1))]))])),
        r#"{"z":{"a":1,"b":2}}"#
    );
}

// --- Arrays ---

#[test]
fn array_preserves_insertion_order() {
    assert_eq!(canon(Json::Array(vec![num(3), num(1), num(2)])), "[3,1,2]");
}

// --- Scalars ---

#[test]
fn scalars_null_bool_number_string() {
    assert_eq!(canon(Json::Null), "null");
    assert_eq!(canon(Json::Bool(true)), "true");
    assert_eq!(canon(Json::Bool(false)), "false");
    assert_eq!(canon(num(42)), "42");
    assert_eq!(canon(text("hello")), r#""hello""#);
}

// --- String escapes ---

#[test]
fn escapes_mandatory_control_characters() {
    assert_eq!(canon(text("\n")), r#""\n""#);
    assert_eq!(canon(text("\r")), r#""\r""#);
    assert_eq!(canon(text("\t")), r#""\t""#);
    assert_eq!(canon(text("\x08")), r#""\b""#);
    assert_eq!(canon(text("\x0C")), r#""\f""#);
    assert_eq!(canon(text("\\")), r#""\\""#);
    assert_eq!(canon(text("\"")), r#""\"""#);
}

#[test]
fn escapes_other_c0_control_characters_as_unicode() {
    assert_eq!(canon(text("\x01")), r#""\u0001""#);
    assert_eq!(canon(text("\x1F")), r#""\u001f""#);
}

// --- Further cases ---

#[test]
fn negative_and_large_integers() {
    assert_eq!(canon(Json::Number(JsonNumber::NegInt(-7))), "-7");
    assert_eq!(canon(Json::Number(JsonNumber::NegInt(i64::MIN))), "-9223372036854775808");
    assert_eq!(canon(num(u64::MAX)), "18446744073709551615");
    assert_eq!(canon(Json::Number(JsonNumber::Float("2.5".to_string()))), "2.5");
}

#[test]
fn empty_containers() {
    assert_eq!(canon(Json::Array(vec![])), "[]");
    assert_eq!(canon(obj(vec![])), "{}");
}

#[test]
fn keys_order_by_code_point() {
    assert_eq!(
        canon(obj(vec![("é", num(1)), ("b", num(2)), ("B", num(3)), ("ab", num(4)), ("a", num(5))])),
        r#"{"B":3,"a":5,"ab":4,"b":2,"é":1}"#
    );
}

#[test]
fn non_ascii_and_del_pass_through() {
    assert_eq!(emit_str("héllo \u{7f} ✓"), "\"héllo \u{7f} ✓\"");
}

#[test]
fn emit_matches_canonical_bytes() {
    let v = obj(vec![("k", Json::Array(vec![Json::Null, text("x\ny")]))]);
    assert_eq!(emit(&v), r#"{"k":[null,"x\ny"]}"#);
    assert_eq!(emit(&v).into_bytes(), canonicalize(&v));
}

#[test]
fn escaped_text_holds_no_control_character() {
    let all: String = (0u8..0x20).map(|b| b as char).collect();
    let out = emit_str(&all);
    assert!(out.chars().all(|c| (c as u32) >= 0x20));
    assert_eq!(
        out,
        "\"\\u0000\\u0001\\u0002\\u0003\\u0004\\u0005\\u0006\\u0007\\b\\t\\n\\u000b\\f\\r\\u000e\\u000f\\u0010\\u0011\\u0012\\u0013\\u0014\\u0015\\u0016\\u0017\\u0018\\u0019\\u001a\\u001b\\u001c\\u001d\\u001e\\u001f\""
    );
}

#[test]
fn keys_order_by_utf16_code_units() {
    assert_eq!(
        canon(obj(vec![("\u{E000}", num(1)), ("\u{1F600}", num(2))])),
        "{\"\u{1F600}\":2,\"\u{E000}\":1}"
    );
    assert_eq!(
        canon(obj(vec![("\u{FFFF}", num(1)), ("\u{10000}", num(2)), ("\u{D7FF}", num(3))])),
        "{\"\u{D7FF}\":3,\"\u{10000}\":2,\"\u{FFFF}\":1}"
    );
}

fn float(t: &str) -> String {
    canon(Json::Number(JsonNumber::Float(t.to_string())))
}

#[test]
fn numbers_are_written_as_ecmascript_writes_them() {
    assert_eq!(float("1.0"), "1");
    assert_eq!(float("-0.0"), "0");
    assert_eq!(float("0.7"), "0.7");
    assert_eq!(float("-12.5"), "-12.5");
    assert_eq!(float("100.0"), "100");
    assert_eq!(float("1e21"), "1e+21");
    assert_eq!(float("1e+21"), "1e+21");
    assert_eq!(float("1e20"), "100000000000000000000");
    assert_eq!(float("1.2345e20"), "123450000000000000000");
    assert_eq!(float("1e-7"), "1e-7");
    assert_eq!(float("1.5e-7"), "1.5e-7");
    assert_eq!(float("1e-6"), "0.000001");
    assert_eq!(float("0.000001"), "0.000001");
    assert_eq!(float("1.23e-5"), "0.0000123");
    assert_eq!(float("5e-324"), "5e-324");
    assert_eq!(float("1.7976931348623157e308"), "1.7976931348623157e+308");
    assert_eq!(float("not a number"), "not a number");
}

#[test]
fn nested_key_order_does_not_matter() {
    let a = obj(vec![
        ("x", Json::Array(vec![obj(vec![("q", num(1)), ("p", Json::Number(JsonNumber::Float("2.50".to_string())))])])),
        ("b", obj(vec![("d", Json::Null), ("c", Json::Bool(true))])),
    ]);
    let b = obj(vec![
        ("b", obj(vec![("c", Json::Bool(true)), ("d", Json::Null)])),
        ("x", Json::Array(vec![obj(vec![("p", Json::Number(JsonNumber::Float("2.50".to_string()))), ("q", num(1))])])),
    ]);
    assert_eq!(canon(a), canon(b));
}
