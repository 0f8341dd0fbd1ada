use harness_proxy::hash::{digest_bytes, hash_entry, hash_input, label_of};
use harness_proxy::json::{Json, JsonNumber};
use harness_proxy::ledger::{genesis, scan_tail, seq_of, LedgerError, SessionLedger, PROTOCOL_VERSION};

const GENESIS: &str = "sha256:0000000000000000000000000000000000000000000000000000000000000000";
const SID: &str = "01ARZ3NDEKTSV4RRFFQ69G5FAV";

fn obj(members: Vec<(&str, Json)>) -> Json {
    Json::Object(members.into_iter().map(|(k, v)| (k.to_string(), v)).collect())
}

fn plan(existing: &[u8], think: Option<&Json>, act: Option<&Json>, ts: &str) -> harness_proxy::ledger::AppendPlan {
    SessionLedger::prepare_entry(existing, SID, "m", "h", think.is_some(), think, act.is_some(), act, "r", ts).unwrap()
}

/// The file after applying a plan: its kept part, then the new line.
fn applied(existing: &[u8], p: &harness_proxy::ledger::AppendPlan) -> Vec<u8> {
    let mut out = existing[..p.keep].to_vec();
    out.extend_from_slice(&p.line);
    out
}

#[test]
fn genesis_is_sha256_and_64_zeros() {
    assert_eq!(genesis(), GENESIS);
    assert_eq!(PROTOCOL_VERSION, 1);
}

#[test]
fn hash_entry_hashes_the_canonical_bytes() {
    assert_eq!(
        hash_entry(&Json::Null),
        "sha256:74234e98afe7498fb5daf1f36ac2d78acc339464f950703b8c019892f982b90b"
    );
    assert_eq!(
        hash_entry(&obj(vec![("a", Json::Number(JsonNumber::PosInt(1)))])),
        "sha256:015abd7f5cc57a2dd94b7590f04ad8084273905ee33ec5cebeae62276a97f862"
    );
}

#[test]
fn hash_input_with_nothing_given() {
    assert_eq!(
        hash_input(None, None, None),
        "sha256:3fb5ee5ef5f83b9d1f136788fc0e1124c538f6734fadd661174d5f09c814cead"
    );
}

#[test]
fn hash_input_with_system_and_messages() {
    let messages = Json::Array(vec![obj(vec![
        ("role", Json::Str("user".to_string())),
        ("content", Json::Str("hi".to_string())),
    ])]);
    assert_eq!(
        hash_input(Some("be brief"), Some(&messages), None),
        "sha256:7380f68d07e04ea42dd0f3a88c7dc6b896096309054d386b4f5b9cfa2d214af9"
    );
}

#[test]
fn absent_messages_and_tools_hash_as_empty_arrays() {
    let empty = Json::Array(vec![]);
    let tools = Json::Array(vec![obj(vec![("name", Json::Str("f".to_string()))])]);
    assert_eq!(hash_input(Some("s"), None, Some(&tools)), hash_input(Some("s"), Some(&empty), Some(&tools)));
    assert_eq!(hash_input(None, Some(&tools), None), hash_input(None, Some(&tools), Some(&empty)));
}

#[test]
fn input_hash_ignores_member_order() {
    let a = Json::Array(vec![obj(vec![
        ("role", Json::Str("user".to_string())),
        ("content", Json::Str("hi".to_string())),
    ])]);
    let b = Json::Array(vec![obj(vec![
        ("content", Json::Str("hi".to_string())),
        ("role", Json::Str("user".to_string())),
    ])]);
    assert_eq!(hash_input(Some("be brief"), Some(&a), None), hash_input(Some("be brief"), Some(&b), None));
    assert_eq!(
        hash_input(Some("be brief"), Some(&b), None),
        "sha256:7380f68d07e04ea42dd0f3a88c7dc6b896096309054d386b4f5b9cfa2d214af9"
    );
}

#[test]
fn empty_ledger_starts_at_genesis() {
    assert_eq!(scan_tail(b""), Ok((0, GENESIS.to_string(), 0)));
    assert_eq!(scan_tail(b"\n\n  \n"), Ok((0, GENESIS.to_string(), 5)));
}

#[test]
fn first_entry_line_and_hash() {
    let p = plan(b"", None, None, "T");
    let expected = [
        r#"{"act":null,"in":"h","model":"m","prev":"sha256:0000000000000000000000000000000000000000000000000000000000000000","#,
        r#""reason":"r","seq":0,"sid":"01ARZ3NDEKTSV4RRFFQ69G5FAV","think":null,"transparency":{"act":false,"think":false},"ts":"T","v":1}"#,
        "\n",
    ]
    .concat();
    assert_eq!(String::from_utf8(p.line.clone()).unwrap(), expected);
    assert_eq!(p.meta.seq, 0);
    assert_eq!(p.keep, 0);
    assert_eq!(p.meta.prev, "sha256:c637ba9429b1f9eeeb4daa868d36831363dc3f655ed3a5f927c1deed51958de9");
}

#[test]
fn appended_entries_read_back_as_a_valid_chain() {
    let think = Json::Str("pondering".to_string());
    let args = obj(vec![("temperature", Json::Number(JsonNumber::Float("0.7".to_string())))]);
    let act = obj(vec![("name", Json::Str("tool".to_string())), ("input", args), ("n", Json::Number(JsonNumber::NegInt(-3)))]);
    let first = plan(b"", Some(&think), Some(&act), "T");
    let ledger = applied(b"", &first);
    assert_eq!(scan_tail(&ledger), Ok((1, first.meta.prev.clone(), ledger.len())));
    let second = plan(&ledger, None, None, "T2");
    assert_eq!(second.meta.seq, 1);
    let text = String::from_utf8(second.line.clone()).unwrap();
    assert!(text.contains(&format!("\"prev\":\"{}\"", first.meta.prev)));
    let ledger2 = applied(&ledger, &second);
    assert_eq!(scan_tail(&ledger2), Ok((2, second.meta.prev.clone(), ledger2.len())));
}

#[test]
fn append_entry_stamps_the_time() {
    let p = SessionLedger::append_entry(b"", SID, "m", "h", false, None, false, None, "r").unwrap();
    let text = String::from_utf8(p.line.clone()).unwrap();
    assert!(text.ends_with('\n'));
    assert_eq!(text.matches('\n').count(), 1);
    let ts_at = text.find("\"ts\":\"").unwrap() + 6;
    let ts = &text[ts_at..ts_at + 24];
    assert!(ts.ends_with('Z'));
    assert_eq!(&ts[10..11], "T");
    for (i, c) in ts.chars().enumerate() {
        match i {
            4 | 7 => assert_eq!(c, '-'),
            10 => assert_eq!(c, 'T'),
            13 | 16 => assert_eq!(c, ':'),
            19 => assert_eq!(c, '.'),
            23 => assert_eq!(c, 'Z'),
            _ => assert!(c.is_ascii_digit()),
        }
    }
    assert!(ts >= "2020");
    assert_eq!(p.meta.seq, 0);
}

#[test]
fn torn_last_line_is_dropped() {
    let first = plan(b"", None, None, "T");
    let mut ledger = applied(b"", &first);
    let valid_len = ledger.len();
    ledger.extend_from_slice(b"{\"seq\":1,\"trunc");
    assert_eq!(scan_tail(&ledger), Ok((1, first.meta.prev.clone(), valid_len)));
    let second = plan(&ledger, None, None, "T2");
    assert_eq!(second.keep, valid_len);
    let repaired = applied(&ledger, &second);
    assert_eq!(&repaired[..valid_len], &ledger[..valid_len]);
    assert_eq!(scan_tail(&repaired), Ok((2, second.meta.prev.clone(), repaired.len())));
}

#[test]
fn unreadable_line_before_the_end_is_refused() {
    let first = plan(b"", None, None, "T");
    let mut ledger = applied(b"", &first);
    ledger.extend_from_slice(b"not json\n");
    assert_eq!(scan_tail(&ledger), Err(LedgerError::Unreadable(1)));
}

#[test]
fn broken_chain_names_the_first_bad_position() {
    assert_eq!(scan_tail(b"{\"seq\":4}\n"), Err(LedgerError::BrokenChain(0)));
    let first = plan(b"", None, None, "T");
    let mut ledger = applied(b"", &first);
    let good_second = plan(&ledger, None, None, "T2");
    let forged = String::from_utf8(good_second.line.clone()).unwrap().replace(&first.meta.prev, GENESIS);
    ledger.extend_from_slice(forged.as_bytes());
    assert_eq!(scan_tail(&ledger), Err(LedgerError::BrokenChain(1)));
    assert_eq!(
        SessionLedger::prepare_entry(&ledger, SID, "m", "h", false, None, false, None, "r", "T3"),
        Err(LedgerError::BrokenChain(1))
    );
}

#[test]
fn newer_version_is_refused() {
    let line = format!("{{\"prev\":\"{}\",\"seq\":0,\"v\":2}}\n", GENESIS);
    assert_eq!(scan_tail(line.as_bytes()), Err(LedgerError::NewerVersion(0)));
}

#[test]
fn session_id_must_be_a_ulid() {
    for bad in ["../x", "a/b", "", "01ARZ3NDEKTSV4RRFFQ69G5FA!", "01arz3ndektsv4rrffq69g5fav"] {
        assert_eq!(
            SessionLedger::prepare_entry(b"", bad, "m", "h", false, None, false, None, "r", "T"),
            Err(LedgerError::InvalidSession)
        );
    }
}

#[test]
fn invalid_utf8_is_an_error() {
    let first = plan(b"", None, None, "T");
    let mut ledger = applied(b"", &first);
    ledger.extend_from_slice(b"\xff\xfe\n");
    assert_eq!(scan_tail(&ledger), Err(LedgerError::InvalidUtf8));
}

#[test]
fn think_and_act_are_recorded_with_transparency() {
    let act = Json::Array(vec![Json::Str("a".to_string())]);
    let p = plan(b"", None, Some(&act), "T");
    let text = String::from_utf8(p.line).unwrap();
    assert!(text.contains(r#""act":["a"]"#));
    assert!(text.contains(r#""think":null"#));
    assert!(text.contains(r#""transparency":{"act":true,"think":false}"#));
}

#[test]
fn seq_of_read_entries() {
    let e = obj(vec![("seq", Json::Number(JsonNumber::PosInt(41)))]);
    assert_eq!(seq_of(&e), Some(41));
    assert_eq!(seq_of(&obj(vec![("seq", Json::Number(JsonNumber::PosInt(u64::MAX)))])), None);
    assert_eq!(seq_of(&Json::Null), None);
}

#[test]
fn digest_labels() {
    assert_eq!(label_of(&vec![0x00, 0xab, 0x0f]), "sha256:00ab0f");
    assert_eq!(
        digest_bytes(b"null"),
        "sha256:74234e98afe7498fb5daf1f36ac2d78acc339464f950703b8c019892f982b90b"
    );
}
