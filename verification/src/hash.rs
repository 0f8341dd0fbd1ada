//! SHA-256 digests of canonical JSON, written `sha256:<lower-case hex>`.
use vstd::prelude::*;
use vstd::string::StringExecFns;
use vstd::utf8::encode_utf8;
use sha2::Digest;
use crate::jcs::{
    canon, canonicalize, distinct_keys, hex_digit, keys_distinct_deep, law_canon_ignores_key_order, members_distinct,
    normal_form, normal_members,
};
use crate::json::{Json, JsonV};
use crate::text::push_char;

verus! {

/// What SHA-256 yields for these bytes.
pub uninterp spec fn sha256_spec(data: Seq<u8>) -> Seq<u8>;

/// `sha2::Sha256::digest`. Claims that the digest is the one `sha256_spec`
/// names for the input, and that it is 32 bytes long (the output size of
/// SHA-256).
#[verifier::external_body]
fn sha256_digest(data: &[u8]) -> (digest: Vec<u8>)
    ensures
        digest@ == sha256_spec(data@),
        digest@.len() == 32,
{
    sha2::Sha256::digest(data).to_vec()
}

/// Two lower-case hexadecimal digits per byte, most significant first.
pub open spec fn lower_hex(bytes: Seq<u8>) -> Seq<char>
    decreases bytes.len(),
{
    if bytes.len() == 0 {
        Seq::empty()
    } else {
        lower_hex(bytes.drop_last()) + seq![
            hex_digit(bytes.last() as int / 16),
            hex_digit(bytes.last() as int % 16),
        ]
    }
}

/// The label `sha256:` followed by the hex digest of `data`.
pub open spec fn digest_label(data: Seq<u8>) -> Seq<char> {
    seq!['s', 'h', 'a', '2', '5', '6', ':'] + lower_hex(sha256_spec(data))
}

/// The model of the hashed input of a model call: system prompt (or null),
/// messages (or an empty array) and tools (or an empty array).
pub open spec fn input_payload(
    system: Option<Seq<char>>,
    messages: Option<JsonV>,
    tools: Option<JsonV>,
) -> JsonV {
    JsonV::Object(
        seq![
            ("system"@, match system {
                Some(s) => JsonV::Str(s),
                None => JsonV::Null,
            }),
            ("messages"@, match messages {
                Some(m) => m,
                None => JsonV::Array(Seq::empty()),
            }),
            ("tools"@, match tools {
                Some(t) => t,
                None => JsonV::Array(Seq::empty()),
            }),
        ],
    )
}

proof fn lemma_lower_hex_len(bytes: Seq<u8>)
    ensures
        lower_hex(bytes).len() == 2 * bytes.len(),
    decreases bytes.len(),
{
    if bytes.len() > 0 {
        lemma_lower_hex_len(bytes.drop_last());
    }
}

/// Appends `sha256:` and the lower-case hex digits of `digest`.
fn push_label(out: &mut String, digest: &Vec<u8>)
    ensures
        final(out)@ == old(out)@ + seq!['s', 'h', 'a', '2', '5', '6', ':'] + lower_hex(digest@),
{
    let ghost start = out@;
    push_char(out, 's');
    push_char(out, 'h');
    push_char(out, 'a');
    push_char(out, '2');
    push_char(out, '5');
    push_char(out, '6');
    push_char(out, ':');
    let ghost mid = out@;
    let mut i: usize = 0;
    while i < digest.len()
        invariant
            i <= digest@.len(),
            out@ == mid + lower_hex(digest@.take(i as int)),
        decreases digest@.len() - i,
    {
        let b = digest[i];
        push_char(out, hex_digit_of(b / 16));
        push_char(out, hex_digit_of(b % 16));
        assert(digest@.take(i + 1).drop_last() =~= digest@.take(i as int));
        i = i + 1;
    }
    assert(digest@.take(digest@.len() as int) =~= digest@);
    assert(out@ =~= start + seq!['s', 'h', 'a', '2', '5', '6', ':'] + lower_hex(digest@));
}

fn hex_digit_of(d: u8) -> (c: char)
    requires
        d < 16,
    ensures
        c == hex_digit(d as int),
{
    if d < 10 {
        (48 + d) as char
    } else {
        (87 + d) as char
    }
}

/// An empty JSON array.
pub fn empty_array() -> (a: Json)
    ensures
        a@ == JsonV::Array(Seq::empty()),
{
    let e: Vec<Json> = Vec::new();
    proof {
        crate::json::lemma_array_view(e);
        assert(Seq::new(e@.len(), |i: int| e@[i]@) =~= Seq::<JsonV>::empty());
    }
    Json::Array(e)
}

/// The digest label of raw bytes.
pub fn digest_bytes(data: &[u8]) -> (label: String)
    ensures
        label@ == digest_label(data@),
        label@.len() == 71,
{
    let digest = sha256_digest(data);
    let label = label_of(&digest);
    proof {
        lemma_lower_hex_len(digest@);
    }
    assert(label@ =~= digest_label(data@));
    label
}

/// The label of a digest: `sha256:` and its lower-case hex digits.
pub fn label_of(digest: &Vec<u8>) -> (label: String)
    ensures
        label@ == seq!['s', 'h', 'a', '2', '5', '6', ':'] + lower_hex(digest@),
{
    let mut out = String::new();
    push_label(&mut out, digest);
    assert(out@ =~= seq!['s', 'h', 'a', '2', '5', '6', ':'] + lower_hex(digest@));
    out
}

/// The hash of a ledger entry: `sha256:` and the hex SHA-256 of its
/// canonical bytes.
pub fn hash_entry(entry: &Json) -> (label: String)
    ensures
        label@ == digest_label(encode_utf8(canon(entry@))),
        label@.len() == 71,
{
    let bytes = canonicalize(entry);
    digest_bytes(bytes.as_slice())
}

/// The hash of a model call's input: the hash of the object with members
/// `system` (the prompt or null), `messages` (or `[]`) and `tools` (or `[]`).
pub fn hash_input(system: Option<&str>, messages: Option<&Json>, tools: Option<&Json>) -> (label: String)
    ensures
        label@ == input_label(
            match system {
                Some(s) => Some(s@),
                None => None,
            },
            match messages {
                Some(m) => Some(m@),
                None => None,
            },
            match tools {
                Some(t) => Some(t@),
                None => None,
            },
        ),
        label@.len() == 71,
{
    let system_value = match system {
        Some(s) => Json::Str(String::from_str(s)),
        None => Json::Null,
    };
    let messages_value = match messages {
        Some(m) => m.deep_clone(),
        None => empty_array(),
    };
    let tools_value = match tools {
        Some(t) => t.deep_clone(),
        None => empty_array(),
    };
    let ghost sys_v = match system {
        Some(s) => Some(s@),
        None => None,
    };
    let ghost msg_v = match messages {
        Some(m) => Some(m@),
        None => None,
    };
    let ghost tool_v = match tools {
        Some(t) => Some(t@),
        None => None,
    };
    let k_system = String::from_str("system");
    let k_messages = String::from_str("messages");
    let k_tools = String::from_str("tools");
    let mut members: Vec<(String, Json)> = Vec::new();
    members.push((k_system, system_value));
    members.push((k_messages, messages_value));
    members.push((k_tools, tools_value));
    let payload = Json::Object(members);
    proof {
        crate::json::lemma_object_view(members);
        let want = input_payload(sys_v, msg_v, tool_v);
        let ws = match want {
            JsonV::Object(x) => x,
            _ => Seq::empty(),
        };
        assert(members@[0].1@ == ws[0].1);
        assert(members@[1].1@ == ws[1].1);
        assert(members@[2].1@ == ws[2].1);
        assert(ws =~= Seq::new(members@.len(), |i: int| (members@[i].0@, members@[i].1@)));
    }
    hash_entry(&payload)
}


/// The hash of a model call's input with its system prompt, messages and
/// tools (see `hash_input`).
pub open spec fn input_label(system: Option<Seq<char>>, messages: Option<JsonV>, tools: Option<JsonV>) -> Seq<char> {
    digest_label(encode_utf8(canon(input_payload(system, messages, tools))))
}

/// Absent messages hash as an empty message array would, and absent tools
/// as an empty tool array.
pub proof fn law_absent_lists_hash_as_empty(
    system: Option<Seq<char>>,
    messages: Option<JsonV>,
    tools: Option<JsonV>,
)
    ensures
        input_label(system, None, tools) == input_label(system, Some(JsonV::Array(Seq::empty())), tools),
        input_label(system, messages, None) == input_label(system, messages, Some(JsonV::Array(Seq::empty()))),
{
    let empty = JsonV::Array(Seq::empty());
    let a = input_payload(system, None, tools);
    let b = input_payload(system, Some(empty), tools);
    let am = match a {
        JsonV::Object(m) => m,
        _ => Seq::empty(),
    };
    let bm = match b {
        JsonV::Object(m) => m,
        _ => Seq::empty(),
    };
    assert(am[1] == bm[1]);
    assert(am =~= bm);
    let c = input_payload(system, messages, None);
    let d = input_payload(system, messages, Some(empty));
    let cm = match c {
        JsonV::Object(m) => m,
        _ => Seq::empty(),
    };
    let dm = match d {
        JsonV::Object(m) => m,
        _ => Seq::empty(),
    };
    assert(cm[2] == dm[2]);
    assert(cm =~= dm);
}

/// The input hash does not depend on the order in which object members were
/// given: messages and tools that repeat no key and have the same normal
/// form hash alike.
pub proof fn law_input_hash_ignores_key_order(
    system: Option<Seq<char>>,
    messages1: JsonV,
    messages2: JsonV,
    tools1: JsonV,
    tools2: JsonV,
)
    requires
        keys_distinct_deep(messages1),
        keys_distinct_deep(messages2),
        keys_distinct_deep(tools1),
        keys_distinct_deep(tools2),
        normal_form(messages1) == normal_form(messages2),
        normal_form(tools1) == normal_form(tools2),
    ensures
        input_label(system, Some(messages1), Some(tools1)) == input_label(system, Some(messages2), Some(tools2)),
{
    let p1 = input_payload(system, Some(messages1), Some(tools1));
    let p2 = input_payload(system, Some(messages2), Some(tools2));
    let m1 = match p1 {
        JsonV::Object(m) => m,
        _ => Seq::empty(),
    };
    let m2 = match p2 {
        JsonV::Object(m) => m,
        _ => Seq::empty(),
    };
    reveal_strlit("system");
    reveal_strlit("messages");
    reveal_strlit("tools");
    assert("system"@.len() != "messages"@.len());
    assert("system"@.len() != "tools"@.len());
    assert("messages"@.len() != "tools"@.len());
    assert(distinct_keys(m1));
    assert(distinct_keys(m2));
    reveal_with_fuel(members_distinct, 4);
    assert(m1.drop_last().drop_last().drop_last() =~= Seq::<(Seq<char>, JsonV)>::empty());
    assert(m2.drop_last().drop_last().drop_last() =~= Seq::<(Seq<char>, JsonV)>::empty());
    assert(members_distinct(m1));
    assert(members_distinct(m2));
    assert(normal_members(m1) =~= normal_members(m2));
    law_canon_ignores_key_order(p1, p2);
}
} // verus!

verus! {

/// The hex text of bytes: two characters per byte, in order, the high half
/// first, as lower-case hex digits (see `law_hex_digits_are_lower_case`).
pub proof fn law_hex_text_of_bytes(bytes: Seq<u8>)
    ensures
        lower_hex(bytes).len() == 2 * bytes.len(),
        forall|i: int|
            0 <= i < bytes.len() ==> lower_hex(bytes)[2 * i] == hex_digit(#[trigger] bytes[i] as int / 16)
                && lower_hex(bytes)[2 * i + 1] == hex_digit(bytes[i] as int % 16),
    decreases bytes.len(),
{
    if bytes.len() > 0 {
        let p = bytes.drop_last();
        law_hex_text_of_bytes(p);
        assert forall|i: int| 0 <= i < bytes.len() implies lower_hex(bytes)[2 * i] == hex_digit(
            #[trigger] bytes[i] as int / 16,
        ) && lower_hex(bytes)[2 * i + 1] == hex_digit(bytes[i] as int % 16) by {
            if i < p.len() {
                assert(bytes[i] == p[i]);
            }
        }
    }
}

/// A digest label is `sha256:` followed by 64 hex characters of the SHA-256
/// digest of the bytes.
pub proof fn law_digest_label_shape(data: Seq<u8>, digest: Seq<u8>)
    requires
        digest == sha256_spec(data),
        digest.len() == 32,
    ensures
        digest_label(data).len() == 71,
        digest_label(data).subrange(0, 7) == seq!['s', 'h', 'a', '2', '5', '6', ':'],
        digest_label(data).subrange(7, 71) == lower_hex(digest),
{
    law_hex_text_of_bytes(digest);
    assert(digest_label(data).subrange(0, 7) =~= seq!['s', 'h', 'a', '2', '5', '6', ':']);
    assert(digest_label(data).subrange(7, 71) =~= lower_hex(digest));
}

} // verus!

verus! {

/// What the input hash covers: an object whose `system` is the system
/// prompt (or null), whose `messages` are the messages given (or an empty
/// array) and whose `tools` are the tools given (or an empty array), and
/// nothing else.
pub proof fn law_input_payload_members(system: Option<Seq<char>>, messages: Option<JsonV>, tools: Option<JsonV>)
    ensures
        ({
            let p = input_payload(system, messages, tools);
            &&& p is Object
            &&& crate::json::get(p, "system"@) == Some(
                match system {
                    Some(s) => JsonV::Str(s),
                    None => JsonV::Null,
                },
            )
            &&& crate::json::get(p, "messages"@) == Some(
                match messages {
                    Some(m) => m,
                    None => JsonV::Array(Seq::empty()),
                },
            )
            &&& crate::json::get(p, "tools"@) == Some(
                match tools {
                    Some(t) => t,
                    None => JsonV::Array(Seq::empty()),
                },
            )
            &&& forall|k: Seq<char>|
                k != "system"@ && k != "messages"@ && k != "tools"@ ==> #[trigger] crate::json::get(p, k) is None
        }),
{
    reveal_strlit("system");
    reveal_strlit("messages");
    reveal_strlit("tools");
    let p = input_payload(system, messages, tools);
    let m = match p {
        JsonV::Object(m) => m,
        _ => Seq::empty(),
    };
    assert(distinct_keys(m)) by {
        assert("system"@.len() != "messages"@.len());
        assert("system"@.len() != "tools"@.len());
        assert("messages"@.len() != "tools"@.len());
    }
    assert(m.contains(m[0]) && m.contains(m[1]) && m.contains(m[2]));
    crate::jcs::lemma_lookup_member(m, m[0].0, m[0].1);
    crate::jcs::lemma_lookup_member(m, m[1].0, m[1].1);
    crate::jcs::lemma_lookup_member(m, m[2].0, m[2].1);
    assert forall|k: Seq<char>| k != "system"@ && k != "messages"@ && k != "tools"@ implies #[trigger] crate::json::get(
        p,
        k,
    ) is None by {
        assert(m.drop_first().drop_first().drop_first() =~= Seq::<(Seq<char>, JsonV)>::empty());
        reveal_with_fuel(crate::json::lookup, 4);
    }
}

} // verus!
