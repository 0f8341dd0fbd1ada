//! What a buffered model response said: its text, its reasoning, its actions.
use vstd::prelude::*;
use vstd::string::StringExecFns;
use crate::json::{
    as_array, as_bool, as_str, field, field_of, get, item, item_of, lemma_array_view, or_null,
    opt_view, parse_json_slice, serde_from_slice, Json, JsonV,
};

verus! {

/// Whether two strings are equal.
pub fn str_eq(a: &str, b: &str) -> (eq: bool)
    ensures
        eq == (a@ == b@),
{
    let x = String::from_str(a);
    let y = String::from_str(b);
    x == y
}

/// A value, unless it is null.
pub open spec fn non_null(v: JsonV) -> Option<JsonV> {
    if v == JsonV::Null {
        None
    } else {
        Some(v)
    }
}

/// A string, or the empty string.
pub open spec fn str_or_empty(o: Option<Seq<char>>) -> Seq<char> {
    match o {
        Some(s) => s,
        None => Seq::empty(),
    }
}

/// The action of a response from its action blocks: none, the one block, or
/// the array of all of them.
pub open spec fn act_of(blocks: Seq<JsonV>) -> Option<JsonV> {
    if blocks.len() == 0 {
        None
    } else if blocks.len() == 1 {
        Some(blocks[0])
    } else {
        Some(JsonV::Array(blocks))
    }
}

/// The reasoning of a response from its reasoning blocks: none, or the array
/// of all of them.
pub open spec fn blocks_or_none(blocks: Seq<JsonV>) -> Option<JsonV> {
    if blocks.len() == 0 {
        None
    } else {
        Some(JsonV::Array(blocks))
    }
}

/// The models of a vector of values.
pub open spec fn views(v: Seq<Json>) -> Seq<JsonV> {
    Seq::new(v.len(), |i: int| v[i]@)
}

/// An optional owned copy of a value that is not null.
pub fn non_null_copy(o: Option<&Json>) -> (r: Option<Json>)
    ensures
        opt_view(r) == non_null(or_null(o)),
{
    match o {
        Some(v) => {
            if v.is_null() {
                None
            } else {
                Some(v.deep_clone())
            }
        },
        None => None,
    }
}

/// The action from action blocks (see `act_of`).
pub fn act_from_blocks(blocks: Vec<Json>) -> (r: Option<Json>)
    ensures
        opt_view(r) == act_of(views(blocks@)),
{
    let n = blocks.len();
    if n == 0 {
        None
    } else if n == 1 {
        let mut b = blocks;
        let x = b.pop();
        match x {
            Some(j) => Some(j),
            None => None,
        }
    } else {
        proof {
            lemma_array_view(blocks);
            assert(views(blocks@) =~= Seq::new(blocks@.len(), |i: int| blocks@[i]@));
        }
        Some(Json::Array(blocks))
    }
}

/// The reasoning from reasoning blocks (see `blocks_or_none`).
pub fn blocks_value(blocks: Vec<Json>) -> (r: Option<Json>)
    ensures
        opt_view(r) == blocks_or_none(views(blocks@)),
{
    if blocks.len() == 0 {
        None
    } else {
        proof {
            lemma_array_view(blocks);
            assert(views(blocks@) =~= Seq::new(blocks@.len(), |i: int| blocks@[i]@));
        }
        Some(Json::Array(blocks))
    }
}

/// The message of an OpenAI-style response: `choices[0].message`.
pub open spec fn openai_message(v: JsonV) -> JsonV {
    field(item(field(v, "choices"@), 0), "message"@)
}

/// Text, reasoning and action of an OpenAI-style response: the message's
/// `content` (or empty), its `reasoning_content` and its `tool_calls` when
/// not null.
pub open spec fn openai_response(v: JsonV) -> (Seq<char>, Option<JsonV>, Option<JsonV>) {
    let m = openai_message(v);
    (
        str_or_empty(as_str(field(m, "content"@))),
        non_null(field(m, "reasoning_content"@)),
        non_null(field(m, "tool_calls"@)),
    )
}

/// Text, reasoning and action of an OpenAI-style response body; all empty
/// when the body is not JSON.
pub open spec fn openai_extract(body: Seq<u8>) -> (Seq<char>, Option<JsonV>, Option<JsonV>) {
    match serde_from_slice(body) {
        None => (Seq::empty(), None, None),
        Some(v) => openai_response(v),
    }
}

/// Text, reasoning and action of a parsed OpenAI-style response.
pub fn summarize_openai(v: &Json) -> (r: (String, Option<Json>, Option<Json>))
    ensures
        (r.0@, opt_view(r.1), opt_view(r.2)) == openai_response(v@),
{
    let m = field_of(item_of(field_of(Some(v), "choices"), 0), "message");
    let reason = match field_of(m, "content") {
        Some(c) => match c.as_str() {
            Some(s) => String::from_str(s),
            None => String::new(),
        },
        None => String::new(),
    };
    let act = non_null_copy(field_of(m, "tool_calls"));
    let think = non_null_copy(field_of(m, "reasoning_content"));
    (reason, think, act)
}

/// Text, reasoning and action of an OpenAI-style response body.
pub fn extract_openai(body: &[u8]) -> (r: (String, Option<Json>, Option<Json>))
    ensures
        (r.0@, opt_view(r.1), opt_view(r.2)) == openai_extract(body@),
{
    match parse_json_slice(body) {
        None => (String::new(), None, None),
        Some(v) => summarize_openai(&v),
    }
}

} // verus!

verus! {

/// The `type` of a content block.
pub open spec fn block_type(b: JsonV) -> Option<Seq<char>> {
    as_str(field(b, "type"@))
}

/// Reading Anthropic content blocks in order: the texts of the `text` blocks,
/// joined, the `thinking` blocks, the `tool_use` blocks.
pub open spec fn anthropic_blocks(blocks: Seq<JsonV>) -> (Seq<char>, Seq<JsonV>, Seq<JsonV>)
    decreases blocks.len(),
{
    if blocks.len() == 0 {
        (Seq::empty(), Seq::empty(), Seq::empty())
    } else {
        let (r, t, u) = anthropic_blocks(blocks.drop_last());
        let b = blocks.last();
        match block_type(b) {
            Some(ty) => if ty == "text"@ {
                (r + str_or_empty(as_str(field(b, "text"@))), t, u)
            } else if ty == "thinking"@ {
                (r, t.push(b), u)
            } else if ty == "tool_use"@ {
                (r, t, u.push(b))
            } else {
                (r, t, u)
            },
            None => (r, t, u),
        }
    }
}

/// Text, reasoning and action of an Anthropic-style response: from the
/// `content` blocks, all their text, the thinking blocks (as an array) and the
/// tool-use blocks (one, or an array); all empty without a block array.
pub open spec fn anthropic_response(v: JsonV) -> (Seq<char>, Option<JsonV>, Option<JsonV>) {
    match as_array(field(v, "content"@)) {
        None => (Seq::empty(), None, None),
        Some(blocks) => {
            let (r, t, u) = anthropic_blocks(blocks);
            (r, blocks_or_none(t), act_of(u))
        },
    }
}

/// Text, reasoning and action of an Anthropic-style response body; all empty
/// when the body is not JSON.
pub open spec fn anthropic_extract(body: Seq<u8>) -> (Seq<char>, Option<JsonV>, Option<JsonV>) {
    match serde_from_slice(body) {
        None => (Seq::empty(), None, None),
        Some(v) => anthropic_response(v),
    }
}

/// The text of a string member, if there is one.
pub fn member_str<'a>(v: &'a Json, key: &str) -> (s: Option<&'a str>)
    ensures
        match s {
            Some(t) => as_str(field(v@, key@)) == Some(t@),
            None => as_str(field(v@, key@)) is None,
        },
{
    match v.get(key) {
        Some(x) => x.as_str(),
        None => None,
    }
}

/// Text, reasoning and action of a parsed Anthropic-style response.
pub fn summarize_anthropic(v: &Json) -> (r: (String, Option<Json>, Option<Json>))
    ensures
        (r.0@, opt_view(r.1), opt_view(r.2)) == anthropic_response(v@),
{
    let content = match v.get("content") {
        Some(c) => c.as_array(),
        None => None,
    };
    let blocks = match content {
        None => {
            return (String::new(), None, None);
        },
        Some(b) => b,
    };
    let ghost bs = Seq::new(blocks@.len(), |i: int| blocks@[i]@);
    assert(as_array(field(v@, "content"@)) == Some(bs));
    let mut reason = String::new();
    let mut thinks: Vec<Json> = Vec::new();
    let mut tools: Vec<Json> = Vec::new();
    let mut i: usize = 0;
    assert(bs.take(0) =~= Seq::<JsonV>::empty());
    while i < blocks.len()
        invariant
            i <= blocks@.len(),
            bs == Seq::new(blocks@.len(), |i: int| blocks@[i]@),
            (reason@, views(thinks@), views(tools@)) == anthropic_blocks(bs.take(i as int)),
        decreases blocks@.len() - i,
    {
        let b = &blocks[i];
        assert(bs.take(i + 1).drop_last() =~= bs.take(i as int));
        assert(bs.take(i + 1).last() == b@);
        match member_str(b, "type") {
            Some(ty) => {
                if str_eq(ty, "text") {
                    match member_str(b, "text") {
                        Some(t) => {
                            reason.append(t);
                        },
                        None => {},
                    }
                } else if str_eq(ty, "thinking") {
                    let ghost before = thinks@;
                    thinks.push(b.deep_clone());
                    assert(views(thinks@) =~= views(before).push(b@));
                } else if str_eq(ty, "tool_use") {
                    let ghost before = tools@;
                    tools.push(b.deep_clone());
                    assert(views(tools@) =~= views(before).push(b@));
                }
            },
            None => {},
        }
        i = i + 1;
    }
    assert(bs.take(blocks@.len() as int) =~= bs);
    (reason, blocks_value(thinks), act_from_blocks(tools))
}

/// Text, reasoning and action of an Anthropic-style response body.
pub fn extract_anthropic(body: &[u8]) -> (r: (String, Option<Json>, Option<Json>))
    ensures
        (r.0@, opt_view(r.1), opt_view(r.2)) == anthropic_extract(body@),
{
    match parse_json_slice(body) {
        None => (String::new(), None, None),
        Some(v) => summarize_anthropic(&v),
    }
}

/// The parts of a Gemini-style response: `candidates[0].content.parts`.
pub open spec fn gemini_parts(v: JsonV) -> Option<Seq<JsonV>> {
    as_array(field(field(item(field(v, "candidates"@), 0), "content"@), "parts"@))
}

/// A part's function call, when it has one that is not null.
pub open spec fn function_call(p: JsonV) -> Option<JsonV> {
    match get(p, "functionCall"@) {
        Some(fc) => non_null(fc),
        None => None,
    }
}

/// Reading Gemini parts in order: text of parts that are neither thoughts
/// nor function calls, concatenated; thought parts; function calls.
pub open spec fn gemini_blocks(parts: Seq<JsonV>) -> (Seq<char>, Seq<JsonV>, Seq<JsonV>)
    decreases parts.len(),
{
    if parts.len() == 0 {
        (Seq::empty(), Seq::empty(), Seq::empty())
    } else {
        let (r, t, c) = gemini_blocks(parts.drop_last());
        let p = parts.last();
        if as_bool(field(p, "thought"@)) == Some(true) {
            (r, t.push(p), c)
        } else if function_call(p) is Some {
            (r, t, c.push(function_call(p)->0))
        } else if as_str(field(p, "text"@)) is Some {
            (r + as_str(field(p, "text"@))->0, t, c)
        } else {
            (r, t, c)
        }
    }
}

/// Text, reasoning and action of a Gemini-style response: from its parts,
/// the texts, the thought parts (as an array) and the function calls (one,
/// or an array); all empty without a part array.
pub open spec fn gemini_response(v: JsonV) -> (Seq<char>, Option<JsonV>, Option<JsonV>) {
    match gemini_parts(v) {
        None => (Seq::empty(), None, None),
        Some(parts) => {
            let (r, t, c) = gemini_blocks(parts);
            (r, blocks_or_none(t), act_of(c))
        },
    }
}

/// Text, reasoning and action of a Gemini-style response body; all empty
/// when the body is not JSON.
pub open spec fn gemini_extract(body: Seq<u8>) -> (Seq<char>, Option<JsonV>, Option<JsonV>) {
    match serde_from_slice(body) {
        None => (Seq::empty(), None, None),
        Some(v) => gemini_response(v),
    }
}

/// The parts of a Gemini-style response, if they are an array.
pub fn gemini_parts_of(v: &Json) -> (parts: Option<&Vec<Json>>)
    ensures
        match parts {
            Some(p) => gemini_parts(v@) == Some(Seq::new(p@.len(), |i: int| p@[i]@)),
            None => gemini_parts(v@) is None,
        },
{
    let p = field_of(field_of(item_of(field_of(Some(v), "candidates"), 0), "content"), "parts");
    match p {
        Some(x) => x.as_array(),
        None => None,
    }
}

/// The function call of a part, if it has one that is not null.
pub fn function_call_of(p: &Json) -> (fc: Option<&Json>)
    ensures
        match fc {
            Some(x) => function_call(p@) == Some(x@),
            None => function_call(p@) is None,
        },
{
    match p.get("functionCall") {
        Some(x) => {
            if x.is_null() {
                None
            } else {
                Some(x)
            }
        },
        None => None,
    }
}

/// Whether a part is marked as a thought.
pub fn is_thought(p: &Json) -> (b: bool)
    ensures
        b == (as_bool(field(p@, "thought"@)) == Some(true)),
{
    match p.get("thought") {
        Some(x) => match x.as_bool() {
            Some(t) => t,
            None => false,
        },
        None => false,
    }
}

/// Text, reasoning and action of a parsed Gemini-style response.
pub fn summarize_gemini(v: &Json) -> (r: (String, Option<Json>, Option<Json>))
    ensures
        (r.0@, opt_view(r.1), opt_view(r.2)) == gemini_response(v@),
{
    let parts = match gemini_parts_of(v) {
        None => {
            return (String::new(), None, None);
        },
        Some(p) => p,
    };
    let ghost ps = Seq::new(parts@.len(), |i: int| parts@[i]@);
    let mut reason = String::new();
    let mut thinks: Vec<Json> = Vec::new();
    let mut calls: Vec<Json> = Vec::new();
    let mut i: usize = 0;
    assert(ps.take(0) =~= Seq::<JsonV>::empty());
    while i < parts.len()
        invariant
            i <= parts@.len(),
            ps == Seq::new(parts@.len(), |i: int| parts@[i]@),
            (reason@, views(thinks@), views(calls@)) == gemini_blocks(ps.take(i as int)),
        decreases parts@.len() - i,
    {
        let p = &parts[i];
        assert(ps.take(i + 1).drop_last() =~= ps.take(i as int));
        assert(ps.take(i + 1).last() == p@);
        if is_thought(p) {
            let ghost before = thinks@;
            thinks.push(p.deep_clone());
            assert(views(thinks@) =~= views(before).push(p@));
        } else {
            match function_call_of(p) {
                Some(fc) => {
                    let ghost before = calls@;
                    calls.push(fc.deep_clone());
                    assert(views(calls@) =~= views(before).push(fc@));
                },
                None => {
                    match member_str(p, "text") {
                        Some(t) => {
                            reason.append(t);
                        },
                        None => {},
                    }
                },
            }
        }
        i = i + 1;
    }
    assert(ps.take(parts@.len() as int) =~= ps);
    (reason, blocks_value(thinks), act_from_blocks(calls))
}

/// Text, reasoning and action of a Gemini-style response body.
pub fn extract_gemini(body: &[u8]) -> (r: (String, Option<Json>, Option<Json>))
    ensures
        (r.0@, opt_view(r.1), opt_view(r.2)) == gemini_extract(body@),
{
    match parse_json_slice(body) {
        None => (String::new(), None, None),
        Some(v) => summarize_gemini(&v),
    }
}

} // verus!

verus! {

/// The action of a response from its action blocks: none without blocks,
/// the block itself when there is one, and an array of all of them, in
/// order, when there are several.
pub proof fn law_action_keeps_every_block(blocks: Seq<JsonV>)
    ensures
        blocks.len() == 0 ==> act_of(blocks) is None,
        blocks.len() == 1 ==> act_of(blocks) == Some(blocks[0]),
        blocks.len() >= 2 ==> act_of(blocks) == Some(JsonV::Array(blocks)),
        blocks.len() == 0 ==> blocks_or_none(blocks) is None,
        blocks.len() > 0 ==> blocks_or_none(blocks) == Some(JsonV::Array(blocks)),
{
}

/// One more Gemini part: a thought part is added to the thoughts, a part
/// with a function call (not null) adds the call, any other part with text
/// adds the text; what earlier parts gave is kept.
pub proof fn law_gemini_part(parts: Seq<JsonV>, p: JsonV)
    ensures
        ({
            let before = gemini_blocks(parts);
            let after = gemini_blocks(parts.push(p));
            let thought = as_bool(field(p, "thought"@)) == Some(true);
            let call = match get(p, "functionCall"@) {
                Some(fc) => if fc == JsonV::Null {
                    None
                } else {
                    Some(fc)
                },
                None => None,
            };
            &&& thought ==> after == (before.0, before.1.push(p), before.2)
            &&& !thought && call is Some ==> after == (before.0, before.1, before.2.push(call->0))
            &&& !thought && call is None ==> after == (
                before.0 + str_or_empty(as_str(field(p, "text"@))),
                before.1,
                before.2,
            )
        }),
{
    assert(parts.push(p).drop_last() =~= parts);
    let before = gemini_blocks(parts);
    assert(before.0 + Seq::<char>::empty() =~= before.0);
}

/// One more Anthropic content block: a `text` block adds its text to the
/// text, a `thinking` block is added to the reasoning, a `tool_use` block to
/// the actions; other blocks change nothing, and what earlier blocks gave is
/// kept.
pub proof fn law_anthropic_block(blocks: Seq<JsonV>, b: JsonV)
    ensures
        ({
            let before = anthropic_blocks(blocks);
            let after = anthropic_blocks(blocks.push(b));
            let ty = as_str(field(b, "type"@));
            &&& ty == Some("text"@) ==> after == (
                before.0 + str_or_empty(as_str(field(b, "text"@))),
                before.1,
                before.2,
            )
            &&& ty == Some("thinking"@) ==> after == (before.0, before.1.push(b), before.2)
            &&& ty == Some("tool_use"@) ==> after == (before.0, before.1, before.2.push(b))
            &&& ty != Some("text"@) && ty != Some("thinking"@) && ty != Some("tool_use"@) ==> after == before
        }),
{
    reveal_strlit("text");
    reveal_strlit("thinking");
    reveal_strlit("tool_use");
    assert("text"@.len() != "thinking"@.len());
    assert("text"@.len() != "tool_use"@.len());
    assert("thinking"@[1] != "tool_use"@[1]);
    assert(blocks.push(b).drop_last() =~= blocks);
}

/// An OpenAI-style response: its text is the first choice's message
/// `content` when that is a string (else empty), its reasoning the
/// message's `reasoning_content` and its action the message's `tool_calls`,
/// each when present and not null.
pub proof fn law_openai_message(v: JsonV)
    ensures
        ({
            let m = field(item(field(v, "choices"@), 0), "message"@);
            let r = openai_response(v);
            &&& r.0 == match field(m, "content"@) {
                JsonV::Str(s) => s,
                _ => Seq::empty(),
            }
            &&& r.1 == match get(m, "reasoning_content"@) {
                Some(x) => if x == JsonV::Null {
                    None
                } else {
                    Some(x)
                },
                None => None,
            }
            &&& r.2 == match get(m, "tool_calls"@) {
                Some(x) => if x == JsonV::Null {
                    None
                } else {
                    Some(x)
                },
                None => None,
            }
        }),
{
}

} // verus!

verus! {

/// An Anthropic-style response is read from the blocks of its `content`
/// array (nothing without one); a Gemini-style response from the parts of
/// its first candidate's content (nothing without them).
pub proof fn law_response_sources(v: JsonV)
    ensures
        (field(v, "content"@) matches JsonV::Array(bs)) ==> anthropic_response(v) == (
            anthropic_blocks(field(v, "content"@)->Array_0).0,
            blocks_or_none(anthropic_blocks(field(v, "content"@)->Array_0).1),
            act_of(anthropic_blocks(field(v, "content"@)->Array_0).2),
        ),
        !(field(v, "content"@) is Array) ==> anthropic_response(v) == (Seq::<char>::empty(), None::<JsonV>, None::<JsonV>),
        ({
            let parts = field(field(item(field(v, "candidates"@), 0), "content"@), "parts"@);
            &&& (parts matches JsonV::Array(ps)) ==> gemini_response(v) == (
                gemini_blocks(parts->Array_0).0,
                blocks_or_none(gemini_blocks(parts->Array_0).1),
                act_of(gemini_blocks(parts->Array_0).2),
            )
            &&& !(parts is Array) ==> gemini_response(v) == (Seq::<char>::empty(), None::<JsonV>, None::<JsonV>)
        }),
{
}

} // verus!
