//! What a streamed (server-sent events) model response said, accumulated
//! over its `data: ` lines.
use vstd::prelude::*;
use vstd::string::StringExecFns;
use vstd::utf8::{decode_utf8, valid_utf8};
use crate::extract::{act_from_blocks, act_of, function_call, function_call_of, gemini_parts, gemini_parts_of, is_thought, member_str, views};
use crate::json::{as_bool, as_str, field, get, opt_view, parse_json_str, serde_from_str, Json, JsonV};
use crate::text::{
    chars_of, split_text_lines, string_of, strip_prefix, strip_prefix_chars, text_lines,
    utf8_text,
};

verus! {

/// The text of a stream buffer: its UTF-8 decoding, or empty when it is not
/// valid UTF-8.
pub open spec fn stream_text(buf: Seq<u8>) -> Seq<char> {
    if valid_utf8(buf) {
        decode_utf8(buf)
    } else {
        Seq::empty()
    }
}

/// The lines of a stream buffer.
pub open spec fn stream_lines(buf: Seq<u8>) -> Seq<Seq<char>> {
    text_lines(stream_text(buf))
}

/// The payload of a `data: ` line.
pub open spec fn data_of(line: Seq<char>) -> Option<Seq<char>> {
    strip_prefix(line, "data: "@)
}

/// Reasoning text as a value: none when empty, else a string.
pub open spec fn thinking_value(t: Seq<char>) -> Option<JsonV> {
    if t.len() == 0 {
        None
    } else {
        Some(JsonV::Str(t))
    }
}

/// The lines of a stream buffer, as characters.
pub fn stream_lines_of(buf: &[u8]) -> (lines: Vec<Vec<char>>)
    ensures
        lines@.len() == stream_lines(buf@).len(),
        forall|i: int| 0 <= i < lines@.len() ==> (#[trigger] lines@[i])@ == stream_lines(buf@)[i],
{
    let cs = match utf8_text(buf) {
        Some(t) => chars_of(t),
        None => Vec::new(),
    };
    assert(cs@ == stream_text(buf@));
    split_text_lines(&cs)
}

/// The JSON payload of a `data: ` line, if it has one that parses.
fn data_value(line: &Vec<char>, prefix: &Vec<char>) -> (v: Option<Json>)
    requires
        prefix@ == "data: "@,
    ensures
        opt_view(v) == match data_of(line@) {
            Some(d) => serde_from_str(d),
            None => None,
        },
{
    match strip_prefix_chars(line, prefix) {
        Some(d) => {
            let text = string_of(d.as_slice());
            parse_json_str(text.as_str())
        },
        None => None,
    }
}

/// Reading the parts of one Gemini chunk: text of thought parts, function
/// calls, and text of other parts.
pub open spec fn gemini_chunk(parts: Seq<JsonV>) -> (Seq<char>, Seq<char>, Seq<JsonV>)
    decreases parts.len(),
{
    if parts.len() == 0 {
        (Seq::empty(), Seq::empty(), Seq::empty())
    } else {
        let (r, t, c) = gemini_chunk(parts.drop_last());
        let p = parts.last();
        if as_bool(field(p, "thought"@)) == Some(true) {
            match as_str(field(p, "text"@)) {
                Some(s) => (r, t + s, c),
                None => (r, t, c),
            }
        } else if function_call(p) is Some {
            (r, t, c.push(function_call(p)->0))
        } else if as_str(field(p, "text"@)) is Some {
            (r + as_str(field(p, "text"@))->0, t, c)
        } else {
            (r, t, c)
        }
    }
}

/// Reading the lines of a Gemini stream: every `data: ` line that holds a
/// response with parts adds its chunk.
pub open spec fn gemini_stream(lines: Seq<Seq<char>>) -> (Seq<char>, Seq<char>, Seq<JsonV>)
    decreases lines.len(),
{
    if lines.len() == 0 {
        (Seq::empty(), Seq::empty(), Seq::empty())
    } else {
        let (r, t, c) = gemini_stream(lines.drop_last());
        match data_of(lines.last()) {
            None => (r, t, c),
            Some(d) => match serde_from_str(d) {
                None => (r, t, c),
                Some(v) => match gemini_parts(v) {
                    None => (r, t, c),
                    Some(ps) => {
                        let (r2, t2, c2) = gemini_chunk(ps);
                        (r + r2, t + t2, c + c2)
                    },
                },
            },
        }
    }
}

/// Text, reasoning (as one string) and action of a Gemini stream.
pub open spec fn gemini_sse(buf: Seq<u8>) -> (Seq<char>, Option<JsonV>, Option<JsonV>) {
    let (r, t, c) = gemini_stream(stream_lines(buf));
    (r, thinking_value(t), act_of(c))
}

/// Adds one Gemini chunk to the running text, reasoning and calls.
pub fn add_gemini_chunk(parts: &Vec<Json>, reason: &mut String, thinking: &mut String, calls: &mut Vec<Json>)
    ensures
        ({
            let ps = Seq::new(parts@.len(), |i: int| parts@[i]@);
            let (r2, t2, c2) = gemini_chunk(ps);
            &&& final(reason)@ == old(reason)@ + r2
            &&& final(thinking)@ == old(thinking)@ + t2
            &&& views(final(calls)@) == views(old(calls)@) + c2
        }),
{
    let ghost ps = Seq::new(parts@.len(), |i: int| parts@[i]@);
    let ghost r0 = reason@;
    let ghost t0 = thinking@;
    let ghost c0 = views(calls@);
    let mut i: usize = 0;
    assert(ps.take(0) =~= Seq::<JsonV>::empty());
    assert(r0 + Seq::<char>::empty() =~= r0);
    assert(t0 + Seq::<char>::empty() =~= t0);
    assert(c0 + Seq::<JsonV>::empty() =~= c0);
    while i < parts.len()
        invariant
            i <= parts@.len(),
            ps == Seq::new(parts@.len(), |i: int| parts@[i]@),
            ({
                let (r2, t2, c2) = gemini_chunk(ps.take(i as int));
                &&& reason@ == r0 + r2
                &&& thinking@ == t0 + t2
                &&& views(calls@) == c0 + c2
            }),
        decreases parts@.len() - i,
    {
        let p = &parts[i];
        assert(ps.take(i + 1).drop_last() =~= ps.take(i as int));
        assert(ps.take(i + 1).last() == p@);
        let ghost (r1, t1, c1) = gemini_chunk(ps.take(i as int));
        if is_thought(p) {
            match member_str(p, "text") {
                Some(t) => {
                    thinking.append(t);
                    assert(thinking@ =~= t0 + (t1 + t@));
                },
                None => {},
            }
        } else {
            match function_call_of(p) {
                Some(fc) => {
                    let ghost before = calls@;
                    calls.push(fc.deep_clone());
                    assert(views(calls@) =~= views(before).push(fc@));
                    assert(c0 + c1.push(fc@) =~= (c0 + c1).push(fc@));
                },
                None => {
                    match member_str(p, "text") {
                        Some(t) => {
                            reason.append(t);
                            assert(reason@ =~= r0 + (r1 + t@));
                        },
                        None => {},
                    }
                },
            }
        }
        i = i + 1;
    }
    assert(ps.take(parts@.len() as int) =~= ps);
}

/// Text, reasoning and action of a Gemini stream buffer.
pub fn accumulate_sse_gemini(buf: &[u8]) -> (r: (String, Option<Json>, Option<Json>))
    ensures
        (r.0@, opt_view(r.1), opt_view(r.2)) == gemini_sse(buf@),
{
    let lines = stream_lines_of(buf);
    let ghost ls = stream_lines(buf@);
    let prefix = chars_of("data: ");
    let mut reason = String::new();
    let mut thinking = String::new();
    let mut calls: Vec<Json> = Vec::new();
    let mut i: usize = 0;
    assert(ls.take(0) =~= Seq::<Seq<char>>::empty());
    while i < lines.len()
        invariant
            i <= lines@.len(),
            lines@.len() == ls.len(),
            prefix@ == "data: "@,
            forall|t: int| 0 <= t < lines@.len() ==> (#[trigger] lines@[t])@ == ls[t],
            (reason@, thinking@, views(calls@)) == gemini_stream(ls.take(i as int)),
        decreases lines@.len() - i,
    {
        assert(ls.take(i + 1).drop_last() =~= ls.take(i as int));
        assert(ls.take(i + 1).last() == lines@[i as int]@);
        match data_value(&lines[i], &prefix) {
            Some(v) => {
                match gemini_parts_of(&v) {
                    Some(parts) => {
                        add_gemini_chunk(parts, &mut reason, &mut thinking, &mut calls);
                    },
                    None => {},
                }
            },
            None => {},
        }
        i = i + 1;
    }
    assert(ls.take(lines@.len() as int) =~= ls);
    let think = if thinking.as_str().is_empty() {
        None
    } else {
        Some(Json::Str(thinking))
    };
    (reason, think, act_from_blocks(calls))
}

} // verus!

verus! {

/// A tool call being accumulated: its index, id, name and argument text.
pub type ToolV = (usize, Seq<char>, Seq<char>, Seq<char>);

/// The index of a streamed tool-call delta (0 when it has none).
pub open spec fn tool_index(tc: JsonV) -> usize {
    match crate::json::as_u64(field(tc, "index"@)) {
        Some(u) => u as usize,
        None => 0,
    }
}

/// A tool call after one delta: the first id and name seen stay; argument
/// fragments are appended.
pub open spec fn update_tool(t: ToolV, tc: JsonV) -> ToolV {
    let f = field(tc, "function"@);
    (
        t.0,
        match as_str(field(tc, "id"@)) {
            Some(s) => if t.1.len() == 0 {
                s
            } else {
                t.1
            },
            None => t.1,
        },
        match as_str(field(f, "name"@)) {
            Some(s) => if t.2.len() == 0 {
                s
            } else {
                t.2
            },
            None => t.2,
        },
        match as_str(field(f, "arguments"@)) {
            Some(s) => t.3 + s,
            None => t.3,
        },
    )
}

/// Applies a delta to the tool calls kept in ascending index order: the call
/// with the delta's index is updated, or a new empty one is inserted in
/// order and updated.
pub open spec fn upsert_tool(tools: Seq<ToolV>, tc: JsonV) -> Seq<ToolV>
    decreases tools.len(),
{
    let idx = tool_index(tc);
    if tools.len() == 0 {
        seq![update_tool((idx, Seq::empty(), Seq::empty(), Seq::empty()), tc)]
    } else if tools[0].0 == idx {
        seq![update_tool(tools[0], tc)] + tools.drop_first()
    } else if tools[0].0 > idx {
        seq![update_tool((idx, Seq::empty(), Seq::empty(), Seq::empty()), tc)] + tools
    } else {
        seq![tools[0]] + upsert_tool(tools.drop_first(), tc)
    }
}

/// Applies the deltas of one chunk in order.
pub open spec fn upsert_all(tools: Seq<ToolV>, tcs: Seq<JsonV>) -> Seq<ToolV>
    decreases tcs.len(),
{
    if tcs.len() == 0 {
        tools
    } else {
        upsert_tool(upsert_all(tools, tcs.drop_last()), tcs.last())
    }
}

/// The delta of an OpenAI-style chunk: `choices[0].delta`.
pub open spec fn openai_delta(v: JsonV) -> JsonV {
    field(crate::json::item(field(v, "choices"@), 0), "delta"@)
}

/// Reading the lines of an OpenAI stream: `data: [DONE]` is skipped; every
/// other `data: ` line that parses adds its delta's content, reasoning
/// content and tool-call deltas.
pub open spec fn openai_stream(lines: Seq<Seq<char>>) -> (Seq<char>, Seq<char>, Seq<ToolV>)
    decreases lines.len(),
{
    if lines.len() == 0 {
        (Seq::empty(), Seq::empty(), Seq::empty())
    } else {
        let (r, t, tools) = openai_stream(lines.drop_last());
        match data_of(lines.last()) {
            None => (r, t, tools),
            Some(d) => if crate::text::trim(d) == "[DONE]"@ {
                (r, t, tools)
            } else {
                match serde_from_str(d) {
                    None => (r, t, tools),
                    Some(v) => {
                        let delta = openai_delta(v);
                        (
                            r + crate::extract::str_or_empty(as_str(field(delta, "content"@))),
                            t + crate::extract::str_or_empty(
                                as_str(field(delta, "reasoning_content"@)),
                            ),
                            match crate::json::as_array(field(delta, "tool_calls"@)) {
                                Some(tcs) => upsert_all(tools, tcs),
                                None => tools,
                            },
                        )
                    },
                }
            },
        }
    }
}

/// A tool call: its id, type `function`, and its function's name and
/// arguments.
pub open spec fn tool_call_object(id: Seq<char>, name: Seq<char>, arguments: JsonV) -> JsonV {
    JsonV::Object(
        seq![
            ("function"@, JsonV::Object(seq![("arguments"@, arguments), ("name"@, JsonV::Str(name))])),
            ("id"@, JsonV::Str(id)),
            ("type"@, JsonV::Str("function"@)),
        ],
    )
}

/// The arguments of a tool call: its argument text parsed as JSON, or kept
/// as a string when it does not parse.
pub open spec fn arguments_value(text: Seq<char>) -> JsonV {
    match serde_from_str(text) {
        Some(x) => x,
        None => JsonV::Str(text),
    }
}

/// The value of an accumulated tool call.
pub open spec fn tool_call_value(t: ToolV) -> JsonV {
    tool_call_object(t.1, t.2, arguments_value(t.3))
}

/// Text, reasoning (one string) and action (the tool calls in index order)
/// of an OpenAI stream.
pub open spec fn openai_sse(buf: Seq<u8>) -> (Seq<char>, Option<JsonV>, Option<JsonV>) {
    let (r, t, tools) = openai_stream(stream_lines(buf));
    (
        r,
        thinking_value(t),
        if tools.len() == 0 {
            None
        } else {
            Some(JsonV::Array(Seq::new(tools.len(), |i: int| tool_call_value(tools[i]))))
        },
    )
}

/// The models of accumulated tool calls.
pub open spec fn tool_views(v: Seq<(usize, String, String, String)>) -> Seq<ToolV> {
    Seq::new(v.len(), |i: int| (v[i].0, v[i].1@, v[i].2@, v[i].3@))
}

proof fn lemma_upsert_at(tools: Seq<ToolV>, tc: JsonV, i: int)
    requires
        0 <= i <= tools.len(),
        forall|t: int| 0 <= t < i ==> tools[t].0 < tool_index(tc),
        i < tools.len() ==> tools[i].0 >= tool_index(tc),
    ensures
        upsert_tool(tools, tc) == if i < tools.len() && tools[i].0 == tool_index(tc) {
            tools.take(i) + seq![update_tool(tools[i], tc)] + tools.skip(i + 1)
        } else {
            tools.take(i) + seq![
                update_tool((tool_index(tc), Seq::empty(), Seq::empty(), Seq::empty()), tc),
            ] + tools.skip(i)
        },
    decreases i,
{
    if i == 0 {
        assert(tools.take(0) =~= Seq::<ToolV>::empty());
        if tools.len() > 0 {
            assert(tools.skip(1) =~= tools.drop_first());
        }
        assert(tools.skip(0) =~= tools);
    } else {
        let d = tools.drop_first();
        lemma_upsert_at(d, tc, i - 1);
        assert(tools.take(i) =~= seq![tools[0]] + d.take(i - 1));
        assert(tools.skip(i) =~= d.skip(i - 1));
        if i < tools.len() {
            assert(tools.skip(i + 1) =~= d.skip(i));
            assert(tools[i] == d[i - 1]);
        }
    }
}

/// Applies one tool-call delta to the accumulated calls.
fn upsert_tool_exec(tools: &mut Vec<(usize, String, String, String)>, tc: &Json)
    ensures
        tool_views(final(tools)@) == upsert_tool(tool_views(old(tools)@), tc@),
{
    let ghost tv = tool_views(tools@);
    #[verifier::truncate]
    let idx: usize = match tc.get("index") {
        Some(x) => match x.as_u64() {
            Some(u) => u as usize,
            None => 0,
        },
        None => 0,
    };
    assert(idx == tool_index(tc@));
    let mut i: usize = 0;
    while i < tools.len() && tools[i].0 < idx
        invariant
            i <= tools@.len(),
            tv == tool_views(tools@),
            idx == tool_index(tc@),
            forall|t: int| 0 <= t < i ==> tv[t].0 < idx,
        decreases tools@.len() - i,
    {
        i = i + 1;
    }
    proof {
        lemma_upsert_at(tv, tc@, i as int);
    }
    let f = field_of_ref(tc, "function");
    let found = i < tools.len() && tools[i].0 == idx;
    let (k, id, name, args) = if found {
        tools.remove(i)
    } else {
        (idx, String::new(), String::new(), String::new())
    };
    let ghost start: ToolV = (k, id@, name@, args@);
    assert(found ==> start == tv[i as int]);
    let mut id = id;
    let mut name = name;
    let mut args = args;
    match member_str(tc, "id") {
        Some(s) => {
            if id.as_str().is_empty() {
                id = String::from_str(s);
            }
        },
        None => {},
    }
    match f {
        Some(fv) => {
            match member_str(fv, "name") {
                Some(s) => {
                    if name.as_str().is_empty() {
                        name = String::from_str(s);
                    }
                },
                None => {},
            }
            match member_str(fv, "arguments") {
                Some(s) => {
                    args.append(s);
                },
                None => {},
            }
        },
        None => {},
    }
    assert((k, id@, name@, args@) == update_tool(start, tc@));
    let ghost mid = tools@;
    tools.insert(i, (k, id, name, args));
    proof {
        if found {
            assert(tool_views(mid) =~= tv.take(i as int) + tv.skip(i + 1));
        } else {
            assert(tool_views(mid) =~= tv);
        }
        assert(tool_views(tools@) =~= upsert_tool(tv, tc@));
    }
}

/// The member `key` of a value, if it is an object that has one.
fn field_of_ref<'a>(v: &'a Json, key: &str) -> (r: Option<&'a Json>)
    ensures
        crate::json::or_null(r) == field(v@, key@),
{
    crate::json::field_of(Some(v), key)
}

} // verus!

verus! {

/// A tool call with this id, name and arguments (see `tool_call_object`).
pub fn tool_call_from(id: &String, name: &String, arguments: Json) -> (j: Json)
    ensures
        j@ == tool_call_object(id@, name@, arguments@),
{
    let mut inner: Vec<(String, Json)> = Vec::new();
    inner.push((String::from_str("arguments"), arguments));
    inner.push((String::from_str("name"), Json::Str(name.clone())));
    let function = Json::Object(inner);
    proof {
        crate::json::lemma_object_view(inner);
        let want = tool_call_object(id@, name@, arguments@);
        let w = match want {
            JsonV::Object(x) => x,
            _ => Seq::empty(),
        };
        let wf = match w[0].1 {
            JsonV::Object(x) => x,
            _ => Seq::empty(),
        };
        assert(wf =~= Seq::new(inner@.len(), |i: int| (inner@[i].0@, inner@[i].1@)));
    }
    let mut outer: Vec<(String, Json)> = Vec::new();
    outer.push((String::from_str("function"), function));
    outer.push((String::from_str("id"), Json::Str(id.clone())));
    outer.push((String::from_str("type"), Json::Str(String::from_str("function"))));
    proof {
        crate::json::lemma_object_view(outer);
        let want = tool_call_object(id@, name@, arguments@);
        let w = match want {
            JsonV::Object(x) => x,
            _ => Seq::empty(),
        };
        assert(outer@[0].1@ == w[0].1);
        assert(w =~= Seq::new(outer@.len(), |i: int| (outer@[i].0@, outer@[i].1@)));
    }
    Json::Object(outer)
}

/// The value of one accumulated tool call (see `tool_call_value`).
fn tool_call_json(t: &(usize, String, String, String)) -> (j: Json)
    ensures
        j@ == tool_call_value((t.0, t.1@, t.2@, t.3@)),
{
    let arguments = match parse_json_str(t.3.as_str()) {
        Some(x) => x,
        None => Json::Str(t.3.clone()),
    };
    tool_call_from(&t.1, &t.2, arguments)
}

/// Adds one OpenAI chunk's delta to the running text, reasoning and calls.
pub fn add_openai_chunk(
    v: &Json,
    reason: &mut String,
    thinking: &mut String,
    tools: &mut Vec<(usize, String, String, String)>,
)
    ensures
        ({
            let delta = openai_delta(v@);
            &&& final(reason)@ == old(reason)@ + crate::extract::str_or_empty(
                as_str(field(delta, "content"@)),
            )
            &&& final(thinking)@ == old(thinking)@ + crate::extract::str_or_empty(
                as_str(field(delta, "reasoning_content"@)),
            )
            &&& tool_views(final(tools)@) == match crate::json::as_array(
                field(delta, "tool_calls"@),
            ) {
                Some(tcs) => upsert_all(tool_views(old(tools)@), tcs),
                None => tool_views(old(tools)@),
            }
        }),
{
    let ghost r0 = reason@;
    let ghost t0 = thinking@;
    let delta = crate::json::field_of(crate::json::item_of(crate::json::field_of(Some(v), "choices"), 0), "delta");
    match crate::json::field_of(delta, "content") {
        Some(c) => match c.as_str() {
            Some(s) => {
                reason.append(s);
            },
            None => {},
        },
        None => {},
    }
    assert(reason@ =~= r0 + crate::extract::str_or_empty(as_str(field(openai_delta(v@), "content"@))));
    match crate::json::field_of(delta, "reasoning_content") {
        Some(c) => match c.as_str() {
            Some(s) => {
                thinking.append(s);
            },
            None => {},
        },
        None => {},
    }
    assert(thinking@ =~= t0 + crate::extract::str_or_empty(
        as_str(field(openai_delta(v@), "reasoning_content"@)),
    ));
    let tcs = match crate::json::field_of(delta, "tool_calls") {
        Some(x) => x.as_array(),
        None => None,
    };
    match tcs {
        Some(list) => {
            let ghost ts = Seq::new(list@.len(), |i: int| list@[i]@);
            let ghost start = tool_views(tools@);
            let mut j: usize = 0;
            assert(ts.take(0) =~= Seq::<JsonV>::empty());
            while j < list.len()
                invariant
                    j <= list@.len(),
                    ts == Seq::new(list@.len(), |i: int| list@[i]@),
                    tool_views(tools@) == upsert_all(start, ts.take(j as int)),
                decreases list@.len() - j,
            {
                assert(ts.take(j + 1).drop_last() =~= ts.take(j as int));
                assert(ts.take(j + 1).last() == list@[j as int]@);
                upsert_tool_exec(tools, &list[j]);
                j = j + 1;
            }
            assert(ts.take(list@.len() as int) =~= ts);
        },
        None => {},
    }
}

/// Text, reasoning and action of an OpenAI stream buffer; tool-call argument
/// fragments are joined per index and the calls listed in index order.
pub fn accumulate_sse_openai(buf: &[u8]) -> (r: (String, Option<Json>, Option<Json>))
    ensures
        (r.0@, opt_view(r.1), opt_view(r.2)) == openai_sse(buf@),
{
    let lines = stream_lines_of(buf);
    let ghost ls = stream_lines(buf@);
    let prefix = chars_of("data: ");
    let done = chars_of("[DONE]");
    let mut reason = String::new();
    let mut thinking = String::new();
    let mut tools: Vec<(usize, String, String, String)> = Vec::new();
    let mut i: usize = 0;
    assert(ls.take(0) =~= Seq::<Seq<char>>::empty());
    assert(tool_views(tools@) =~= Seq::<ToolV>::empty());
    while i < lines.len()
        invariant
            i <= lines@.len(),
            lines@.len() == ls.len(),
            prefix@ == "data: "@,
            done@ == "[DONE]"@,
            forall|t: int| 0 <= t < lines@.len() ==> (#[trigger] lines@[t])@ == ls[t],
            (reason@, thinking@, tool_views(tools@)) == openai_stream(ls.take(i as int)),
        decreases lines@.len() - i,
    {
        assert(ls.take(i + 1).drop_last() =~= ls.take(i as int));
        assert(ls.take(i + 1).last() == lines@[i as int]@);
        match strip_prefix_chars(&lines[i], &prefix) {
            Some(d) => {
                let t = crate::text::trim_chars(&d);
                if !crate::text::chars_eq(&t, &done) {
                    let text = string_of(d.as_slice());
                    match parse_json_str(text.as_str()) {
                        Some(v) => {
                            add_openai_chunk(&v, &mut reason, &mut thinking, &mut tools);
                        },
                        None => {},
                    }
                }
            },
            None => {},
        }
        i = i + 1;
    }
    assert(ls.take(lines@.len() as int) =~= ls);
    let think = if thinking.as_str().is_empty() {
        None
    } else {
        Some(Json::Str(thinking))
    };
    let act = if tools.len() == 0 {
        None
    } else {
        let ghost tv = tool_views(tools@);
        let mut arr: Vec<Json> = Vec::new();
        let mut k: usize = 0;
        while k < tools.len()
            invariant
                k <= tools@.len(),
                tv == tool_views(tools@),
                arr@.len() == k,
                forall|t: int| 0 <= t < k ==> (#[trigger] arr@[t])@ == tool_call_value(tv[t]),
            decreases tools@.len() - k,
        {
            let j = tool_call_json(&tools[k]);
            arr.push(j);
            k = k + 1;
        }
        proof {
            crate::json::lemma_array_view(arr);
            assert(Seq::new(arr@.len(), |i: int| arr@[i]@) =~= Seq::new(
                tv.len(),
                |i: int| tool_call_value(tv[i]),
            ));
        }
        Some(Json::Array(arr))
    };
    (reason, think, act)
}

} // verus!

verus! {

/// A tool-use block being accumulated: its index, the block as it started,
/// and its input text so far.
pub type BlockV = (usize, JsonV, Seq<char>);

/// The index of an Anthropic stream event (0 when it has none).
pub open spec fn event_index(v: JsonV) -> usize {
    match crate::json::as_u64(field(v, "index"@)) {
        Some(u) => u as usize,
        None => 0,
    }
}

/// Starts (or restarts) the block at `idx`, keeping blocks in ascending
/// index order.
pub open spec fn start_block(blocks: Seq<BlockV>, idx: usize, b: JsonV) -> Seq<BlockV>
    decreases blocks.len(),
{
    if blocks.len() == 0 {
        seq![(idx, b, Seq::empty())]
    } else if blocks[0].0 == idx {
        seq![(idx, b, Seq::empty())] + blocks.drop_first()
    } else if blocks[0].0 > idx {
        seq![(idx, b, Seq::empty())] + blocks
    } else {
        seq![blocks[0]] + start_block(blocks.drop_first(), idx, b)
    }
}

/// Appends input text to the block at `idx`, if there is one.
pub open spec fn append_input(blocks: Seq<BlockV>, idx: usize, s: Seq<char>) -> Seq<BlockV> {
    Seq::new(
        blocks.len(),
        |i: int|
            if blocks[i].0 == idx {
                (blocks[i].0, blocks[i].1, blocks[i].2 + s)
            } else {
                blocks[i]
            },
    )
}

/// One Anthropic stream event applied to the running text, reasoning and
/// tool-use blocks.
pub open spec fn anthropic_event(
    state: (Seq<char>, Seq<char>, Seq<BlockV>),
    v: JsonV,
) -> (Seq<char>, Seq<char>, Seq<BlockV>) {
    let (r, t, blocks) = state;
    let delta = field(v, "delta"@);
    match as_str(field(v, "type"@)) {
        Some(ty) => if ty == "content_block_delta"@ {
            match as_str(field(delta, "type"@)) {
                Some(dt) => if dt == "text_delta"@ {
                    (r + crate::extract::str_or_empty(as_str(field(delta, "text"@))), t, blocks)
                } else if dt == "thinking_delta"@ {
                    (r, t + crate::extract::str_or_empty(as_str(field(delta, "thinking"@))), blocks)
                } else if dt == "input_json_delta"@ {
                    match as_str(field(delta, "partial_json"@)) {
                        Some(p) => (r, t, append_input(blocks, event_index(v), p)),
                        None => (r, t, blocks),
                    }
                } else {
                    (r, t, blocks)
                },
                None => (r, t, blocks),
            }
        } else if ty == "content_block_start"@ {
            if as_str(field(field(v, "content_block"@), "type"@)) == Some("tool_use"@) {
                (r, t, start_block(blocks, event_index(v), field(v, "content_block"@)))
            } else {
                (r, t, blocks)
            }
        } else {
            (r, t, blocks)
        },
        None => (r, t, blocks),
    }
}

/// Reading the lines of an Anthropic stream: every `data: ` line that parses
/// is an event.
pub open spec fn anthropic_stream(lines: Seq<Seq<char>>) -> (Seq<char>, Seq<char>, Seq<BlockV>)
    decreases lines.len(),
{
    if lines.len() == 0 {
        (Seq::empty(), Seq::empty(), Seq::empty())
    } else {
        let s = anthropic_stream(lines.drop_last());
        match data_of(lines.last()) {
            None => s,
            Some(d) => match serde_from_str(d) {
                None => s,
                Some(v) => anthropic_event(s, v),
            },
        }
    }
}

/// An object with `key` set to `value`, members kept in key order as a
/// sorted map keeps them.
pub open spec fn object_insert(m: Seq<(Seq<char>, JsonV)>, key: Seq<char>, value: JsonV) -> Seq<
    (Seq<char>, JsonV),
>
    decreases m.len(),
{
    if m.len() == 0 {
        seq![(key, value)]
    } else if m[0].0 == key {
        seq![(key, value)] + m.drop_first()
    } else if crate::jcs::key_lt(key, m[0].0) {
        seq![(key, value)] + m
    } else {
        seq![m[0]] + object_insert(m.drop_first(), key, value)
    }
}

/// The input of a tool-use block from its input text: an empty object for
/// no text; the text parsed as JSON; the text itself when it does not parse.
pub open spec fn input_value(text: Seq<char>) -> JsonV {
    if text.len() == 0 {
        JsonV::Object(Seq::empty())
    } else {
        match serde_from_str(text) {
            Some(x) => x,
            None => JsonV::Str(text),
        }
    }
}

/// A block with member `input` set to `input`, where the block is an object.
pub open spec fn with_input_spec(block: JsonV, input: JsonV) -> JsonV {
    match block {
        JsonV::Object(m) => JsonV::Object(object_insert(m, "input"@, input)),
        other => other,
    }
}

/// A finished tool-use block: the block with its input set.
pub open spec fn finished_block(b: BlockV) -> JsonV {
    with_input_spec(b.1, input_value(b.2))
}

/// Text, reasoning (one string) and action (the tool-use blocks in index
/// order: one, or an array) of an Anthropic stream.
pub open spec fn anthropic_sse(buf: Seq<u8>) -> (Seq<char>, Option<JsonV>, Option<JsonV>) {
    let (r, t, blocks) = anthropic_stream(stream_lines(buf));
    (r, thinking_value(t), act_of(Seq::new(blocks.len(), |i: int| finished_block(blocks[i]))))
}

/// The models of accumulated blocks.
pub open spec fn block_views(v: Seq<(usize, Json, String)>) -> Seq<BlockV> {
    Seq::new(v.len(), |i: int| (v[i].0, v[i].1@, v[i].2@))
}

proof fn lemma_start_block_at(blocks: Seq<BlockV>, idx: usize, b: JsonV, i: int)
    requires
        0 <= i <= blocks.len(),
        forall|t: int| 0 <= t < i ==> blocks[t].0 < idx,
        i < blocks.len() ==> blocks[i].0 >= idx,
    ensures
        start_block(blocks, idx, b) == if i < blocks.len() && blocks[i].0 == idx {
            blocks.take(i) + seq![(idx, b, Seq::<char>::empty())] + blocks.skip(i + 1)
        } else {
            blocks.take(i) + seq![(idx, b, Seq::<char>::empty())] + blocks.skip(i)
        },
    decreases i,
{
    if i == 0 {
        assert(blocks.take(0) =~= Seq::<BlockV>::empty());
        if blocks.len() > 0 {
            assert(blocks.skip(1) =~= blocks.drop_first());
        }
        assert(blocks.skip(0) =~= blocks);
    } else {
        let d = blocks.drop_first();
        lemma_start_block_at(d, idx, b, i - 1);
        assert(blocks.take(i) =~= seq![blocks[0]] + d.take(i - 1));
        assert(blocks.skip(i) =~= d.skip(i - 1));
        if i < blocks.len() {
            assert(blocks.skip(i + 1) =~= d.skip(i));
            assert(blocks[i] == d[i - 1]);
        }
    }
}

/// Starts the block at `idx`.
fn start_block_exec(blocks: &mut Vec<(usize, Json, String)>, idx: usize, b: Json)
    ensures
        block_views(final(blocks)@) == start_block(block_views(old(blocks)@), idx, b@),
{
    let ghost bv = block_views(blocks@);
    let mut i: usize = 0;
    while i < blocks.len() && blocks[i].0 < idx
        invariant
            i <= blocks@.len(),
            bv == block_views(blocks@),
            forall|t: int| 0 <= t < i ==> bv[t].0 < idx,
        decreases blocks@.len() - i,
    {
        i = i + 1;
    }
    proof {
        lemma_start_block_at(bv, idx, b@, i as int);
    }
    let found = i < blocks.len() && blocks[i].0 == idx;
    if found {
        let _old = blocks.remove(i);
    }
    let ghost mid = blocks@;
    let ghost bb = b@;
    blocks.insert(i, (idx, b, String::new()));
    proof {
        if found {
            assert(block_views(mid) =~= bv.take(i as int) + bv.skip(i + 1));
        } else {
            assert(block_views(mid) =~= bv);
        }
        assert(block_views(blocks@) =~= start_block(bv, idx, bb));
    }
}

/// Appends input text to the block at `idx`, if there is one.
fn append_input_exec(blocks: &mut Vec<(usize, Json, String)>, idx: usize, s: &str)
    ensures
        block_views(final(blocks)@) == append_input(block_views(old(blocks)@), idx, s@),
{
    let ghost bv = block_views(blocks@);
    let mut i: usize = 0;
    while i < blocks.len()
        invariant
            i <= blocks@.len(),
            bv.len() == blocks@.len(),
            forall|t: int| 0 <= t < i ==> (#[trigger] block_views(blocks@)[t]) == append_input(bv, idx, s@)[t],
            forall|t: int| i <= t < blocks@.len() ==> (#[trigger] block_views(blocks@)[t]) == bv[t],
        decreases blocks@.len() - i,
    {
        let ghost before = blocks@;
        assert(block_views(before)[i as int] == bv[i as int]);
        if blocks[i].0 == idx {
            let (k, b, mut text) = blocks.remove(i);
            text.append(s);
            let ghost nv: BlockV = (k, b@, text@);
            blocks.insert(i, (k, b, text));
            assert(block_views(blocks@) =~= block_views(before).update(i as int, nv));
            assert(nv == append_input(bv, idx, s@)[i as int]);
        } else {
            assert(block_views(blocks@)[i as int] == append_input(bv, idx, s@)[i as int]);
        }
        i = i + 1;
    }
    assert(block_views(blocks@) =~= append_input(bv, idx, s@));
}

/// The value with `key` set to `value` (see `object_insert`).
fn object_insert_exec(m: &mut Vec<(String, Json)>, key: &str, value: Json)
    ensures
        Json::Object(*final(m))@ == JsonV::Object(
            object_insert(Seq::new(old(m)@.len(), |i: int| (old(m)@[i].0@, old(m)@[i].1@)), key@, value@),
        ),
{
    let ghost mv = Seq::new(m@.len(), |i: int| (m@[i].0@, m@[i].1@));
    let kc = chars_of(key);
    let mut i: usize = 0;
    let mut stop = false;
    let mut replace = false;
    assert(mv.skip(0) =~= mv);
    while i < m.len() && !stop
        invariant
            i <= m@.len(),
            mv == Seq::new(m@.len(), |i: int| (m@[i].0@, m@[i].1@)),
            kc@ == key@,
            stop ==> i < m@.len(),
            !stop ==> !replace,
            !stop ==> object_insert(mv, key@, value@) == mv.take(i as int) + object_insert(mv.skip(i as int), key@, value@),
            stop ==> object_insert(mv, key@, value@) == mv.take(i as int) + if replace {
                seq![(key@, value@)] + mv.skip(i + 1)
            } else {
                seq![(key@, value@)] + mv.skip(i as int)
            },
        decreases m@.len() - i + (if stop { 0int } else { 1int }),
    {
        let mk = chars_of(m[i].0.as_str());
        let ghost rest = mv.skip(i as int);
        assert(rest[0] == mv[i as int]);
        assert(mk@ == rest[0].0);
        if crate::text::chars_eq(&mk, &kc) {
            stop = true;
            replace = true;
            assert(rest.drop_first() =~= mv.skip(i + 1));
            assert(object_insert(rest, key@, value@) == seq![(key@, value@)] + rest.drop_first());
        } else if crate::jcs::key_lt_exec(&kc, &mk) {
            stop = true;
            assert(object_insert(rest, key@, value@) == seq![(key@, value@)] + rest);
        } else {
            assert(rest.drop_first() =~= mv.skip(i + 1));
            assert(mv.take(i + 1) =~= mv.take(i as int).push(mv[i as int]));
            assert(mv.take(i as int) + (seq![mv[i as int]] + object_insert(mv.skip(i + 1), key@, value@)) =~= mv.take(i + 1) + object_insert(mv.skip(i + 1), key@, value@));
            i = i + 1;
        }
    }
    if !stop {
        assert(mv.skip(i as int) =~= Seq::<(Seq<char>, JsonV)>::empty());
    }
    let ghost vv = value@;
    let ghost before = m@;
    if stop && replace {
        let _old = m.remove(i);
    }
    m.insert(i, (String::from_str(key), value));
    proof {
        crate::json::lemma_object_view(*m);
        let now = Seq::new(m@.len(), |t: int| (m@[t].0@, m@[t].1@));
        if stop && replace {
            assert(now =~= mv.take(i as int) + seq![(key@, vv)] + mv.skip(i + 1));
        } else {
            assert(now =~= mv.take(i as int) + seq![(key@, vv)] + mv.skip(i as int));
        }
        assert(now =~= object_insert(mv, key@, vv));
    }
}

} // verus!

verus! {

/// The text of member `key` of a possibly missing value.
fn opt_member_str<'a>(o: Option<&'a Json>, key: &str) -> (s: Option<&'a str>)
    ensures
        match s {
            Some(t) => as_str(field(crate::json::or_null(o), key@)) == Some(t@),
            None => as_str(field(crate::json::or_null(o), key@)) is None,
        },
{
    match crate::json::field_of(o, key) {
        Some(x) => x.as_str(),
        None => None,
    }
}

/// Applies one Anthropic stream event to the running text, reasoning and
/// tool-use blocks.
pub fn add_anthropic_event(
    v: &Json,
    reason: &mut String,
    thinking: &mut String,
    blocks: &mut Vec<(usize, Json, String)>,
)
    ensures
        (final(reason)@, final(thinking)@, block_views(final(blocks)@)) == anthropic_event(
            (old(reason)@, old(thinking)@, block_views(old(blocks)@)),
            v@,
        ),
{
    let ghost r0 = reason@;
    let ghost t0 = thinking@;
    #[verifier::truncate]
    let idx: usize = match v.get("index") {
        Some(x) => match x.as_u64() {
            Some(u) => u as usize,
            None => 0,
        },
        None => 0,
    };
    assert(idx == event_index(v@));
    let delta = crate::json::field_of(Some(v), "delta");
    match member_str(v, "type") {
        Some(ty) => {
            if crate::extract::str_eq(ty, "content_block_delta") {
                match opt_member_str(delta, "type") {
                    Some(dt) => {
                        if crate::extract::str_eq(dt, "text_delta") {
                            match opt_member_str(delta, "text") {
                                Some(t) => {
                                    reason.append(t);
                                },
                                None => {},
                            }
                            assert(reason@ =~= r0 + crate::extract::str_or_empty(
                                as_str(field(field(v@, "delta"@), "text"@)),
                            ));
                        } else if crate::extract::str_eq(dt, "thinking_delta") {
                            match opt_member_str(delta, "thinking") {
                                Some(t) => {
                                    thinking.append(t);
                                },
                                None => {},
                            }
                            assert(thinking@ =~= t0 + crate::extract::str_or_empty(
                                as_str(field(field(v@, "delta"@), "thinking"@)),
                            ));
                        } else if crate::extract::str_eq(dt, "input_json_delta") {
                            match opt_member_str(delta, "partial_json") {
                                Some(p) => {
                                    append_input_exec(blocks, idx, p);
                                },
                                None => {},
                            }
                        }
                    },
                    None => {},
                }
            } else if crate::extract::str_eq(ty, "content_block_start") {
                let cb = crate::json::field_of(Some(v), "content_block");
                match opt_member_str(cb, "type") {
                    Some(t) => {
                        if crate::extract::str_eq(t, "tool_use") {
                            let b = match cb {
                                Some(x) => x.deep_clone(),
                                None => Json::Null,
                            };
                            start_block_exec(blocks, idx, b);
                        }
                    },
                    None => {},
                }
            }
        },
        None => {},
    }
}

/// A block with member `input` set to `input` (see `with_input_spec`).
pub fn with_input(block: &Json, input: Json) -> (j: Json)
    ensures
        j@ == with_input_spec(block@, input@),
{
    let b = block.deep_clone();
    match b {
        Json::Object(m) => {
            let mut m2 = m;
            proof {
                crate::json::lemma_object_view(m2);
            }
            object_insert_exec(&mut m2, "input", input);
            Json::Object(m2)
        },
        other => other,
    }
}

/// A finished tool-use block (see `finished_block`).
fn finished_block_exec(b: &(usize, Json, String)) -> (j: Json)
    ensures
        j@ == finished_block((b.0, b.1@, b.2@)),
{
    let input = if b.2.as_str().is_empty() {
        let e: Vec<(String, Json)> = Vec::new();
        proof {
            crate::json::lemma_object_view(e);
            assert(Seq::new(e@.len(), |i: int| (e@[i].0@, e@[i].1@)) =~= Seq::<(Seq<char>, JsonV)>::empty());
        }
        Json::Object(e)
    } else {
        match parse_json_str(b.2.as_str()) {
            Some(x) => x,
            None => Json::Str(b.2.clone()),
        }
    };
    with_input(&b.1, input)
}

/// Text, reasoning and action of an Anthropic stream buffer; input fragments
/// are joined per tool-use block and the blocks listed in index order.
pub fn accumulate_sse_anthropic(buf: &[u8]) -> (r: (String, Option<Json>, Option<Json>))
    ensures
        (r.0@, opt_view(r.1), opt_view(r.2)) == anthropic_sse(buf@),
{
    let lines = stream_lines_of(buf);
    let ghost ls = stream_lines(buf@);
    let prefix = chars_of("data: ");
    let mut reason = String::new();
    let mut thinking = String::new();
    let mut blocks: Vec<(usize, Json, String)> = Vec::new();
    let mut i: usize = 0;
    assert(ls.take(0) =~= Seq::<Seq<char>>::empty());
    assert(block_views(blocks@) =~= Seq::<BlockV>::empty());
    while i < lines.len()
        invariant
            i <= lines@.len(),
            lines@.len() == ls.len(),
            prefix@ == "data: "@,
            forall|t: int| 0 <= t < lines@.len() ==> (#[trigger] lines@[t])@ == ls[t],
            (reason@, thinking@, block_views(blocks@)) == anthropic_stream(ls.take(i as int)),
        decreases lines@.len() - i,
    {
        assert(ls.take(i + 1).drop_last() =~= ls.take(i as int));
        assert(ls.take(i + 1).last() == lines@[i as int]@);
        match data_value(&lines[i], &prefix) {
            Some(v) => {
                add_anthropic_event(&v, &mut reason, &mut thinking, &mut blocks);
            },
            None => {},
        }
        i = i + 1;
    }
    assert(ls.take(lines@.len() as int) =~= ls);
    let think = if thinking.as_str().is_empty() {
        None
    } else {
        Some(Json::Str(thinking))
    };
    let ghost bv = block_views(blocks@);
    let mut finished: Vec<Json> = Vec::new();
    let mut k: usize = 0;
    while k < blocks.len()
        invariant
            k <= blocks@.len(),
            bv == block_views(blocks@),
            finished@.len() == k,
            forall|t: int| 0 <= t < k ==> (#[trigger] finished@[t])@ == finished_block(bv[t]),
        decreases blocks@.len() - k,
    {
        let j = finished_block_exec(&blocks[k]);
        finished.push(j);
        k = k + 1;
    }
    assert(views(finished@) =~= Seq::new(bv.len(), |i: int| finished_block(bv[i])));
    (reason, think, act_from_blocks(finished))
}

} // verus!

verus! {

/// Whether `a` begins with `b`.
pub open spec fn starts_with(a: Seq<char>, b: Seq<char>) -> bool {
    b.len() <= a.len() && a.subrange(0, b.len() as int) == b
}

/// One Anthropic stream event: a `text_delta` adds its text to the running
/// text, a `thinking_delta` its thinking to the running reasoning, an
/// `input_json_delta` its fragment to the input of the tool-use block with
/// the event's index (the others unchanged); no event takes anything away
/// from the text or the reasoning, and an event that is not a content block
/// delta changes neither.
pub proof fn law_anthropic_event(state: (Seq<char>, Seq<char>, Seq<BlockV>), v: JsonV)
    ensures
        ({
            let delta = field(v, "delta"@);
            let next = anthropic_event(state, v);
            let is_delta = as_str(field(v, "type"@)) == Some("content_block_delta"@);
            &&& is_delta && as_str(field(delta, "type"@)) == Some("text_delta"@) ==> next == (
                state.0 + crate::extract::str_or_empty(as_str(field(delta, "text"@))),
                state.1,
                state.2,
            )
            &&& is_delta && as_str(field(delta, "type"@)) == Some("thinking_delta"@) ==> next == (
                state.0,
                state.1 + crate::extract::str_or_empty(as_str(field(delta, "thinking"@))),
                state.2,
            )
            &&& is_delta && as_str(field(delta, "type"@)) == Some("input_json_delta"@) && as_str(
                field(delta, "partial_json"@),
            ) is Some ==> {
                let frag = as_str(field(delta, "partial_json"@))->0;
                &&& next.0 == state.0 && next.1 == state.1
                &&& next.2.len() == state.2.len()
                &&& forall|i: int|
                    0 <= i < state.2.len() ==> (#[trigger] next.2[i]) == if state.2[i].0 == event_index(v) {
                        (state.2[i].0, state.2[i].1, state.2[i].2 + frag)
                    } else {
                        state.2[i]
                    }
            }
            &&& !is_delta ==> next.0 == state.0 && next.1 == state.1
            &&& starts_with(next.0, state.0)
            &&& starts_with(next.1, state.1)
        }),
{
    reveal_strlit("text_delta");
    reveal_strlit("thinking_delta");
    reveal_strlit("input_json_delta");
    assert("text_delta"@.len() != "thinking_delta"@.len());
    assert("text_delta"@.len() != "input_json_delta"@.len());
    assert("thinking_delta"@.len() != "input_json_delta"@.len());
    let next = anthropic_event(state, v);
    assert(next.0.subrange(0, state.0.len() as int) =~= state.0);
    assert(next.1.subrange(0, state.1.len() as int) =~= state.1);
}

/// Reading more lines of an Anthropic stream only adds to its text and its
/// reasoning; a line that carries an event applies that event.
pub proof fn law_anthropic_stream_extends(lines: Seq<Seq<char>>, more: Seq<Seq<char>>)
    ensures
        starts_with(anthropic_stream(lines + more).0, anthropic_stream(lines).0),
        starts_with(anthropic_stream(lines + more).1, anthropic_stream(lines).1),
        more.len() == 1 && data_of(more[0]) is Some && serde_from_str(data_of(more[0])->0) is Some
            ==> anthropic_stream(lines + more) == anthropic_event(
            anthropic_stream(lines),
            serde_from_str(data_of(more[0])->0)->0,
        ),
    decreases more.len(),
{
    if more.len() == 0 {
        assert(lines + more =~= lines);
        assert(anthropic_stream(lines).0.subrange(0, anthropic_stream(lines).0.len() as int) =~= anthropic_stream(lines).0);
        assert(anthropic_stream(lines).1.subrange(0, anthropic_stream(lines).1.len() as int) =~= anthropic_stream(lines).1);
    } else {
        law_anthropic_stream_extends(lines, more.drop_last());
        assert((lines + more).drop_last() =~= lines + more.drop_last());
        assert((lines + more).last() == more.last());
        let s0 = anthropic_stream(lines);
        let s1 = anthropic_stream(lines + more.drop_last());
        let s2 = anthropic_stream(lines + more);
        match data_of(more.last()) {
            None => {},
            Some(d) => match serde_from_str(d) {
                None => {},
                Some(v) => {
                    law_anthropic_event(s1, v);
                },
            },
        }
        assert(s2.0.subrange(0, s0.0.len() as int) =~= s1.0.subrange(0, s0.0.len() as int));
        assert(s2.1.subrange(0, s0.1.len() as int) =~= s1.1.subrange(0, s0.1.len() as int));
        if more.len() == 1 {
            assert(more.drop_last() =~= Seq::<Seq<char>>::empty());
            assert(lines + more.drop_last() =~= lines);
        }
    }
}

/// One line of an OpenAI stream: a `data: ` line other than `[DONE]` whose
/// payload parses adds the delta's `content` to the text and its
/// `reasoning_content` to the reasoning, and applies its `tool_calls`
/// deltas in order; other lines change nothing.
pub proof fn law_openai_stream_line(lines: Seq<Seq<char>>, l: Seq<char>)
    ensures
        ({
            let before = openai_stream(lines);
            let after = openai_stream(lines.push(l));
            match data_of(l) {
                Some(d) => if crate::text::trim(d) != "[DONE]"@ && serde_from_str(d) is Some {
                    let delta = field(crate::json::item(field(serde_from_str(d)->0, "choices"@), 0), "delta"@);
                    &&& after.0 == before.0 + crate::extract::str_or_empty(as_str(field(delta, "content"@)))
                    &&& after.1 == before.1 + crate::extract::str_or_empty(
                        as_str(field(delta, "reasoning_content"@)),
                    )
                    &&& after.2 == match field(delta, "tool_calls"@) {
                        JsonV::Array(tcs) => upsert_all(before.2, tcs),
                        _ => before.2,
                    }
                } else {
                    after == before
                },
                None => after == before,
            }
        }),
{
    assert(lines.push(l).drop_last() =~= lines);
}

/// One Gemini chunk part: a thought adds its text to the reasoning, a part
/// with a function call (not null) adds the call, any other part with text
/// adds the text; the calls of earlier parts are all kept.
pub proof fn law_gemini_chunk_part(parts: Seq<JsonV>, p: JsonV)
    ensures
        ({
            let before = gemini_chunk(parts);
            let after = gemini_chunk(parts.push(p));
            let thought = as_bool(field(p, "thought"@)) == Some(true);
            let call = match get(p, "functionCall"@) {
                Some(fc) => if fc == JsonV::Null {
                    None
                } else {
                    Some(fc)
                },
                None => None,
            };
            &&& thought ==> after == (
                before.0,
                before.1 + crate::extract::str_or_empty(as_str(field(p, "text"@))),
                before.2,
            )
            &&& !thought && call is Some ==> after == (before.0, before.1, before.2.push(call->0))
            &&& !thought && call is None ==> after == (
                before.0 + crate::extract::str_or_empty(as_str(field(p, "text"@))),
                before.1,
                before.2,
            )
        }),
{
    assert(parts.push(p).drop_last() =~= parts);
    let before = gemini_chunk(parts);
    assert(before.0 + Seq::<char>::empty() =~= before.0);
    assert(before.1 + Seq::<char>::empty() =~= before.1);
}

} // verus!

verus! {

/// The tool call with index `idx` among accumulated calls, if there is one.
pub open spec fn tool_at(tools: Seq<ToolV>, idx: usize) -> Option<ToolV>
    decreases tools.len(),
{
    if tools.len() == 0 {
        None
    } else if tools[0].0 == idx {
        Some(tools[0])
    } else {
        tool_at(tools.drop_first(), idx)
    }
}

/// Whether accumulated calls are in strictly increasing index order.
pub open spec fn ascending(tools: Seq<ToolV>) -> bool {
    forall|i: int, j: int| 0 <= i < j < tools.len() ==> tools[i].0 < tools[j].0
}

/// One tool-call delta applied to a call: the call keeps its index, the first
/// id and name it was given stay (an empty one takes the delta's), and the
/// delta's argument fragment is appended to its arguments.
pub proof fn law_tool_delta(t: ToolV, tc: JsonV)
    ensures
        ({
            let f = field(tc, "function"@);
            let u = update_tool(t, tc);
            &&& u.0 == t.0
            &&& u.3 == t.3 + crate::extract::str_or_empty(as_str(field(f, "arguments"@)))
            &&& t.1.len() > 0 ==> u.1 == t.1
            &&& t.1.len() == 0 ==> u.1 == crate::extract::str_or_empty(as_str(field(tc, "id"@)))
            &&& t.2.len() > 0 ==> u.2 == t.2
            &&& t.2.len() == 0 ==> u.2 == crate::extract::str_or_empty(as_str(field(f, "name"@)))
        }),
{
    assert(t.3 + Seq::<char>::empty() =~= t.3);
}

proof fn lemma_upsert_above(tools: Seq<ToolV>, tc: JsonV, b: int)
    requires
        b < tool_index(tc),
        forall|k: int| 0 <= k < tools.len() ==> b < #[trigger] tools[k].0,
    ensures
        forall|j: int| 0 <= j < upsert_tool(tools, tc).len() ==> b < #[trigger] upsert_tool(tools, tc)[j].0,
    decreases tools.len(),
{
    let r = upsert_tool(tools, tc);
    if tools.len() > 0 && tools[0].0 < tool_index(tc) {
        let rest = tools.drop_first();
        assert forall|k: int| 0 <= k < rest.len() implies b < #[trigger] rest[k].0 by {
            assert(rest[k] == tools[k + 1]);
        }
        lemma_upsert_above(rest, tc, b);
        assert forall|j: int| 0 <= j < r.len() implies b < #[trigger] r[j].0 by {
            if j > 0 {
                assert(r[j] == upsert_tool(rest, tc)[j - 1]);
            }
        }
    } else if tools.len() > 0 && tools[0].0 > tool_index(tc) {
        assert forall|j: int| 0 <= j < r.len() implies b < #[trigger] r[j].0 by {
            if j > 0 {
                assert(r[j] == tools[j - 1]);
            }
        }
    } else if tools.len() > 0 {
        assert forall|j: int| 0 <= j < r.len() implies b < #[trigger] r[j].0 by {
            if j > 0 {
                assert(r[j] == tools.drop_first()[j - 1]);
            }
        }
    }
}

proof fn lemma_tool_at_none(tools: Seq<ToolV>, idx: usize)
    requires
        forall|k: int| 0 <= k < tools.len() ==> idx < #[trigger] tools[k].0,
    ensures
        tool_at(tools, idx) is None,
    decreases tools.len(),
{
    if tools.len() > 0 {
        let rest = tools.drop_first();
        assert forall|k: int| 0 <= k < rest.len() implies idx < #[trigger] rest[k].0 by {
            assert(rest[k] == tools[k + 1]);
        }
        lemma_tool_at_none(rest, idx);
    }
}

/// A tool-call delta applied to calls kept in index order: the call with the
/// delta's index gets the delta (a new, empty call when there was none);
/// every other call stays as it was; the calls stay in index order.
pub proof fn law_tool_delta_upsert(tools: Seq<ToolV>, tc: JsonV)
    requires
        ascending(tools),
    ensures
        ({
            let idx = tool_index(tc);
            let r = upsert_tool(tools, tc);
            &&& ascending(r)
            &&& tool_at(r, idx) == Some(
                update_tool(
                    match tool_at(tools, idx) {
                        Some(t) => t,
                        None => (idx, Seq::empty(), Seq::empty(), Seq::empty()),
                    },
                    tc,
                ),
            )
            &&& forall|i: usize| i != idx ==> #[trigger] tool_at(r, i) == tool_at(tools, i)
        }),
    decreases tools.len(),
{
    let idx = tool_index(tc);
    let r = upsert_tool(tools, tc);
    if tools.len() == 0 {
        assert(r.drop_first() =~= Seq::<ToolV>::empty());
    } else {
        let rest = tools.drop_first();
        assert(ascending(rest)) by {
            assert forall|i: int, j: int| 0 <= i < j < rest.len() implies rest[i].0 < rest[j].0 by {
                assert(rest[i] == tools[i + 1] && rest[j] == tools[j + 1]);
            }
        }
        assert forall|k: int| 0 <= k < rest.len() implies tools[0].0 < #[trigger] rest[k].0 by {
            assert(rest[k] == tools[k + 1]);
        }
        if tools[0].0 == idx {
            assert(r.drop_first() =~= rest);
            assert forall|i: int, j: int| 0 <= i < j < r.len() implies r[i].0 < r[j].0 by {
                if i > 0 {
                    assert(r[i] == tools[i]);
                }
                assert(r[j] == tools[j]);
            }
        } else if tools[0].0 > idx {
            assert(r.drop_first() =~= tools);
            assert forall|k: int| 0 <= k < tools.len() implies idx < #[trigger] tools[k].0 by {
                if k > 0 {
                    assert(tools[0].0 < tools[k].0);
                }
            }
            lemma_tool_at_none(tools, idx);
            assert forall|i: int, j: int| 0 <= i < j < r.len() implies r[i].0 < r[j].0 by {
                if i > 0 {
                    assert(r[i] == tools[i - 1]);
                }
                assert(r[j] == tools[j - 1]);
            }
        } else {
            law_tool_delta_upsert(rest, tc);
            let r1 = upsert_tool(rest, tc);
            assert(r.drop_first() =~= r1);
            lemma_upsert_above(rest, tc, tools[0].0 as int);
            assert forall|i: int, j: int| 0 <= i < j < r.len() implies r[i].0 < r[j].0 by {
                assert(r[j] == r1[j - 1]);
                if i > 0 {
                    assert(r[i] == r1[i - 1]);
                }
            }
            assert forall|i: usize| i != idx implies #[trigger] tool_at(r, i) == tool_at(tools, i) by {
                if i != tools[0].0 {
                    assert(tool_at(r1, i) == tool_at(rest, i));
                }
            }
        }
    }
}

} // verus!

verus! {

/// The block with index `idx` among accumulated tool-use blocks, if any.
pub open spec fn block_at(blocks: Seq<BlockV>, idx: usize) -> Option<BlockV>
    decreases blocks.len(),
{
    if blocks.len() == 0 {
        None
    } else if blocks[0].0 == idx {
        Some(blocks[0])
    } else {
        block_at(blocks.drop_first(), idx)
    }
}

/// Whether accumulated blocks are in strictly increasing index order.
pub open spec fn blocks_ascending(blocks: Seq<BlockV>) -> bool {
    forall|i: int, j: int| 0 <= i < j < blocks.len() ==> blocks[i].0 < blocks[j].0
}

proof fn lemma_start_above(blocks: Seq<BlockV>, idx: usize, b: JsonV, lo: int)
    requires
        lo < idx,
        forall|k: int| 0 <= k < blocks.len() ==> lo < #[trigger] blocks[k].0,
    ensures
        forall|j: int| 0 <= j < start_block(blocks, idx, b).len() ==> lo < #[trigger] start_block(blocks, idx, b)[j].0,
    decreases blocks.len(),
{
    let r = start_block(blocks, idx, b);
    if blocks.len() > 0 && blocks[0].0 < idx {
        let rest = blocks.drop_first();
        assert forall|k: int| 0 <= k < rest.len() implies lo < #[trigger] rest[k].0 by {
            assert(rest[k] == blocks[k + 1]);
        }
        lemma_start_above(rest, idx, b, lo);
        assert forall|j: int| 0 <= j < r.len() implies lo < #[trigger] r[j].0 by {
            if j > 0 {
                assert(r[j] == start_block(rest, idx, b)[j - 1]);
            }
        }
    } else if blocks.len() > 0 && blocks[0].0 > idx {
        assert forall|j: int| 0 <= j < r.len() implies lo < #[trigger] r[j].0 by {
            if j > 0 {
                assert(r[j] == blocks[j - 1]);
            }
        }
    } else if blocks.len() > 0 {
        assert forall|j: int| 0 <= j < r.len() implies lo < #[trigger] r[j].0 by {
            if j > 0 {
                assert(r[j] == blocks.drop_first()[j - 1]);
            }
        }
    }
}

/// Starting a tool-use block at `idx`: the block at `idx` is the started
/// block with no input yet; every other block stays as it was; blocks stay
/// in index order.
pub proof fn law_start_block(blocks: Seq<BlockV>, idx: usize, b: JsonV)
    requires
        blocks_ascending(blocks),
    ensures
        ({
            let r = start_block(blocks, idx, b);
            &&& blocks_ascending(r)
            &&& block_at(r, idx) == Some((idx, b, Seq::<char>::empty()))
            &&& forall|i: usize| i != idx ==> #[trigger] block_at(r, i) == block_at(blocks, i)
        }),
    decreases blocks.len(),
{
    let r = start_block(blocks, idx, b);
    if blocks.len() > 0 {
        let rest = blocks.drop_first();
        assert(blocks_ascending(rest)) by {
            assert forall|i: int, j: int| 0 <= i < j < rest.len() implies rest[i].0 < rest[j].0 by {
                assert(rest[i] == blocks[i + 1] && rest[j] == blocks[j + 1]);
            }
        }
        assert forall|k: int| 0 <= k < rest.len() implies blocks[0].0 < #[trigger] rest[k].0 by {
            assert(rest[k] == blocks[k + 1]);
        }
        if blocks[0].0 == idx {
            assert(r.drop_first() =~= rest);
            assert(r[0] == (idx, b, Seq::<char>::empty()));
            assert forall|i: usize| i != idx implies #[trigger] block_at(r, i) == block_at(blocks, i) by {
                assert(block_at(r, i) == block_at(rest, i));
            }
            assert forall|i: int, j: int| 0 <= i < j < r.len() implies r[i].0 < r[j].0 by {
                if i > 0 {
                    assert(r[i] == blocks[i]);
                }
                assert(r[j] == blocks[j]);
            }
        } else if blocks[0].0 > idx {
            assert(r.drop_first() =~= blocks);
            assert(r[0] == (idx, b, Seq::<char>::empty()));
            assert forall|i: usize| i != idx implies #[trigger] block_at(r, i) == block_at(blocks, i) by {
                assert(block_at(r, i) == block_at(r.drop_first(), i));
            }
            assert forall|i: int, j: int| 0 <= i < j < r.len() implies r[i].0 < r[j].0 by {
                if i > 0 {
                    assert(r[i] == blocks[i - 1]);
                }
                assert(r[j] == blocks[j - 1]);
                if j - 1 > 0 {
                    assert(blocks[0].0 < blocks[j - 1].0);
                }
            }
        } else {
            law_start_block(rest, idx, b);
            let r1 = start_block(rest, idx, b);
            assert(r.drop_first() =~= r1);
            assert(r[0] == blocks[0]);
            assert(block_at(r, idx) == block_at(r1, idx));
            lemma_start_above(rest, idx, b, blocks[0].0 as int);
            assert forall|i: int, j: int| 0 <= i < j < r.len() implies r[i].0 < r[j].0 by {
                assert(r[j] == r1[j - 1]);
                if i > 0 {
                    assert(r[i] == r1[i - 1]);
                }
            }
            assert forall|i: usize| i != idx implies #[trigger] block_at(r, i) == block_at(blocks, i) by {
                if i != blocks[0].0 {
                    assert(block_at(r1, i) == block_at(rest, i));
                }
            }
        }
    } else {
        assert(r.drop_first() =~= Seq::<BlockV>::empty());
        assert(r[0] == (idx, b, Seq::<char>::empty()));
        assert forall|i: usize| i != idx implies #[trigger] block_at(r, i) == block_at(blocks, i) by {
            assert(block_at(r, i) == block_at(r.drop_first(), i));
        }
    }
}

/// Setting a member of a key-ordered object: the member then holds the
/// value, and every other member stays as it was.
pub proof fn law_object_insert(m: Seq<(Seq<char>, JsonV)>, key: Seq<char>, value: JsonV, other: Seq<char>)
    ensures
        crate::json::lookup(object_insert(m, key, value), key) == Some(value),
        other != key ==> crate::json::lookup(object_insert(m, key, value), other) == crate::json::lookup(m, other),
    decreases m.len(),
{
    let r = object_insert(m, key, value);
    if m.len() > 0 {
        if m[0].0 == key {
            assert(r.drop_first() =~= m.drop_first());
            assert(r[0] == (key, value));
            if other != key {
                assert(crate::json::lookup(r, other) == crate::json::lookup(m.drop_first(), other));
                assert(crate::json::lookup(m, other) == crate::json::lookup(m.drop_first(), other));
            }
        } else if crate::jcs::key_lt(key, m[0].0) {
            assert(r.drop_first() =~= m);
            assert(r[0] == (key, value));
            if other != key {
                assert(crate::json::lookup(r, other) == crate::json::lookup(m, other));
            }
        } else {
            law_object_insert(m.drop_first(), key, value, other);
            assert(r.drop_first() =~= object_insert(m.drop_first(), key, value));
            assert(r[0] == m[0]);
            if other != key && m[0].0 != other {
                assert(crate::json::lookup(r, other) == crate::json::lookup(m.drop_first(), other));
            }
            if m[0].0 == other {
                assert(crate::json::lookup(r, other) == Some(m[0].1));
            }
        }
    } else {
        assert(r.drop_first() =~= Seq::<(Seq<char>, JsonV)>::empty());
        assert(r[0] == (key, value));
        if other != key {
            assert(crate::json::lookup(r, other) == crate::json::lookup(r.drop_first(), other));
            assert(crate::json::lookup(r.drop_first(), other) is None);
        }
    }
}

/// A finished tool-use block is the block as it started with its `input`
/// set: an empty object when no input text came, the text parsed as JSON,
/// or the text itself when it does not parse; its other members stay.
pub proof fn law_finished_block(b: BlockV, other: Seq<char>)
    ensures
        ({
            let input = if b.2.len() == 0 {
                JsonV::Object(Seq::empty())
            } else {
                match serde_from_str(b.2) {
                    Some(x) => x,
                    None => JsonV::Str(b.2),
                }
            };
            &&& b.1 is Object ==> get(finished_block(b), "input"@) == Some(input)
            &&& b.1 is Object && other != "input"@ ==> get(finished_block(b), other) == get(b.1, other)
            &&& !(b.1 is Object) ==> finished_block(b) == b.1
        }),
{
    match b.1 {
        JsonV::Object(m) => {
            law_object_insert(m, "input"@, input_value(b.2), other);
        },
        _ => {},
    }
}

} // verus!

verus! {

/// Streamed reasoning is recorded as one string, and not at all when none
/// came.
pub proof fn law_streamed_reasoning(t: Seq<char>)
    ensures
        t.len() == 0 ==> thinking_value(t) is None,
        t.len() > 0 ==> thinking_value(t) == Some(JsonV::Str(t)),
{
}

/// An accumulated OpenAI tool call is recorded with its id, type
/// `function`, its function's name, and its arguments parsed as JSON (or the
/// argument text itself when it does not parse).
pub proof fn law_tool_call_value(t: ToolV)
    ensures
        ({
            let v = tool_call_value(t);
            let f = field(v, "function"@);
            &&& get(v, "id"@) == Some(JsonV::Str(t.1))
            &&& get(v, "type"@) == Some(JsonV::Str("function"@))
            &&& get(f, "name"@) == Some(JsonV::Str(t.2))
            &&& get(f, "arguments"@) == Some(
                match serde_from_str(t.3) {
                    Some(x) => x,
                    None => JsonV::Str(t.3),
                },
            )
        }),
{
    reveal_strlit("function");
    reveal_strlit("id");
    reveal_strlit("type");
    reveal_strlit("name");
    reveal_strlit("arguments");
    let v = tool_call_value(t);
    let m = match v {
        JsonV::Object(m) => m,
        _ => Seq::empty(),
    };
    assert("function"@.len() != "id"@.len());
    assert("function"@.len() != "type"@.len());
    assert("id"@.len() != "type"@.len());
    assert("name"@.len() != "arguments"@.len());
    assert(crate::jcs::distinct_keys(m));
    assert(m.contains(m[1]) && m.contains(m[2]) && m.contains(m[0]));
    crate::jcs::lemma_lookup_member(m, m[0].0, m[0].1);
    crate::jcs::lemma_lookup_member(m, m[1].0, m[1].1);
    crate::jcs::lemma_lookup_member(m, m[2].0, m[2].1);
    let fm = match m[0].1 {
        JsonV::Object(x) => x,
        _ => Seq::empty(),
    };
    assert(crate::jcs::distinct_keys(fm));
    assert(fm.contains(fm[0]) && fm.contains(fm[1]));
    crate::jcs::lemma_lookup_member(fm, fm[0].0, fm[0].1);
    crate::jcs::lemma_lookup_member(fm, fm[1].0, fm[1].1);
}

/// The action of an OpenAI stream: none without tool calls, else the array
/// of the accumulated calls in index order.
pub proof fn law_openai_stream_action(buf: Seq<u8>)
    ensures
        ({
            let tools = openai_stream(stream_lines(buf)).2;
            let act = openai_sse(buf).2;
            &&& tools.len() == 0 ==> act is None
            &&& tools.len() > 0 ==> (act matches Some(JsonV::Array(a)) && a.len() == tools.len() && forall|i: int|
                0 <= i < a.len() ==> #[trigger] a[i] == tool_call_value(tools[i]))
        }),
{
}

} // verus!

verus! {

/// A stream line carries data exactly when it starts with `data: `; the
/// data is the rest of the line.
pub proof fn law_data_line(line: Seq<char>, d: Seq<char>)
    ensures
        (data_of(line) == Some(d)) <==> (line == "data: "@ + d),
{
    crate::text::law_strip_prefix(line, "data: "@, d);
}

/// Reading more lines of a Gemini stream only adds to its text, reasoning
/// and calls; a line carrying a response with parts adds that chunk.
pub proof fn law_gemini_stream_line(lines: Seq<Seq<char>>, l: Seq<char>)
    ensures
        ({
            let before = gemini_stream(lines);
            let after = gemini_stream(lines.push(l));
            &&& (data_of(l) matches Some(d) && serde_from_str(d) matches Some(v)
                && crate::extract::gemini_parts(v) matches Some(ps)) ==> after == (
                before.0 + gemini_chunk(crate::extract::gemini_parts(serde_from_str(data_of(l)->0)->0)->0).0,
                before.1 + gemini_chunk(crate::extract::gemini_parts(serde_from_str(data_of(l)->0)->0)->0).1,
                before.2 + gemini_chunk(crate::extract::gemini_parts(serde_from_str(data_of(l)->0)->0)->0).2,
            )
            &&& starts_with(after.0, before.0)
            &&& starts_with(after.1, before.1)
            &&& after.2.len() >= before.2.len() && after.2.subrange(0, before.2.len() as int) == before.2
        }),
{
    assert(lines.push(l).drop_last() =~= lines);
    let before = gemini_stream(lines);
    let after = gemini_stream(lines.push(l));
    assert(after.0.subrange(0, before.0.len() as int) =~= before.0);
    assert(after.1.subrange(0, before.1.len() as int) =~= before.1);
    assert(after.2.subrange(0, before.2.len() as int) =~= before.2);
}

} // verus!
