//! What the proxy decides for each request: the session, the hashed input,
//! where the request goes, which headers go with it, and when the response
//! may be released.
use vstd::prelude::*;
use vstd::string::StringExecFns;
use vstd::utf8::encode_utf8;
use crate::extract::{
    anthropic_extract, extract_anthropic, extract_gemini, extract_openai, gemini_extract, openai_extract, str_eq,
};
use crate::sse::{
    accumulate_sse_anthropic, accumulate_sse_gemini, accumulate_sse_openai, anthropic_sse, gemini_sse, openai_sse,
};
use crate::hash::{digest_label, hash_input, input_label, input_payload};
use crate::jcs::{canon, decimal, push_decimal};
use crate::ledger::EntryMeta;
use crate::json::{as_str, get, opt_view, parse_json_slice, serde_from_slice, serde_text, serde_text_spec, Json, JsonV};
use crate::text::{chars_of, string_of};
use crate::ulid::{all_crockford, is_ulid, new_ulid, ulid_shape, ulid_text};

verus! {

/// `s` without any trailing `c`.
pub open spec fn trim_end_char(s: Seq<char>, c: char) -> Seq<char>
    decreases s.len(),
{
    if s.len() > 0 && s.last() == c {
        trim_end_char(s.drop_last(), c)
    } else {
        s
    }
}

/// Whether `s` ends with the non-empty `suffix`.
pub open spec fn ends_with(s: Seq<char>, suffix: Seq<char>) -> bool {
    0 < suffix.len() <= s.len() && s.subrange(s.len() - suffix.len(), s.len() as int) == suffix
}

/// `s` with every trailing copy of `suffix` removed, one after the other.
pub open spec fn trim_suffix(s: Seq<char>, suffix: Seq<char>) -> Seq<char>
    decreases s.len(),
{
    if ends_with(s, suffix) {
        trim_suffix(s.subrange(0, s.len() - suffix.len()), suffix)
    } else {
        s
    }
}

/// Whether `needle` occurs in `hay`.
pub open spec fn contains_seq(hay: Seq<char>, needle: Seq<char>) -> bool {
    exists|i: int| 0 <= i && i + needle.len() <= hay.len() && #[trigger] hay.subrange(i, i + needle.len()) == needle
}

/// `s.trim_end_matches('/')`.
pub fn trim_end_slashes(s: &str) -> (out: String)
    ensures
        out@ == trim_end_char(s@, '/'),
{
    let cs = chars_of(s);
    let mut n: usize = cs.len();
    assert(cs@.subrange(0, n as int) =~= cs@);
    while n > 0 && cs[n - 1] == '/'
        invariant
            n <= cs@.len(),
            trim_end_char(s@, '/') == trim_end_char(cs@.subrange(0, n as int), '/'),
        decreases n,
    {
        assert(cs@.subrange(0, n as int).drop_last() =~= cs@.subrange(0, n - 1));
        n = n - 1;
    }
    let kept = vstd::slice::slice_subrange(cs.as_slice(), 0, n);
    string_of(kept)
}

/// Whether the characters of `s` end with those of `suffix`.
fn ends_with_chars(s: &Vec<char>, n: usize, suffix: &Vec<char>) -> (b: bool)
    requires
        n <= s@.len(),
    ensures
        b == ends_with(s@.subrange(0, n as int), suffix@),
{
    let ghost t = s@.subrange(0, n as int);
    if suffix.len() == 0 || suffix.len() > n {
        return false;
    }
    let start = n - suffix.len();
    let mut i: usize = 0;
    while i < suffix.len()
        invariant
            i <= suffix@.len(),
            start + suffix@.len() == n,
            n <= s@.len(),
            t == s@.subrange(0, n as int),
            forall|k: int| 0 <= k < i ==> s@[start + k] == suffix@[k],
        decreases suffix@.len() - i,
    {
        if s[start + i] != suffix[i] {
            assert(t.subrange(start as int, n as int)[i as int] != suffix@[i as int]);
            return false;
        }
        i = i + 1;
    }
    assert(t.subrange(start as int, n as int) =~= suffix@);
    true
}

/// `s.trim_end_matches(suffix)` for a non-empty `suffix`: every trailing
/// copy removed.
pub fn trim_suffix_str(s: &str, suffix: &str) -> (out: String)
    ensures
        out@ == trim_suffix(s@, suffix@),
{
    let cs = chars_of(s);
    let suf = chars_of(suffix);
    let mut n: usize = cs.len();
    assert(cs@.subrange(0, n as int) =~= cs@);
    while ends_with_chars(&cs, n, &suf)
        invariant
            n <= cs@.len(),
            suf@ == suffix@,
            trim_suffix(s@, suffix@) == trim_suffix(cs@.subrange(0, n as int), suffix@),
        decreases n,
    {
        assert(cs@.subrange(0, n as int).subrange(0, n - suf@.len()) =~= cs@.subrange(0, n - suf@.len()));
        n = n - suf.len();
    }
    let kept = vstd::slice::slice_subrange(cs.as_slice(), 0, n);
    string_of(kept)
}

/// Whether `needle` occurs in `hay`; `str::contains`.
pub fn contains_str(hay: &str, needle: &str) -> (found: bool)
    ensures
        found == contains_seq(hay@, needle@),
{
    let h = chars_of(hay);
    let nd = chars_of(needle);
    if nd.len() > h.len() {
        proof {
            assert forall|i: int| 0 <= i && i + needle@.len() <= hay@.len() implies #[trigger] hay@.subrange(i, i + needle@.len()) != needle@ by {}
        }
        return false;
    }
    if nd.len() == 0 {
        assert(hay@.subrange(0int, 0int + needle@.len()) =~= needle@);
        return true;
    }
    let hl: usize = h.len();
    let last: usize = hl - nd.len();
    let mut i: usize = 0;
    while i <= last
        invariant
            last + nd@.len() == hl,
            hl == h@.len(),
            nd@.len() > 0,
            h@ == hay@,
            nd@ == needle@,
            nd@.len() <= h@.len(),
            i <= h@.len() - nd@.len() + 1,
            forall|j: int| 0 <= j < i ==> #[trigger] hay@.subrange(j, j + needle@.len()) != needle@,
        decreases h@.len() + 1 - i,
    {
        let mut k: usize = 0;
        let mut same = true;
        while k < nd.len()
            invariant
                k <= nd@.len(),
                i <= last,
                last + nd@.len() == hl,
                hl == h@.len(),
                same == forall|t: int| 0 <= t < k ==> h@[i + t] == nd@[t],
            decreases nd@.len() - k,
        {
            if h[i + k] != nd[k] {
                same = false;
            }
            k = k + 1;
        }
        if same {
            assert(hay@.subrange(i as int, i + needle@.len()) =~= needle@);
            return true;
        }
        assert(!same ==> exists|t: int| 0 <= t < nd@.len() && h@[i + t] != nd@[t]);
        proof {
            let t = choose|t: int| 0 <= t < nd@.len() && h@[i + t] != nd@[t];
            assert(hay@.subrange(i as int, i + needle@.len())[t] != needle@[t]);
        }
        i = i + 1;
    }
    proof {
        assert forall|j: int| 0 <= j && j + needle@.len() <= hay@.len() implies #[trigger] hay@.subrange(j, j + needle@.len()) != needle@ by {
            assert(j < i);
        }
    }
    false
}

/// Whether a response with this `content-type` is an event stream.
pub fn is_event_stream(content_type: Option<&str>) -> (b: bool)
    ensures
        b == match content_type {
            Some(t) => contains_seq(t@, "text/event-stream"@),
            None => false,
        },
{
    match content_type {
        Some(t) => contains_str(t, "text/event-stream"),
        None => false,
    }
}

} // verus!

verus! {

/// What `str::to_lowercase` gives for a string.
pub uninterp spec fn lowercase_spec(s: Seq<char>) -> Seq<char>;

/// `str::to_lowercase`. Claims only that the result is the one
/// `lowercase_spec` names for the argument.
#[verifier::external_body]
fn lowercase(s: &str) -> (out: String)
    ensures
        out@ == lowercase_spec(s@),
{
    s.to_lowercase()
}

/// The texts of a list of strings.
pub open spec fn str_views(s: Seq<&str>) -> Seq<Seq<char>> {
    s.map_values(|x: &str| x@)
}

/// Whether a request header whose lower-cased name is `lower` is sent on:
/// `host`, `content-length` and the names in `strip` are not.
pub open spec fn forwarded(lower: Seq<char>, strip: Seq<Seq<char>>) -> bool {
    !(lower == "host"@ || lower == "content-length"@ || strip.contains(lower))
}

/// Whether a request header with the lower-cased name `lower` is sent
/// upstream (see `forwarded`).
pub fn forwarded_name(lower: &str, strip: &[&str]) -> (keep: bool)
    ensures
        keep == forwarded(lower@, str_views(strip@)),
{
    if str_eq(lower, "host") || str_eq(lower, "content-length") {
        return false;
    }
    let mut i: usize = 0;
    while i < strip.len()
        invariant
            i <= strip@.len(),
            forall|t: int| 0 <= t < i ==> (#[trigger] strip@[t])@ != lower@,
        decreases strip@.len() - i,
    {
        if str_eq(strip[i], lower) {
            assert(str_views(strip@)[i as int] == lower@);
            return false;
        }
        i = i + 1;
    }
    assert(!str_views(strip@).contains(lower@));
    true
}

/// Whether the request header `name` is sent upstream; `strip` lists the
/// proxy's own headers.
pub fn keep_header(name: &str, strip: &[&str]) -> (keep: bool)
    ensures
        keep == forwarded(lowercase_spec(name@), str_views(strip@)),
{
    let lower = lowercase(name);
    forwarded_name(lower.as_str(), strip)
}

} // verus!

verus! {

/// The three APIs the proxy speaks.
#[derive(Clone, Copy, Debug, PartialEq, Eq, Structural)]
pub enum Provider {
    OpenAi,
    Anthropic,
    Gemini,
}

/// The system prompt that goes into the input hash: OpenAI's `system` when
/// it is a string; Anthropic's `system` as given when a string, else its
/// JSON text; Gemini's `systemInstruction` as JSON text.
pub open spec fn system_prompt(p: Provider, payload: JsonV) -> Option<Seq<char>> {
    match p {
        Provider::OpenAi => match get(payload, "system"@) {
            Some(v) => as_str(v),
            None => None,
        },
        Provider::Anthropic => match get(payload, "system"@) {
            Some(JsonV::Str(s)) => Some(s),
            Some(v) => Some(serde_text_spec(v)),
            None => None,
        },
        Provider::Gemini => match get(payload, "systemInstruction"@) {
            Some(v) => Some(serde_text_spec(v)),
            None => None,
        },
    }
}

/// The member that holds the conversation.
pub open spec fn messages_key(p: Provider) -> Seq<char> {
    match p {
        Provider::Gemini => "contents"@,
        _ => "messages"@,
    }
}

/// The input hash of a request payload.
pub open spec fn input_hash_spec(p: Provider, payload: JsonV) -> Seq<char> {
    digest_label(
        encode_utf8(
            canon(
                input_payload(
                    system_prompt(p, payload),
                    get(payload, messages_key(p)),
                    get(payload, "tools"@),
                ),
            ),
        ),
    )
}

/// The input hash of a request payload.
pub fn input_hash(provider: &Provider, payload: &Json) -> (h: String)
    ensures
        h@ == input_hash_spec(*provider, payload@),
{
    match provider {
        Provider::OpenAi => {
            let system = match payload.get("system") {
                Some(v) => v.as_str(),
                None => None,
            };
            hash_input(system, payload.get("messages"), payload.get("tools"))
        },
        Provider::Anthropic => match payload.get("system") {
            Some(Json::Str(s)) => hash_input(Some(s.as_str()), payload.get("messages"), payload.get("tools")),
            Some(v) => {
                let t = serde_text(v);
                hash_input(Some(t.as_str()), payload.get("messages"), payload.get("tools"))
            },
            None => hash_input(None, payload.get("messages"), payload.get("tools")),
        },
        Provider::Gemini => match payload.get("systemInstruction") {
            Some(v) => {
                let t = serde_text(v);
                hash_input(Some(t.as_str()), payload.get("contents"), payload.get("tools"))
            },
            None => hash_input(None, payload.get("contents"), payload.get("tools")),
        },
    }
}

/// The model a payload names, or `unknown`.
pub open spec fn model_spec(payload: JsonV) -> Seq<char> {
    match get(payload, "model"@) {
        Some(v) => match as_str(v) {
            Some(s) => s,
            None => "unknown"@,
        },
        None => "unknown"@,
    }
}

/// The model a payload names, or `unknown`.
pub fn model_of(payload: &Json) -> (m: String)
    ensures
        m@ == model_spec(payload@),
{
    match payload.get("model") {
        Some(v) => match v.as_str() {
            Some(s) => String::from_str(s),
            None => String::from_str("unknown"),
        },
        None => String::from_str("unknown"),
    }
}

/// The model named by a Gemini path: the path without its
/// `:streamGenerateContent`, then its `:generateContent` suffixes.
pub open spec fn gemini_model_spec(model_path: Seq<char>) -> Seq<char> {
    trim_suffix(trim_suffix(model_path, ":streamGenerateContent"@), ":generateContent"@)
}

/// The model named by a Gemini path.
pub fn gemini_model(model_path: &str) -> (m: String)
    ensures
        m@ == gemini_model_spec(model_path@),
{
    let a = trim_suffix_str(model_path, ":streamGenerateContent");
    trim_suffix_str(a.as_str(), ":generateContent")
}

/// Where a request goes: the base named by the request's upstream header,
/// else the configured base, without trailing slashes, then `path`.
pub open spec fn upstream_url_spec(upstream: Option<Seq<char>>, default_base: Seq<char>, path: Seq<char>) -> Seq<char> {
    trim_end_char(
        match upstream {
            Some(b) => b,
            None => default_base,
        },
        '/',
    ) + path
}

/// The text of an optional string.
pub open spec fn opt_text(o: Option<&str>) -> Option<Seq<char>> {
    match o {
        Some(s) => Some(s@),
        None => None,
    }
}

/// Where a request goes (see `upstream_url_spec`).
pub fn upstream_url(upstream: Option<&str>, default_base: &str, path: &str) -> (url: String)
    ensures
        url@ == upstream_url_spec(opt_text(upstream), default_base@, path@),
{
    let base = match upstream {
        Some(b) => b,
        None => default_base,
    };
    let mut url = trim_end_slashes(base);
    url.append(path);
    url
}

/// Where a Gemini request goes: the configured base followed by the
/// request's path and query, or `/`.
pub open spec fn gemini_url_spec(base: Seq<char>, path_and_query: Option<Seq<char>>) -> Seq<char> {
    base + match path_and_query {
        Some(q) => q,
        None => "/"@,
    }
}

/// Where a Gemini request goes.
pub fn gemini_url(base: &str, path_and_query: Option<&str>) -> (url: String)
    ensures
        url@ == gemini_url_spec(base@, opt_text(path_and_query)),
{
    let mut url = String::from_str(base);
    match path_and_query {
        Some(q) => url.append(q),
        None => url.append("/"),
    }
    url
}

/// Whether a session header names a session: it is missing, or a ULID.
pub open spec fn header_ok(header: Option<Seq<char>>) -> bool {
    match header {
        Some(h) => ulid_shape(h),
        None => true,
    }
}

/// Whether `sid` is the session of a request with this session header: the
/// header's value (a ULID), or else a fresh ULID.
pub open spec fn session_ok(header: Option<Seq<char>>, sid: Seq<char>) -> bool {
    match header {
        Some(h) => sid == h && ulid_shape(h),
        None => {
            &&& sid.len() == 26
            &&& all_crockford(sid)
            &&& exists|ts: nat, random: Seq<u8>| random.len() == 10 && sid == ulid_text(ts, random)
        },
    }
}

/// The session of a request: its session header, else a fresh ULID; none
/// when the header is not a ULID.
pub fn session_id(header: Option<&str>) -> (sid: Option<String>)
    ensures
        match sid {
            Some(s) => session_ok(opt_text(header), s@),
            None => !header_ok(opt_text(header)),
        },
{
    match header {
        Some(h) => if is_ulid(h) {
            Some(String::from_str(h))
        } else {
            None
        },
        None => Some(new_ulid()),
    }
}

} // verus!

verus! {

/// Why a request fails, and the status it is answered with.
#[derive(Clone, Copy, Debug, PartialEq, Eq, Structural)]
pub enum ProxyError {
    /// The request body is not JSON (400).
    BadRequest,
    /// The session header is not a ULID (400).
    BadSession,
    /// The upstream could not be reached or read (502).
    BadGateway,
    /// The ledger could not be written, so the response is withheld (500).
    LedgerWriteFailed,
}

/// The HTTP status of each error.
pub open spec fn status_spec(e: ProxyError) -> u16 {
    match e {
        ProxyError::BadRequest => 400,
        ProxyError::BadSession => 400,
        ProxyError::BadGateway => 502,
        ProxyError::LedgerWriteFailed => 500,
    }
}

impl ProxyError {
    /// The HTTP status this error is answered with.
    pub fn status(&self) -> (code: u16)
        ensures
            code == status_spec(*self),
    {
        match self {
            ProxyError::BadRequest => 400,
            ProxyError::BadSession => 400,
            ProxyError::BadGateway => 502,
            ProxyError::LedgerWriteFailed => 500,
        }
    }
}

/// What is settled about a request before it goes upstream.
#[derive(Debug, Clone, PartialEq, Eq)]
pub struct RequestPlan {
    /// The session the exchange is recorded in.
    pub sid: String,
    /// The hash of the request's input.
    pub in_hash: String,
    /// Where the request is sent.
    pub url: String,
    /// The model recorded for the exchange.
    pub model: String,
}

/// Why a request is refused before it goes upstream: its body is not JSON;
/// else its session header is not a ULID.
pub open spec fn refused(e: ProxyError, parsed: Option<JsonV>, session: Option<Seq<char>>) -> bool {
    if parsed is None {
        e == ProxyError::BadRequest
    } else {
        e == ProxyError::BadSession && !header_ok(session)
    }
}

/// The path each chat API posts to.
pub open spec fn chat_path(p: Provider) -> Seq<char> {
    match p {
        Provider::Anthropic => "/v1/messages"@,
        _ => "/v1/chat/completions"@,
    }
}

/// Whether `plan` is the plan of a request whose body parsed to `payload`.
pub open spec fn plan_fits(
    p: Provider,
    payload: JsonV,
    session: Option<Seq<char>>,
    url: Seq<char>,
    model: Seq<char>,
    plan: RequestPlan,
) -> bool {
    &&& session_ok(session, plan.sid@)
    &&& plan.in_hash@ == input_hash_spec(p, payload)
    &&& plan.url@ == url
    &&& plan.model@ == model
}

/// The plan of an OpenAI or Anthropic request: refused with `BadRequest`
/// exactly when the body is not JSON.
fn plan_chat(
    provider: &Provider,
    body: &[u8],
    session: Option<&str>,
    upstream: Option<&str>,
    default_base: &str,
) -> (plan: Result<RequestPlan, ProxyError>)
    requires
        *provider != Provider::Gemini,
    ensures
        match plan {
            Ok(r) => match serde_from_slice(body@) {
                Some(v) => plan_fits(
                    *provider,
                    v,
                    opt_text(session),
                    upstream_url_spec(opt_text(upstream), default_base@, chat_path(*provider)),
                    model_spec(v),
                    r,
                ),
                None => false,
            },
            Err(e) => refused(e, serde_from_slice(body@), opt_text(session)),
        },
{
    let payload = match parse_json_slice(body) {
        Some(v) => v,
        None => {
            return Err(ProxyError::BadRequest);
        },
    };
    let sid = match session_id(session) {
        Some(s) => s,
        None => {
            return Err(ProxyError::BadSession);
        },
    };
    let in_hash = input_hash(provider, &payload);
    let url = match provider {
        Provider::Anthropic => upstream_url(upstream, default_base, "/v1/messages"),
        _ => upstream_url(upstream, default_base, "/v1/chat/completions"),
    };
    let model = model_of(&payload);
    Ok(RequestPlan { sid, in_hash, url, model })
}

/// The plan of a request to the OpenAI-style chat endpoint.
pub fn plan_openai(body: &[u8], session: Option<&str>, upstream: Option<&str>, default_base: &str) -> (plan:
    Result<RequestPlan, ProxyError>)
    ensures
        match plan {
            Ok(r) => match serde_from_slice(body@) {
                Some(v) => plan_fits(
                    Provider::OpenAi,
                    v,
                    opt_text(session),
                    upstream_url_spec(opt_text(upstream), default_base@, "/v1/chat/completions"@),
                    model_spec(v),
                    r,
                ),
                None => false,
            },
            Err(e) => refused(e, serde_from_slice(body@), opt_text(session)),
        },
{
    plan_chat(&Provider::OpenAi, body, session, upstream, default_base)
}

/// The plan of a request to the Anthropic messages endpoint.
pub fn plan_anthropic(body: &[u8], session: Option<&str>, upstream: Option<&str>, default_base: &str) -> (plan:
    Result<RequestPlan, ProxyError>)
    ensures
        match plan {
            Ok(r) => match serde_from_slice(body@) {
                Some(v) => plan_fits(
                    Provider::Anthropic,
                    v,
                    opt_text(session),
                    upstream_url_spec(opt_text(upstream), default_base@, "/v1/messages"@),
                    model_spec(v),
                    r,
                ),
                None => false,
            },
            Err(e) => refused(e, serde_from_slice(body@), opt_text(session)),
        },
{
    plan_chat(&Provider::Anthropic, body, session, upstream, default_base)
}

/// The plan of a Gemini request, posted to `model_path` with this path and
/// query: refused with `BadRequest` exactly when the body is not JSON.
pub fn plan_gemini(
    body: &[u8],
    session: Option<&str>,
    base: &str,
    model_path: &str,
    path_and_query: Option<&str>,
) -> (plan: Result<RequestPlan, ProxyError>)
    ensures
        match plan {
            Ok(r) => match serde_from_slice(body@) {
                Some(v) => plan_fits(
                    Provider::Gemini,
                    v,
                    opt_text(session),
                    gemini_url_spec(base@, opt_text(path_and_query)),
                    gemini_model_spec(model_path@),
                    r,
                ),
                None => false,
            },
            Err(e) => refused(e, serde_from_slice(body@), opt_text(session)),
        },
{
    let payload = match parse_json_slice(body) {
        Some(v) => v,
        None => {
            return Err(ProxyError::BadRequest);
        },
    };
    let sid = match session_id(session) {
        Some(s) => s,
        None => {
            return Err(ProxyError::BadSession);
        },
    };
    let in_hash = input_hash(&Provider::Gemini, &payload);
    let url = gemini_url(base, path_and_query);
    let model = gemini_model(model_path);
    Ok(RequestPlan { sid, in_hash, url, model })
}

} // verus!

verus! {

/// The header that carries the session.
pub open spec fn session_header() -> Seq<char> {
    "x-harness-session"@
}

/// The headers a response carries: the session; and, once the exchange is
/// recorded, its sequence number and (except for Anthropic) the entry's hash.
pub open spec fn response_headers_spec(p: Provider, sid: Seq<char>, recorded: Option<(u64, Seq<char>)>) -> Seq<
    (Seq<char>, Seq<char>),
> {
    match recorded {
        None => seq![(session_header(), sid)],
        Some((seq, prev)) => match p {
            Provider::Anthropic => seq![(session_header(), sid), ("x-harness-seq"@, decimal(seq as nat))],
            _ => seq![
                (session_header(), sid),
                ("x-harness-seq"@, decimal(seq as nat)),
                ("x-harness-prev"@, prev),
            ],
        },
    }
}

/// The model of a recorded entry's place.
pub open spec fn meta_view(m: Option<&EntryMeta>) -> Option<(u64, Seq<char>)> {
    match m {
        Some(e) => Some((e.seq, e.prev@)),
        None => None,
    }
}

/// The texts of a list of name and value pairs.
pub open spec fn pair_views(h: Seq<(String, String)>) -> Seq<(Seq<char>, Seq<char>)> {
    h.map_values(|x: (String, String)| (x.0@, x.1@))
}

/// The decimal text of a number.
pub fn decimal_text(n: u64) -> (t: String)
    ensures
        t@ == decimal(n as nat),
{
    let mut t = String::new();
    push_decimal(&mut t, n);
    assert(t@ =~= decimal(n as nat));
    t
}

/// The headers a response carries (see `response_headers_spec`); `recorded`
/// is the entry written for a buffered response, none for a stream.
pub fn response_headers(provider: &Provider, sid: &str, recorded: Option<&EntryMeta>) -> (h: Vec<(String, String)>)
    ensures
        pair_views(h@) == response_headers_spec(*provider, sid@, meta_view(recorded)),
{
    let mut h: Vec<(String, String)> = Vec::new();
    h.push((String::from_str("x-harness-session"), String::from_str(sid)));
    match recorded {
        Some(m) => {
            h.push((String::from_str("x-harness-seq"), decimal_text(m.seq)));
            match provider {
                Provider::Anthropic => {},
                _ => {
                    h.push((String::from_str("x-harness-prev"), m.prev.clone()));
                },
            }
        },
        None => {},
    }
    assert(pair_views(h@) =~= response_headers_spec(*provider, sid@, meta_view(recorded)));
    h
}

/// Where a request stands while the proxy serves it.
#[derive(Clone, Copy, Debug, PartialEq, Eq, Structural)]
pub enum Phase {
    /// The request is on its way upstream.
    Sending,
    /// A buffered response is being read.
    Reading,
    /// The exchange is being written to the ledger.
    Recording,
    /// The response has gone to the client.
    Released,
    /// The request was answered with an error.
    Failed,
}

/// What happened outside.
#[derive(Clone, Copy, Debug, PartialEq, Eq, Structural)]
pub enum Event {
    /// The upstream could not be reached.
    SendFailed,
    /// The upstream replied; `true` when the reply is an event stream (it is
    /// read whole, like any other reply).
    Replied(bool),
    /// The buffered body could not be read.
    ReadFailed,
    /// The buffered body was read.
    Read,
    /// The ledger entry could not be written.
    RecordFailed,
    /// The ledger entry was written and synced.
    Recorded,
}

/// What to do next.
#[derive(Clone, Copy, Debug, PartialEq, Eq, Structural)]
pub enum Action {
    /// Read the whole response body.
    ReadBody,
    /// Write the exchange to the ledger.
    Record,
    /// Send the buffered response to the client.
    Release,
    /// Answer with this error.
    Reject(ProxyError),
    /// Nothing: the event does not belong to this phase.
    Ignore,
}

/// The proxy's decisions: every response, event streams included, is read
/// whole, then recorded, and released only once recorded.
pub open spec fn step(phase: Phase, event: Event) -> (Phase, Action) {
    match (phase, event) {
        (Phase::Sending, Event::SendFailed) => (Phase::Failed, Action::Reject(ProxyError::BadGateway)),
        (Phase::Sending, Event::Replied(_)) => (Phase::Reading, Action::ReadBody),
        (Phase::Reading, Event::ReadFailed) => (Phase::Failed, Action::Reject(ProxyError::BadGateway)),
        (Phase::Reading, Event::Read) => (Phase::Recording, Action::Record),
        (Phase::Recording, Event::RecordFailed) => (Phase::Failed, Action::Reject(ProxyError::LedgerWriteFailed)),
        (Phase::Recording, Event::Recorded) => (Phase::Released, Action::Release),
        _ => (phase, Action::Ignore),
    }
}

/// The next phase and action after `event`.
pub fn next_step(phase: Phase, event: Event) -> (r: (Phase, Action))
    ensures
        r == step(phase, event),
{
    match (phase, event) {
        (Phase::Sending, Event::SendFailed) => (Phase::Failed, Action::Reject(ProxyError::BadGateway)),
        (Phase::Sending, Event::Replied(_)) => (Phase::Reading, Action::ReadBody),
        (Phase::Reading, Event::ReadFailed) => (Phase::Failed, Action::Reject(ProxyError::BadGateway)),
        (Phase::Reading, Event::Read) => (Phase::Recording, Action::Record),
        (Phase::Recording, Event::RecordFailed) => (Phase::Failed, Action::Reject(ProxyError::LedgerWriteFailed)),
        (Phase::Recording, Event::Recorded) => (Phase::Released, Action::Release),
        _ => (phase, Action::Ignore),
    }
}

/// Fail-closed: a response is released only by the event that says its
/// exchange was written to the ledger, a failed write withholds it, and no
/// other step lets a response reach the client.
pub proof fn law_release_only_after_record(phase: Phase, event: Event)
    ensures
        step(phase, event).1 == Action::Release ==> phase == Phase::Recording && event == Event::Recorded,
        step(Phase::Recording, Event::RecordFailed).1 == Action::Reject(ProxyError::LedgerWriteFailed),
        phase != Phase::Released && step(phase, event).0 == Phase::Released ==> step(phase, event).1
            == Action::Release,
{
}

/// A request that has been answered stays answered: no event moves a
/// released or failed request, nor asks for anything more.
pub proof fn law_finished_is_final(phase: Phase, event: Event)
    requires
        phase == Phase::Released || phase == Phase::Failed,
    ensures
        step(phase, event) == (phase, Action::Ignore),
{
}

} // verus!

verus! {

/// Text, reasoning and action of a model response, read as the provider
/// writes it: as an event stream when it came as one, else as one JSON body.
pub open spec fn response_summary(provider: Provider, streamed: bool, body: Seq<u8>) -> (
    Seq<char>,
    Option<JsonV>,
    Option<JsonV>,
) {
    match provider {
        Provider::OpenAi => if streamed {
            openai_sse(body)
        } else {
            openai_extract(body)
        },
        Provider::Anthropic => if streamed {
            anthropic_sse(body)
        } else {
            anthropic_extract(body)
        },
        Provider::Gemini => if streamed {
            gemini_sse(body)
        } else {
            gemini_extract(body)
        },
    }
}

/// Text, reasoning and action of a model response (see `response_summary`).
pub fn summarize(provider: &Provider, streamed: bool, body: &[u8]) -> (r: (String, Option<Json>, Option<Json>))
    ensures
        (r.0@, opt_view(r.1), opt_view(r.2)) == response_summary(*provider, streamed, body@),
{
    match provider {
        Provider::OpenAi => if streamed {
            accumulate_sse_openai(body)
        } else {
            extract_openai(body)
        },
        Provider::Anthropic => if streamed {
            accumulate_sse_anthropic(body)
        } else {
            extract_anthropic(body)
        },
        Provider::Gemini => if streamed {
            accumulate_sse_gemini(body)
        } else {
            extract_gemini(body)
        },
    }
}

} // verus!

verus! {

/// What the input hash of a request covers, by provider: OpenAI's `system`
/// when it is a string, Anthropic's `system` (a string as given, anything
/// else as its JSON text) and Gemini's `systemInstruction` (as JSON text);
/// the conversation under `messages` (OpenAI, Anthropic) or `contents`
/// (Gemini); and `tools`.
pub proof fn law_input_hash_covers_the_request(p: Provider, payload: JsonV)
    ensures
        p == Provider::OpenAi ==> input_hash_spec(p, payload) == input_label(
            match get(payload, "system"@) {
                Some(JsonV::Str(s)) => Some(s),
                _ => None,
            },
            get(payload, "messages"@),
            get(payload, "tools"@),
        ),
        p == Provider::Anthropic ==> input_hash_spec(p, payload) == input_label(
            match get(payload, "system"@) {
                Some(JsonV::Str(s)) => Some(s),
                Some(v) => Some(serde_text_spec(v)),
                None => None,
            },
            get(payload, "messages"@),
            get(payload, "tools"@),
        ),
        p == Provider::Gemini ==> input_hash_spec(p, payload) == input_label(
            match get(payload, "systemInstruction"@) {
                Some(v) => Some(serde_text_spec(v)),
                None => None,
            },
            get(payload, "contents"@),
            get(payload, "tools"@),
        ),
{
}

} // verus!

verus! {

/// Removing trailing copies of `c` keeps the longest prefix that does not
/// end with `c`, and what is removed is all `c`.
pub proof fn law_trim_end_char(s: Seq<char>, c: char)
    ensures
        ({
            let t = trim_end_char(s, c);
            &&& t.len() <= s.len()
            &&& s.subrange(0, t.len() as int) == t
            &&& forall|j: int| t.len() <= j < s.len() ==> #[trigger] s[j] == c
            &&& t.len() == 0 || t.last() != c
        }),
    decreases s.len(),
{
    if s.len() > 0 && s.last() == c {
        law_trim_end_char(s.drop_last(), c);
        let t = trim_end_char(s, c);
        assert(s.subrange(0, t.len() as int) =~= s.drop_last().subrange(0, t.len() as int));
        assert forall|j: int| t.len() <= j < s.len() implies #[trigger] s[j] == c by {
            if j < s.len() - 1 {
                assert(s[j] == s.drop_last()[j]);
            }
        }
    } else {
        assert(s.subrange(0, s.len() as int) =~= s);
    }
}

/// A request goes to the base its upstream header names (else the
/// configured one), without trailing slashes, followed by the path.
pub proof fn law_upstream_url(upstream: Option<Seq<char>>, default_base: Seq<char>, path: Seq<char>)
    ensures
        ({
            let base = match upstream {
                Some(b) => b,
                None => default_base,
            };
            let url = upstream_url_spec(upstream, default_base, path);
            let t = trim_end_char(base, '/');
            &&& url == t + path
            &&& base.subrange(0, t.len() as int) == t
            &&& forall|j: int| t.len() <= j < base.len() ==> #[trigger] base[j] == '/'
            &&& t.len() == 0 || t.last() != '/'
        }),
{
    let base = match upstream {
        Some(b) => b,
        None => default_base,
    };
    law_trim_end_char(base, '/');
}

/// A response carries the session header first; once its exchange is
/// recorded, the entry's sequence number in decimal, and, except for
/// Anthropic, the entry's hash.
pub proof fn law_response_headers(p: Provider, sid: Seq<char>, recorded: Option<(u64, Seq<char>)>)
    ensures
        ({
            let h = response_headers_spec(p, sid, recorded);
            &&& h[0] == ("x-harness-session"@, sid)
            &&& recorded is None ==> h.len() == 1
            &&& recorded matches Some((seq, prev)) ==> {
                &&& h[1] == ("x-harness-seq"@, decimal(seq as nat))
                &&& p == Provider::Anthropic ==> h.len() == 2
                &&& p != Provider::Anthropic ==> h.len() == 3 && h[2] == ("x-harness-prev"@, prev)
            }
        }),
{
}

/// The HTTP status of each refusal: 400 for a body that is not JSON or a
/// session header that is not a ULID, 502 when the upstream fails, 500 when
/// the ledger cannot be written.
pub proof fn law_error_status()
    ensures
        status_spec(ProxyError::BadRequest) == 400,
        status_spec(ProxyError::BadSession) == 400,
        status_spec(ProxyError::BadGateway) == 502,
        status_spec(ProxyError::LedgerWriteFailed) == 500,
{
}

/// The model recorded for an exchange: the payload's `model` when it is a
/// string, else `unknown`.
pub proof fn law_model_named(payload: JsonV)
    ensures
        get(payload, "model"@) matches Some(JsonV::Str(m)) ==> model_spec(payload) == m,
        !(get(payload, "model"@) matches Some(JsonV::Str(_))) ==> model_spec(payload) == "unknown"@,
{
}

} // verus!

verus! {

/// A request header is sent upstream unless its lower-cased name is `host`,
/// `content-length` or one of the proxy's own headers.
pub proof fn law_forwarded_headers(lower: Seq<char>, strip: Seq<Seq<char>>)
    ensures
        lower == "host"@ ==> !forwarded(lower, strip),
        lower == "content-length"@ ==> !forwarded(lower, strip),
        strip.contains(lower) ==> !forwarded(lower, strip),
        lower != "host"@ && lower != "content-length"@ && !strip.contains(lower) ==> forwarded(lower, strip),
{
}

/// A response is an event stream exactly when its content type mentions
/// `text/event-stream` anywhere (so parameters such as a charset may
/// follow).
pub proof fn law_event_stream_type(before: Seq<char>, after: Seq<char>)
    ensures
        contains_seq(before + "text/event-stream"@ + after, "text/event-stream"@),
{
    let s = before + "text/event-stream"@ + after;
    let n = "text/event-stream"@.len();
    assert(s.subrange(before.len() as int, (before.len() + n) as int) =~= "text/event-stream"@);
}

} // verus!

verus! {

/// Chat requests go to `/v1/messages` for Anthropic and to
/// `/v1/chat/completions` for OpenAI; Gemini requests go to the configured
/// base followed by the request's own path and query (or `/`).
pub proof fn law_request_paths(base: Seq<char>, path_and_query: Option<Seq<char>>)
    ensures
        chat_path(Provider::Anthropic) == "/v1/messages"@,
        chat_path(Provider::OpenAi) == "/v1/chat/completions"@,
        path_and_query matches Some(q) ==> gemini_url_spec(base, path_and_query) == base + q,
        path_and_query is None ==> gemini_url_spec(base, path_and_query) == base + seq!['/'],
{
    reveal_strlit("/");
}

} // verus!
