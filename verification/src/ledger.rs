//! The session ledger: one canonical JSON entry per line, each carrying its
//! position and the hash of the entry before it.
use vstd::prelude::*;
use vstd::string::StringExecFns;
use vstd::utf8::{decode_utf8, encode_utf8, valid_utf8};
use crate::hash::{digest_bytes, digest_label, hash_entry};
use crate::jcs::{
    canon, canonicalize, deep_members, distinct_keys, floats_printable, join, keys_of, lemma_canon_printable,
    lemma_canon_sort_deep, lemma_lookup_member, lemma_members_printable_intro, lemma_members_safe_intro,
    lemma_safe_floats_printable, lemma_sorted_members, lemma_strictly_sorted_distinct, object_parts, parse_safe,
    sort_deep, sorted_members,
};
use crate::extract::str_eq;
use crate::json::{
    as_i64, as_str, as_u64, field, get, lemma_object_view, lookup, opt_view, parse_json_str, serde_from_str, Json, JsonNumber,
    JsonV, NumberV,
};
use crate::ulid::{is_ulid, ulid_shape, unix_time_millis};
use crate::timestamp::{chrono_utc_millis, utc_millis_shape, utc_text, LAST_FOUR_DIGIT_MILLIS};
use crate::text::{
    byte_lines, chars_of, lemma_byte_lines_append, lemma_encode_no_control, lemma_lines_count, lemma_trim_unchanged, push_char,
    split_byte_lines, string_of, trim, trim_chars, utf8_text,
};

verus! {

/// The protocol version written in every entry.
pub const PROTOCOL_VERSION: u64 = 1;

/// Where an entry stands in its session: its sequence number, and the hash of
/// the entry itself (which the next entry carries as `prev`).
#[derive(Debug, Clone, PartialEq, Eq)]
pub struct EntryMeta {
    pub seq: u64,
    pub prev: String,
}

/// What to do to a session file: keep its first `keep` bytes (dropping a
/// torn last line), then append the entry's line; and the entry's place.
#[derive(Debug, Clone, PartialEq, Eq)]
pub struct AppendPlan {
    pub keep: usize,
    pub line: Vec<u8>,
    pub meta: EntryMeta,
}

/// Why a ledger is refused.
#[derive(Debug, Clone, Copy, PartialEq, Eq, Structural)]
pub enum LedgerError {
    /// A line is not valid UTF-8.
    InvalidUtf8,
    /// The entry that would carry this sequence number is not JSON.
    Unreadable(u64),
    /// The entry at this sequence number has a newer protocol version.
    NewerVersion(u64),
    /// The entry at this position does not carry this sequence number, or
    /// not the hash of the entry before it: the chain is broken there.
    BrokenChain(u64),
    /// The session id is not a ULID.
    InvalidSession,
    /// The system clock reads past the dates that a time stamp can hold.
    ClockOutOfRange,
}

/// Appends entries to session ledgers.
pub struct SessionLedger;

/// The `prev` of the first entry of a session: `sha256:` and 64 zeros.
pub open spec fn genesis_prev() -> Seq<char> {
    seq!['s', 'h', 'a', '2', '5', '6', ':'] + Seq::new(64, |i: int| '0')
}

/// The sequence number an entry carries, where it is an integer that fits in `i64`.
pub open spec fn entry_seq(e: JsonV) -> Option<i64> {
    match get(e, "seq"@) {
        Some(x) => as_i64(x),
        None => None,
    }
}

/// The model of a ledger entry.
pub open spec fn entry_model(
    seq: u64,
    sid: Seq<char>,
    ts: Seq<char>,
    model: Seq<char>,
    in_hash: Seq<char>,
    has_think: bool,
    think: Option<JsonV>,
    has_act: bool,
    act: Option<JsonV>,
    reason: Seq<char>,
    prev: Seq<char>,
) -> JsonV {
    JsonV::Object(
        seq![
            ("v"@, JsonV::Number(NumberV::PosInt(1))),
            ("seq"@, JsonV::Number(NumberV::PosInt(seq))),
            ("sid"@, JsonV::Str(sid)),
            ("ts"@, JsonV::Str(ts)),
            ("model"@, JsonV::Str(model)),
            ("in"@, JsonV::Str(in_hash)),
            ("think"@, match think {
                Some(t) => t,
                None => JsonV::Null,
            }),
            ("reason"@, JsonV::Str(reason)),
            ("act"@, match act {
                Some(a) => a,
                None => JsonV::Null,
            }),
            ("prev"@, JsonV::Str(prev)),
            ("transparency"@, JsonV::Object(
                seq![("think"@, JsonV::Bool(has_think)), ("act"@, JsonV::Bool(has_act))],
            )),
        ],
    )
}

/// The model of an optional reference.
pub open spec fn ref_view(o: Option<&Json>) -> Option<JsonV> {
    match o {
        Some(j) => Some(j@),
        None => None,
    }
}

/// The genesis hash.
pub fn genesis() -> (g: String)
    ensures
        g@ == genesis_prev(),
{
    let mut g = String::new();
    push_char(&mut g, 's');
    push_char(&mut g, 'h');
    push_char(&mut g, 'a');
    push_char(&mut g, '2');
    push_char(&mut g, '5');
    push_char(&mut g, '6');
    push_char(&mut g, ':');
    let mut i: usize = 0;
    while i < 64
        invariant
            i <= 64,
            g@ == seq!['s', 'h', 'a', '2', '5', '6', ':'] + Seq::new(i as nat, |t: int| '0'),
        decreases 64 - i,
    {
        push_char(&mut g, '0');
        assert(Seq::new((i + 1) as nat, |t: int| '0') =~= Seq::new(i as nat, |t: int| '0').push('0'));
        i = i + 1;
    }
    g
}

/// The text a reader takes from a ledger line: the decoded line, trimmed.
pub open spec fn line_text(line: Seq<u8>) -> Seq<char> {
    trim(decode_utf8(line))
}

/// The length of the part of a ledger up to and including its last LF: what
/// stays when a torn last line (bytes after the last LF) is dropped.
pub open spec fn kept_len(b: Seq<u8>) -> nat
    decreases b.len(),
{
    if b.len() == 0 {
        0
    } else if b.last() == 10u8 {
        b.len()
    } else {
        kept_len(b.drop_last())
    }
}

/// Whether an entry has a protocol version newer than this one.
pub open spec fn newer_version(e: JsonV) -> bool {
    match get(e, "v"@) {
        Some(x) => match as_u64(x) {
            Some(u) => u > PROTOCOL_VERSION,
            None => false,
        },
        None => false,
    }
}

/// The `prev` an entry carries, where it is a string.
pub open spec fn entry_prev(e: JsonV) -> Option<Seq<char>> {
    match get(e, "prev"@) {
        Some(x) => as_str(x),
        None => None,
    }
}

/// Reading the entry at position `count`, whose predecessor hashes to
/// `prev`: refused when its version is newer, or when it does not carry
/// `count` as `seq` and `prev` as `prev`; else the next position and the
/// entry's own hash.
pub open spec fn read_entry(e: JsonV, count: nat, prev: Seq<char>) -> Result<(nat, Seq<char>), LedgerError> {
    if newer_version(e) {
        Err(LedgerError::NewerVersion(count as u64))
    } else if count <= i64::MAX && entry_seq(e) == Some(count as i64) && entry_prev(e) == Some(prev) {
        Ok((count + 1, digest_label(encode_utf8(canon(e)))))
    } else {
        Err(LedgerError::BrokenChain(count as u64))
    }
}

/// Reading one line: it must be UTF-8; a blank line is skipped; any other
/// must be a JSON entry that continues the chain.
pub open spec fn read_line(line: Seq<u8>, count: nat, prev: Seq<char>) -> Result<(nat, Seq<char>), LedgerError> {
    if !valid_utf8(line) {
        Err(LedgerError::InvalidUtf8)
    } else if line_text(line).len() == 0 {
        Ok((count, prev))
    } else {
        match serde_from_str(line_text(line)) {
            None => Err(LedgerError::Unreadable(count as u64)),
            Some(e) => read_entry(e, count, prev),
        }
    }
}

/// Reading lines from `i` on, from position `count` after an entry that
/// hashes to `prev`: the first refusal, or the next position and hash.
pub open spec fn scan_lines(lines: Seq<Seq<u8>>, i: int, count: nat, prev: Seq<char>) -> Result<
    (nat, Seq<char>),
    LedgerError,
>
    decreases lines.len() - i,
{
    if i < 0 || i >= lines.len() {
        Ok((count, prev))
    } else {
        match read_line(lines[i], count, prev) {
            Err(e) => Err(e),
            Ok((c, p)) => scan_lines(lines, i + 1, c, p),
        }
    }
}

/// Reading a ledger: a torn last line is dropped; every other line is read
/// (see `read_line`) from position 0 after the genesis hash. Gives the next
/// entry's sequence number, its `prev`, and how many bytes to keep; or the
/// first refusal.
pub open spec fn ledger_tail(existing: Seq<u8>) -> Result<(u64, Seq<char>, nat), LedgerError> {
    let keep = kept_len(existing);
    match scan_lines(byte_lines(existing.take(keep as int)), 0, 0, genesis_prev()) {
        Err(e) => Err(e),
        Ok((n, p)) => Ok((n as u64, p, keep)),
    }
}

/// Whether a text read back as the value whose canonical text it is.
pub open spec fn reads_back(t: Seq<char>) -> bool {
    forall|v: JsonV| parse_safe(v, 127) && #[trigger] canon(v) == t ==> serde_from_str(t) == Some(sort_deep(v))
}

/// Whether a ledger that is what `prepare_entry` planned for some ledger
/// (see `appended_entry`) reads as valid, with the next sequence number after
/// the appended entry's, that entry's hash as next `prev`, and nothing cut.
pub open spec fn links_after_append(existing: Seq<u8>) -> bool {
    forall|
        prefix: Seq<u8>,
        sid: Seq<char>,
        model: Seq<char>,
        in_hash: Seq<char>,
        has_think: bool,
        think: Option<JsonV>,
        has_act: bool,
        act: Option<JsonV>,
        reason: Seq<char>,
        ts: Seq<char>,
    |
        #[trigger] appended_entry(existing, prefix, sid, model, in_hash, has_think, think, has_act, act, reason, ts)
            matches Some((at, hash)) ==> at < 0x7fff_ffff_ffff_ffff && ledger_tail(existing) == Ok::<
            (u64, Seq<char>, nat),
            LedgerError,
        >(((at + 1) as u64, hash, existing.len()))
}

/// What is known of a line after reading it: whether it is UTF-8, whether it
/// is blank, and what it parsed to.
pub open spec fn line_known(r: (bool, bool, Option<Json>), line: Seq<u8>) -> bool {
    &&& r.0 == valid_utf8(line)
    &&& r.0 ==> r.1 == (line_text(line).len() == 0)
    &&& r.0 && !r.1 ==> opt_view(r.2) == serde_from_str(line_text(line)) && reads_back(line_text(line))
}

/// The length of a ledger up to and including its last LF.
fn kept_length(b: &[u8]) -> (k: usize)
    ensures
        k == kept_len(b@),
{
    let mut k: usize = b.len();
    assert(b@.take(k as int) =~= b@);
    while k > 0 && b[k - 1] != 10u8
        invariant
            k <= b@.len(),
            kept_len(b@) == kept_len(b@.take(k as int)),
        decreases k,
    {
        assert(b@.take(k as int).drop_last() =~= b@.take(k - 1));
        k = k - 1;
    }
    proof {
        if k > 0 {
            assert(b@.take(k as int).last() == b@[k - 1]);
        }
    }
    k
}

/// Whether an entry has a protocol version newer than this one.
fn newer_exec(e: &Json) -> (b: bool)
    ensures
        b == newer_version(e@),
{
    match e.get("v") {
        Some(x) => match x.as_u64() {
            Some(u) => u > PROTOCOL_VERSION,
            None => false,
        },
        None => false,
    }
}

/// Whether an entry carries `prev` as its `prev`.
fn prev_is(e: &Json, prev: &String) -> (b: bool)
    ensures
        b == (entry_prev(e@) == Some(prev@)),
{
    match e.get("prev") {
        Some(x) => match x.as_str() {
            Some(s) => str_eq(s, prev.as_str()),
            None => false,
        },
        None => false,
    }
}

/// Reads one line: whether it is UTF-8, whether it is blank, what it parses to.
fn read_line_exec(line: &Vec<u8>) -> (r: (bool, bool, Option<Json>))
    ensures
        line_known(r, line@),
{
    match utf8_text(line.as_slice()) {
        None => (false, false, None),
        Some(text) => {
            let cs = chars_of(text);
            let t = trim_chars(&cs);
            if t.len() == 0 {
                (true, true, None)
            } else {
                let ts = string_of(t.as_slice());
                let parsed = parse_json_str(ts.as_str());
                proof {
                    assert forall|v: JsonV| parse_safe(v, 127) && #[trigger] canon(v) == ts@ implies serde_from_str(ts@)
                        == Some(sort_deep(v)) by {}
                }
                (true, false, parsed)
            }
        },
    }
}

/// Reads the ledger held in `existing` (see `ledger_tail`): drops a torn
/// last line, refuses a line that is not UTF-8 or not JSON, an entry of a
/// newer version, and a broken chain (naming the first bad position); else
/// gives the next sequence number, its `prev`, and how many bytes to keep.
/// Where the ledger is one that `prepare_entry` planned an entry for,
/// followed by that entry, it reads as valid with one more entry, whose hash
/// is the next `prev`: appending keeps the chain valid and links it.
pub fn scan_tail(existing: &[u8]) -> (tail: Result<(u64, String, usize), LedgerError>)
    ensures
        match tail {
            Ok((seq, prev, keep)) => ledger_tail(existing@) == Ok::<(u64, Seq<char>, nat), LedgerError>((seq, prev@, keep as nat)),
            Err(e) => ledger_tail(existing@) == Err::<(u64, Seq<char>, nat), LedgerError>(e),
        },
        forall|
            prefix: Seq<u8>,
            sid: Seq<char>,
            model: Seq<char>,
            in_hash: Seq<char>,
            has_think: bool,
            think: Option<JsonV>,
            has_act: bool,
            act: Option<JsonV>,
            reason: Seq<char>,
            ts: Seq<char>,
        |
            #[trigger] appended_entry(existing@, prefix, sid, model, in_hash, has_think, think, has_act, act, reason, ts)
                matches Some((at, hash)) ==> (tail matches Ok((next, p, k)) && next == at + 1 && p@ == hash && k
                == existing@.len()),
{
    let keep = kept_length(existing);
    proof {
        lemma_kept_len(existing@);
    }
    let body = vstd::slice::slice_subrange(existing, 0, keep);
    assert(body@ == existing@.take(keep as int));
    let lines = split_byte_lines(body);
    let ghost bl = byte_lines(existing@.take(keep as int));
    let mut reads: Vec<(bool, bool, Option<Json>)> = Vec::new();
    let mut i: usize = 0;
    while i < lines.len()
        invariant
            i <= lines@.len(),
            lines@.len() == bl.len(),
            forall|t: int| 0 <= t < lines@.len() ==> (#[trigger] lines@[t])@ == bl[t],
            reads@.len() == i,
            forall|k: int| 0 <= k < i ==> line_known(#[trigger] reads@[k], bl[k]),
        decreases lines@.len() - i,
    {
        let r = read_line_exec(&lines[i]);
        reads.push(r);
        i = i + 1;
    }
    proof {
        lemma_chain_links(existing@, keep as nat, reads@);
    }
    let mut count: u64 = 0;
    let mut prev = genesis();
    let mut j: usize = 0;
    while j < reads.len()
        invariant
            j <= reads@.len(),
            reads@.len() == bl.len(),
            keep == kept_len(existing@),
            bl == byte_lines(existing@.take(keep as int)),
            links_after_append(existing@),
            forall|k: int| 0 <= k < reads@.len() ==> line_known(#[trigger] reads@[k], bl[k]),
            count <= j,
            scan_lines(bl, 0, 0, genesis_prev()) == scan_lines(bl, j as int, count as nat, prev@),
        decreases reads@.len() - j,
    {
        let r = &reads[j];
        assert(line_known(reads@[j as int], bl[j as int]));
        if !r.0 {
            return Err(LedgerError::InvalidUtf8);
        }
        if !r.1 {
            match &r.2 {
                None => {
                    return Err(LedgerError::Unreadable(count));
                },
                Some(e) => {
                    if newer_exec(e) {
                        return Err(LedgerError::NewerVersion(count));
                    }
                    let fits = count <= 0x7fff_ffff_ffff_ffff && match seq_of(e) {
                        Some(s) => s == count as i64,
                        None => false,
                    } && prev_is(e, &prev);
                    if !fits {
                        return Err(LedgerError::BrokenChain(count));
                    }
                    count = count + 1;
                    prev = hash_entry(e);
                },
            }
        }
        j = j + 1;
    }
    Ok((count, prev, keep))
}

/// The sequence number a read entry carries, if it has one that fits in `i64`.
pub fn seq_of(entry: &Json) -> (s: Option<i64>)
    ensures
        s == entry_seq(entry@),
{
    match entry.get("seq") {
        Some(x) => x.as_i64(),
        None => None,
    }
}

} // verus!

verus! {

/// A string value.
fn str_value(s: &str) -> (j: Json)
    ensures
        j@ == JsonV::Str(s@),
{
    Json::Str(String::from_str(s))
}

/// A value, or null when missing.
fn value_or_null(o: Option<&Json>) -> (j: Json)
    ensures
        j@ == match ref_view(o) {
            Some(x) => x,
            None => JsonV::Null,
        },
{
    match o {
        Some(x) => x.deep_clone(),
        None => Json::Null,
    }
}

/// What a ledger holding `existing` gets next, given the entry's time stamp
/// `ts`: refused when `sid` is not a ULID or the ledger is refused (see
/// `ledger_tail`); else the line (canonical entry and LF), the entry's
/// sequence number, its own hash, and how many bytes of `existing` to keep.
pub open spec fn plan_spec(
    existing: Seq<u8>,
    sid: Seq<char>,
    model: Seq<char>,
    in_hash: Seq<char>,
    has_think: bool,
    think: Option<JsonV>,
    has_act: bool,
    act: Option<JsonV>,
    reason: Seq<char>,
    ts: Seq<char>,
) -> Result<(Seq<u8>, u64, Seq<char>, nat), LedgerError> {
    if !ulid_shape(sid) {
        Err(LedgerError::InvalidSession)
    } else {
        match ledger_tail(existing) {
            Err(e) => Err(e),
            Ok((seq, prev, keep)) => {
                let e = entry_model(seq, sid, ts, model, in_hash, has_think, think, has_act, act, reason, prev);
                Ok((encode_utf8(canon(e)).push(10u8), seq, digest_label(encode_utf8(canon(e))), keep))
            },
        }
    }
}

/// The model of a plan.
pub open spec fn plan_view(p: AppendPlan) -> (Seq<u8>, u64, Seq<char>, nat) {
    (p.line@, p.meta.seq, p.meta.prev@, p.keep as nat)
}

impl SessionLedger {
    /// The entry that follows the ledger held in `existing`, stamped `ts` (see
    /// `plan_spec`): keep the valid part of the file, then append a line
    /// holding the canonical entry, which carries the next sequence number and,
    /// as `prev`, the hash of the last entry; the returned `prev` is the hash
    /// of the new entry itself.
    pub fn prepare_entry(
        existing: &[u8],
        sid: &str,
        model: &str,
        in_hash: &str,
        has_think: bool,
        think: Option<&Json>,
        has_act: bool,
        act: Option<&Json>,
        reason: &str,
        ts: &str,
    ) -> (plan: Result<AppendPlan, LedgerError>)
        ensures
            match plan {
                Ok(p) => plan_spec(
                    existing@,
                    sid@,
                    model@,
                    in_hash@,
                    has_think,
                    ref_view(think),
                    has_act,
                    ref_view(act),
                    reason@,
                    ts@,
                ) == Ok::<(Seq<u8>, u64, Seq<char>, nat), LedgerError>(plan_view(p)),
                Err(e) => plan_spec(
                    existing@,
                    sid@,
                    model@,
                    in_hash@,
                    has_think,
                    ref_view(think),
                    has_act,
                    ref_view(act),
                    reason@,
                    ts@,
                ) == Err::<(Seq<u8>, u64, Seq<char>, nat), LedgerError>(e),
            },
    {
        if !is_ulid(sid) {
            return Err(LedgerError::InvalidSession);
        }
        let (seq, prev, keep) = match scan_tail(existing) {
            Ok(t) => t,
            Err(e) => {
                return Err(e);
            },
        };
        let ghost want = entry_model(
            seq,
            sid@,
            ts@,
            model@,
            in_hash@,
            has_think,
            ref_view(think),
            has_act,
            ref_view(act),
            reason@,
            prev@,
        );
        let mut flags: Vec<(String, Json)> = Vec::new();
        flags.push((String::from_str("think"), Json::Bool(has_think)));
        flags.push((String::from_str("act"), Json::Bool(has_act)));
        let transparency = Json::Object(flags);
        proof {
            lemma_object_view(flags);
            let w = match want {
                JsonV::Object(x) => x,
                _ => Seq::empty(),
            };
            let wt = match w[10].1 {
                JsonV::Object(x) => x,
                _ => Seq::empty(),
            };
            assert(wt =~= Seq::new(flags@.len(), |i: int| (flags@[i].0@, flags@[i].1@)));
        }
        let mut members: Vec<(String, Json)> = Vec::new();
        members.push((String::from_str("v"), Json::Number(JsonNumber::PosInt(PROTOCOL_VERSION))));
        members.push((String::from_str("seq"), Json::Number(JsonNumber::PosInt(seq))));
        members.push((String::from_str("sid"), str_value(sid)));
        members.push((String::from_str("ts"), str_value(ts)));
        members.push((String::from_str("model"), str_value(model)));
        members.push((String::from_str("in"), str_value(in_hash)));
        members.push((String::from_str("think"), value_or_null(think)));
        members.push((String::from_str("reason"), str_value(reason)));
        members.push((String::from_str("act"), value_or_null(act)));
        members.push((String::from_str("prev"), Json::Str(prev)));
        members.push((String::from_str("transparency"), transparency));
        let entry = Json::Object(members);
        proof {
            lemma_object_view(members);
            let w = match want {
                JsonV::Object(x) => x,
                _ => Seq::empty(),
            };
            assert(members@[0].1@ == w[0].1);
            assert(members@[1].1@ == w[1].1);
            assert(members@[6].1@ == w[6].1);
            assert(members@[8].1@ == w[8].1);
            assert(members@[10].1@ == w[10].1);
            assert(w =~= Seq::new(members@.len(), |i: int| (members@[i].0@, members@[i].1@)));
            assert(entry@ == want);
        }
        let mut line = canonicalize(&entry);
        let label = digest_bytes(line.as_slice());
        line.push(10u8);
        Ok(AppendPlan { keep, line, meta: EntryMeta { seq, prev: label } })
    }

    /// The entry that follows the ledger held in `existing`, stamped with the
    /// current UTC time (see `prepare_entry`): the time stamp is `chrono`'s
    /// RFC 3339 text, with milliseconds, of the clock's reading (a clock that
    /// reads before the Unix epoch counts as the epoch), of the form
    /// `utc_millis_shape` gives up to the end of the year 9999. Refused as
    /// `prepare_entry` refuses, or when the reading cannot be written.
    pub fn append_entry(
        existing: &[u8],
        sid: &str,
        model: &str,
        in_hash: &str,
        has_think: bool,
        think: Option<&Json>,
        has_act: bool,
        act: Option<&Json>,
        reason: &str,
    ) -> (plan: Result<AppendPlan, LedgerError>)
        ensures
            match plan {
                Ok(p) => exists|ms: nat, ts: Seq<char>|
                    #![trigger chrono_utc_millis(ms as int), plan_spec(existing@, sid@, model@, in_hash@, has_think, ref_view(think), has_act, ref_view(act), reason@, ts)]
                    chrono_utc_millis(ms as int) == Some(ts)
                    && (ms <= LAST_FOUR_DIGIT_MILLIS ==> utc_millis_shape(ts, ms))
                    && plan_spec(
                        existing@,
                        sid@,
                        model@,
                        in_hash@,
                        has_think,
                        ref_view(think),
                        has_act,
                        ref_view(act),
                        reason@,
                        ts,
                    ) == Ok::<(Seq<u8>, u64, Seq<char>, nat), LedgerError>(plan_view(p)),
                Err(e) => e == LedgerError::ClockOutOfRange || forall|ts: Seq<char>|
                    plan_spec(
                        existing@,
                        sid@,
                        model@,
                        in_hash@,
                        has_think,
                        ref_view(think),
                        has_act,
                        ref_view(act),
                        reason@,
                        ts,
                    ) == Err::<(Seq<u8>, u64, Seq<char>, nat), LedgerError>(e),
            },
    {
        let ms: u128 = match unix_time_millis() {
            Some(m) => m,
            None => 0,
        };
        let ts = match utc_text(ms) {
            Some(t) => t,
            None => {
                return Err(LedgerError::ClockOutOfRange);
            },
        };
        let r = Self::prepare_entry(
            existing,
            sid,
            model,
            in_hash,
            has_think,
            think,
            has_act,
            act,
            reason,
            ts.as_str(),
        );
        proof {
            if let Ok(ref p) = r {
                assert(chrono_utc_millis(ms as nat as int) == Some(ts@));
                assert(plan_spec(existing@, sid@, model@, in_hash@, has_think, ref_view(think), has_act, ref_view(act), reason@, ts@)
                    == Ok::<(Seq<u8>, u64, Seq<char>, nat), LedgerError>(plan_view(*p)));
            }
        }
        r
    }
}

} // verus!

verus! {

/// Whether an optional value reads back from its canonical text when nested
/// in an entry.
pub open spec fn opt_safe(o: Option<JsonV>) -> bool {
    match o {
        Some(v) => parse_safe(v, 126),
        None => true,
    }
}

/// Where `existing` is what `prepare_entry` plans for a ledger `prefix` (the
/// kept part of `prefix`, then the planned line), with think and act that
/// read back and `prefix` shorter than `i64::MAX` bytes: the planned
/// sequence number and hash.
pub open spec fn appended_entry(
    existing: Seq<u8>,
    prefix: Seq<u8>,
    sid: Seq<char>,
    model: Seq<char>,
    in_hash: Seq<char>,
    has_think: bool,
    think: Option<JsonV>,
    has_act: bool,
    act: Option<JsonV>,
    reason: Seq<char>,
    ts: Seq<char>,
) -> Option<(u64, Seq<char>)> {
    match plan_spec(prefix, sid, model, in_hash, has_think, think, has_act, act, reason, ts) {
        Ok((line, seq, prev, keep)) => if existing == prefix.take(keep as int) + line && opt_safe(think)
            && opt_safe(act) && prefix.len() < 0x7fff_ffff_ffff_ffff {
            Some((seq, prev))
        } else {
            None
        },
        Err(_) => None,
    }
}

/// Reading lines, then one more line, reads on from where the first lines
/// left off.
proof fn lemma_scan_append(lines: Seq<Seq<u8>>, l: Seq<u8>, i: int, count: nat, prev: Seq<char>)
    requires
        0 <= i <= lines.len(),
    ensures
        scan_lines(lines.push(l), i, count, prev) == match scan_lines(lines, i, count, prev) {
            Err(e) => Err(e),
            Ok((c, p)) => scan_lines(seq![l], 0, c, p),
        },
    decreases lines.len() - i,
{
    let q = lines.push(l);
    if i == lines.len() {
        assert(q[i] == l);
        assert(seq![l][0] == l);
        match read_line(l, count, prev) {
            Err(e) => {},
            Ok((c, p)) => {
                assert(scan_lines(q, i + 1, c, p) == Ok::<(nat, Seq<char>), LedgerError>((c, p)));
                assert(scan_lines(seq![l], 1, c, p) == Ok::<(nat, Seq<char>), LedgerError>((c, p)));
            },
        }
    } else {
        assert(q[i] == lines[i]);
        match read_line(lines[i], count, prev) {
            Err(e) => {},
            Ok((c, p)) => {
                lemma_scan_append(lines, l, i + 1, c, p);
            },
        }
    }
}

/// An entry whose think and act read back reads back as a whole, and as it
/// reads back it still carries its version, sequence number and `prev`.
proof fn lemma_entry_members(
    seq: u64,
    sid: Seq<char>,
    ts: Seq<char>,
    model: Seq<char>,
    in_hash: Seq<char>,
    has_think: bool,
    think: Option<JsonV>,
    has_act: bool,
    act: Option<JsonV>,
    reason: Seq<char>,
    prev: Seq<char>,
)
    requires
        opt_safe(think),
        opt_safe(act),
    ensures
        ({
            let e = entry_model(seq, sid, ts, model, in_hash, has_think, think, has_act, act, reason, prev);
            &&& parse_safe(e, 127)
            &&& !newer_version(sort_deep(e))
            &&& entry_prev(sort_deep(e)) == Some(prev)
            &&& seq <= 0x7fff_ffff_ffff_ffff ==> entry_seq(sort_deep(e)) == Some(seq as i64)
        }),
{
    reveal_strlit("v");
    reveal_strlit("seq");
    reveal_strlit("sid");
    reveal_strlit("ts");
    reveal_strlit("model");
    reveal_strlit("in");
    reveal_strlit("think");
    reveal_strlit("reason");
    reveal_strlit("act");
    reveal_strlit("prev");
    reveal_strlit("transparency");
    let e = entry_model(seq, sid, ts, model, in_hash, has_think, think, has_act, act, reason, prev);
    let m = match e {
        JsonV::Object(m) => m,
        _ => Seq::empty(),
    };
    let tm = match m[10].1 {
        JsonV::Object(x) => x,
        _ => Seq::empty(),
    };
    assert(distinct_keys(tm)) by {
        assert(tm[0].0[0] != tm[1].0[0]);
    }
    assert forall|i: int| 0 <= i < tm.len() implies parse_safe(#[trigger] tm[i].1, 125) by {
        assert(tm[i].1 is Bool);
    }
    lemma_members_safe_intro(tm, 125);
    assert(parse_safe(m[10].1, 126));
    assert(distinct_keys(m)) by {
        assert forall|i: int, j: int| 0 <= i < m.len() && 0 <= j < m.len() && i != j implies m[i].0 != m[j].0 by {
            if m[i].0.len() == m[j].0.len() {
                assert(m[i].0[0] != m[j].0[0] || m[i].0[1] != m[j].0[1]);
            }
        }
    }
    assert forall|i: int| 0 <= i < m.len() implies parse_safe(#[trigger] m[i].1, 126) by {}
    lemma_members_safe_intro(m, 126);
    let dm = deep_members(m);
    assert(keys_of(dm) =~= keys_of(m));
    assert(distinct_keys(dm)) by {
        assert forall|i: int, j: int| 0 <= i < dm.len() && 0 <= j < dm.len() && i != j implies dm[i].0 != dm[j].0 by {
            assert(keys_of(dm)[i] == keys_of(m)[i]);
            assert(keys_of(dm)[j] == keys_of(m)[j]);
        }
    }
    lemma_sorted_members(false, dm);
    let sm = sorted_members(false, dm);
    lemma_strictly_sorted_distinct(false, sm);
    assert(sort_deep(e) == JsonV::Object(sm));
    assert(dm[0] == ("v"@, JsonV::Number(NumberV::PosInt(1))));
    assert(dm.contains(dm[0]));
    lemma_lookup_member(sm, "v"@, JsonV::Number(NumberV::PosInt(1)));
    assert(dm[9] == ("prev"@, JsonV::Str(prev)));
    assert(dm.contains(dm[9]));
    lemma_lookup_member(sm, "prev"@, JsonV::Str(prev));
    assert(dm[1] == ("seq"@, JsonV::Number(NumberV::PosInt(seq))));
    assert(dm.contains(dm[1]));
    lemma_lookup_member(sm, "seq"@, JsonV::Number(NumberV::PosInt(seq)));
}

/// The kept part of a ledger is empty or ends with LF; a ledger ending
/// with LF is kept whole.
proof fn lemma_kept_len(b: Seq<u8>)
    ensures
        kept_len(b) <= b.len(),
        kept_len(b) == 0 || b[kept_len(b) - 1] == 10u8,
        b.len() > 0 && b.last() == 10u8 ==> kept_len(b) == b.len(),
    decreases b.len(),
{
    if b.len() > 0 && b.last() != 10u8 {
        lemma_kept_len(b.drop_last());
        let k = kept_len(b.drop_last());
        if k > 0 {
            assert(b.drop_last()[k - 1] == b[k - 1]);
        }
    }
}

/// Reading counts at most one entry per line.
proof fn lemma_scan_count(lines: Seq<Seq<u8>>, i: int, count: nat, prev: Seq<char>)
    requires
        0 <= i <= lines.len(),
        scan_lines(lines, i, count, prev) is Ok,
    ensures
        scan_lines(lines, i, count, prev)->Ok_0.0 <= count + lines.len() - i,
    decreases lines.len() - i,
{
    if i < lines.len() {
        let (c, p) = read_line(lines[i], count, prev)->Ok_0;
        lemma_scan_count(lines, i + 1, c, p);
    }
}

/// The appended line reads as the entry at position `n`, whose hash becomes
/// the next `prev`.
proof fn lemma_last_line(e: JsonV, n: nat, p: Seq<char>)
    requires
        reads_back(canon(e)),
        parse_safe(e, 127),
        !newer_version(sort_deep(e)),
        entry_prev(sort_deep(e)) == Some(p),
        n <= i64::MAX,
        entry_seq(sort_deep(e)) == Some(n as i64),
        canon(e).len() > 0,
        trim(canon(e)) == canon(e),
    ensures
        read_line(encode_utf8(canon(e)), n, p) == Ok::<(nat, Seq<char>), LedgerError>(
            (n + 1, digest_label(encode_utf8(canon(e)))),
        ),
{
    broadcast use vstd::utf8::encode_utf8_valid_utf8, vstd::utf8::encode_utf8_decode_utf8;

    let l = encode_utf8(canon(e));
    assert(line_text(l) == canon(e));
    assert(serde_from_str(canon(e)) == Some(sort_deep(e)));
    lemma_canon_sort_deep(e, 127);
}

/// Reading a ledger that ends with an appended entry, where the entry's
/// canonical text reads back: the ledger reads as valid, with the next
/// sequence number after the entry's and the entry's hash as next `prev`.
proof fn lemma_tail_after_append(
    existing: Seq<u8>,
    prefix: Seq<u8>,
    sid: Seq<char>,
    model: Seq<char>,
    in_hash: Seq<char>,
    has_think: bool,
    think: Option<JsonV>,
    has_act: bool,
    act: Option<JsonV>,
    reason: Seq<char>,
    ts: Seq<char>,
)
    requires
        appended_entry(existing, prefix, sid, model, in_hash, has_think, think, has_act, act, reason, ts) is Some,
        forall|k: int|
            0 <= k < byte_lines(existing).len() && valid_utf8(byte_lines(existing)[k])
                && line_text(byte_lines(existing)[k]).len() > 0 ==> reads_back(
                line_text(#[trigger] byte_lines(existing)[k]),
            ),
    ensures
        ({
            let (at, hash) = appended_entry(existing, prefix, sid, model, in_hash, has_think, think, has_act, act, reason, ts)->Some_0;
            at < 0x7fff_ffff_ffff_ffff && ledger_tail(existing) == Ok::<(u64, Seq<char>, nat), LedgerError>(
                ((at + 1) as u64, hash, existing.len()),
            )
        }),
{
    broadcast use vstd::utf8::encode_utf8_valid_utf8, vstd::utf8::encode_utf8_decode_utf8;

    let (seq, prev, keep) = ledger_tail(prefix)->Ok_0;
    let e = entry_model(seq, sid, ts, model, in_hash, has_think, think, has_act, act, reason, prev);
    lemma_entry_members(seq, sid, ts, model, in_hash, has_think, think, has_act, act, reason, prev);
    let c = canon(e);
    let m = match e {
        JsonV::Object(m) => m,
        _ => Seq::empty(),
    };
    assert(c == seq!['{'] + join(object_parts(m)) + seq!['}']);
    assert(c[0] == '{');
    assert(c.last() == '}');
    lemma_safe_floats_printable(e, 127);
    lemma_canon_printable(e);
    lemma_encode_no_control(c);
    let l = encode_utf8(c);
    assert(l.len() > 0) by {
        if l.len() == 0 {
            assert(decode_utf8(l) == c);
        }
    }
    assert(l[l.len() - 1] >= 0x20);
    let body = prefix.take(keep as int);
    lemma_kept_len(prefix);
    assert(existing == body + l.push(10u8));
    assert(body.len() == 0 || body.last() == 10u8) by {
        if body.len() > 0 {
            assert(body.last() == prefix[keep - 1]);
        }
    }
    lemma_byte_lines_append(body, l);
    lemma_kept_len(existing);
    assert(existing.last() == 10u8);
    assert(existing.take(existing.len() as int) =~= existing);
    let pl = byte_lines(body);
    let bl = byte_lines(existing);
    assert(bl == pl.push(l));
    lemma_scan_append(pl, l, 0, 0, genesis_prev());
    assert(prefix.take(keep as int) =~= body);
    let (n, p) = scan_lines(pl, 0, 0, genesis_prev())->Ok_0;
    lemma_scan_count(pl, 0, 0, genesis_prev());
    lemma_lines_count(body, 0, 10u8, 13u8);
    assert(n <= prefix.len());
    assert(seq == n);
    lemma_trim_unchanged(c);
    assert(bl[bl.len() - 1] == l);
    vstd::utf8::encode_utf8_valid_utf8(c);
    vstd::utf8::encode_utf8_decode_utf8(c);
    assert(line_text(l) == c);
    assert(reads_back(c));
    lemma_last_line(e, n, p);
    assert(seq![l][0] == l);
    assert(scan_lines(seq![l], 1, n + 1, digest_label(encode_utf8(c))) == Ok::<(nat, Seq<char>), LedgerError>(
        (n + 1, digest_label(encode_utf8(c))),
    ));
}

/// Once every line has been read, a ledger that ends with an appended entry
/// reads to that entry.
proof fn lemma_chain_links(existing: Seq<u8>, keep: nat, reads: Seq<(bool, bool, Option<Json>)>)
    requires
        keep == kept_len(existing),
        reads.len() == byte_lines(existing.take(keep as int)).len(),
        forall|k: int| 0 <= k < reads.len() ==> line_known(#[trigger] reads[k], byte_lines(existing.take(keep as int))[k]),
    ensures
        links_after_append(existing),
{
    assert forall|
        prefix: Seq<u8>,
        sid: Seq<char>,
        model: Seq<char>,
        in_hash: Seq<char>,
        has_think: bool,
        think: Option<JsonV>,
        has_act: bool,
        act: Option<JsonV>,
        reason: Seq<char>,
        ts: Seq<char>,
    |
        #[trigger] appended_entry(existing, prefix, sid, model, in_hash, has_think, think, has_act, act, reason, ts)
            is Some implies ({
            let (at, hash) = appended_entry(
                existing,
                prefix,
                sid,
                model,
                in_hash,
                has_think,
                think,
                has_act,
                act,
                reason,
                ts,
            )->Some_0;
            at < 0x7fff_ffff_ffff_ffff && ledger_tail(existing) == Ok::<(u64, Seq<char>, nat), LedgerError>(
                ((at + 1) as u64, hash, existing.len()),
            )
        }) by {
        let (line, seq, prev, k) = plan_spec(prefix, sid, model, in_hash, has_think, think, has_act, act, reason, ts)->Ok_0;
        assert(existing == prefix.take(k as int) + line);
        assert(line.last() == 10u8);
        lemma_kept_len(existing);
        assert(existing.last() == 10u8);
        assert(keep == existing.len());
        assert(existing.take(keep as int) =~= existing);
        let bl = byte_lines(existing);
        assert forall|j: int|
            0 <= j < bl.len() && valid_utf8(bl[j]) && line_text(bl[j]).len() > 0 implies reads_back(
            line_text(#[trigger] bl[j]),
        ) by {
            assert(line_known(reads[j], bl[j]));
        }
        lemma_tail_after_append(existing, prefix, sid, model, in_hash, has_think, think, has_act, act, reason, ts);
    }
}

/// A session starts at sequence number 0 with the genesis hash as `prev`,
/// keeping nothing.
pub proof fn law_empty_ledger_starts_at_genesis()
    ensures
        ledger_tail(Seq::empty()) == Ok::<(u64, Seq<char>, nat), LedgerError>((0u64, genesis_prev(), 0nat)),
{
    assert(Seq::<u8>::empty().take(0) =~= Seq::<u8>::empty());
    assert(byte_lines(Seq::<u8>::empty()) == Seq::<Seq<u8>>::empty());
}

} // verus!

verus! {

/// Whether an optional value writes every floating-point number without C0
/// control characters.
pub open spec fn opt_printable(o: Option<JsonV>) -> bool {
    match o {
        Some(v) => floats_printable(v),
        None => true,
    }
}

/// Every entry is one line: the planned line ends with LF, and no other byte
/// of it is LF or CR.
pub proof fn law_entry_is_one_line(
    existing: Seq<u8>,
    sid: Seq<char>,
    model: Seq<char>,
    in_hash: Seq<char>,
    has_think: bool,
    think: Option<JsonV>,
    has_act: bool,
    act: Option<JsonV>,
    reason: Seq<char>,
    ts: Seq<char>,
)
    requires
        plan_spec(existing, sid, model, in_hash, has_think, think, has_act, act, reason, ts) is Ok,
        opt_printable(think),
        opt_printable(act),
    ensures
        ({
            let line = plan_spec(existing, sid, model, in_hash, has_think, think, has_act, act, reason, ts)->Ok_0.0;
            &&& line.len() > 0
            &&& line.last() == 10u8
            &&& forall|j: int| 0 <= j < line.len() - 1 ==> #[trigger] line[j] != 10u8 && line[j] != 13u8
        }),
{
    let (seq, prev, _) = ledger_tail(existing)->Ok_0;
    let e = entry_model(seq, sid, ts, model, in_hash, has_think, think, has_act, act, reason, prev);
    let m = match e {
        JsonV::Object(m) => m,
        _ => Seq::empty(),
    };
    let tm = match m[10].1 {
        JsonV::Object(x) => x,
        _ => Seq::empty(),
    };
    assert forall|i: int| 0 <= i < tm.len() implies floats_printable(#[trigger] tm[i].1) by {
        assert(tm[i].1 is Bool);
    }
    lemma_members_printable_intro(tm);
    assert forall|i: int| 0 <= i < m.len() implies floats_printable(#[trigger] m[i].1) by {}
    lemma_members_printable_intro(m);
    lemma_canon_printable(e);
    lemma_encode_no_control(canon(e));
    let l = encode_utf8(canon(e));
    let line = l.push(10u8);
    assert forall|j: int| 0 <= j < line.len() - 1 implies #[trigger] line[j] != 10u8 && line[j] != 13u8 by {
        assert(line[j] == l[j]);
    }
}

} // verus!

verus! {

/// An entry records the exchange it was made for: the protocol version, its
/// sequence number, session, time stamp, model, input hash, the reasoning
/// and action given (null when none), the text, the previous entry's hash,
/// and which of reasoning and action were given.
pub proof fn law_entry_records_the_exchange(
    seq: u64,
    sid: Seq<char>,
    ts: Seq<char>,
    model: Seq<char>,
    in_hash: Seq<char>,
    has_think: bool,
    think: Option<JsonV>,
    has_act: bool,
    act: Option<JsonV>,
    reason: Seq<char>,
    prev: Seq<char>,
)
    ensures
        ({
            let e = entry_model(seq, sid, ts, model, in_hash, has_think, think, has_act, act, reason, prev);
            &&& get(e, "v"@) == Some(JsonV::Number(NumberV::PosInt(PROTOCOL_VERSION)))
            &&& get(e, "seq"@) == Some(JsonV::Number(NumberV::PosInt(seq)))
            &&& get(e, "sid"@) == Some(JsonV::Str(sid))
            &&& get(e, "ts"@) == Some(JsonV::Str(ts))
            &&& get(e, "model"@) == Some(JsonV::Str(model))
            &&& get(e, "in"@) == Some(JsonV::Str(in_hash))
            &&& get(e, "think"@) == Some(
                match think {
                    Some(t) => t,
                    None => JsonV::Null,
                },
            )
            &&& get(e, "reason"@) == Some(JsonV::Str(reason))
            &&& get(e, "act"@) == Some(
                match act {
                    Some(a) => a,
                    None => JsonV::Null,
                },
            )
            &&& get(e, "prev"@) == Some(JsonV::Str(prev))
            &&& get(field(e, "transparency"@), "think"@) == Some(JsonV::Bool(has_think))
            &&& get(field(e, "transparency"@), "act"@) == Some(JsonV::Bool(has_act))
        }),
{
    reveal_strlit("v");
    reveal_strlit("seq");
    reveal_strlit("sid");
    reveal_strlit("ts");
    reveal_strlit("model");
    reveal_strlit("in");
    reveal_strlit("think");
    reveal_strlit("reason");
    reveal_strlit("act");
    reveal_strlit("prev");
    reveal_strlit("transparency");
    let e = entry_model(seq, sid, ts, model, in_hash, has_think, think, has_act, act, reason, prev);
    let m = match e {
        JsonV::Object(m) => m,
        _ => Seq::empty(),
    };
    let tm = match m[10].1 {
        JsonV::Object(x) => x,
        _ => Seq::empty(),
    };
    assert(distinct_keys(tm)) by {
        assert(tm[0].0[0] != tm[1].0[0]);
    }
    assert(distinct_keys(m)) by {
        assert forall|i: int, j: int| 0 <= i < m.len() && 0 <= j < m.len() && i != j implies m[i].0 != m[j].0 by {
            if m[i].0.len() == m[j].0.len() {
                assert(m[i].0[0] != m[j].0[0] || m[i].0[1] != m[j].0[1]);
            }
        }
    }
    assert forall|k: int| 0 <= k < 11 implies lookup(m, #[trigger] m[k].0) == Some(m[k].1) by {
        assert(m.contains(m[k]));
        lemma_lookup_member(m, m[k].0, m[k].1);
    }
    assert(lookup(m, m[10].0) == Some(m[10].1));
    assert(tm.contains(tm[0]));
    assert(tm.contains(tm[1]));
    lemma_lookup_member(tm, tm[0].0, tm[0].1);
    lemma_lookup_member(tm, tm[1].0, tm[1].1);
}

/// What `prepare_entry` plans for a ledger: refused exactly when the session
/// is not a ULID or the ledger is refused; else the line is the canonical
/// text of an entry (then LF) that records the exchange, carries the next
/// sequence number and the previous entry's hash read from the ledger, and
/// the hash returned is that of the entry itself.
pub proof fn law_plan_records_the_exchange(
    existing: Seq<u8>,
    sid: Seq<char>,
    model: Seq<char>,
    in_hash: Seq<char>,
    has_think: bool,
    think: Option<JsonV>,
    has_act: bool,
    act: Option<JsonV>,
    reason: Seq<char>,
    ts: Seq<char>,
)
    ensures
        !ulid_shape(sid) ==> plan_spec(existing, sid, model, in_hash, has_think, think, has_act, act, reason, ts)
            == Err::<(Seq<u8>, u64, Seq<char>, nat), LedgerError>(LedgerError::InvalidSession),
        ulid_shape(sid) && ledger_tail(existing) is Err ==> plan_spec(
            existing,
            sid,
            model,
            in_hash,
            has_think,
            think,
            has_act,
            act,
            reason,
            ts,
        ) == Err::<(Seq<u8>, u64, Seq<char>, nat), LedgerError>(ledger_tail(existing)->Err_0),
        ulid_shape(sid) && ledger_tail(existing) is Ok ==> ({
            let (next, prev, keep) = ledger_tail(existing)->Ok_0;
            let (line, seq, hash, kept) = plan_spec(
                existing,
                sid,
                model,
                in_hash,
                has_think,
                think,
                has_act,
                act,
                reason,
                ts,
            )->Ok_0;
            &&& plan_spec(existing, sid, model, in_hash, has_think, think, has_act, act, reason, ts) is Ok
            &&& seq == next
            &&& kept == keep
            &&& exists|e: JsonV|
                #![trigger canon(e)]
                line == encode_utf8(canon(e)).push(10u8) && hash == digest_label(encode_utf8(canon(e)))
                    && get(e, "seq"@) == Some(JsonV::Number(NumberV::PosInt(next)))
                    && get(e, "prev"@) == Some(JsonV::Str(prev))
                    && get(e, "sid"@) == Some(JsonV::Str(sid))
                    && get(e, "ts"@) == Some(JsonV::Str(ts))
                    && get(e, "model"@) == Some(JsonV::Str(model))
                    && get(e, "in"@) == Some(JsonV::Str(in_hash))
                    && get(e, "reason"@) == Some(JsonV::Str(reason))
                    && get(e, "think"@) == Some(
                    match think {
                        Some(t) => t,
                        None => JsonV::Null,
                    },
                ) && get(e, "act"@) == Some(
                    match act {
                        Some(a) => a,
                        None => JsonV::Null,
                    },
                ) && get(field(e, "transparency"@), "think"@) == Some(JsonV::Bool(has_think))
                    && get(field(e, "transparency"@), "act"@) == Some(JsonV::Bool(has_act))
        }),
{
    if ulid_shape(sid) && ledger_tail(existing) is Ok {
        let (next, prev, keep) = ledger_tail(existing)->Ok_0;
        let e = entry_model(next, sid, ts, model, in_hash, has_think, think, has_act, act, reason, prev);
        law_entry_records_the_exchange(next, sid, ts, model, in_hash, has_think, think, has_act, act, reason, prev);
        assert(canon(e) == canon(e));
    }
}

} // verus!

verus! {

/// The kept part of a ledger ends at its last LF: it is empty or ends with
/// LF, and no LF follows it; a ledger that ends with LF is kept whole.
pub proof fn law_torn_tail_is_dropped(b: Seq<u8>)
    ensures
        kept_len(b) <= b.len(),
        kept_len(b) == 0 || b[kept_len(b) - 1] == 10u8,
        forall|j: int| kept_len(b) <= j < b.len() ==> #[trigger] b[j] != 10u8,
        b.len() > 0 && b.last() == 10u8 ==> kept_len(b) == b.len(),
    decreases b.len(),
{
    if b.len() > 0 && b.last() != 10u8 {
        law_torn_tail_is_dropped(b.drop_last());
        assert forall|j: int| kept_len(b) <= j < b.len() implies #[trigger] b[j] != 10u8 by {
            if j < b.len() - 1 {
                assert(b[j] == b.drop_last()[j]);
            }
        }
    }
}

/// Reading an entry at position `count` after an entry hashing to `prev`:
/// an entry of a newer version is refused as such; else it is accepted
/// exactly when its `seq` is `count` and its `prev` is `prev`, and then the
/// next position is `count + 1` and the next `prev` the hash of its
/// canonical text; else the chain is broken at `count`.
pub proof fn law_read_entry(e: JsonV, count: nat, prev: Seq<char>)
    ensures
        ({
            let newer = get(e, "v"@) matches Some(JsonV::Number(NumberV::PosInt(u))) && u > PROTOCOL_VERSION;
            let seq_ok = count <= i64::MAX && (get(e, "seq"@) == Some(JsonV::Number(NumberV::PosInt(count as u64)))
                || get(e, "seq"@) == Some(JsonV::Number(NumberV::NegInt(count as i64))));
            let prev_ok = get(e, "prev"@) == Some(JsonV::Str(prev));
            &&& newer ==> read_entry(e, count, prev) == Err::<(nat, Seq<char>), LedgerError>(
                LedgerError::NewerVersion(count as u64),
            )
            &&& !newer && seq_ok && prev_ok ==> read_entry(e, count, prev) == Ok::<(nat, Seq<char>), LedgerError>(
                (count + 1, digest_label(encode_utf8(canon(e)))),
            )
            &&& !newer && !(seq_ok && prev_ok) ==> read_entry(e, count, prev) == Err::<(nat, Seq<char>), LedgerError>(
                LedgerError::BrokenChain(count as u64),
            )
        }),
{
}

/// Reading a line: bytes that are not UTF-8 are refused; a blank line is
/// skipped; a line that is not JSON is unreadable at its position; any
/// other is read as an entry.
pub proof fn law_read_line(line: Seq<u8>, count: nat, prev: Seq<char>)
    ensures
        !valid_utf8(line) ==> read_line(line, count, prev) == Err::<(nat, Seq<char>), LedgerError>(
            LedgerError::InvalidUtf8,
        ),
        valid_utf8(line) && trim(decode_utf8(line)).len() == 0 ==> read_line(line, count, prev) == Ok::<
            (nat, Seq<char>),
            LedgerError,
        >((count, prev)),
        valid_utf8(line) && trim(decode_utf8(line)).len() > 0 && serde_from_str(trim(decode_utf8(line))) is None
            ==> read_line(line, count, prev) == Err::<(nat, Seq<char>), LedgerError>(
            LedgerError::Unreadable(count as u64),
        ),
        valid_utf8(line) && trim(decode_utf8(line)).len() > 0 && serde_from_str(trim(decode_utf8(line))) is Some
            ==> read_line(line, count, prev) == read_entry(serde_from_str(trim(decode_utf8(line)))->0, count, prev),
{
}

/// The genesis hash is `sha256:` followed by 64 zeros.
pub proof fn law_genesis_is_zeros()
    ensures
        genesis_prev().len() == 71,
        genesis_prev().subrange(0, 7) == seq!['s', 'h', 'a', '2', '5', '6', ':'],
        forall|i: int| 7 <= i < 71 ==> #[trigger] genesis_prev()[i] == '0',
{
    assert(genesis_prev().subrange(0, 7) =~= seq!['s', 'h', 'a', '2', '5', '6', ':']);
}

} // verus!
