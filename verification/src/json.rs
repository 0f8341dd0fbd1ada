//! JSON values and their mathematical model.
use vstd::prelude::*;
use vstd::string::StringExecFns;
use crate::jcs::{canon, parse_safe, sort_deep};
use serde_json::{Number, Value};

verus! {

/// A JSON number, kept as the parser reports it: a non-negative integer,
/// a negative integer, or a floating-point number kept as its decimal text.
#[derive(Debug, Clone, PartialEq)]
pub enum JsonNumber {
    PosInt(u64),
    NegInt(i64),
    Float(String),
}

/// A JSON value. Object members keep the order in which they were given.
#[derive(Debug, PartialEq)]
pub enum Json {
    Null,
    Bool(bool),
    Number(JsonNumber),
    Str(String),
    Array(Vec<Json>),
    Object(Vec<(String, Json)>),
}

/// The model of a JSON number.
pub enum NumberV {
    PosInt(u64),
    NegInt(i64),
    Float(Seq<char>),
}

/// The model of a JSON value: strings are sequences of characters.
pub enum JsonV {
    Null,
    Bool(bool),
    Number(NumberV),
    Str(Seq<char>),
    Array(Seq<JsonV>),
    Object(Seq<(Seq<char>, JsonV)>),
}

impl View for JsonNumber {
    type V = NumberV;

    open spec fn view(&self) -> NumberV {
        match self {
            JsonNumber::PosInt(u) => NumberV::PosInt(*u),
            JsonNumber::NegInt(i) => NumberV::NegInt(*i),
            JsonNumber::Float(t) => NumberV::Float(t@),
        }
    }
}

pub open spec fn json_view(j: Json) -> JsonV
    decreases j,
{
    match j {
        Json::Null => JsonV::Null,
        Json::Bool(b) => JsonV::Bool(b),
        Json::Number(n) => JsonV::Number(n@),
        Json::Str(s) => JsonV::Str(s@),
        Json::Array(a) => JsonV::Array(
            Seq::new(
                a@.len(),
                |i: int|
                    {
                        if 0 <= i < a@.len() {
                            proof {
                                assert(decreases_to!(a => a@));
                                assert(decreases_to!(a@ => a@[i]));
                            }
                            json_view(a@[i])
                        } else {
                            JsonV::Null
                        }
                    },
            ),
        ),
        Json::Object(m) => JsonV::Object(
            Seq::new(
                m@.len(),
                |i: int|
                    {
                        if 0 <= i < m@.len() {
                            proof {
                                assert(decreases_to!(m => m@));
                                assert(decreases_to!(m@ => m@[i]));
                                assert(decreases_to!(m@[i] => m@[i].1));
                            }
                            (m@[i].0@, json_view(m@[i].1))
                        } else {
                            (Seq::empty(), JsonV::Null)
                        }
                    },
            ),
        ),
    }
}

impl View for Json {
    type V = JsonV;

    open spec fn view(&self) -> JsonV {
        json_view(*self)
    }
}

} // verus!

verus! {

/// The member value stored under `key` (the first one, if the key repeats).
pub open spec fn lookup(m: Seq<(Seq<char>, JsonV)>, key: Seq<char>) -> Option<JsonV>
    decreases m.len(),
{
    if m.len() == 0 {
        None
    } else if m[0].0 == key {
        Some(m[0].1)
    } else {
        lookup(m.drop_first(), key)
    }
}

/// `v.get(key)`: the member of an object under `key`; nothing for other values.
pub open spec fn get(v: JsonV, key: Seq<char>) -> Option<JsonV> {
    match v {
        JsonV::Object(m) => lookup(m, key),
        _ => None,
    }
}

/// `v[key]`: the member under `key`, or null.
pub open spec fn field(v: JsonV, key: Seq<char>) -> JsonV {
    match get(v, key) {
        Some(x) => x,
        None => JsonV::Null,
    }
}

/// `v[i]`: the `i`-th element of an array, or null.
pub open spec fn item(v: JsonV, i: int) -> JsonV {
    match v {
        JsonV::Array(a) => if 0 <= i < a.len() {
            a[i]
        } else {
            JsonV::Null
        },
        _ => JsonV::Null,
    }
}

/// `v.as_str()`.
pub open spec fn as_str(v: JsonV) -> Option<Seq<char>> {
    match v {
        JsonV::Str(s) => Some(s),
        _ => None,
    }
}

/// `v.as_bool()`.
pub open spec fn as_bool(v: JsonV) -> Option<bool> {
    match v {
        JsonV::Bool(b) => Some(b),
        _ => None,
    }
}

/// `v.as_array()`.
pub open spec fn as_array(v: JsonV) -> Option<Seq<JsonV>> {
    match v {
        JsonV::Array(a) => Some(a),
        _ => None,
    }
}

/// `v.as_u64()`: non-negative integers only.
pub open spec fn as_u64(v: JsonV) -> Option<u64> {
    match v {
        JsonV::Number(NumberV::PosInt(u)) => Some(u),
        _ => None,
    }
}

/// `v.as_i64()`: integers that fit in `i64`.
pub open spec fn as_i64(v: JsonV) -> Option<i64> {
    match v {
        JsonV::Number(NumberV::PosInt(u)) => if u <= i64::MAX {
            Some(u as i64)
        } else {
            None
        },
        JsonV::Number(NumberV::NegInt(i)) => Some(i),
        _ => None,
    }
}

/// The value a possibly missing reference stands for: null when missing.
pub open spec fn or_null(o: Option<&Json>) -> JsonV {
    match o {
        Some(j) => j@,
        None => JsonV::Null,
    }
}

/// The model of an optional value.
pub open spec fn opt_view(o: Option<Json>) -> Option<JsonV> {
    match o {
        Some(j) => Some(j@),
        None => None,
    }
}

/// The model of an array, element by element.
pub proof fn lemma_array_view(a: Vec<Json>)
    ensures
        Json::Array(a)@ == JsonV::Array(Seq::new(a@.len(), |i: int| a@[i]@)),
{
    let x = match Json::Array(a)@ {
        JsonV::Array(x) => x,
        _ => Seq::empty(),
    };
    assert(x =~= Seq::new(a@.len(), |i: int| a@[i]@));
}

/// The model of an object, member by member.
pub proof fn lemma_object_view(m: Vec<(String, Json)>)
    ensures
        Json::Object(m)@ == JsonV::Object(Seq::new(m@.len(), |i: int| (m@[i].0@, m@[i].1@))),
{
    let x = match Json::Object(m)@ {
        JsonV::Object(x) => x,
        _ => Seq::empty(),
    };
    assert(x =~= Seq::new(m@.len(), |i: int| (m@[i].0@, m@[i].1@)));
}

impl Json {
    /// A deep copy.
    pub fn deep_clone(&self) -> (out: Json)
        ensures
            out@ == self@,
        decreases self,
    {
        match self {
            Json::Null => Json::Null,
            Json::Bool(b) => Json::Bool(*b),
            Json::Number(n) => Json::Number(
                match n {
                    JsonNumber::PosInt(u) => JsonNumber::PosInt(*u),
                    JsonNumber::NegInt(i) => JsonNumber::NegInt(*i),
                    JsonNumber::Float(t) => JsonNumber::Float(t.clone()),
                },
            ),
            Json::Str(s) => Json::Str(s.clone()),
            Json::Array(a) => {
                let mut out: Vec<Json> = Vec::new();
                let mut i: usize = 0;
                while i < a.len()
                    invariant
                        i <= a@.len(),
                        *self == Json::Array(*a),
                        out@.len() == i,
                        forall|t: int| 0 <= t < i ==> (#[trigger] out@[t])@ == a@[t]@,
                    decreases a@.len() - i,
                {
                    proof {
                        assert(decreases_to!(*self => (*self)->Array_0));
                        assert(decreases_to!(*a => a@));
                        assert(decreases_to!(a@ => a@[i as int]));
                    }
                    let c = a[i].deep_clone();
                    out.push(c);
                    i = i + 1;
                }
                proof {
                    lemma_array_view(out);
                    lemma_array_view(*a);
                    assert(Seq::new(out@.len(), |i: int| out@[i]@) =~= Seq::new(a@.len(), |i: int| a@[i]@));
                }
                Json::Array(out)
            },
            Json::Object(m) => {
                let mut out: Vec<(String, Json)> = Vec::new();
                let mut i: usize = 0;
                while i < m.len()
                    invariant
                        i <= m@.len(),
                        *self == Json::Object(*m),
                        out@.len() == i,
                        forall|t: int|
                            0 <= t < i ==> (#[trigger] out@[t]).0@ == m@[t].0@ && out@[t].1@
                                == m@[t].1@,
                    decreases m@.len() - i,
                {
                    proof {
                        assert(decreases_to!(*self => (*self)->Object_0));
                        assert(decreases_to!(*m => m@));
                        assert(decreases_to!(m@ => m@[i as int]));
                        assert(decreases_to!(m@[i as int] => m@[i as int].1));
                    }
                    let k = m[i].0.clone();
                    let c = m[i].1.deep_clone();
                    out.push((k, c));
                    i = i + 1;
                }
                proof {
                    lemma_object_view(out);
                    lemma_object_view(*m);
                    assert(Seq::new(out@.len(), |i: int| (out@[i].0@, out@[i].1@)) =~= Seq::new(
                        m@.len(),
                        |i: int| (m@[i].0@, m@[i].1@),
                    ));
                }
                Json::Object(out)
            },
        }
    }

    /// Whether this is `null`.
    pub fn is_null(&self) -> (b: bool)
        ensures
            b == (self@ == JsonV::Null),
    {
        match self {
            Json::Null => true,
            _ => false,
        }
    }

    /// The text of a string value.
    pub fn as_str(&self) -> (s: Option<&str>)
        ensures
            match s {
                Some(t) => as_str(self@) == Some(t@),
                None => as_str(self@) is None,
            },
    {
        match self {
            Json::Str(t) => Some(t.as_str()),
            _ => None,
        }
    }

    /// The value of a boolean.
    pub fn as_bool(&self) -> (b: Option<bool>)
        ensures
            b == as_bool(self@),
    {
        match self {
            Json::Bool(x) => Some(*x),
            _ => None,
        }
    }

    /// The value of a non-negative integer.
    pub fn as_u64(&self) -> (u: Option<u64>)
        ensures
            u == as_u64(self@),
    {
        match self {
            Json::Number(JsonNumber::PosInt(x)) => Some(*x),
            _ => None,
        }
    }

    /// The value of an integer that fits in `i64`.
    pub fn as_i64(&self) -> (u: Option<i64>)
        ensures
            u == as_i64(self@),
    {
        match self {
            Json::Number(JsonNumber::PosInt(x)) => if *x <= 0x7fff_ffff_ffff_ffff {
                Some(*x as i64)
            } else {
                None
            },
            Json::Number(JsonNumber::NegInt(x)) => Some(*x),
            _ => None,
        }
    }

    /// The elements of an array.
    pub fn as_array(&self) -> (a: Option<&Vec<Json>>)
        ensures
            match a {
                Some(v) => self@ == JsonV::Array(Seq::new(v@.len(), |i: int| v@[i]@)),
                None => as_array(self@) is None,
            },
    {
        match self {
            Json::Array(v) => {
                proof {
                    lemma_array_view(*v);
                }
                Some(v)
            },
            _ => None,
        }
    }

    /// The member under `key`, if this is an object that has one.
    pub fn get(&self, key: &str) -> (r: Option<&Json>)
        ensures
            match r {
                Some(x) => get(self@, key@) == Some(x@),
                None => get(self@, key@) is None,
            },
    {
        match self {
            Json::Object(m) => {
                let ghost mv = match self@ {
                    JsonV::Object(x) => x,
                    _ => Seq::empty(),
                };
                assert(forall|t: int|
                    0 <= t < m@.len() ==> mv[t] == (#[trigger] m@[t].0@, m@[t].1@));
                let k = String::from_str(key);
                let mut i: usize = 0;
                assert(mv.skip(0) =~= mv);
                while i < m.len()
                    invariant
                        i <= m@.len(),
                        mv.len() == m@.len(),
                        k@ == key@,
                        get(self@, key@) == lookup(mv, key@),
                        forall|t: int|
                            0 <= t < m@.len() ==> mv[t] == (#[trigger] m@[t].0@, m@[t].1@),
                        lookup(mv, key@) == lookup(mv.skip(i as int), key@),
                    decreases m@.len() - i,
                {
                    if m[i].0 == k {
                        assert(mv.skip(i as int)[0] == mv[i as int]);
                        return Some(&m[i].1);
                    }
                    assert(mv.skip(i as int).drop_first() =~= mv.skip(i + 1));
                    i = i + 1;
                }
                None
            },
            _ => None,
        }
    }
}

/// `o[key]` on a possibly missing value (missing stands for null).
pub fn field_of<'a>(o: Option<&'a Json>, key: &str) -> (r: Option<&'a Json>)
    ensures
        or_null(r) == field(or_null(o), key@),
{
    match o {
        Some(v) => v.get(key),
        None => None,
    }
}

/// `o[i]` on a possibly missing value (missing stands for null).
pub fn item_of<'a>(o: Option<&'a Json>, i: usize) -> (r: Option<&'a Json>)
    ensures
        or_null(r) == item(or_null(o), i as int),
{
    match o {
        Some(Json::Array(a)) => {
            if i < a.len() {
                Some(&a[i])
            } else {
                None
            }
        },
        _ => None,
    }
}

} // verus!

verus! {

#[verifier::external_type_specification]
#[verifier::external_body]
pub struct ExSerdeValue(serde_json::Value);

/// What `serde_json::from_slice::<serde_json::Value>` yields for these bytes,
/// as a model; `None` where it refuses them.
pub uninterp spec fn serde_from_slice(bytes: Seq<u8>) -> Option<JsonV>;

/// What `serde_json::from_str::<serde_json::Value>` yields for this text,
/// as a model; `None` where it refuses it.
pub uninterp spec fn serde_from_str(text: Seq<char>) -> Option<JsonV>;

/// Moves a parsed `serde_json::Value` into a `Json`, variant by variant; a
/// number keeps what `as_u64`, `as_i64` and `to_string` report of it. Nothing
/// is claimed of it: the parsing wrappers below carry the claims.
#[verifier::external_body]
fn json_from_serde(value: Value) -> Json {
    match value {
        Value::Null => Json::Null,
        Value::Bool(b) => Json::Bool(b),
        Value::Number(n) => Json::Number(match (n.as_u64(), n.as_i64()) {
            (Some(u), _) => JsonNumber::PosInt(u),
            (None, Some(i)) => JsonNumber::NegInt(i),
            (None, None) => JsonNumber::Float(n.to_string()),
        }),
        Value::String(s) => Json::Str(s),
        Value::Array(a) => Json::Array(a.into_iter().map(json_from_serde).collect()),
        Value::Object(m) => Json::Object(
            m.into_iter().map(|(k, v)| (k, json_from_serde(v))).collect(),
        ),
    }
}

/// Parses JSON bytes with `serde_json::from_slice`. Claims only that the
/// result is the one `serde_from_slice` names for these bytes.
#[verifier::external_body]
pub(crate) fn parse_json_slice(bytes: &[u8]) -> (parsed: Option<Json>)
    ensures
        opt_view(parsed) == serde_from_slice(bytes@),
{
    serde_json::from_slice::<serde_json::Value>(bytes).ok().map(json_from_serde)
}

/// Parses JSON text with `serde_json::from_str`. Claims that the result is
/// the one `serde_from_str` names for this text; and that the canonical text
/// of a value reads back as that value with every object's members in
/// code-point key order (a `serde_json` map is a `BTreeMap`) and every
/// floating-point number as its own canonical text reads back alone (a number
/// is parsed the same way wherever it stands), where the value writes
/// negative integers only as `NegInt`, repeats no key, has floats whose
/// canonical text reads back as a number, and nests at most 127 arrays and
/// objects (`serde_json` refuses a 128th level).
#[verifier::external_body]
pub(crate) fn parse_json_str(text: &str) -> (parsed: Option<Json>)
    ensures
        opt_view(parsed) == serde_from_str(text@),
        forall|v: JsonV|
            parse_safe(v, 127) && #[trigger] canon(v) == text@ ==> opt_view(parsed) == Some(sort_deep(v)),
{
    serde_json::from_str::<serde_json::Value>(text).ok().map(json_from_serde)
}

} // verus!

verus! {

/// What `serde_json::Value::to_string` writes for a value: compact JSON text.
pub uninterp spec fn serde_text_spec(v: JsonV) -> Seq<char>;

/// Moves a `Json` into a `serde_json::Value`, variant by variant; a float
/// goes back through `serde_json::Number`'s `FromStr` (null where its text
/// does not parse, which a text `serde_json` wrote never does). Nothing is
/// claimed of it: `serde_text` carries the claim.
#[verifier::external_body]
fn json_to_serde(v: &Json) -> Value {
    match v {
        Json::Null => Value::Null,
        Json::Bool(b) => Value::Bool(*b),
        Json::Number(JsonNumber::PosInt(u)) => Value::from(*u),
        Json::Number(JsonNumber::NegInt(i)) => Value::from(*i),
        Json::Number(JsonNumber::Float(t)) => t.parse::<Number>().map_or(Value::Null, Value::Number),
        Json::Str(s) => Value::String(s.clone()),
        Json::Array(a) => Value::Array(a.iter().map(json_to_serde).collect()),
        Json::Object(m) => Value::Object(
            m.iter().map(|(k, x)| (k.clone(), json_to_serde(x))).collect(),
        ),
    }
}

/// The text `serde_json::Value::to_string` writes for a value (compact JSON).
/// Claims only that it is the text `serde_text_spec` names for the value.
#[verifier::external_body]
pub(crate) fn serde_text(v: &Json) -> (text: String)
    ensures
        text@ == serde_text_spec(v@),
{
    json_to_serde(v).to_string()
}

} // verus!
