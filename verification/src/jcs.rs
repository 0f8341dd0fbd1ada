//! RFC 8785 (JCS) canonical form of JSON values: object members sorted by key,
//! no insignificant whitespace, strings escaped in the one mandated way.
use vstd::prelude::*;
use crate::json::{json_view, lookup, serde_from_str, Json, JsonNumber, JsonV, NumberV};
use crate::number::{float_text, push_float_text};
use vstd::utf8::encode_utf8;
use vstd::slice::slice_to_vec;
use crate::text::{chars_of, push_char};


verus! {

/// Lower-case hexadecimal digit for `d` in `0..16`.
pub open spec fn hex_digit(d: int) -> char {
    if d < 10 {
        (48 + d) as char
    } else {
        (87 + d) as char
    }
}

/// The escaped form of one character inside a JSON string.
pub open spec fn escape_char(c: char) -> Seq<char> {
    if c == '\\' {
        seq!['\\', '\\']
    } else if c == '"' {
        seq!['\\', '"']
    } else if c == '\x08' {
        seq!['\\', 'b']
    } else if c == '\x0C' {
        seq!['\\', 'f']
    } else if c == '\n' {
        seq!['\\', 'n']
    } else if c == '\r' {
        seq!['\\', 'r']
    } else if c == '\t' {
        seq!['\\', 't']
    } else if (c as u32) < 0x20 {
        seq!['\\', 'u', '0', '0', hex_digit((c as u32) as int / 16), hex_digit((c as u32) as int % 16)]
    } else {
        seq![c]
    }
}

/// The escaped form of a character sequence.
pub open spec fn escape(s: Seq<char>) -> Seq<char>
    decreases s.len(),
{
    if s.len() == 0 {
        Seq::empty()
    } else {
        escape(s.drop_last()) + escape_char(s.last())
    }
}

/// A JSON string literal: the escaped characters between double quotes.
pub open spec fn quote(s: Seq<char>) -> Seq<char> {
    seq!['"'] + escape(s) + seq!['"']
}

/// The decimal digit character for `d` in `0..10`.
pub open spec fn digit_char(d: int) -> char {
    (48 + d) as char
}

/// The decimal representation of `n`, without leading zeros.
pub open spec fn decimal(n: nat) -> Seq<char>
    decreases n,
{
    if n < 10 {
        seq![digit_char(n as int)]
    } else {
        decimal(n / 10).push(digit_char((n % 10) as int))
    }
}

/// The text of a JSON number.
pub open spec fn number_text(n: NumberV) -> Seq<char> {
    match n {
        NumberV::PosInt(u) => decimal(u as nat),
        NumberV::NegInt(i) => if i < 0 {
            seq!['-'] + decimal((-i) as nat)
        } else {
            decimal(i as nat)
        },
        NumberV::Float(t) => float_text(t),
    }
}

/// Parts joined by commas.
pub open spec fn join(parts: Seq<Seq<char>>) -> Seq<char>
    decreases parts.len(),
{
    if parts.len() == 0 {
        Seq::empty()
    } else if parts.len() == 1 {
        parts[0]
    } else {
        join(parts.drop_last()) + seq![','] + parts.last()
    }
}

/// The rank of a character in an order of keys: its code point; in UTF-16
/// order, characters from U+E000 to U+FFFF rank above all others, since their
/// one code unit exceeds the surrogates that begin a supplementary character.
pub open spec fn char_rank(utf16: bool, c: char) -> int {
    if utf16 && 0xE000 <= (c as u32) <= 0xFFFF {
        (c as u32) + 0x110000
    } else {
        c as u32 as int
    }
}

/// Strict lexicographic order of keys: by UTF-16 code units (the canonical
/// order of object members), or by code point (the byte order of their
/// UTF-8 encodings).
pub open spec fn key_order(utf16: bool, a: Seq<char>, b: Seq<char>) -> bool
    decreases a.len(),
{
    if a.len() == 0 {
        b.len() > 0
    } else if b.len() == 0 {
        false
    } else if a[0] != b[0] {
        char_rank(utf16, a[0]) < char_rank(utf16, b[0])
    } else {
        key_order(utf16, a.drop_first(), b.drop_first())
    }
}

/// Strict lexicographic order of keys by code point, which is also the
/// byte order of their UTF-8 encodings.
pub open spec fn key_lt(a: Seq<char>, b: Seq<char>) -> bool {
    key_order(false, a, b)
}

/// Inserts index `j` into `order` after every index whose key is not
/// greater than `keys[j]` at its end (stable insertion).
pub open spec fn insert_index(u: bool, order: Seq<int>, j: int, keys: Seq<Seq<char>>) -> Seq<int>
    decreases order.len(),
{
    if order.len() == 0 {
        seq![j]
    } else if !key_order(u, keys[j], keys[order.last()]) {
        order.push(j)
    } else {
        insert_index(u, order.drop_last(), j, keys).push(order.last())
    }
}

/// The stable order of the first `n` indices sorted by key.
pub open spec fn sort_order(u: bool, keys: Seq<Seq<char>>, n: nat) -> Seq<int>
    decreases n,
{
    if n == 0 {
        Seq::empty()
    } else {
        insert_index(u, sort_order(u, keys, (n - 1) as nat), n - 1, keys)
    }
}

/// The keys of object members.
pub open spec fn keys_of(m: Seq<(Seq<char>, JsonV)>) -> Seq<Seq<char>> {
    Seq::new(m.len(), |i: int| m[i].0)
}

/// The members of an object in key order (stable for equal keys).
pub open spec fn sorted_members(u: bool, m: Seq<(Seq<char>, JsonV)>) -> Seq<(Seq<char>, JsonV)> {
    let order = sort_order(u, keys_of(m), m.len());
    Seq::new(order.len(), |k: int| m[order[k]])
}

/// The canonical text of a JSON value.
pub open spec fn canon(v: JsonV) -> Seq<char>
    decreases v,
{
    match v {
        JsonV::Null => seq!['n', 'u', 'l', 'l'],
        JsonV::Bool(b) => if b {
            seq!['t', 'r', 'u', 'e']
        } else {
            seq!['f', 'a', 'l', 's', 'e']
        },
        JsonV::Number(n) => number_text(n),
        JsonV::Str(s) => quote(s),
        JsonV::Array(a) => seq!['['] + join(array_parts(a)) + seq![']'],
        JsonV::Object(m) => seq!['{'] + join(object_parts(m)) + seq!['}'],
    }
}

/// The canonical texts of array elements.
pub open spec fn array_parts(a: Seq<JsonV>) -> Seq<Seq<char>>
    decreases a,
{
    Seq::new(
        a.len(),
        |i: int|
            if 0 <= i < a.len() {
                proof {
                    assert(decreases_to!(a => a[i]));
                }
                canon(a[i])
            } else {
                Seq::empty()
            },
    )
}

/// The canonical texts `"key":value` of object members, in key order.
pub open spec fn object_parts(m: Seq<(Seq<char>, JsonV)>) -> Seq<Seq<char>>
    decreases m,
{
    let order = sort_order(true, keys_of(m), m.len());
    Seq::new(
        order.len(),
        |k: int|
            if 0 <= k < order.len() && 0 <= order[k] < m.len() {
                proof {
                    assert(decreases_to!(m => m[order[k]]));
                    assert(decreases_to!(m[order[k]] => m[order[k]].1));
                }
                quote(m[order[k]].0) + seq![':'] + canon(m[order[k]].1)
            } else {
                Seq::empty()
            },
    )
}

} // verus!

verus! {

/// The lower-case hexadecimal digit for `d < 16`.
fn hex_digit_exec(d: u32) -> (c: char)
    requires
        d < 16,
    ensures
        c == hex_digit(d as int),
{
    if d < 10 {
        ((48 + d) as u8) as char
    } else {
        ((87 + d) as u8) as char
    }
}

/// Appends the escaped form of `c`.
fn push_escaped(out: &mut String, c: char)
    ensures
        final(out)@ == old(out)@ + escape_char(c),
{
    if c == '\\' {
        push_char(out, '\\');
        push_char(out, '\\');
    } else if c == '"' {
        push_char(out, '\\');
        push_char(out, '"');
    } else if c == '\x08' {
        push_char(out, '\\');
        push_char(out, 'b');
    } else if c == '\x0C' {
        push_char(out, '\\');
        push_char(out, 'f');
    } else if c == '\n' {
        push_char(out, '\\');
        push_char(out, 'n');
    } else if c == '\r' {
        push_char(out, '\\');
        push_char(out, 'r');
    } else if c == '\t' {
        push_char(out, '\\');
        push_char(out, 't');
    } else if (c as u32) < 0x20 {
        push_char(out, '\\');
        push_char(out, 'u');
        push_char(out, '0');
        push_char(out, '0');
        push_char(out, hex_digit_exec((c as u32) / 16));
        push_char(out, hex_digit_exec((c as u32) % 16));
    } else {
        push_char(out, c);
    }
    assert(final(out)@ =~= old(out)@ + escape_char(c));
}

/// Appends the JSON string literal of `s`.
pub fn push_quoted(out: &mut String, s: &str)
    ensures
        final(out)@ == old(out)@ + quote(s@),
{
    let ghost start = out@;
    let cs = chars_of(s);
    push_char(out, '"');
    let mut i: usize = 0;
    while i < cs.len()
        invariant
            i <= cs@.len(),
            cs@ == s@,
            out@ == start + seq!['"'] + escape(cs@.take(i as int)),
        decreases cs@.len() - i,
    {
        push_escaped(out, cs[i]);
        assert(cs@.take(i + 1).drop_last() =~= cs@.take(i as int));
        i = i + 1;
    }
    assert(cs@.take(cs@.len() as int) =~= cs@);
    push_char(out, '"');
    assert(out@ =~= start + quote(s@));
}

/// The JSON string literal of `s`: double quotes around its characters, with
/// backslash, double quote and the C0 control characters escaped.
pub fn emit_str(s: &str) -> (out: String)
    ensures
        out@ == quote(s@),
{
    let mut out = String::new();
    push_quoted(&mut out, s);
    assert(out@ =~= quote(s@));
    out
}

} // verus!

verus! {

/// Appends the decimal representation of `n`.
pub fn push_decimal(out: &mut String, n: u64)
    ensures
        final(out)@ == old(out)@ + decimal(n as nat),
    decreases n,
{
    let ghost start = out@;
    if n >= 10 {
        push_decimal(out, n / 10);
    }
    push_char(out, ((48 + n % 10) as u8) as char);
    assert(out@ =~= start + decimal(n as nat));
}

/// Appends the text of a JSON number.
fn push_number(out: &mut String, n: &JsonNumber)
    ensures
        final(out)@ == old(out)@ + number_text(n@),
{
    let ghost start = out@;
    match n {
        JsonNumber::PosInt(u) => {
            push_decimal(out, *u);
        },
        JsonNumber::NegInt(i) => {
            if *i < 0 {
                push_char(out, '-');
                let magnitude: u64 = ((-(*i + 1)) as u64) + 1;
                push_decimal(out, magnitude);
            } else {
                push_decimal(out, *i as u64);
            }
        },
        JsonNumber::Float(t) => {
            push_float_text(out, t.as_str());
        },
    }
    assert(out@ =~= start + number_text(n@));
}

proof fn lemma_join_take(p: Seq<Seq<char>>, i: int)
    requires
        0 <= i < p.len(),
    ensures
        join(p.take(i + 1)) == if i == 0 {
            p[0]
        } else {
            join(p.take(i)) + seq![','] + p[i]
        },
{
    assert(p.take(i + 1).drop_last() =~= p.take(i));
    if i == 0 {
        assert(p.take(1).len() == 1);
    }
}

/// Whether key `a` sorts strictly before key `b`.
pub fn key_lt_exec(a: &Vec<char>, b: &Vec<char>) -> (lt: bool)
    ensures
        lt == key_lt(a@, b@),
{
    let mut i: usize = 0;
    assert(a@.skip(0) =~= a@);
    assert(b@.skip(0) =~= b@);
    while i < a.len() && i < b.len()
        invariant
            i <= a@.len(),
            i <= b@.len(),
            key_lt(a@, b@) == key_lt(a@.skip(i as int), b@.skip(i as int)),
        decreases a@.len() - i,
    {
        if a[i] != b[i] {
            return (a[i] as u32) < (b[i] as u32);
        }
        assert(a@.skip(i as int).drop_first() =~= a@.skip(i + 1));
        assert(b@.skip(i as int).drop_first() =~= b@.skip(i + 1));
        i = i + 1;
    }
    i == a.len() && i < b.len()
}

/// The rank of a character in UTF-16 order (see `char_rank`).
fn utf16_rank(c: char) -> (r: u32)
    ensures
        r == char_rank(true, c),
{
    let u = c as u32;
    if 0xE000 <= u && u <= 0xFFFF {
        u + 0x110000
    } else {
        u
    }
}

/// Whether key `a` sorts strictly before key `b` by UTF-16 code units.
pub fn utf16_key_lt(a: &Vec<char>, b: &Vec<char>) -> (lt: bool)
    ensures
        lt == key_order(true, a@, b@),
{
    let mut i: usize = 0;
    assert(a@.skip(0) =~= a@);
    assert(b@.skip(0) =~= b@);
    while i < a.len() && i < b.len()
        invariant
            i <= a@.len(),
            i <= b@.len(),
            key_order(true, a@, b@) == key_order(true, a@.skip(i as int), b@.skip(i as int)),
        decreases a@.len() - i,
    {
        if a[i] != b[i] {
            return utf16_rank(a[i]) < utf16_rank(b[i]);
        }
        assert(a@.skip(i as int).drop_first() =~= a@.skip(i + 1));
        assert(b@.skip(i as int).drop_first() =~= b@.skip(i + 1));
        i = i + 1;
    }
    i == a.len() && i < b.len()
}

/// The views of exec keys.
pub open spec fn key_views(keys: Seq<Vec<char>>) -> Seq<Seq<char>> {
    Seq::new(keys.len(), |i: int| keys[i]@)
}

/// Indices as mathematical integers.
pub open spec fn as_ints(s: Seq<usize>) -> Seq<int> {
    Seq::new(s.len(), |i: int| s[i] as int)
}

proof fn lemma_insert_index(u: bool, o: Seq<int>, j: int, keys: Seq<Seq<char>>)
    ensures
        insert_index(u, o, j, keys).len() == o.len() + 1,
        forall|x: int| #[trigger] insert_index(u, o, j, keys).contains(x) <==> (o.contains(x) || x == j),
        o.no_duplicates() && !o.contains(j) ==> insert_index(u, o, j, keys).no_duplicates(),
    decreases o.len(),
{
    let r = insert_index(u, o, j, keys);
    if o.len() == 0 {
        assert forall|x: int| r.contains(x) <==> (o.contains(x) || x == j) by {
            if r.contains(x) {
                assert(r[0] == x);
            }
            if x == j {
                assert(r[0] == j);
            }
        }
    } else if !key_order(u, keys[j], keys[o.last()]) {
        assert forall|x: int| r.contains(x) <==> (o.contains(x) || x == j) by {
            if o.contains(x) {
                let t = choose|t: int| 0 <= t < o.len() && o[t] == x;
                assert(r[t] == x);
            }
            if r.contains(x) {
                let t = choose|t: int| 0 <= t < r.len() && r[t] == x;
                if t < o.len() {
                    assert(o[t] == x);
                }
            }
            if x == j {
                assert(r[o.len() as int] == j);
            }
        }
    } else {
        let d = o.drop_last();
        lemma_insert_index(u, d, j, keys);
        let r0 = insert_index(u, d, j, keys);
        assert(r == r0.push(o.last()));
        assert forall|x: int| r.contains(x) <==> (o.contains(x) || x == j) by {
            if r.contains(x) {
                let t = choose|t: int| 0 <= t < r.len() && r[t] == x;
                if t < r0.len() {
                    assert(r0[t] == x);
                    assert(r0.contains(x));
                    if d.contains(x) {
                        let u = choose|u: int| 0 <= u < d.len() && d[u] == x;
                        assert(o[u] == x);
                    }
                } else {
                    assert(o[o.len() - 1] == x);
                }
            }
            if o.contains(x) {
                let u = choose|u: int| 0 <= u < o.len() && o[u] == x;
                if u < o.len() - 1 {
                    assert(d[u] == x);
                    assert(d.contains(x));
                    assert(r0.contains(x));
                    let t = choose|t: int| 0 <= t < r0.len() && r0[t] == x;
                    assert(r[t] == x);
                } else {
                    assert(r[r.len() - 1] == x);
                }
            }
            if x == j {
                assert(r0.contains(j));
                let t = choose|t: int| 0 <= t < r0.len() && r0[t] == j;
                assert(r[t] == j);
            }
        }
        if o.no_duplicates() && !o.contains(j) {
            assert(!d.contains(j)) by {
                if d.contains(j) {
                    let u = choose|u: int| 0 <= u < d.len() && d[u] == j;
                    assert(o[u] == j);
                }
            }
            assert(d.no_duplicates()) by {
                assert forall|a: int, b: int| 0 <= a < d.len() && 0 <= b < d.len() && a != b
                    implies d[a] != d[b] by {
                    assert(d[a] == o[a] && d[b] == o[b]);
                }
            }
            assert(!r0.contains(o.last())) by {
                if r0.contains(o.last()) {
                    if d.contains(o.last()) {
                        let u = choose|u: int| 0 <= u < d.len() && d[u] == o.last();
                        assert(o[u] == o[o.len() - 1]);
                    }
                }
            }
            assert forall|a: int, b: int| 0 <= a < r.len() && 0 <= b < r.len() && a != b
                implies r[a] != r[b] by {
                if a < r0.len() && b < r0.len() {
                    assert(r[a] == r0[a] && r[b] == r0[b]);
                } else if a < r0.len() {
                    assert(r0.contains(r[a]));
                } else {
                    assert(r0.contains(r[b]));
                }
            }
        }
    }
}

/// `sort_order` is a permutation of the first `n` indices.
pub proof fn lemma_sort_order(u: bool, keys: Seq<Seq<char>>, n: nat)
    ensures
        sort_order(u, keys, n).len() == n,
        forall|x: int| #[trigger] sort_order(u, keys, n).contains(x) <==> 0 <= x < n,
        sort_order(u, keys, n).no_duplicates(),
    decreases n,
{
    if n > 0 {
        let p = sort_order(u, keys, (n - 1) as nat);
        lemma_sort_order(u, keys, (n - 1) as nat);
        lemma_insert_index(u, p, n - 1, keys);
    }
}

proof fn lemma_insert_at(u: bool, o: Seq<int>, j: int, keys: Seq<Seq<char>>, p: int)
    requires
        0 <= p <= o.len(),
        forall|t: int| p <= t < o.len() ==> key_order(u, keys[j], keys[o[t]]),
        p == 0 || !key_order(u, keys[j], keys[o[p - 1]]),
    ensures
        insert_index(u, o, j, keys) == o.take(p).push(j) + o.skip(p),
    decreases o.len(),
{
    if o.len() == p {
        assert(o.take(p) =~= o);
        assert(o.skip(p) =~= Seq::<int>::empty());
        assert(o.take(p).push(j) + o.skip(p) =~= o.push(j));
    } else {
        let d = o.drop_last();
        assert(key_order(u, keys[j], keys[o[o.len() - 1]]));
        lemma_insert_at(u, d, j, keys, p);
        assert(d.take(p) =~= o.take(p));
        assert(d.skip(p).push(o.last()) =~= o.skip(p));
        assert((d.take(p).push(j) + d.skip(p)).push(o.last()) =~= o.take(p).push(j) + o.skip(p));
    }
}

/// The stable key order of object members, as indices.
fn member_order(keys: &Vec<Vec<char>>) -> (order: Vec<usize>)
    ensures
        as_ints(order@) == sort_order(true, key_views(keys@), keys@.len() as nat),
{
    let ghost kv = key_views(keys@);
    let mut order: Vec<usize> = Vec::new();
    let n = keys.len();
    let mut j: usize = 0;
    assert(as_ints(order@) =~= sort_order(true, kv, 0));
    while j < n
        invariant
            j <= n,
            n == keys@.len(),
            kv == key_views(keys@),
            as_ints(order@) == sort_order(true, kv, j as nat),
        decreases n - j,
    {
        proof {
            lemma_sort_order(true, kv, j as nat);
        }
        let ghost before = as_ints(order@);
        assert(order@.len() == j);
        assert(forall|t: int| 0 <= t < j ==> #[trigger] before[t] == order@[t] as int);
        assert(forall|t: int| 0 <= t < j ==> 0 <= #[trigger] order@[t] < j) by {
            assert forall|t: int| 0 <= t < j implies 0 <= #[trigger] order@[t] < j by {
                assert(before.contains(before[t]));
            }
        }
        let mut pos: usize = order.len();
        loop
            invariant
                pos <= order@.len(),
                order@.len() == j,
                j < n,
                n == keys@.len(),
                kv == key_views(keys@),
                forall|t: int| 0 <= t < j ==> 0 <= #[trigger] order@[t] < j,
                forall|t: int| pos <= t < order@.len() ==> key_order(true, kv[j as int], kv[order@[t] as int]),
            ensures
                pos <= order@.len(),
                forall|t: int| pos <= t < order@.len() ==> key_order(true, kv[j as int], kv[order@[t] as int]),
                pos == 0 || !key_order(true, kv[j as int], kv[order@[pos - 1] as int]),
            decreases pos,
        {
            if pos == 0 {
                break;
            }
            let lt = utf16_key_lt(&keys[j], &keys[order[pos - 1]]);
            if !lt {
                break;
            }
            pos = pos - 1;
        }
        proof {
            assert(pos == 0 || !key_order(true, kv[j as int], kv[before[pos - 1]]));
            assert(forall|t: int| pos <= t < before.len() ==> key_order(true, kv[j as int], kv[before[t]]));
            lemma_insert_at(true, before, j as int, kv, pos as int);
        }
        order.insert(pos, j);
        assert(as_ints(order@) =~= before.take(pos as int).push(j as int) + before.skip(pos as int));
        j = j + 1;
    }
    order
}

} // verus!

verus! {

/// Appends the canonical text of `v`.
pub fn push_canonical(out: &mut String, v: &Json)
    ensures
        final(out)@ == old(out)@ + canon(v@),
    decreases v,
{
    let ghost start = out@;
    match v {
        Json::Null => {
            push_char(out, 'n');
            push_char(out, 'u');
            push_char(out, 'l');
            push_char(out, 'l');
        },
        Json::Bool(b) => {
            if *b {
                push_char(out, 't');
                push_char(out, 'r');
                push_char(out, 'u');
                push_char(out, 'e');
            } else {
                push_char(out, 'f');
                push_char(out, 'a');
                push_char(out, 'l');
                push_char(out, 's');
                push_char(out, 'e');
            }
        },
        Json::Number(n) => {
            push_number(out, n);
        },
        Json::Str(s) => {
            push_quoted(out, s.as_str());
        },
        Json::Array(a) => {
            let ghost av = match v@ {
                JsonV::Array(x) => x,
                _ => Seq::empty(),
            };
            assert(av.len() == a@.len());
            assert(forall|t: int| 0 <= t < a@.len() ==> av[t] == #[trigger] json_view(a@[t]));
            let ghost parts = array_parts(av);
            push_char(out, '[');
            let mut i: usize = 0;
            while i < a.len()
                invariant
                    i <= a@.len(),
                    av.len() == a@.len(),
                    *v == Json::Array(*a),
                    parts == array_parts(av),
                    forall|t: int| 0 <= t < a@.len() ==> av[t] == #[trigger] json_view(a@[t]),
                    out@ == start + seq!['['] + join(parts.take(i as int)),
                decreases a@.len() - i,
            {
                proof {
                    lemma_join_take(parts, i as int);
                    assert(decreases_to!(*v => (*v)->Array_0));
                    assert(decreases_to!(*a => a@));
                    assert(decreases_to!(a@ => a@[i as int]));
                }
                if i > 0 {
                    push_char(out, ',');
                }
                push_canonical(out, &a[i]);
                assert(parts[i as int] == canon(av[i as int]));
                assert(av[i as int] == json_view(a@[i as int]));
                i = i + 1;
            }
            assert(parts.take(a@.len() as int) =~= parts);
            push_char(out, ']');
        },
        Json::Object(m) => {
            let ghost mv = match v@ {
                JsonV::Object(x) => x,
                _ => Seq::empty(),
            };
            assert(mv.len() == m@.len());
            assert(forall|t: int|
                0 <= t < m@.len() ==> mv[t] == (#[trigger] m@[t].0@, json_view(m@[t].1)));
            let n = m.len();
            let mut keys: Vec<Vec<char>> = Vec::new();
            let mut i: usize = 0;
            while i < n
                invariant
                    i <= n,
                    n == m@.len(),
                    keys@.len() == i,
                    forall|t: int| 0 <= t < i ==> (#[trigger] keys@[t])@ == m@[t].0@,
                decreases n - i,
            {
                let k = chars_of(m[i].0.as_str());
                keys.push(k);
                i = i + 1;
            }
            let order = member_order(&keys);
            let ghost kv = key_views(keys@);
            assert(kv =~= keys_of(mv));
            let ghost so = sort_order(true, keys_of(mv), mv.len());
            proof {
                lemma_sort_order(true, keys_of(mv), mv.len());
            }
            let ghost parts = object_parts(mv);
            push_char(out, '{');
            let mut k: usize = 0;
            while k < n
                invariant
                    k <= n,
                    n == m@.len(),
                    mv.len() == n,
                    *v == Json::Object(*m),
                    so == sort_order(true, keys_of(mv), mv.len()),
                    so.len() == n,
                    forall|x: int| #[trigger] so.contains(x) <==> 0 <= x < n,
                    as_ints(order@) == so,
                    parts == object_parts(mv),
                    forall|t: int|
                        0 <= t < m@.len() ==> mv[t] == (#[trigger] m@[t].0@, json_view(m@[t].1)),
                    out@ == start + seq!['{'] + join(parts.take(k as int)),
                decreases n - k,
            {
                proof {
                    lemma_join_take(parts, k as int);
                }
                if k > 0 {
                    push_char(out, ',');
                }
                let idx = order[k];
                proof {
                    assert(so[k as int] == idx as int);
                    assert(so.contains(so[k as int]));
                    assert(decreases_to!(*v => (*v)->Object_0));
                    assert(decreases_to!(*m => m@));
                    assert(decreases_to!(m@ => m@[idx as int]));
                    assert(decreases_to!(m@[idx as int] => m@[idx as int].1));
                }
                push_quoted(out, m[idx].0.as_str());
                push_char(out, ':');
                push_canonical(out, &m[idx].1);
                assert(mv[idx as int] == (m@[idx as int].0@, json_view(m@[idx as int].1)));
                assert(parts[k as int] == quote(mv[idx as int].0) + seq![':'] + canon(mv[idx as int].1));
                assert(out@ =~= start + seq!['{'] + join(parts.take(k + 1)));
                k = k + 1;
            }
            assert(parts.take(n as int) =~= parts);
            push_char(out, '}');
        },
    }
    assert(out@ =~= start + canon(v@));
}

/// The canonical text of `v`.
pub fn emit(v: &Json) -> (out: String)
    ensures
        out@ == canon(v@),
{
    let mut out = String::new();
    push_canonical(&mut out, v);
    assert(out@ =~= canon(v@));
    out
}

/// The RFC 8785 canonical bytes of `v`: the UTF-8 encoding of its canonical text.
pub fn canonicalize(v: &Json) -> (bytes: Vec<u8>)
    ensures
        bytes@ == encode_utf8(canon(v@)),
{
    let text = emit(v);
    let b = text.as_str().as_bytes();
    slice_to_vec(b)
}

} // verus!

verus! {

/// No key sorts before itself.
pub proof fn lemma_key_order_irreflexive(u: bool, a: Seq<char>)
    ensures
        !key_order(u, a, a),
    decreases a.len(),
{
    if a.len() > 0 {
        lemma_key_order_irreflexive(u, a.drop_first());
    }
}

/// Key order is transitive.
pub proof fn lemma_key_order_transitive(u: bool, a: Seq<char>, b: Seq<char>, c: Seq<char>)
    requires
        key_order(u, a, b),
        key_order(u, b, c),
    ensures
        key_order(u, a, c),
    decreases a.len(),
{
    if a.len() > 0 && b.len() > 0 && c.len() > 0 {
        if a[0] == b[0] && b[0] == c[0] {
            lemma_key_order_transitive(u, a.drop_first(), b.drop_first(), c.drop_first());
        }
    }
}

/// Two distinct keys are ordered one way or the other, never both.
pub proof fn lemma_key_order_total(u: bool, a: Seq<char>, b: Seq<char>)
    ensures
        a != b ==> (key_order(u, a, b) || key_order(u, b, a)),
        !(key_order(u, a, b) && key_order(u, b, a)),
    decreases a.len(),
{
    if a.len() > 0 && b.len() > 0 {
        if a[0] == b[0] {
            lemma_key_order_total(u, a.drop_first(), b.drop_first());
            if a != b {
                assert(a.drop_first() != b.drop_first()) by {
                    if a.drop_first() == b.drop_first() {
                        assert(a =~= seq![a[0]] + a.drop_first());
                        assert(b =~= seq![b[0]] + b.drop_first());
                    }
                }
            }
        } else {
            vstd::utf8::char_u32_cast(a[0], a[0] as u32);
            vstd::utf8::char_u32_cast(b[0], b[0] as u32);
            assert((a[0] as u32) != (b[0] as u32));
        }
    } else if a.len() == 0 && b.len() == 0 {
        assert(a =~= b);
    }
}

proof fn lemma_key_le_transitive(u: bool, a: Seq<char>, b: Seq<char>, c: Seq<char>)
    requires
        !key_order(u, b, a),
        !key_order(u, c, b),
    ensures
        !key_order(u, c, a),
{
    lemma_key_order_total(u, a, b);
    lemma_key_order_total(u, b, c);
    lemma_key_order_total(u, a, c);
    if a == b {
    } else if b == c {
    } else {
        if key_order(u, c, a) {
            lemma_key_order_transitive(u, c, a, b);
        }
    }
}

/// Indices ordered so that keys never decrease.
pub open spec fn order_sorted(u: bool, o: Seq<int>, keys: Seq<Seq<char>>) -> bool {
    forall|s: int, t: int| 0 <= s < t < o.len() ==> !key_order(u, keys[o[t]], keys[o[s]])
}

proof fn lemma_insert_index_sorted(u: bool, o: Seq<int>, j: int, keys: Seq<Seq<char>>)
    requires
        order_sorted(u, o, keys),
    ensures
        order_sorted(u, insert_index(u, o, j, keys), keys),
    decreases o.len(),
{
    let r = insert_index(u, o, j, keys);
    if o.len() == 0 {
    } else if !key_order(u, keys[j], keys[o.last()]) {
        assert forall|s: int, t: int| 0 <= s < t < r.len() implies !key_order(u, keys[r[t]], keys[r[s]]) by {
            if t == o.len() {
                if s < o.len() - 1 {
                    lemma_key_le_transitive(u, keys[o[s]], keys[o.last()], keys[j]);
                }
            }
        }
    } else {
        let d = o.drop_last();
        lemma_insert_index_sorted(u, d, j, keys);
        lemma_insert_index(u, d, j, keys);
        let r0 = insert_index(u, d, j, keys);
        assert(r == r0.push(o.last()));
        assert forall|s: int, t: int| 0 <= s < t < r.len() implies !key_order(u, keys[r[t]], keys[r[s]]) by {
            if t == r0.len() {
                assert(r0.contains(r0[s]));
                if r0[s] == j {
                    lemma_key_order_total(u, keys[j], keys[o.last()]);
                } else {
                    let u = choose|u: int| 0 <= u < d.len() && d[u] == r0[s];
                    assert(o[u] == r0[s]);
                }
            } else {
                assert(r[s] == r0[s] && r[t] == r0[t]);
            }
        }
    }
}

/// The key order of `sort_order` never decreases.
pub proof fn lemma_sort_order_sorted(u: bool, keys: Seq<Seq<char>>, n: nat)
    ensures
        order_sorted(u, sort_order(u, keys, n), keys),
    decreases n,
{
    if n > 0 {
        lemma_sort_order_sorted(u, keys, (n - 1) as nat);
        lemma_insert_index_sorted(u, sort_order(u, keys, (n - 1) as nat), n - 1, keys);
    }
}

/// No two members share a key.
pub open spec fn distinct_keys(m: Seq<(Seq<char>, JsonV)>) -> bool {
    forall|i: int, j: int| 0 <= i < m.len() && 0 <= j < m.len() && i != j ==> m[i].0 != m[j].0
}

/// Members in strictly increasing key order.
pub open spec fn strictly_sorted(u: bool, s: Seq<(Seq<char>, JsonV)>) -> bool {
    forall|i: int, j: int| 0 <= i < j < s.len() ==> key_order(u, s[i].0, s[j].0)
}

/// The sorted members are the members, in strictly increasing key order when
/// keys are distinct.
pub proof fn lemma_sorted_members(u: bool, m: Seq<(Seq<char>, JsonV)>)
    ensures
        sorted_members(u, m).len() == m.len(),
        forall|e: (Seq<char>, JsonV)| #[trigger] sorted_members(u, m).contains(e) <==> m.contains(e),
        distinct_keys(m) ==> strictly_sorted(u, sorted_members(u, m)),
{
    let keys = keys_of(m);
    let o = sort_order(u, keys, m.len());
    lemma_sort_order(u, keys, m.len());
    lemma_sort_order_sorted(u, keys, m.len());
    let s = sorted_members(u, m);
    assert forall|k: int| 0 <= k < o.len() implies 0 <= #[trigger] o[k] < m.len() by {
        assert(o.contains(o[k]));
    }
    assert forall|e: (Seq<char>, JsonV)| #[trigger] s.contains(e) <==> m.contains(e) by {
        if s.contains(e) {
            let k = choose|k: int| 0 <= k < s.len() && s[k] == e;
            assert(m[o[k]] == e);
        }
        if m.contains(e) {
            let i = choose|i: int| 0 <= i < m.len() && m[i] == e;
            assert(o.contains(i));
            let k = choose|k: int| 0 <= k < o.len() && o[k] == i;
            assert(s[k] == e);
        }
    }
    if distinct_keys(m) {
        assert forall|i: int, j: int| 0 <= i < j < s.len() implies key_order(u, s[i].0, s[j].0) by {
            assert(o[i] != o[j]);
            assert(keys[o[i]] == m[o[i]].0 && keys[o[j]] == m[o[j]].0);
            assert(!key_order(u, keys[o[j]], keys[o[i]]));
            lemma_key_order_total(u, keys[o[i]], keys[o[j]]);
        }
    }
}

proof fn lemma_strictly_sorted_unique(u: bool, s1: Seq<(Seq<char>, JsonV)>, s2: Seq<(Seq<char>, JsonV)>)
    requires
        strictly_sorted(u, s1),
        strictly_sorted(u, s2),
        forall|e: (Seq<char>, JsonV)| s1.contains(e) <==> s2.contains(e),
    ensures
        s1 == s2,
    decreases s1.len() + s2.len(),
{
    if s1.len() == 0 {
        if s2.len() > 0 {
            assert(s2.contains(s2[0]));
        }
        assert(s1 =~= s2);
    } else if s2.len() == 0 {
        assert(s1.contains(s1[0]));
    } else {
        assert(s1.contains(s1[0]) && s2.contains(s2[0]));
        if s1[0] != s2[0] {
            let i = choose|i: int| 0 <= i < s1.len() && s1[i] == s2[0];
            let j = choose|j: int| 0 <= j < s2.len() && s2[j] == s1[0];
            assert(i > 0 && j > 0);
            lemma_key_order_total(u, s1[0].0, s2[0].0);
        }
        let t1 = s1.drop_first();
        let t2 = s2.drop_first();
        assert forall|e: (Seq<char>, JsonV)| t1.contains(e) <==> t2.contains(e) by {
            if t1.contains(e) {
                let i = choose|i: int| 0 <= i < t1.len() && t1[i] == e;
                assert(s1[i + 1] == e);
                assert(s1.contains(e));
                let j = choose|j: int| 0 <= j < s2.len() && s2[j] == e;
                if j == 0 {
                    lemma_key_order_irreflexive(u, s1[0].0);
                } else {
                    assert(t2[j - 1] == e);
                }
            }
            if t2.contains(e) {
                let j = choose|j: int| 0 <= j < t2.len() && t2[j] == e;
                assert(s2[j + 1] == e);
                assert(s2.contains(e));
                let i = choose|i: int| 0 <= i < s1.len() && s1[i] == e;
                if i == 0 {
                    lemma_key_order_irreflexive(u, s2[0].0);
                } else {
                    assert(t1[i - 1] == e);
                }
            }
        }
        lemma_strictly_sorted_unique(u, t1, t2);
        assert(s1 =~= seq![s1[0]] + t1);
        assert(s2 =~= seq![s2[0]] + t2);
    }
}

/// Member order does not matter: two objects with the same members and no
/// repeated key have the same canonical text.
pub proof fn law_member_order_irrelevant(m1: Seq<(Seq<char>, JsonV)>, m2: Seq<(Seq<char>, JsonV)>)
    requires
        distinct_keys(m1),
        distinct_keys(m2),
        forall|e: (Seq<char>, JsonV)| m1.contains(e) <==> m2.contains(e),
    ensures
        canon(JsonV::Object(m1)) == canon(JsonV::Object(m2)),
{
    lemma_sorted_members(true, m1);
    lemma_sorted_members(true, m2);
    let s1 = sorted_members(true, m1);
    let s2 = sorted_members(true, m2);
    lemma_strictly_sorted_unique(true, s1, s2);
    let o1 = sort_order(true, keys_of(m1), m1.len());
    let o2 = sort_order(true, keys_of(m2), m2.len());
    lemma_sort_order(true, keys_of(m1), m1.len());
    lemma_sort_order(true, keys_of(m2), m2.len());
    assert forall|k: int| 0 <= k < o1.len() implies 0 <= #[trigger] o1[k] < m1.len() by {
        assert(o1.contains(o1[k]));
    }
    assert forall|k: int| 0 <= k < o2.len() implies 0 <= #[trigger] o2[k] < m2.len() by {
        assert(o2.contains(o2[k]));
    }
    assert forall|k: int| 0 <= k < o1.len() implies m1[o1[k]] == m2[o2[k]] by {
        assert(s1[k] == m1[o1[k]]);
        assert(s2[k] == m2[o2[k]]);
    }
    assert(object_parts(m1) =~= object_parts(m2));
}

} // verus!

verus! {

/// Escaping leaves no raw C0 control character in a string's text.
pub proof fn law_escape_has_no_control_chars(s: Seq<char>)
    ensures
        forall|i: int| 0 <= i < escape(s).len() ==> (escape(s)[i] as u32) >= 0x20,
    decreases s.len(),
{
    if s.len() > 0 {
        law_escape_has_no_control_chars(s.drop_last());
        let c = s.last();
        let e = escape_char(c);
        assert forall|i: int| 0 <= i < e.len() implies (e[i] as u32) >= 0x20 by {
            if (c as u32) < 0x20 && c != '\x08' && c != '\x0C' && c != '\n' && c != '\r' && c != '\t' {
                let hi = (c as u32) as int / 16;
                let lo = (c as u32) as int % 16;
                if i == 4 {
                    assert(e[i] == hex_digit(hi));
                } else if i == 5 {
                    assert(e[i] == hex_digit(lo));
                }
            }
        }
        let p = escape(s.drop_last());
        assert forall|i: int| 0 <= i < escape(s).len() implies (escape(s)[i] as u32) >= 0x20 by {
            if i < p.len() {
                assert(escape(s)[i] == p[i]);
            } else {
                assert(escape(s)[i] == e[i - p.len()]);
            }
        }
    }
}

} // verus!

verus! {

/// Whether a floating-point number's canonical text reads back as a number
/// with that same canonical text.
pub open spec fn float_reads_back(t: Seq<char>) -> bool {
    match serde_from_str(float_text(t)) {
        Some(JsonV::Number(m)) => number_text(m) == float_text(t),
        _ => false,
    }
}

/// Whether `v` reads back from its canonical text: floating-point numbers
/// whose canonical text is printable and reads back (see
/// `float_reads_back`), negative integers only as `NegInt`, no repeated key
/// in an object, and at most `room` arrays and objects nested in one another.
pub open spec fn parse_safe(v: JsonV, room: nat) -> bool
    decreases v,
{
    match v {
        JsonV::Number(NumberV::Float(t)) => printable(float_text(t)) && float_reads_back(t),
        JsonV::Number(NumberV::NegInt(i)) => i < 0,
        JsonV::Array(a) => room > 0 && items_safe(a, (room - 1) as nat),
        JsonV::Object(m) => room > 0 && distinct_keys(m) && members_safe(m, (room - 1) as nat),
        _ => true,
    }
}

/// Whether every element reads back (see `parse_safe`).
pub open spec fn items_safe(a: Seq<JsonV>, room: nat) -> bool
    decreases a,
{
    if a.len() == 0 {
        true
    } else {
        proof {
            assert(decreases_to!(a => a[a.len() - 1]));
        }
        parse_safe(a[a.len() - 1], room) && items_safe(a.drop_last(), room)
    }
}

/// Whether every member value reads back (see `parse_safe`).
pub open spec fn members_safe(m: Seq<(Seq<char>, JsonV)>, room: nat) -> bool
    decreases m,
{
    if m.len() == 0 {
        true
    } else {
        proof {
            assert(decreases_to!(m => m[m.len() - 1]));
            assert(decreases_to!(m[m.len() - 1] => m[m.len() - 1].1));
        }
        parse_safe(m[m.len() - 1].1, room) && members_safe(m.drop_last(), room)
    }
}

/// `v` as it reads back from its canonical text: the members of every
/// object, at every depth, in code-point key order, and each floating-point
/// number as its canonical text reads back.
pub open spec fn sort_deep(v: JsonV) -> JsonV
    decreases v,
{
    match v {
        JsonV::Array(a) => JsonV::Array(deep_items(a)),
        JsonV::Object(m) => JsonV::Object(sorted_members(false, deep_members(m))),
        JsonV::Number(NumberV::Float(t)) => match serde_from_str(float_text(t)) {
            Some(x) => x,
            None => v,
        },
        _ => v,
    }
}

/// The elements of an array, each put in key order at every depth.
pub open spec fn deep_items(a: Seq<JsonV>) -> Seq<JsonV>
    decreases a,
{
    Seq::new(
        a.len(),
        |i: int|
            if 0 <= i < a.len() {
                proof {
                    assert(decreases_to!(a => a[i]));
                }
                sort_deep(a[i])
            } else {
                JsonV::Null
            },
    )
}

/// The members of an object, each value put in key order at every depth.
pub open spec fn deep_members(m: Seq<(Seq<char>, JsonV)>) -> Seq<(Seq<char>, JsonV)>
    decreases m,
{
    Seq::new(
        m.len(),
        |i: int|
            if 0 <= i < m.len() {
                proof {
                    assert(decreases_to!(m => m[i]));
                    assert(decreases_to!(m[i] => m[i].1));
                }
                (m[i].0, sort_deep(m[i].1))
            } else {
                (Seq::empty(), JsonV::Null)
            },
    )
}

/// Every element of a safe array is safe.
pub proof fn lemma_items_safe(a: Seq<JsonV>, room: nat)
    requires
        items_safe(a, room),
    ensures
        forall|i: int| 0 <= i < a.len() ==> parse_safe(#[trigger] a[i], room),
    decreases a.len(),
{
    if a.len() > 0 {
        lemma_items_safe(a.drop_last(), room);
        assert forall|i: int| 0 <= i < a.len() implies parse_safe(#[trigger] a[i], room) by {
            if i < a.len() - 1 {
                assert(a.drop_last()[i] == a[i]);
            }
        }
    }
}

/// Every member value of a safe object is safe.
pub proof fn lemma_members_safe(m: Seq<(Seq<char>, JsonV)>, room: nat)
    requires
        members_safe(m, room),
    ensures
        forall|i: int| 0 <= i < m.len() ==> parse_safe(#[trigger] m[i].1, room),
    decreases m.len(),
{
    if m.len() > 0 {
        lemma_members_safe(m.drop_last(), room);
        assert forall|i: int| 0 <= i < m.len() implies parse_safe(#[trigger] m[i].1, room) by {
            if i < m.len() - 1 {
                assert(m.drop_last()[i] == m[i]);
            }
        }
    }
}

} // verus!

verus! {

/// Members in strictly increasing key order repeat no key.
pub proof fn lemma_strictly_sorted_distinct(u: bool, s: Seq<(Seq<char>, JsonV)>)
    requires
        strictly_sorted(u, s),
    ensures
        distinct_keys(s),
{
    assert forall|i: int, j: int| 0 <= i < s.len() && 0 <= j < s.len() && i != j implies s[i].0 != s[j].0 by {
        lemma_key_order_irreflexive(u, s[i].0);
    }
}

/// Putting members in key order, at every depth, keeps the canonical text.
pub proof fn lemma_canon_sort_deep(v: JsonV, room: nat)
    requires
        parse_safe(v, room),
    ensures
        canon(sort_deep(v)) == canon(v),
    decreases v,
{
    match v {
        JsonV::Array(a) => {
            lemma_items_safe(a, (room - 1) as nat);
            let a2 = deep_items(a);
            assert forall|i: int| 0 <= i < a.len() implies canon(a2[i]) == canon(a[i]) by {
                assert(parse_safe(a[i], (room - 1) as nat));
                lemma_canon_sort_deep(a[i], (room - 1) as nat);
            }
            assert(array_parts(a2) =~= array_parts(a));
        },
        JsonV::Object(m) => {
            lemma_members_safe(m, (room - 1) as nat);
            let m2 = deep_members(m);
            assert(keys_of(m2) =~= keys_of(m));
            assert(distinct_keys(m2));
            lemma_sorted_members(false, m2);
            lemma_strictly_sorted_distinct(false, sorted_members(false, m2));
            law_member_order_irrelevant(sorted_members(false, m2), m2);
            let o = sort_order(true, keys_of(m), m.len());
            lemma_sort_order(true, keys_of(m), m.len());
            assert forall|k: int| 0 <= k < o.len() implies 0 <= #[trigger] o[k] < m.len() by {
                assert(o.contains(o[k]));
            }
            assert forall|k: int| 0 <= k < o.len() implies canon(m2[o[k]].1) == canon(m[o[k]].1) by {
                assert(parse_safe(m[o[k]].1, (room - 1) as nat));
                lemma_canon_sort_deep(m[o[k]].1, (room - 1) as nat);
            }
            assert(object_parts(m2) =~= object_parts(m));
        },
        _ => {},
    }
}

/// In members with no repeated key, a member is found under its own key.
pub proof fn lemma_lookup_member(m: Seq<(Seq<char>, JsonV)>, key: Seq<char>, value: JsonV)
    requires
        distinct_keys(m),
        m.contains((key, value)),
    ensures
        lookup(m, key) == Some(value),
    decreases m.len(),
{
    if m[0].0 != key {
        let i = choose|i: int| 0 <= i < m.len() && m[i] == (key, value);
        assert(m.drop_first()[i - 1] == (key, value));
        lemma_lookup_member(m.drop_first(), key, value);
    } else {
        assert(m.contains(m[0]));
        let i = choose|i: int| 0 <= i < m.len() && m[i] == (key, value);
        assert(i == 0);
    }
}

} // verus!

verus! {

/// Whether every floating-point number in `v` is written without C0 control
/// characters.
pub open spec fn floats_printable(v: JsonV) -> bool
    decreases v,
{
    match v {
        JsonV::Number(NumberV::Float(t)) => printable(float_text(t)),
        JsonV::Array(a) => items_printable(a),
        JsonV::Object(m) => members_printable(m),
        _ => true,
    }
}

/// Whether every element satisfies `floats_printable`.
pub open spec fn items_printable(a: Seq<JsonV>) -> bool
    decreases a,
{
    if a.len() == 0 {
        true
    } else {
        proof {
            assert(decreases_to!(a => a[a.len() - 1]));
        }
        floats_printable(a[a.len() - 1]) && items_printable(a.drop_last())
    }
}

/// Whether every member value satisfies `floats_printable`.
pub open spec fn members_printable(m: Seq<(Seq<char>, JsonV)>) -> bool
    decreases m,
{
    if m.len() == 0 {
        true
    } else {
        proof {
            assert(decreases_to!(m => m[m.len() - 1]));
            assert(decreases_to!(m[m.len() - 1] => m[m.len() - 1].1));
        }
        floats_printable(m[m.len() - 1].1) && members_printable(m.drop_last())
    }
}

proof fn lemma_items_printable(a: Seq<JsonV>)
    requires
        items_printable(a),
    ensures
        forall|i: int| 0 <= i < a.len() ==> floats_printable(#[trigger] a[i]),
    decreases a.len(),
{
    if a.len() > 0 {
        lemma_items_printable(a.drop_last());
        assert forall|i: int| 0 <= i < a.len() implies floats_printable(#[trigger] a[i]) by {
            if i < a.len() - 1 {
                assert(a.drop_last()[i] == a[i]);
            }
        }
    }
}

proof fn lemma_members_printable(m: Seq<(Seq<char>, JsonV)>)
    requires
        members_printable(m),
    ensures
        forall|i: int| 0 <= i < m.len() ==> floats_printable(#[trigger] m[i].1),
    decreases m.len(),
{
    if m.len() > 0 {
        lemma_members_printable(m.drop_last());
        assert forall|i: int| 0 <= i < m.len() implies floats_printable(#[trigger] m[i].1) by {
            if i < m.len() - 1 {
                assert(m.drop_last()[i] == m[i]);
            }
        }
    }
}

/// An object whose member values all satisfy `floats_printable` does too.
pub proof fn lemma_members_printable_intro(m: Seq<(Seq<char>, JsonV)>)
    requires
        forall|i: int| 0 <= i < m.len() ==> floats_printable(#[trigger] m[i].1),
    ensures
        members_printable(m),
    decreases m.len(),
{
    if m.len() > 0 {
        let d = m.drop_last();
        assert forall|i: int| 0 <= i < d.len() implies floats_printable(#[trigger] d[i].1) by {
            assert(d[i] == m[i]);
        }
        lemma_members_printable_intro(d);
        assert(floats_printable(m[m.len() - 1].1));
    }
}

/// A value that reads back has no floating-point number at all.
pub proof fn lemma_safe_floats_printable(v: JsonV, room: nat)
    requires
        parse_safe(v, room),
    ensures
        floats_printable(v),
    decreases v,
{
    match v {
        JsonV::Array(a) => {
            lemma_items_safe(a, (room - 1) as nat);
            assert forall|i: int| 0 <= i < a.len() implies floats_printable(#[trigger] a[i]) by {
                lemma_safe_floats_printable(a[i], (room - 1) as nat);
            }
            lemma_items_printable_intro(a);
        },
        JsonV::Object(m) => {
            lemma_members_safe(m, (room - 1) as nat);
            assert forall|i: int| 0 <= i < m.len() implies floats_printable(#[trigger] m[i].1) by {
                lemma_safe_floats_printable(m[i].1, (room - 1) as nat);
            }
            lemma_members_printable_intro(m);
        },
        _ => {},
    }
}

proof fn lemma_items_printable_intro(a: Seq<JsonV>)
    requires
        forall|i: int| 0 <= i < a.len() ==> floats_printable(#[trigger] a[i]),
    ensures
        items_printable(a),
    decreases a.len(),
{
    if a.len() > 0 {
        let d = a.drop_last();
        assert forall|i: int| 0 <= i < d.len() implies floats_printable(#[trigger] d[i]) by {
            assert(d[i] == a[i]);
        }
        lemma_items_printable_intro(d);
        assert(floats_printable(a[a.len() - 1]));
    }
}

} // verus!

verus! {

/// Whether no character of `s` is a C0 control character.
pub open spec fn printable(s: Seq<char>) -> bool {
    forall|i: int| 0 <= i < s.len() ==> (#[trigger] s[i] as u32) >= 0x20
}

proof fn lemma_printable_concat(a: Seq<char>, b: Seq<char>)
    requires
        printable(a),
        printable(b),
    ensures
        printable(a + b),
{
    assert forall|i: int| 0 <= i < (a + b).len() implies ((#[trigger] (a + b)[i]) as u32) >= 0x20 by {
        if i < a.len() {
            assert((a + b)[i] == a[i]);
        } else {
            assert((a + b)[i] == b[i - a.len()]);
        }
    }
}

proof fn lemma_decimal_printable(n: nat)
    ensures
        printable(decimal(n)),
    decreases n,
{
    if n >= 10 {
        lemma_decimal_printable(n / 10);
        let d = (n % 10) as int;
        assert((digit_char(d) as u32) >= 0x20);
        lemma_printable_concat(decimal(n / 10), seq![digit_char(d)]);
        assert(decimal(n) =~= decimal(n / 10) + seq![digit_char(d)]);
    } else {
        assert((digit_char(n as int) as u32) >= 0x20);
    }
}

proof fn lemma_join_printable(parts: Seq<Seq<char>>)
    requires
        forall|i: int| 0 <= i < parts.len() ==> printable(#[trigger] parts[i]),
    ensures
        printable(join(parts)),
    decreases parts.len(),
{
    if parts.len() == 1 {
        assert(printable(parts[0]));
    } else if parts.len() > 1 {
        let p = parts.drop_last();
        assert forall|i: int| 0 <= i < p.len() implies printable(#[trigger] p[i]) by {
            assert(p[i] == parts[i]);
        }
        lemma_join_printable(p);
        assert(printable(parts[parts.len() - 1]));
        lemma_printable_concat(join(p), seq![',']);
        lemma_printable_concat(join(p) + seq![','], parts.last());
    }
}

proof fn lemma_quote_printable(s: Seq<char>)
    ensures
        printable(quote(s)),
{
    law_escape_has_no_control_chars(s);
    lemma_printable_concat(seq!['"'], escape(s));
    lemma_printable_concat(seq!['"'] + escape(s), seq!['"']);
}

/// The canonical text of a value without floating-point numbers holds no
/// C0 control character (so no line break).
pub proof fn lemma_canon_printable(v: JsonV)
    requires
        floats_printable(v),
    ensures
        printable(canon(v)),
    decreases v,
{
    match v {
        JsonV::Null => {
            let c = seq!['n', 'u', 'l', 'l'];
            assert(canon(v) == c);
            assert forall|k: int| 0 <= k < c.len() implies (#[trigger] c[k] as u32) >= 0x20 by {
                assert(k == 0 || k == 1 || k == 2 || k == 3);
            }
        },
        JsonV::Bool(b) => {
            let c = if b {
                seq!['t', 'r', 'u', 'e']
            } else {
                seq!['f', 'a', 'l', 's', 'e']
            };
            assert forall|k: int| 0 <= k < c.len() implies (#[trigger] c[k] as u32) >= 0x20 by {
                assert(k == 0 || k == 1 || k == 2 || k == 3 || k == 4);
            }
        },
        JsonV::Number(n) => {
            match n {
                NumberV::PosInt(u) => lemma_decimal_printable(u as nat),
                NumberV::NegInt(i) => {
                    if i < 0 {
                        lemma_decimal_printable((-i) as nat);
                        lemma_printable_concat(seq!['-'], decimal((-i) as nat));
                    } else {
                        lemma_decimal_printable(i as nat);
                    }
                },
                NumberV::Float(t) => {
                    assert(canon(v) == float_text(t));
                },
            }
        },
        JsonV::Str(s) => {
            lemma_quote_printable(s);
        },
        JsonV::Array(a) => {
            lemma_items_printable(a);
            let parts = array_parts(a);
            assert forall|i: int| 0 <= i < parts.len() implies printable(#[trigger] parts[i]) by {
                lemma_canon_printable(a[i]);
            }
            lemma_join_printable(parts);
            lemma_printable_concat(seq!['['], join(parts));
            lemma_printable_concat(seq!['['] + join(parts), seq![']']);
        },
        JsonV::Object(m) => {
            lemma_members_printable(m);
            let parts = object_parts(m);
            let o = sort_order(true, keys_of(m), m.len());
            lemma_sort_order(true, keys_of(m), m.len());
            assert forall|k: int| 0 <= k < parts.len() implies printable(#[trigger] parts[k]) by {
                assert(o.contains(o[k]));
                lemma_canon_printable(m[o[k]].1);
                lemma_quote_printable(m[o[k]].0);
                lemma_printable_concat(quote(m[o[k]].0), seq![':']);
                lemma_printable_concat(quote(m[o[k]].0) + seq![':'], canon(m[o[k]].1));
            }
            lemma_join_printable(parts);
            lemma_printable_concat(seq!['{'], join(parts));
            lemma_printable_concat(seq!['{'] + join(parts), seq!['}']);
        },
    }
}

} // verus!

verus! {

/// An object whose member values are all safe has safe members.
pub proof fn lemma_members_safe_intro(m: Seq<(Seq<char>, JsonV)>, room: nat)
    requires
        forall|i: int| 0 <= i < m.len() ==> parse_safe(#[trigger] m[i].1, room),
    ensures
        members_safe(m, room),
    decreases m.len(),
{
    if m.len() > 0 {
        let d = m.drop_last();
        assert forall|i: int| 0 <= i < d.len() implies parse_safe(#[trigger] d[i].1, room) by {
            assert(d[i] == m[i]);
        }
        lemma_members_safe_intro(d, room);
        assert(parse_safe(m[m.len() - 1].1, room));
    }
}

} // verus!

verus! {

/// No key sorts before itself (code-point order).
pub proof fn lemma_key_lt_irreflexive(a: Seq<char>)
    ensures
        !key_lt(a, a),
{
    lemma_key_order_irreflexive(false, a);
}

/// Two distinct keys are ordered one way or the other, never both
/// (code-point order).
pub proof fn lemma_key_lt_total(a: Seq<char>, b: Seq<char>)
    ensures
        a != b ==> (key_lt(a, b) || key_lt(b, a)),
        !(key_lt(a, b) && key_lt(b, a)),
{
    lemma_key_order_total(false, a, b);
}

} // verus!

verus! {

/// Whether no object in `v`, at any depth, repeats a key.
pub open spec fn keys_distinct_deep(v: JsonV) -> bool
    decreases v,
{
    match v {
        JsonV::Array(a) => items_distinct(a),
        JsonV::Object(m) => distinct_keys(m) && members_distinct(m),
        _ => true,
    }
}

/// Whether every element satisfies `keys_distinct_deep`.
pub open spec fn items_distinct(a: Seq<JsonV>) -> bool
    decreases a,
{
    if a.len() == 0 {
        true
    } else {
        proof {
            assert(decreases_to!(a => a[a.len() - 1]));
        }
        keys_distinct_deep(a[a.len() - 1]) && items_distinct(a.drop_last())
    }
}

/// Whether every member value satisfies `keys_distinct_deep`.
pub open spec fn members_distinct(m: Seq<(Seq<char>, JsonV)>) -> bool
    decreases m,
{
    if m.len() == 0 {
        true
    } else {
        proof {
            assert(decreases_to!(m => m[m.len() - 1]));
            assert(decreases_to!(m[m.len() - 1] => m[m.len() - 1].1));
        }
        keys_distinct_deep(m[m.len() - 1].1) && members_distinct(m.drop_last())
    }
}

/// `v` with the members of every object, at every depth, in canonical key
/// order: the value itself, whatever order its keys were given in.
pub open spec fn normal_form(v: JsonV) -> JsonV
    decreases v,
{
    match v {
        JsonV::Array(a) => JsonV::Array(normal_items(a)),
        JsonV::Object(m) => JsonV::Object(sorted_members(true, normal_members(m))),
        _ => v,
    }
}

/// The elements of an array, each in normal form.
pub open spec fn normal_items(a: Seq<JsonV>) -> Seq<JsonV>
    decreases a,
{
    Seq::new(
        a.len(),
        |i: int|
            if 0 <= i < a.len() {
                proof {
                    assert(decreases_to!(a => a[i]));
                }
                normal_form(a[i])
            } else {
                JsonV::Null
            },
    )
}

/// The members of an object, each value in normal form.
pub open spec fn normal_members(m: Seq<(Seq<char>, JsonV)>) -> Seq<(Seq<char>, JsonV)>
    decreases m,
{
    Seq::new(
        m.len(),
        |i: int|
            if 0 <= i < m.len() {
                proof {
                    assert(decreases_to!(m => m[i]));
                    assert(decreases_to!(m[i] => m[i].1));
                }
                (m[i].0, normal_form(m[i].1))
            } else {
                (Seq::empty(), JsonV::Null)
            },
    )
}

proof fn lemma_items_distinct(a: Seq<JsonV>)
    requires
        items_distinct(a),
    ensures
        forall|i: int| 0 <= i < a.len() ==> keys_distinct_deep(#[trigger] a[i]),
    decreases a.len(),
{
    if a.len() > 0 {
        lemma_items_distinct(a.drop_last());
        assert forall|i: int| 0 <= i < a.len() implies keys_distinct_deep(#[trigger] a[i]) by {
            if i < a.len() - 1 {
                assert(a.drop_last()[i] == a[i]);
            }
        }
    }
}

proof fn lemma_members_distinct(m: Seq<(Seq<char>, JsonV)>)
    requires
        members_distinct(m),
    ensures
        forall|i: int| 0 <= i < m.len() ==> keys_distinct_deep(#[trigger] m[i].1),
    decreases m.len(),
{
    if m.len() > 0 {
        lemma_members_distinct(m.drop_last());
        assert forall|i: int| 0 <= i < m.len() implies keys_distinct_deep(#[trigger] m[i].1) by {
            if i < m.len() - 1 {
                assert(m.drop_last()[i] == m[i]);
            }
        }
    }
}

/// The canonical text of a value is that of its normal form.
pub proof fn lemma_canon_normal_form(v: JsonV)
    requires
        keys_distinct_deep(v),
    ensures
        canon(normal_form(v)) == canon(v),
    decreases v,
{
    match v {
        JsonV::Array(a) => {
            lemma_items_distinct(a);
            let a2 = normal_items(a);
            assert forall|i: int| 0 <= i < a.len() implies canon(a2[i]) == canon(a[i]) by {
                lemma_canon_normal_form(a[i]);
            }
            assert(array_parts(a2) =~= array_parts(a));
        },
        JsonV::Object(m) => {
            lemma_members_distinct(m);
            let m2 = normal_members(m);
            assert(keys_of(m2) =~= keys_of(m));
            assert(distinct_keys(m2)) by {
                assert forall|i: int, j: int| 0 <= i < m2.len() && 0 <= j < m2.len() && i != j implies m2[i].0
                    != m2[j].0 by {
                    assert(keys_of(m2)[i] == keys_of(m)[i]);
                    assert(keys_of(m2)[j] == keys_of(m)[j]);
                }
            }
            lemma_sorted_members(true, m2);
            lemma_strictly_sorted_distinct(true, sorted_members(true, m2));
            law_member_order_irrelevant(sorted_members(true, m2), m2);
            let o = sort_order(true, keys_of(m), m.len());
            lemma_sort_order(true, keys_of(m), m.len());
            assert forall|k: int| 0 <= k < o.len() implies 0 <= #[trigger] o[k] < m.len() by {
                assert(o.contains(o[k]));
            }
            assert forall|k: int| 0 <= k < o.len() implies canon(m2[o[k]].1) == canon(m[o[k]].1) by {
                lemma_canon_normal_form(m[o[k]].1);
            }
            assert(object_parts(m2) =~= object_parts(m));
        },
        _ => {},
    }
}

/// The canonical text depends only on the value, at every depth: two values
/// that repeat no key and differ at most in the order their object members
/// were given in (they have the same normal form) have the same canonical
/// text.
pub proof fn law_canon_ignores_key_order(a: JsonV, b: JsonV)
    requires
        keys_distinct_deep(a),
        keys_distinct_deep(b),
        normal_form(a) == normal_form(b),
    ensures
        canon(a) == canon(b),
{
    lemma_canon_normal_form(a);
    lemma_canon_normal_form(b);
}

} // verus!

verus! {

/// Whether a character stands for itself inside a canonical JSON string:
/// every character but the quotation mark, the backslash and the C0 controls.
pub open spec fn plain_char(c: char) -> bool {
    c != '\\' && c != '"' && (c as u32) >= 0x20
}

/// Hexadecimal digits in escapes are lower case: `0`-`9`, then `a`-`f`.
pub proof fn law_hex_digits_are_lower_case(d: int)
    requires
        0 <= d < 16,
    ensures
        d < 10 ==> hex_digit(d) as u32 == '0' as u32 + d,
        d >= 10 ==> hex_digit(d) as u32 == 'a' as u32 + (d - 10),
{
}

/// RFC 8785 escaping of one character: the quotation mark and the backslash
/// get a backslash; backspace, form feed, line feed, carriage return and tab
/// their short escapes; the other C0 controls `\u00` and two hex digits of
/// their code; every other character (`/` among them) is written as itself.
pub proof fn law_escape_char_rfc8785(c: char)
    ensures
        plain_char(c) ==> escape_char(c) == seq![c],
        c == '"' ==> escape_char(c) == seq!['\\', '"'],
        c == '\\' ==> escape_char(c) == seq!['\\', '\\'],
        c == '\x08' ==> escape_char(c) == seq!['\\', 'b'],
        c == '\x0C' ==> escape_char(c) == seq!['\\', 'f'],
        c == '\n' ==> escape_char(c) == seq!['\\', 'n'],
        c == '\r' ==> escape_char(c) == seq!['\\', 'r'],
        c == '\t' ==> escape_char(c) == seq!['\\', 't'],
        (c as u32) < 0x20 && c != '\x08' && c != '\x0C' && c != '\n' && c != '\r' && c != '\t'
            ==> escape_char(c) == seq![
                '\\',
                'u',
                '0',
                '0',
                hex_digit((c as u32) as int / 16),
                hex_digit((c as u32) as int % 16),
            ],
{
}

/// Text made of characters that stand for themselves is written unchanged,
/// between quotation marks.
pub proof fn law_plain_text_is_written_as_is(s: Seq<char>)
    requires
        forall|i: int| 0 <= i < s.len() ==> plain_char(#[trigger] s[i]),
    ensures
        escape(s) == s,
        canon(JsonV::Str(s)) == seq!['"'] + s + seq!['"'],
    decreases s.len(),
{
    if s.len() > 0 {
        law_plain_text_is_written_as_is(s.drop_last());
        law_escape_char_rfc8785(s.last());
        assert(plain_char(s[s.len() - 1]));
        assert(s.drop_last().push(s.last()) =~= s);
    }
}

/// Escaping text that is the concatenation of two texts escapes each.
pub proof fn law_escape_concat(a: Seq<char>, b: Seq<char>)
    ensures
        escape(a + b) == escape(a) + escape(b),
    decreases b.len(),
{
    if b.len() == 0 {
        assert(a + b =~= a);
        assert(escape(b) =~= Seq::<char>::empty());
        assert(escape(a) + escape(b) =~= escape(a));
    } else {
        law_escape_concat(a, b.drop_last());
        assert((a + b).drop_last() =~= a + b.drop_last());
        assert((a + b).last() == b.last());
        assert(escape(a) + escape(b) =~= escape(a) + escape(b.drop_last()) + escape_char(b.last()));
    }
}

/// The canonical text of null, the booleans and a string.
pub proof fn law_canon_scalars(s: Seq<char>)
    ensures
        canon(JsonV::Null) == seq!['n', 'u', 'l', 'l'],
        canon(JsonV::Bool(true)) == seq!['t', 'r', 'u', 'e'],
        canon(JsonV::Bool(false)) == seq!['f', 'a', 'l', 's', 'e'],
        canon(JsonV::Str(s)) == seq!['"'] + escape(s) + seq!['"'],
{
}

} // verus!

verus! {

/// The decimal text of a number is made of digits, reads back as the number,
/// and has no leading zero.
pub proof fn law_decimal_reads_back(n: nat)
    ensures
        crate::number::all_digits(decimal(n)),
        crate::number::digits_value(decimal(n)) == n,
        decimal(n).len() >= 1,
        n > 0 ==> decimal(n)[0] != '0',
        n == 0 ==> decimal(n) == seq!['0'],
    decreases n,
{
    let d = (n % 10) as int;
    vstd::utf8::char_u32_cast(digit_char(d), (48 + d) as u32);
    assert(digit_char(d) as u32 == 48 + d);
    assert(decimal(n).last() == digit_char(d));
    if n < 10 {
        assert(decimal(n).drop_last() =~= Seq::<char>::empty());
        assert(crate::number::digits_value(decimal(n)) == crate::number::digits_value(Seq::<char>::empty()) * 10
            + ((digit_char(d) as u32) - 48) as nat);
    } else {
        law_decimal_reads_back(n / 10);
        let p = decimal(n / 10);
        assert(decimal(n).drop_last() =~= p);
        assert(decimal(n)[0] == p[0]);
        assert(crate::number::digits_value(decimal(n)) == crate::number::digits_value(p) * 10
            + ((digit_char(d) as u32) - 48) as nat);
        assert(n == (n / 10) * 10 + n % 10);
    }
}

/// Integers are written in plain decimal, negative ones after a minus sign;
/// array elements and object members are separated by commas.
pub proof fn law_canon_integers_and_commas(u: u64, i: i64, a: Seq<char>, b: Seq<char>)
    ensures
        canon(JsonV::Number(NumberV::PosInt(u))) == decimal(u as nat),
        i < 0 ==> canon(JsonV::Number(NumberV::NegInt(i))) == seq!['-'] + decimal((-i) as nat),
        i >= 0 ==> canon(JsonV::Number(NumberV::NegInt(i))) == decimal(i as nat),
        join(Seq::<Seq<char>>::empty()) == Seq::<char>::empty(),
        join(seq![a]) == a,
        join(seq![a, b]) == a + seq![','] + b,
{
    assert(seq![a, b].drop_last() =~= seq![a]);
}

} // verus!

verus! {

/// The first UTF-16 code unit of a character: the character itself in the
/// Basic Multilingual Plane, else its high surrogate.
pub open spec fn first_unit(c: char) -> int {
    if (c as u32) < 0x10000 {
        c as u32 as int
    } else {
        0xD800 + ((c as u32) - 0x10000) / 0x400
    }
}

/// Whether `c1` comes before `c2`: by code point, or, in UTF-16 order, by
/// their UTF-16 code units (the first unit, then, for two characters with the
/// same high surrogate, the code point).
pub open spec fn char_before(utf16: bool, c1: char, c2: char) -> bool {
    if utf16 && first_unit(c1) != first_unit(c2) {
        first_unit(c1) < first_unit(c2)
    } else {
        (c1 as u32) < (c2 as u32)
    }
}

/// Lexicographic order of keys, character by character: `a` is a proper
/// prefix of `b`, or at the first position where they differ `a`'s
/// character comes first.
pub open spec fn lexicographic_before(utf16: bool, a: Seq<char>, b: Seq<char>) -> bool {
    ||| a.len() < b.len() && b.subrange(0, a.len() as int) == a
    ||| exists|i: int|
        0 <= i < a.len() && i < b.len() && a.subrange(0, i) == b.subrange(0, i) && #[trigger] char_before(
            utf16,
            a[i],
            b[i],
        )
}

/// The rank of a character orders distinct characters as `char_before` does.
proof fn lemma_char_rank_order(utf16: bool, c1: char, c2: char)
    requires
        c1 != c2,
    ensures
        (char_rank(utf16, c1) < char_rank(utf16, c2)) == char_before(utf16, c1, c2),
{
    let x = c1 as u32;
    let y = c2 as u32;
    assert(x != y) by {
        vstd::utf8::char_u32_cast(c1, x);
        vstd::utf8::char_u32_cast(c2, y);
    }
    assert(!(0xD800 <= x <= 0xDFFF) && x <= 0x10FFFF);
    assert(!(0xD800 <= y <= 0xDFFF) && y <= 0x10FFFF);
    if x >= 0x10000 && y >= 0x10000 && x < y {
        assert((x - 0x10000) / 0x400 <= (y - 0x10000) / 0x400) by (nonlinear_arith)
            requires
                0x10000 <= x < y,
        ;
    }
    if x >= 0x10000 && y >= 0x10000 && y < x {
        assert((y - 0x10000) / 0x400 <= (x - 0x10000) / 0x400) by (nonlinear_arith)
            requires
                0x10000 <= y < x,
        ;
    }
    if x >= 0x10000 {
        assert((x - 0x10000) / 0x400 < 0x400) by (nonlinear_arith)
            requires
                0x10000 <= x <= 0x10FFFF,
        ;
    }
    if y >= 0x10000 {
        assert((y - 0x10000) / 0x400 < 0x400) by (nonlinear_arith)
            requires
                0x10000 <= y <= 0x10FFFF,
        ;
    }
}

/// Object keys are ordered lexicographically, character by character: by
/// code point, or in UTF-16 order by code units, so that in canonical
/// objects a character beyond U+FFFF (a surrogate pair) sorts before one
/// from U+E000 to U+FFFF.
pub proof fn law_key_order_is_lexicographic(utf16: bool, a: Seq<char>, b: Seq<char>)
    ensures
        key_order(utf16, a, b) == lexicographic_before(utf16, a, b),
    decreases a.len(),
{
    if a.len() == 0 {
        if b.len() > 0 {
            assert(b.subrange(0, 0) =~= a);
        }
    } else if b.len() == 0 {
    } else if a[0] != b[0] {
        lemma_char_rank_order(utf16, a[0], b[0]);
        if key_order(utf16, a, b) {
            assert(a.subrange(0, 0) =~= b.subrange(0, 0));
            assert(char_before(utf16, a[0], b[0]));
        }
        if lexicographic_before(utf16, a, b) {
            if a.len() < b.len() && b.subrange(0, a.len() as int) == a {
                assert(b.subrange(0, a.len() as int)[0] == b[0]);
            } else {
                let i = choose|i: int|
                    0 <= i < a.len() && i < b.len() && a.subrange(0, i) == b.subrange(0, i) && #[trigger] char_before(
                        utf16,
                        a[i],
                        b[i],
                    );
                if i > 0 {
                    assert(a.subrange(0, i)[0] == b.subrange(0, i)[0]);
                }
            }
        }
    } else {
        let a1 = a.drop_first();
        let b1 = b.drop_first();
        law_key_order_is_lexicographic(utf16, a1, b1);
        if lexicographic_before(utf16, a1, b1) {
            if a1.len() < b1.len() && b1.subrange(0, a1.len() as int) == a1 {
                assert(b.subrange(0, a.len() as int) =~= seq![b[0]] + b1.subrange(0, a1.len() as int));
                assert(a =~= seq![a[0]] + a1);
            } else {
                let i = choose|i: int|
                    0 <= i < a1.len() && i < b1.len() && a1.subrange(0, i) == b1.subrange(0, i) && #[trigger] char_before(
                        utf16,
                        a1[i],
                        b1[i],
                    );
                assert(a.subrange(0, i + 1) =~= seq![a[0]] + a1.subrange(0, i));
                assert(b.subrange(0, i + 1) =~= seq![b[0]] + b1.subrange(0, i));
                assert(a[i + 1] == a1[i] && b[i + 1] == b1[i]);
                assert(char_before(utf16, a[i + 1], b[i + 1]));
            }
        }
        if lexicographic_before(utf16, a, b) {
            if a.len() < b.len() && b.subrange(0, a.len() as int) == a {
                assert(b1.subrange(0, a1.len() as int) =~= b.subrange(0, a.len() as int).drop_first());
            } else {
                let i = choose|i: int|
                    0 <= i < a.len() && i < b.len() && a.subrange(0, i) == b.subrange(0, i) && #[trigger] char_before(
                        utf16,
                        a[i],
                        b[i],
                    );
                lemma_char_before_irreflexive(utf16, a[0]);
                assert(i > 0);
                assert(a1.subrange(0, i - 1) =~= a.subrange(0, i).drop_first());
                assert(b1.subrange(0, i - 1) =~= b.subrange(0, i).drop_first());
                assert(a1[i - 1] == a[i] && b1[i - 1] == b[i]);
                assert(char_before(utf16, a1[i - 1], b1[i - 1]));
            }
        }
    }
}

/// No character comes before itself.
proof fn lemma_char_before_irreflexive(utf16: bool, c: char)
    ensures
        !char_before(utf16, c, c),
{
}

/// The canonical text of an object lists its members in strictly increasing
/// UTF-16 key order (when no key repeats), as `"key":value`, separated by
/// commas, between braces; every member appears.
pub proof fn law_canon_object(m: Seq<(Seq<char>, JsonV)>)
    ensures
        ({
            let s = sorted_members(true, m);
            &&& canon(JsonV::Object(m)) == seq!['{'] + join(
                Seq::new(s.len(), |k: int| quote(s[k].0) + seq![':'] + canon(s[k].1)),
            ) + seq!['}']
            &&& s.len() == m.len()
            &&& forall|e: (Seq<char>, JsonV)| #[trigger] s.contains(e) <==> m.contains(e)
            &&& distinct_keys(m) ==> forall|i: int, j: int|
                0 <= i < j < s.len() ==> lexicographic_before(true, #[trigger] s[i].0, #[trigger] s[j].0)
        }),
{
    lemma_sorted_members(true, m);
    let s = sorted_members(true, m);
    let order = sort_order(true, keys_of(m), m.len());
    assert forall|k: int| 0 <= k < order.len() implies 0 <= #[trigger] order[k] < m.len() by {
        lemma_sort_order(true, keys_of(m), m.len());
        assert(order.contains(order[k]));
    }
    assert(object_parts(m) =~= Seq::new(s.len(), |k: int| quote(s[k].0) + seq![':'] + canon(s[k].1)));
    if distinct_keys(m) {
        assert forall|i: int, j: int| 0 <= i < j < s.len() implies lexicographic_before(true, #[trigger] s[i].0, #[trigger] s[j].0) by {
            law_key_order_is_lexicographic(true, s[i].0, s[j].0);
        }
    }
}

} // verus!
