//! Character-level helpers on strings.
use vstd::prelude::*;
use vstd::utf8::{decode_utf8, encode_utf8, valid_utf8};

verus! {

/// The characters of `s`, in order.
pub fn chars_of(s: &str) -> (out: Vec<char>)
    ensures
        out@ == s@,
{
    let mut out: Vec<char> = Vec::new();
    for c in it: s.chars()
        invariant
            out@ == it.seq().take(it.index() as int),
    {
        out.push(c);
    }
    out
}

} // verus!

verus! {

/// Appends one character; `String::push`. Claims that the string's characters
/// afterwards are the old ones followed by `c`.
#[verifier::external_body]
pub(crate) fn push_char(s: &mut String, c: char)
    ensures
        final(s)@ == old(s)@.push(c),
{
    s.push(c);
}

/// A string holding exactly the given characters.
pub fn string_of(cs: &[char]) -> (out: String)
    ensures
        out@ == cs@,
{
    let mut out = String::new();
    let mut i: usize = 0;
    while i < cs.len()
        invariant
            i <= cs@.len(),
            out@ == cs@.take(i as int),
        decreases cs@.len() - i,
    {
        push_char(&mut out, cs[i]);
        assert(cs@.take(i as int).push(cs@[i as int]) == cs@.take(i + 1));
        i = i + 1;
    }
    assert(cs@.take(cs@.len() as int) == cs@);
    out
}

} // verus!

verus! {

/// The index of the first `nl` at or after `from`, or the length if none.
pub open spec fn next_break<T>(s: Seq<T>, from: int, nl: T) -> int
    decreases s.len() - from,
{
    if from >= s.len() || from < 0 {
        s.len() as int
    } else if s[from] == nl {
        from
    } else {
        next_break(s, from + 1, nl)
    }
}

/// The lines of `s` from `from` on, split at `nl`; a line ended by `nl` also
/// loses one `cr` just before it; a last line without `nl` is kept only if
/// it is not empty.
pub open spec fn lines_from<T>(s: Seq<T>, from: int, nl: T, cr: T) -> Seq<Seq<T>>
    decreases s.len() - from,
{
    if from >= s.len() || from < 0 {
        Seq::empty()
    } else {
        let e = next_break(s, from, nl);
        let piece = s.subrange(from, e);
        let line = if e < s.len() && piece.len() > 0 && piece.last() == cr {
            piece.drop_last()
        } else {
            piece
        };
        if e < s.len() {
            proof {
                lemma_next_break(s, from, nl);
            }
            seq![line] + lines_from(s, e + 1, nl, cr)
        } else {
            seq![line]
        }
    }
}

pub proof fn lemma_next_break<T>(s: Seq<T>, from: int, nl: T)
    requires
        0 <= from <= s.len(),
    ensures
        from <= next_break(s, from, nl) <= s.len(),
        next_break(s, from, nl) < s.len() ==> s[next_break(s, from, nl)] == nl,
        forall|t: int| from <= t < next_break(s, from, nl) ==> s[t] != nl,
    decreases s.len() - from,
{
    if from < s.len() && s[from] != nl {
        lemma_next_break(s, from + 1, nl);
    }
}

/// The lines of a byte buffer as `BufRead::lines` reads them (before their
/// UTF-8 check).
pub open spec fn byte_lines(b: Seq<u8>) -> Seq<Seq<u8>> {
    lines_from(b, 0, 10u8, 13u8)
}

/// The lines of a text as `str::lines` yields them.
pub open spec fn text_lines(s: Seq<char>) -> Seq<Seq<char>> {
    lines_from(s, 0, '\n', '\r')
}

/// The lines of a byte buffer, split at LF; a CR before the LF is dropped.
pub fn split_byte_lines(b: &[u8]) -> (out: Vec<Vec<u8>>)
    ensures
        out@.len() == byte_lines(b@).len(),
        forall|i: int| 0 <= i < out@.len() ==> (#[trigger] out@[i])@ == byte_lines(b@)[i],
{
    let mut out: Vec<Vec<u8>> = Vec::new();
    let n = b.len();
    let mut from: usize = 0;
    while from < n
        invariant
            from <= n,
            n == b@.len(),
            byte_lines(b@) == out@.map_values(|v: Vec<u8>| v@) + lines_from(b@, from as int, 10u8, 13u8),
        decreases n - from,
    {
        let mut e = from;
        while e < n && b[e] != 10u8
            invariant
                from <= e <= n,
                n == b@.len(),
                next_break(b@, from as int, 10u8) == next_break(b@, e as int, 10u8),
            decreases n - e,
        {
            e = e + 1;
        }
        let mut line: Vec<u8> = Vec::new();
        let mut stop = e;
        if e < n && e > from && b[e - 1] == 13u8 {
            stop = e - 1;
        }
        let mut t = from;
        while t < stop
            invariant
                from <= t <= stop <= n,
                n == b@.len(),
                line@ == b@.subrange(from as int, t as int),
            decreases stop - t,
        {
            line.push(b[t]);
            assert(b@.subrange(from as int, t + 1) =~= b@.subrange(from as int, t as int).push(b@[t as int]));
            t = t + 1;
        }
        let ghost piece = b@.subrange(from as int, e as int);
        assert(line@ =~= (if e < n && piece.len() > 0 && piece.last() == 13u8 {
            piece.drop_last()
        } else {
            piece
        }));
        let ghost before = out@;
        out.push(line);
        assert(out@.map_values(|v: Vec<u8>| v@) =~= before.map_values(|v: Vec<u8>| v@).push(line@));
        if e < n {
            from = e + 1;
        } else {
            assert(lines_from(b@, (e + 1) as int, 10u8, 13u8) =~= Seq::<Seq<u8>>::empty());
            from = n;
            assert(byte_lines(b@) =~= out@.map_values(|v: Vec<u8>| v@) + lines_from(b@, from as int, 10u8, 13u8));
        }
    }
    out
}

/// The lines of a text, split at `\n`; a `\r` before the `\n` is dropped.
pub fn split_text_lines(s: &Vec<char>) -> (out: Vec<Vec<char>>)
    ensures
        out@.len() == text_lines(s@).len(),
        forall|i: int| 0 <= i < out@.len() ==> (#[trigger] out@[i])@ == text_lines(s@)[i],
{
    let mut out: Vec<Vec<char>> = Vec::new();
    let n = s.len();
    let mut from: usize = 0;
    while from < n
        invariant
            from <= n,
            n == s@.len(),
            text_lines(s@) == out@.map_values(|v: Vec<char>| v@) + lines_from(s@, from as int, '\n', '\r'),
        decreases n - from,
    {
        let mut e = from;
        while e < n && s[e] != '\n'
            invariant
                from <= e <= n,
                n == s@.len(),
                next_break(s@, from as int, '\n') == next_break(s@, e as int, '\n'),
            decreases n - e,
        {
            e = e + 1;
        }
        let mut line: Vec<char> = Vec::new();
        let mut stop = e;
        if e < n && e > from && s[e - 1] == '\r' {
            stop = e - 1;
        }
        let mut t = from;
        while t < stop
            invariant
                from <= t <= stop <= n,
                n == s@.len(),
                line@ == s@.subrange(from as int, t as int),
            decreases stop - t,
        {
            line.push(s[t]);
            assert(s@.subrange(from as int, t + 1) =~= s@.subrange(from as int, t as int).push(s@[t as int]));
            t = t + 1;
        }
        let ghost piece = s@.subrange(from as int, e as int);
        assert(line@ =~= (if e < n && piece.len() > 0 && piece.last() == '\r' {
            piece.drop_last()
        } else {
            piece
        }));
        let ghost before = out@;
        out.push(line);
        assert(out@.map_values(|v: Vec<char>| v@) =~= before.map_values(|v: Vec<char>| v@).push(line@));
        if e < n {
            from = e + 1;
        } else {
            assert(lines_from(s@, (e + 1) as int, '\n', '\r') =~= Seq::<Seq<char>>::empty());
            from = n;
            assert(text_lines(s@) =~= out@.map_values(|v: Vec<char>| v@) + lines_from(s@, from as int, '\n', '\r'));
        }
    }
    out
}

} // verus!

verus! {

/// The Unicode `White_Space` characters, which `char::is_whitespace` tests for.
pub open spec fn is_white_space(c: char) -> bool {
    let u = c as u32;
    (0x09 <= u <= 0x0D) || u == 0x20 || u == 0x85 || u == 0xA0 || u == 0x1680 || (0x2000 <= u
        <= 0x200A) || u == 0x2028 || u == 0x2029 || u == 0x202F || u == 0x205F || u == 0x3000
}

/// Whether `c` is Unicode white space.
pub fn white_space(c: char) -> (b: bool)
    ensures
        b == is_white_space(c),
{
    let u = c as u32;
    (0x09 <= u && u <= 0x0D) || u == 0x20 || u == 0x85 || u == 0xA0 || u == 0x1680 || (0x2000 <= u
        && u <= 0x200A) || u == 0x2028 || u == 0x2029 || u == 0x202F || u == 0x205F || u == 0x3000
}

/// `s` without its leading white space.
pub open spec fn trim_start(s: Seq<char>) -> Seq<char>
    decreases s.len(),
{
    if s.len() > 0 && is_white_space(s[0]) {
        trim_start(s.drop_first())
    } else {
        s
    }
}

/// `s` without its trailing white space.
pub open spec fn trim_end(s: Seq<char>) -> Seq<char>
    decreases s.len(),
{
    if s.len() > 0 && is_white_space(s.last()) {
        trim_end(s.drop_last())
    } else {
        s
    }
}

/// `s` without leading and trailing white space, as `str::trim` gives it.
pub open spec fn trim(s: Seq<char>) -> Seq<char> {
    trim_end(trim_start(s))
}

/// The characters of `s` without leading and trailing white space.
pub fn trim_chars(s: &Vec<char>) -> (out: Vec<char>)
    ensures
        out@ == trim(s@),
{
    let n = s.len();
    let mut i: usize = 0;
    assert(s@.skip(0) =~= s@);
    while i < n && white_space(s[i])
        invariant
            i <= n,
            n == s@.len(),
            trim_start(s@) == trim_start(s@.skip(i as int)),
        decreases n - i,
    {
        assert(s@.skip(i as int).drop_first() =~= s@.skip(i + 1));
        i = i + 1;
    }
    assert(trim_start(s@) == s@.skip(i as int));
    let mut j: usize = n;
    assert(s@.skip(i as int) =~= s@.subrange(i as int, n as int));
    while j > i && white_space(s[j - 1])
        invariant
            i <= j <= n,
            n == s@.len(),
            trim_end(s@.skip(i as int)) == trim_end(s@.subrange(i as int, j as int)),
        decreases j,
    {
        assert(s@.subrange(i as int, j as int).drop_last() =~= s@.subrange(i as int, j - 1));
        j = j - 1;
    }
    let mut out: Vec<char> = Vec::new();
    let mut t = i;
    while t < j
        invariant
            i <= t <= j <= n,
            n == s@.len(),
            out@ == s@.subrange(i as int, t as int),
        decreases j - t,
    {
        out.push(s[t]);
        assert(s@.subrange(i as int, t + 1) =~= s@.subrange(i as int, t as int).push(s@[t as int]));
        t = t + 1;
    }
    out
}

/// `std::str::from_utf8`. Claims that it accepts exactly the valid UTF-8
/// byte sequences, and that the text it gives decodes them.
#[verifier::external_body]
pub(crate) fn utf8_text(bytes: &[u8]) -> (text: Option<&str>)
    ensures
        match text {
            Some(t) => valid_utf8(bytes@) && t@ == decode_utf8(bytes@),
            None => !valid_utf8(bytes@),
        },
{
    std::str::from_utf8(bytes).ok()
}

/// Whether `s` begins with `prefix`.
pub open spec fn has_prefix(s: Seq<char>, prefix: Seq<char>) -> bool {
    prefix.len() <= s.len() && s.subrange(0, prefix.len() as int) == prefix
}

/// `s.strip_prefix(prefix)`.
pub open spec fn strip_prefix(s: Seq<char>, prefix: Seq<char>) -> Option<Seq<char>> {
    if has_prefix(s, prefix) {
        Some(s.skip(prefix.len() as int))
    } else {
        None
    }
}

/// The characters of `s` after `prefix`, if `s` begins with it.
pub fn strip_prefix_chars(s: &Vec<char>, prefix: &Vec<char>) -> (out: Option<Vec<char>>)
    ensures
        match out {
            Some(rest) => strip_prefix(s@, prefix@) == Some(rest@),
            None => strip_prefix(s@, prefix@) is None,
        },
{
    if prefix.len() > s.len() {
        return None;
    }
    let mut i: usize = 0;
    while i < prefix.len()
        invariant
            i <= prefix@.len() <= s@.len(),
            s@.subrange(0, i as int) == prefix@.subrange(0, i as int),
        decreases prefix@.len() - i,
    {
        if s[i] != prefix[i] {
            assert(s@.subrange(0, prefix@.len() as int)[i as int] != prefix@[i as int]);
            return None;
        }
        assert(s@.subrange(0, i + 1) =~= s@.subrange(0, i as int).push(s@[i as int]));
        assert(prefix@.subrange(0, i + 1) =~= prefix@.subrange(0, i as int).push(prefix@[i as int]));
        i = i + 1;
    }
    assert(prefix@.subrange(0, prefix@.len() as int) =~= prefix@);
    let mut rest: Vec<char> = Vec::new();
    let mut t = prefix.len();
    while t < s.len()
        invariant
            prefix@.len() <= t <= s@.len(),
            rest@ == s@.subrange(prefix@.len() as int, t as int),
        decreases s@.len() - t,
    {
        rest.push(s[t]);
        assert(s@.subrange(prefix@.len() as int, t + 1) =~= s@.subrange(prefix@.len() as int, t as int).push(s@[t as int]));
        t = t + 1;
    }
    assert(rest@ =~= s@.skip(prefix@.len() as int));
    Some(rest)
}

/// Whether two character sequences are equal.
pub fn chars_eq(a: &Vec<char>, b: &Vec<char>) -> (eq: bool)
    ensures
        eq == (a@ == b@),
{
    if a.len() != b.len() {
        return false;
    }
    let mut i: usize = 0;
    while i < a.len()
        invariant
            i <= a@.len() == b@.len(),
            forall|t: int| 0 <= t < i ==> a@[t] == b@[t],
        decreases a@.len() - i,
    {
        if a[i] != b[i] {
            return false;
        }
        i = i + 1;
    }
    assert(a@ =~= b@);
    true
}

} // verus!

verus! {

/// The bytes of one encoded character that is not a C0 control character
/// are not C0 control bytes either.
proof fn lemma_scalar_bytes(c: u32)
    requires
        c >= 0x20,
        vstd::utf8::is_scalar(c),
    ensures
        forall|j: int| 0 <= j < vstd::utf8::encode_scalar(c).len() ==> #[trigger] vstd::utf8::encode_scalar(c)[j] >= 0x20,
{
    if c <= 0x7F {
        assert(((c & 0x7F) as u8) >= 0x20) by (bit_vector)
            requires
                0x20 <= c <= 0x7F,
        ;
    } else {
        assert((0xC0 | ((c >> 6) & 0x1F) as u8) >= 0x80u8) by (bit_vector);
        assert((0xE0 | ((c >> 12) & 0x0F) as u8) >= 0x80u8) by (bit_vector);
        assert((0xF0 | ((c >> 18) & 0x7) as u8) >= 0x80u8) by (bit_vector);
        assert((0x80 | (c & 0x3F) as u8) >= 0x80u8) by (bit_vector);
        assert((0x80 | ((c >> 6) & 0x3F) as u8) >= 0x80u8) by (bit_vector);
        assert((0x80 | ((c >> 12) & 0x3F) as u8) >= 0x80u8) by (bit_vector);
    }
}

/// Text without C0 control characters encodes to bytes without them: no LF
/// and no CR.
pub proof fn lemma_encode_no_control(chars: Seq<char>)
    requires
        forall|i: int| 0 <= i < chars.len() ==> (#[trigger] chars[i] as u32) >= 0x20,
    ensures
        forall|j: int| 0 <= j < encode_utf8(chars).len() ==> #[trigger] encode_utf8(chars)[j] >= 0x20,
    decreases chars.len(),
{
    if chars.len() > 0 {
        let rest = chars.drop_first();
        assert forall|i: int| 0 <= i < rest.len() implies (#[trigger] rest[i] as u32) >= 0x20 by {
            assert(rest[i] == chars[i + 1]);
        }
        lemma_encode_no_control(rest);
        vstd::utf8::char_is_scalar(chars[0]);
        lemma_scalar_bytes(chars[0] as u32);
        let head = vstd::utf8::encode_scalar(chars[0] as u32);
        let tail = encode_utf8(rest);
        assert(encode_utf8(chars) == head + tail);
        assert forall|j: int| 0 <= j < encode_utf8(chars).len() implies #[trigger] encode_utf8(chars)[j] >= 0x20 by {
            if j < head.len() {
                assert((head + tail)[j] == head[j]);
            } else {
                assert((head + tail)[j] == tail[j - head.len()]);
            }
        }
    }
}

proof fn lemma_next_break_prefix(e: Seq<u8>, t: Seq<u8>, from: int)
    requires
        0 <= from < e.len(),
        e.last() == 10u8,
    ensures
        next_break(e + t, from, 10u8) == next_break(e, from, 10u8),
    decreases e.len() - from,
{
    let s = e + t;
    assert(s[from] == e[from]);
    if e[from] != 10u8 {
        if from + 1 < e.len() {
            lemma_next_break_prefix(e, t, from + 1);
        } else {
            assert(from == e.len() - 1);
        }
    }
}

proof fn lemma_lines_append_from(e: Seq<u8>, l: Seq<u8>, from: int)
    requires
        0 <= from <= e.len(),
        from == e.len() || e.last() == 10u8,
        from == 0 || e[from - 1] == 10u8,
        l.len() > 0,
        l.last() != 13u8,
        forall|j: int| 0 <= j < l.len() ==> #[trigger] l[j] != 10u8,
    ensures
        lines_from(e + l.push(10u8), from, 10u8, 13u8) == lines_from(e, from, 10u8, 13u8).push(l),
    decreases e.len() - from,
{
    let s = e + l.push(10u8);
    if from == e.len() {
        lemma_next_break(s, from, 10u8);
        assert(s[(e.len() + l.len()) as int] == 10u8);
        let nb = next_break(s, from, 10u8);
        assert forall|t: int| from <= t < from + l.len() implies s[t] != 10u8 by {
            assert(s[t] == l[t - from]);
        }
        assert(nb == from + l.len());
        assert(s.subrange(from, nb) =~= l);
        assert(lines_from(s, nb + 1, 10u8, 13u8) == Seq::<Seq<u8>>::empty());
        assert(lines_from(e, from, 10u8, 13u8) == Seq::<Seq<u8>>::empty());
        assert(lines_from(s, from, 10u8, 13u8) =~= seq![l]);
    } else {
        lemma_next_break_prefix(e, l.push(10u8), from);
        lemma_next_break(e, from, 10u8);
        let nb = next_break(e, from, 10u8);
        assert(nb < e.len()) by {
            if nb == e.len() {
                assert(e[e.len() - 1] != 10u8);
            }
        }
        assert(s.subrange(from, nb) =~= e.subrange(from, nb));
        lemma_lines_append_from(e, l, nb + 1);
        let piece = e.subrange(from, nb);
        let line = if piece.len() > 0 && piece.last() == 13u8 {
            piece.drop_last()
        } else {
            piece
        };
        assert(lines_from(s, from, 10u8, 13u8) == seq![line] + lines_from(s, nb + 1, 10u8, 13u8));
        assert(lines_from(e, from, 10u8, 13u8) == seq![line] + lines_from(e, nb + 1, 10u8, 13u8));
        assert(lines_from(s, from, 10u8, 13u8) =~= lines_from(e, from, 10u8, 13u8).push(l));
    }
}

/// Appending a line and its LF to bytes that end at a line break (or are
/// empty) adds exactly that line.
pub proof fn lemma_byte_lines_append(e: Seq<u8>, l: Seq<u8>)
    requires
        e.len() == 0 || e.last() == 10u8,
        l.len() > 0,
        l.last() != 13u8,
        forall|j: int| 0 <= j < l.len() ==> #[trigger] l[j] != 10u8,
    ensures
        byte_lines(e + l.push(10u8)) == byte_lines(e).push(l),
{
    lemma_lines_append_from(e, l, 0);
}

/// Text that begins and ends with characters other than white space is its
/// own trimmed form.
pub proof fn lemma_trim_unchanged(s: Seq<char>)
    requires
        s.len() > 0,
        !is_white_space(s[0]),
        !is_white_space(s.last()),
    ensures
        trim(s) == s,
{
    assert(trim_start(s) == s);
    assert(trim_end(s) == s);
}

} // verus!

verus! {

/// Splitting into lines gives no more lines than there are bytes.
pub proof fn lemma_lines_count<T>(s: Seq<T>, from: int, nl: T, cr: T)
    requires
        0 <= from <= s.len(),
    ensures
        lines_from(s, from, nl, cr).len() <= s.len() - from,
    decreases s.len() - from,
{
    if from < s.len() {
        lemma_next_break(s, from, nl);
        let e = next_break(s, from, nl);
        if e < s.len() {
            lemma_lines_count(s, e + 1, nl, cr);
        }
    }
}

} // verus!

verus! {

/// Trimming keeps a contiguous part of the text: everything cut before and
/// after it is white space, and it neither starts nor ends with white space.
pub proof fn law_trim(s: Seq<char>)
    ensures
        exists|a: int, b: int|
            #![trigger s.subrange(a, b)]
            0 <= a <= b <= s.len() && trim(s) == s.subrange(a, b) && (forall|i: int|
                0 <= i < a ==> is_white_space(#[trigger] s[i])) && (forall|i: int|
                b <= i < s.len() ==> is_white_space(#[trigger] s[i])),
        trim(s).len() == 0 || (!is_white_space(trim(s)[0]) && !is_white_space(trim(s).last())),
{
    let (a, t) = lemma_trim_start_cut(s);
    let b = lemma_trim_end_cut(t);
    assert(s.subrange(a, a + b) =~= t.subrange(0, b));
    assert forall|i: int| a + b <= i < s.len() implies is_white_space(#[trigger] s[i]) by {
        assert(s[i] == t[i - a]);
    }
    assert(trim(s) == s.subrange(a, a + b));
    let tt = trim(s);
    if tt.len() > 0 {
        assert(tt[0] == t[0]);
    }
}

/// Where `trim_start` cuts: after `a` white-space characters.
proof fn lemma_trim_start_cut(s: Seq<char>) -> (r: (int, Seq<char>))
    ensures
        0 <= r.0 <= s.len(),
        r.1 == trim_start(s),
        r.1 == s.skip(r.0),
        forall|i: int| 0 <= i < r.0 ==> is_white_space(#[trigger] s[i]),
        r.1.len() == 0 || !is_white_space(r.1[0]),
    decreases s.len(),
{
    if s.len() > 0 && is_white_space(s[0]) {
        let (a, t) = lemma_trim_start_cut(s.drop_first());
        assert(s.skip(a + 1) =~= s.drop_first().skip(a));
        assert forall|i: int| 0 <= i < a + 1 implies is_white_space(#[trigger] s[i]) by {
            if i > 0 {
                assert(s[i] == s.drop_first()[i - 1]);
            }
        }
        (a + 1, t)
    } else {
        assert(s.skip(0) =~= s);
        (0, s)
    }
}

/// Where `trim_end` cuts: after its first `b` characters.
proof fn lemma_trim_end_cut(s: Seq<char>) -> (b: int)
    ensures
        0 <= b <= s.len(),
        trim_end(s) == s.subrange(0, b),
        forall|i: int| b <= i < s.len() ==> is_white_space(#[trigger] s[i]),
        b == 0 || !is_white_space(s[b - 1]),
    decreases s.len(),
{
    if s.len() > 0 && is_white_space(s.last()) {
        let b = lemma_trim_end_cut(s.drop_last());
        assert(s.drop_last().subrange(0, b) =~= s.subrange(0, b));
        assert forall|i: int| b <= i < s.len() implies is_white_space(#[trigger] s[i]) by {
            if i < s.len() - 1 {
                assert(s[i] == s.drop_last()[i]);
            }
        }
        b
    } else {
        assert(s.subrange(0, s.len() as int) =~= s);
        s.len() as int
    }
}

/// Stripping a prefix gives the rest of the text exactly when the text is
/// the prefix followed by that rest.
pub proof fn law_strip_prefix(s: Seq<char>, prefix: Seq<char>, rest: Seq<char>)
    ensures
        (strip_prefix(s, prefix) == Some(rest)) <==> (s == prefix + rest),
{
    if s == prefix + rest {
        assert(s.subrange(0, prefix.len() as int) =~= prefix);
        assert(s.skip(prefix.len() as int) =~= rest);
    }
    if strip_prefix(s, prefix) == Some(rest) {
        assert(s =~= prefix + rest);
    }
}

} // verus!
