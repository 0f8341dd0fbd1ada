//! ULIDs: a 48-bit millisecond timestamp and 80 random bits, written as 26
//! Crockford base-32 digits, most significant first.
use vstd::prelude::*;
use crate::jcs::key_lt;
use crate::text::string_of;

verus! {

/// The Crockford base-32 alphabet, in ascending code-point order.
pub open spec fn crockford() -> Seq<char> {
    seq![
        '0', '1', '2', '3', '4', '5', '6', '7', '8', '9', 'A', 'B', 'C', 'D', 'E', 'F',
        'G', 'H', 'J', 'K', 'M', 'N', 'P', 'Q', 'R', 'S', 'T', 'V', 'W', 'X', 'Y', 'Z',
    ]
}

/// The last `n` base-32 digits of `v`, most significant first.
pub open spec fn base32(v: nat, n: nat) -> Seq<char>
    decreases n,
{
    if n == 0 {
        Seq::empty()
    } else {
        base32(v / 32, (n - 1) as nat).push(crockford()[(v % 32) as int])
    }
}

/// The big-endian number that bytes spell.
pub open spec fn be_value(bytes: Seq<u8>) -> nat
    decreases bytes.len(),
{
    if bytes.len() == 0 {
        0
    } else {
        be_value(bytes.drop_last()) * 256 + bytes.last() as nat
    }
}

/// 2 to the 80.
pub open spec fn two_pow_80() -> nat {
    0x1_0000_0000_0000_0000_0000
}

/// 2 to the 48.
pub open spec fn two_pow_48() -> nat {
    0x1_0000_0000_0000
}

/// The 128-bit value of a ULID: the low 48 bits of the timestamp above the
/// low 80 bits of the random part.
pub open spec fn ulid_value(ts_ms: nat, random: nat) -> nat {
    (ts_ms % two_pow_48()) * two_pow_80() + random % two_pow_80()
}

/// The text of the ULID made of a timestamp and ten random bytes.
pub open spec fn ulid_text(ts_ms: nat, random: Seq<u8>) -> Seq<char> {
    base32(ulid_value(ts_ms, be_value(random)), 26)
}

/// The character set of ULIDs.
pub open spec fn all_crockford(s: Seq<char>) -> bool {
    forall|i: int| 0 <= i < s.len() ==> crockford().contains(#[trigger] s[i])
}

/// The Crockford digit for `d < 32`.
fn crockford_digit(d: u128) -> (c: char)
    requires
        d < 32,
    ensures
        c == crockford()[d as int],
{
    let alphabet: [char; 32] = [
        '0', '1', '2', '3', '4', '5', '6', '7', '8', '9', 'A', 'B', 'C', 'D', 'E', 'F',
        'G', 'H', 'J', 'K', 'M', 'N', 'P', 'Q', 'R', 'S', 'T', 'V', 'W', 'X', 'Y', 'Z',
    ];
    assert(alphabet@ =~= crockford());
    alphabet[d as usize]
}

fn push_base32(out: &mut Vec<char>, v: u128, n: usize)
    ensures
        final(out)@ == old(out)@ + base32(v as nat, n as nat),
    decreases n,
{
    if n > 0 {
        push_base32(out, v / 32, n - 1);
        let c = crockford_digit(v % 32);
        out.push(c);
    }
    assert(final(out)@ =~= old(out)@ + base32(v as nat, n as nat));
}

proof fn lemma_base32_len_and_chars(v: nat, n: nat)
    ensures
        base32(v, n).len() == n,
        all_crockford(base32(v, n)),
    decreases n,
{
    if n > 0 {
        lemma_base32_len_and_chars(v / 32, (n - 1) as nat);
        let s = base32(v, n);
        assert forall|i: int| 0 <= i < s.len() implies crockford().contains(#[trigger] s[i]) by {
            if i == s.len() - 1 {
                assert(crockford()[(v % 32) as int] == s[i]);
            } else {
                assert(s[i] == base32(v / 32, (n - 1) as nat)[i]);
            }
        }
    }
}

/// The ULID made of a millisecond timestamp and ten random bytes: the low 48
/// bits of the timestamp, then the 80 random bits, as 26 Crockford digits.
pub fn ulid_from_parts(ts_ms: u128, random: [u8; 10]) -> (id: String)
    ensures
        id@ == ulid_text(ts_ms as nat, random@),
        id@.len() == 26,
        all_crockford(id@),
{
    let mut acc: u128 = 0;
    let mut i: usize = 0;
    while i < 10
        invariant
            i <= 10,
            acc as nat == be_value(random@.take(i as int)),
            acc < pow256(i as nat),
        decreases 10 - i,
    {
        assert(random@.take(i + 1).drop_last() =~= random@.take(i as int));
        proof {
            lemma_pow256_step(i as nat);
        }
        acc = acc * 256 + random[i] as u128;
        i = i + 1;
    }
    assert(random@.take(10) =~= random@);
    proof {
        lemma_pow256_ten();
    }
    let high: u128 = ts_ms % 0x1_0000_0000_0000;
    let value: u128 = high * 0x1_0000_0000_0000_0000_0000 + acc;
    proof {
        lemma_pow256_ten();
        assert(value as nat == ulid_value(ts_ms as nat, be_value(random@)));
    }
    let mut digits: Vec<char> = Vec::new();
    push_base32(&mut digits, value, 26);
    proof {
        lemma_base32_len_and_chars(value as nat, 26);
        assert(digits@ =~= base32(value as nat, 26));
    }
    string_of(digits.as_slice())
}

/// 256 to the `n`.
pub open spec fn pow256(n: nat) -> nat
    decreases n,
{
    if n == 0 {
        1
    } else {
        256 * pow256((n - 1) as nat)
    }
}

proof fn lemma_pow256_step(i: nat)
    requires
        i < 10,
    ensures
        pow256(i + 1) == 256 * pow256(i),
        pow256(i + 1) <= two_pow_80(),
    decreases i,
{
    lemma_pow256_ten();
    assert(pow256(9) * 256 == pow256(10));
    lemma_pow256_monotone(i + 1, 10);
}

proof fn lemma_pow256_ten()
    ensures
        pow256(10) == two_pow_80(),
{
    reveal_with_fuel(pow256, 11);
}

proof fn lemma_pow256_monotone(a: nat, b: nat)
    requires
        a <= b,
    ensures
        pow256(a) <= pow256(b),
    decreases b,
{
    if a < b {
        lemma_pow256_monotone(a, (b - 1) as nat);
        assert(pow256(b) == 256 * pow256((b - 1) as nat));
    }
}

} // verus!

verus! {

/// 32 to the `k`.
pub open spec fn pow32(k: nat) -> nat
    decreases k,
{
    if k == 0 {
        1
    } else {
        32 * pow32((k - 1) as nat)
    }
}

proof fn lemma_pow32_positive(k: nat)
    ensures
        pow32(k) > 0,
    decreases k,
{
    if k > 0 {
        lemma_pow32_positive((k - 1) as nat);
    }
}

proof fn lemma_pow32_sixteen()
    ensures
        pow32(16) == two_pow_80(),
{
    reveal_with_fuel(pow32, 17);
}

/// The first `n` of `n + k` digits are the digits of `v / 32^k`.
proof fn lemma_base32_prefix(v: nat, n: nat, k: nat)
    ensures
        base32(v, n + k).take(n as int) == base32(v / pow32(k), n),
    decreases k,
{
    lemma_base32_len_and_chars(v, n + k);
    if k == 0 {
        assert(pow32(0) == 1);
        assert(v / 1 == v);
        assert(base32(v, n).take(n as int) =~= base32(v, n));
    } else {
        let w = v / 32;
        lemma_base32_prefix(w, n, (k - 1) as nat);
        lemma_base32_len_and_chars(w, (n + k - 1) as nat);
        assert(base32(v, n + k) == base32(w, (n + k - 1) as nat).push(crockford()[(v % 32) as int]));
        assert(base32(v, n + k).take(n as int) =~= base32(w, (n + k - 1) as nat).take(n as int));
        lemma_pow32_positive((k - 1) as nat);
        vstd::arithmetic::div_mod::lemma_div_denominator(v as int, 32, pow32((k - 1) as nat) as int);
        assert(pow32(k) == 32 * pow32((k - 1) as nat));
        assert(w / pow32((k - 1) as nat) == v / pow32(k));
    }
}

proof fn lemma_crockford_ascending(d1: int, d2: int)
    requires
        0 <= d1 < d2 < 32,
    ensures
        (crockford()[d1] as u32) < (crockford()[d2] as u32),
    decreases d2 - d1,
{
    if d2 > d1 + 1 {
        lemma_crockford_ascending(d1, d2 - 1);
        lemma_crockford_ascending(d2 - 1, d2);
    } else {
        let c = crockford();
        if d1 == 0 { assert((c[0] as u32) < (c[1] as u32)); }
        else if d1 == 1 { assert((c[1] as u32) < (c[2] as u32)); }
        else if d1 == 2 { assert((c[2] as u32) < (c[3] as u32)); }
        else if d1 == 3 { assert((c[3] as u32) < (c[4] as u32)); }
        else if d1 == 4 { assert((c[4] as u32) < (c[5] as u32)); }
        else if d1 == 5 { assert((c[5] as u32) < (c[6] as u32)); }
        else if d1 == 6 { assert((c[6] as u32) < (c[7] as u32)); }
        else if d1 == 7 { assert((c[7] as u32) < (c[8] as u32)); }
        else if d1 == 8 { assert((c[8] as u32) < (c[9] as u32)); }
        else if d1 == 9 { assert((c[9] as u32) < (c[10] as u32)); }
        else if d1 == 10 { assert((c[10] as u32) < (c[11] as u32)); }
        else if d1 == 11 { assert((c[11] as u32) < (c[12] as u32)); }
        else if d1 == 12 { assert((c[12] as u32) < (c[13] as u32)); }
        else if d1 == 13 { assert((c[13] as u32) < (c[14] as u32)); }
        else if d1 == 14 { assert((c[14] as u32) < (c[15] as u32)); }
        else if d1 == 15 { assert((c[15] as u32) < (c[16] as u32)); }
        else if d1 == 16 { assert((c[16] as u32) < (c[17] as u32)); }
        else if d1 == 17 { assert((c[17] as u32) < (c[18] as u32)); }
        else if d1 == 18 { assert((c[18] as u32) < (c[19] as u32)); }
        else if d1 == 19 { assert((c[19] as u32) < (c[20] as u32)); }
        else if d1 == 20 { assert((c[20] as u32) < (c[21] as u32)); }
        else if d1 == 21 { assert((c[21] as u32) < (c[22] as u32)); }
        else if d1 == 22 { assert((c[22] as u32) < (c[23] as u32)); }
        else if d1 == 23 { assert((c[23] as u32) < (c[24] as u32)); }
        else if d1 == 24 { assert((c[24] as u32) < (c[25] as u32)); }
        else if d1 == 25 { assert((c[25] as u32) < (c[26] as u32)); }
        else if d1 == 26 { assert((c[26] as u32) < (c[27] as u32)); }
        else if d1 == 27 { assert((c[27] as u32) < (c[28] as u32)); }
        else if d1 == 28 { assert((c[28] as u32) < (c[29] as u32)); }
        else if d1 == 29 { assert((c[29] as u32) < (c[30] as u32)); }
        else { assert((c[30] as u32) < (c[31] as u32)); }
    }
}

proof fn lemma_key_lt_push_same_len(a: Seq<char>, b: Seq<char>, x: char, y: char)
    requires
        a.len() == b.len(),
        key_lt(a, b),
    ensures
        key_lt(a.push(x), b.push(y)),
    decreases a.len(),
{
    if a.len() > 0 && a[0] == b[0] {
        lemma_key_lt_push_same_len(a.drop_first(), b.drop_first(), x, y);
        assert(a.push(x).drop_first() =~= a.drop_first().push(x));
        assert(b.push(y).drop_first() =~= b.drop_first().push(y));
    }
}

proof fn lemma_key_lt_push_last(a: Seq<char>, x: char, y: char)
    requires
        (x as u32) < (y as u32),
    ensures
        key_lt(a.push(x), a.push(y)),
    decreases a.len(),
{
    if a.len() > 0 {
        lemma_key_lt_push_last(a.drop_first(), x, y);
        assert(a.push(x).drop_first() =~= a.drop_first().push(x));
        assert(a.push(y).drop_first() =~= a.drop_first().push(y));
    } else {
        assert(a.push(x)[0] == x && a.push(y)[0] == y);
        vstd::utf8::char_u32_cast(x, x as u32);
        vstd::utf8::char_u32_cast(y, y as u32);
    }
}

/// Base-32 text of a fixed width orders numbers as their values do.
pub proof fn lemma_base32_order(v1: nat, v2: nat, n: nat)
    requires
        v1 < v2 < pow32(n),
    ensures
        key_lt(base32(v1, n), base32(v2, n)),
    decreases n,
{
    if n == 0 {
    } else {
        let q1 = v1 / 32;
        let q2 = v2 / 32;
        lemma_base32_len_and_chars(q1, (n - 1) as nat);
        lemma_base32_len_and_chars(q2, (n - 1) as nat);
        assert(q2 < pow32((n - 1) as nat));
        if q1 < q2 {
            lemma_base32_order(q1, q2, (n - 1) as nat);
            lemma_key_lt_push_same_len(
                base32(q1, (n - 1) as nat),
                base32(q2, (n - 1) as nat),
                crockford()[(v1 % 32) as int],
                crockford()[(v2 % 32) as int],
            );
        } else {
            assert(v1 % 32 < v2 % 32);
            lemma_crockford_ascending((v1 % 32) as int, (v2 % 32) as int);
            lemma_key_lt_push_last(
                base32(q1, (n - 1) as nat),
                crockford()[(v1 % 32) as int],
                crockford()[(v2 % 32) as int],
            );
        }
    }
}

/// The first ten characters of a ULID are the base-32 digits of the low 48
/// bits of its timestamp; the random bytes do not touch them.
pub proof fn law_ulid_prefix_is_timestamp(ts_ms: nat, random: Seq<u8>)
    ensures
        ulid_text(ts_ms, random).take(10) == base32(ts_ms % two_pow_48(), 10),
{
    let v = ulid_value(ts_ms, be_value(random));
    lemma_base32_prefix(v, 10, 16);
    lemma_pow32_sixteen();
    vstd::arithmetic::div_mod::lemma_fundamental_div_mod_converse_div(
        v as int,
        two_pow_80() as int,
        (ts_ms % two_pow_48()) as int,
        (be_value(random) % two_pow_80()) as int,
    );
}

/// ULIDs taken at non-decreasing times (below 2^48 ms) have non-decreasing
/// timestamp prefixes in string order, whatever their random parts.
pub proof fn law_ulid_prefix_monotone(ts1: nat, ts2: nat, r1: Seq<u8>, r2: Seq<u8>)
    requires
        ts1 <= ts2 < two_pow_48(),
    ensures
        !key_lt(ulid_text(ts2, r2).take(10), ulid_text(ts1, r1).take(10)),
{
    law_ulid_prefix_is_timestamp(ts1, r1);
    law_ulid_prefix_is_timestamp(ts2, r2);
    if ts1 < ts2 {
        reveal_with_fuel(pow32, 11);
        lemma_base32_order(ts1, ts2, 10);
        crate::jcs::lemma_key_lt_total(base32(ts1, 10), base32(ts2, 10));
    } else {
        crate::jcs::lemma_key_lt_irreflexive(base32(ts1, 10));
    }
}

/// A ULID taken at a later millisecond (below 2^48 ms) sorts after one taken
/// earlier, in string order, whatever their random parts.
pub proof fn law_ulid_order_follows_time(ts1: nat, ts2: nat, r1: Seq<u8>, r2: Seq<u8>)
    requires
        ts1 < ts2 < two_pow_48(),
    ensures
        key_lt(ulid_text(ts1, r1), ulid_text(ts2, r2)),
{
    let p = two_pow_80();
    let low1 = be_value(r1) % p;
    let low2 = be_value(r2) % p;
    vstd::arithmetic::div_mod::lemma_small_mod(ts1, two_pow_48());
    vstd::arithmetic::div_mod::lemma_small_mod(ts2, two_pow_48());
    let v1 = ulid_value(ts1, be_value(r1));
    let v2 = ulid_value(ts2, be_value(r2));
    assert(v1 == ts1 * p + low1);
    assert(v2 == ts2 * p + low2);
    assert(ts1 * p + p <= ts2 * p) by (nonlinear_arith)
        requires
            ts1 + 1 <= ts2,
            p > 0,
    ;
    assert(ts2 * p + p <= two_pow_48() * p) by (nonlinear_arith)
        requires
            ts2 + 1 <= two_pow_48(),
            p > 0,
    ;
    assert(v1 < v2);
    reveal_with_fuel(pow32, 27);
    assert(pow32(26) > 0x1_0000_0000_0000_0000_0000_0000_0000_0000);
    assert(v2 < pow32(26));
    lemma_base32_order(v1, v2, 26);
}

/// Different timestamps (modulo 2^48) or different random bytes give
/// different ULIDs.
pub proof fn law_ulid_injective(ts1: nat, ts2: nat, r1: Seq<u8>, r2: Seq<u8>)
    requires
        ulid_value(ts1, be_value(r1)) != ulid_value(ts2, be_value(r2)),
    ensures
        ulid_text(ts1, r1) != ulid_text(ts2, r2),
{
    let v1 = ulid_value(ts1, be_value(r1));
    let v2 = ulid_value(ts2, be_value(r2));
    assert(v1 < 0x1_0000_0000_0000_0000_0000_0000_0000_0000);
    assert(v2 < 0x1_0000_0000_0000_0000_0000_0000_0000_0000);
    reveal_with_fuel(pow32, 27);
    assert(pow32(26) > 0x1_0000_0000_0000_0000_0000_0000_0000_0000);
    if v1 < v2 {
        lemma_base32_order(v1, v2, 26);
        crate::jcs::lemma_key_lt_irreflexive(base32(v1, 26));
    } else {
        lemma_base32_order(v2, v1, 26);
        crate::jcs::lemma_key_lt_irreflexive(base32(v2, 26));
    }
}

} // verus!

verus! {

/// `rand::random::<u8>()`: a random byte. Nothing is claimed of its value.
#[verifier::external_body]
fn random_byte() -> u8 {
    rand::random::<u8>()
}

/// Milliseconds since the Unix epoch on the system clock
/// (`SystemTime::now().duration_since(UNIX_EPOCH)`, as milliseconds); `None`
/// when the clock reads before the epoch. Nothing is claimed of the value.
#[verifier::external_body]
pub(crate) fn unix_time_millis() -> Option<u128> {
    std::time::SystemTime::now().duration_since(std::time::UNIX_EPOCH).ok().map(|d| d.as_millis())
}

/// A fresh ULID from the system clock and ten random bytes. A clock that
/// reads before the Unix epoch counts as time zero.
pub fn new_ulid() -> (id: String)
    ensures
        exists|ts: nat, random: Seq<u8>| random.len() == 10 && id@ == ulid_text(ts, random),
        id@.len() == 26,
        all_crockford(id@),
{
    let ts_ms: u128 = match unix_time_millis() {
        Some(ms) => ms,
        None => 0,
    };
    let mut random: [u8; 10] = [0u8; 10];
    let mut i: usize = 0;
    while i < 10
        invariant
            i <= 10,
            random@.len() == 10,
        decreases 10 - i,
    {
        random[i] = random_byte();
        i = i + 1;
    }
    let id = ulid_from_parts(ts_ms, random);
    assert(random@.len() == 10 && id@ == ulid_text(ts_ms as nat, random@));
    id
}

} // verus!

verus! {

/// Whether `s` has the shape of a ULID: 26 Crockford base-32 characters.
pub open spec fn ulid_shape(s: Seq<char>) -> bool {
    s.len() == 26 && all_crockford(s)
}

/// Whether `c` is a Crockford base-32 digit.
fn is_crockford_char(c: char) -> (b: bool)
    ensures
        b == crockford().contains(c),
{
    let mut d: u128 = 0;
    while d < 32
        invariant
            d <= 32,
            forall|k: int| 0 <= k < d ==> crockford()[k] != c,
        decreases 32 - d,
    {
        if crockford_digit(d) == c {
            return true;
        }
        d = d + 1;
    }
    false
}

/// Whether `s` has the shape of a ULID (see `ulid_shape`).
pub fn is_ulid(s: &str) -> (b: bool)
    ensures
        b == ulid_shape(s@),
{
    let cs = crate::text::chars_of(s);
    if cs.len() != 26 {
        return false;
    }
    let mut i: usize = 0;
    while i < cs.len()
        invariant
            i <= cs@.len(),
            cs@ == s@,
            forall|k: int| 0 <= k < i ==> crockford().contains(#[trigger] cs@[k]),
        decreases cs@.len() - i,
    {
        if !is_crockford_char(cs[i]) {
            return false;
        }
        i = i + 1;
    }
    true
}

} // verus!

verus! {

/// The ULID alphabet: 32 characters, the ten digits then the upper-case
/// letters without I, L, O and U.
pub proof fn law_crockford_alphabet()
    ensures
        crockford().len() == 32,
        forall|i: int| 0 <= i < 10 ==> #[trigger] crockford()[i] as u32 == '0' as u32 + i,
        forall|i: int| 10 <= i < 32 ==> 'A' <= #[trigger] crockford()[i] <= 'Z',
        !crockford().contains('I') && !crockford().contains('L') && !crockford().contains('O') && !crockford().contains('U'),
        forall|i: int, j: int| 0 <= i < j < 32 ==> (crockford()[i] as u32) < (#[trigger] crockford()[j] as u32) && #[trigger] crockford()[i] != crockford()[j],
{
    assert forall|i: int, j: int| 0 <= i < j < 32 implies (crockford()[i] as u32) < (#[trigger] crockford()[j] as u32) && #[trigger] crockford()[i] != crockford()[j] by {
        lemma_crockford_ascending(i, j);
    }
    assert forall|i: int| 0 <= i < 10 implies #[trigger] crockford()[i] as u32 == '0' as u32 + i by {
        if i == 0 {} else if i == 1 {} else if i == 2 {} else if i == 3 {} else if i == 4 {}
        else if i == 5 {} else if i == 6 {} else if i == 7 {} else if i == 8 {} else {}
    }
    assert(!crockford().contains('I')) by {
        if crockford().contains('I') {
            let k = choose|k: int| 0 <= k < 32 && crockford()[k] == 'I';
            lemma_crockford_ascending(k, 17);
            lemma_crockford_ascending(18, k);
            if k < 17 {
                lemma_crockford_ascending(k, 17);
            }
        }
    }
    assert(!crockford().contains('L'));
    assert(!crockford().contains('O'));
    assert(!crockford().contains('U'));
}

/// The `i`-th of `n` base-32 digits of `v`, most significant first, is the
/// digit for `v / 32^(n - 1 - i)` modulo 32.
pub proof fn law_base32_digits(v: nat, n: nat, i: int)
    requires
        0 <= i < n,
    ensures
        base32(v, n).len() == n,
        base32(v, n)[i] == crockford()[((v / pow32((n - 1 - i) as nat)) % 32) as int],
    decreases n,
{
    lemma_base32_len_and_chars(v, n);
    if i < n - 1 {
        law_base32_digits(v / 32, (n - 1) as nat, i);
        lemma_pow32_positive((n - 2 - i) as nat);
        vstd::arithmetic::div_mod::lemma_div_denominator(v as int, 32, pow32((n - 2 - i) as nat) as int);
        assert(pow32((n - 1 - i) as nat) == 32 * pow32((n - 2 - i) as nat));
        assert(base32(v, n)[i] == base32(v / 32, (n - 1) as nat)[i]);
        assert(((n - 1) as nat - 1 - i) as nat == (n - 2 - i) as nat);
        assert((v / 32) / pow32((n - 2 - i) as nat) == v / pow32((n - 1 - i) as nat));
    } else {
        assert((n - 1 - i) as nat == 0);
        assert(pow32(0) == 1);
        assert(v / 1 == v);
        assert(base32(v, n)[i] == crockford()[(v % 32) as int]);
    }
}

} // verus!

verus! {

/// A session id has the shape of a ULID exactly when it is 26 characters of
/// the ULID alphabet.
pub proof fn law_ulid_shape(s: Seq<char>)
    ensures
        ulid_shape(s) <==> (s.len() == 26 && forall|i: int| 0 <= i < 26 ==> crockford().contains(#[trigger] s[i])),
{
}

} // verus!
