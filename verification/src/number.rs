//! Numbers written the way ECMAScript writes them (RFC 8785, section 3.2.2.3),
//! from the decimal text of a floating-point number.
use vstd::prelude::*;
use crate::jcs::decimal;
use crate::text::{chars_of, push_char};

verus! {

/// Whether `c` is an ASCII digit.
pub open spec fn is_digit(c: char) -> bool {
    '0' <= c && c <= '9'
}

/// Whether every character is an ASCII digit.
pub open spec fn all_digits(s: Seq<char>) -> bool {
    forall|i: int| 0 <= i < s.len() ==> is_digit(#[trigger] s[i])
}

/// The value of a sequence of decimal digits.
pub open spec fn digits_value(s: Seq<char>) -> nat
    decreases s.len(),
{
    if s.len() == 0 {
        0
    } else {
        digits_value(s.drop_last()) * 10 + ((s.last() as u32) - 48) as nat
    }
}

/// The index of the first `c` in `s`, or its length.
pub open spec fn find_char(s: Seq<char>, c: char) -> nat
    decreases s.len(),
{
    if s.len() == 0 || s[0] == c {
        0
    } else {
        1 + find_char(s.drop_first(), c)
    }
}

/// How many `0` characters `s` begins with.
pub open spec fn lead_zeros(s: Seq<char>) -> nat
    decreases s.len(),
{
    if s.len() > 0 && s[0] == '0' {
        1 + lead_zeros(s.drop_first())
    } else {
        0
    }
}

/// `s` without its trailing `0` characters.
pub open spec fn drop_trailing_zeros(s: Seq<char>) -> Seq<char>
    decreases s.len(),
{
    if s.len() > 0 && s.last() == '0' {
        drop_trailing_zeros(s.drop_last())
    } else {
        s
    }
}

/// The value of an exponent: an optional sign, then one to four digits.
pub open spec fn exponent_value(x: Seq<char>) -> Option<int> {
    let neg = x.len() > 0 && x[0] == '-';
    let plus = x.len() > 0 && x[0] == '+';
    let d = if neg || plus {
        x.drop_first()
    } else {
        x
    };
    if 0 < d.len() <= 4 && all_digits(d) {
        Some(
            if neg {
                -(digits_value(d) as int)
            } else {
                digits_value(d) as int
            },
        )
    } else {
        None
    }
}

/// A decimal number text `-`? digits (`.` digits)? (`e` exponent)? read as
/// its sign, its significant digits `d` (no leading or trailing zero; none
/// for zero) and the exponent `n` with value `0.d × 10^n`.
pub open spec fn float_parts(t: Seq<char>) -> Option<(bool, Seq<char>, int)> {
    let neg = t.len() > 0 && t[0] == '-';
    let b = if neg {
        t.drop_first()
    } else {
        t
    };
    let e_at = find_char(b, 'e') as int;
    let mant = b.take(e_at);
    let exp = if e_at < b.len() {
        exponent_value(b.skip(e_at + 1))
    } else {
        Some(0int)
    };
    let d_at = find_char(mant, '.') as int;
    let ip = mant.take(d_at);
    let fp = if d_at < mant.len() {
        mant.skip(d_at + 1)
    } else {
        Seq::empty()
    };
    if ip.len() > 0 && all_digits(ip) && all_digits(fp) && (d_at < mant.len() ==> fp.len() > 0) && exp is Some {
        let all = ip + fp;
        let lead = lead_zeros(all);
        let digits = drop_trailing_zeros(all.skip(lead as int));
        Some((neg, digits, ip.len() + exp->0 - lead))
    } else {
        None
    }
}

/// `k` zeros (none for `k <= 0`).
pub open spec fn zeros(k: int) -> Seq<char> {
    Seq::new(
        if k > 0 {
            k as nat
        } else {
            0
        },
        |i: int| '0',
    )
}

/// The absolute value.
pub open spec fn abs(x: int) -> nat {
    if x < 0 {
        (-x) as nat
    } else {
        x as nat
    }
}

/// ECMAScript's text of the number with sign `neg`, significant digits `d`
/// and value `0.d × 10^n`: plain digits up to 21 places, else exponent form.
pub open spec fn es_text(neg: bool, d: Seq<char>, n: int) -> Seq<char> {
    if d.len() == 0 {
        seq!['0']
    } else {
        let k = d.len() as int;
        let body = if k <= n && n <= 21 {
            d + zeros(n - k)
        } else if 0 < n && n <= 21 {
            d.take(n) + seq!['.'] + d.skip(n)
        } else if -6 < n && n <= 0 {
            seq!['0', '.'] + zeros(-n) + d
        } else {
            (if k == 1 {
                d
            } else {
                seq![d[0], '.'] + d.skip(1)
            }) + seq!['e'] + (if n - 1 >= 0 {
                seq!['+']
            } else {
                seq!['-']
            }) + decimal(abs(n - 1))
        };
        if neg {
            seq!['-'] + body
        } else {
            body
        }
    }
}

/// The canonical text of a floating-point number given as decimal text: the
/// ECMAScript form; a text that is not a decimal number stays as it is.
pub open spec fn float_text(t: Seq<char>) -> Seq<char> {
    match float_parts(t) {
        Some((neg, d, n)) => es_text(neg, d, n),
        None => t,
    }
}

/// The characters of `s` from `a` to `b`.
fn slice_of(s: &Vec<char>, a: usize, b: usize) -> (out: Vec<char>)
    requires
        a <= b <= s@.len(),
    ensures
        out@ == s@.subrange(a as int, b as int),
{
    let mut out: Vec<char> = Vec::new();
    let mut i = a;
    while i < b
        invariant
            a <= i <= b <= s@.len(),
            out@ == s@.subrange(a as int, i as int),
        decreases b - i,
    {
        out.push(s[i]);
        assert(s@.subrange(a as int, i + 1) =~= s@.subrange(a as int, i as int).push(s@[i as int]));
        i = i + 1;
    }
    out
}

/// The index of the first `c` in `s`, or its length.
fn find_exec(s: &Vec<char>, c: char) -> (i: usize)
    ensures
        i == find_char(s@, c),
        i <= s@.len(),
{
    let mut i: usize = 0;
    assert(s@.skip(0) =~= s@);
    while i < s.len() && s[i] != c
        invariant
            i <= s@.len(),
            find_char(s@, c) == i + find_char(s@.skip(i as int), c),
        decreases s@.len() - i,
    {
        assert(s@.skip(i as int).drop_first() =~= s@.skip(i + 1));
        i = i + 1;
    }
    i
}

/// Whether every character is an ASCII digit.
fn all_digits_exec(s: &Vec<char>) -> (b: bool)
    ensures
        b == all_digits(s@),
{
    let mut i: usize = 0;
    while i < s.len()
        invariant
            i <= s@.len(),
            forall|k: int| 0 <= k < i ==> is_digit(#[trigger] s@[k]),
        decreases s@.len() - i,
    {
        if !('0' <= s[i] && s[i] <= '9') {
            return false;
        }
        i = i + 1;
    }
    true
}

/// Ten to the power `k`.
pub open spec fn pow10(k: nat) -> nat
    decreases k,
{
    if k == 0 {
        1
    } else {
        10 * pow10((k - 1) as nat)
    }
}

/// The value of at most four digits.
fn digits_value_exec(s: &Vec<char>) -> (v: u32)
    requires
        s@.len() <= 4,
        all_digits(s@),
    ensures
        v == digits_value(s@),
{
    let mut v: u32 = 0;
    let mut i: usize = 0;
    proof {
        reveal_with_fuel(pow10, 5);
    }
    assert(s@.take(0) =~= Seq::<char>::empty());
    while i < s.len()
        invariant
            i <= s@.len() <= 4,
            all_digits(s@),
            v == digits_value(s@.take(i as int)),
            v < pow10(i as nat),
            pow10(4) == 10000,
            forall|j: nat| j < 4 ==> pow10(j + 1) == 10 * #[trigger] pow10(j),
        decreases s@.len() - i,
    {
        assert(is_digit(s@[i as int]));
        let d = (s[i] as u32) - 48;
        assert(s@.take(i + 1).drop_last() =~= s@.take(i as int));
        assert(pow10((i + 1) as nat) == 10 * pow10(i as nat));
        v = v * 10 + d;
        i = i + 1;
    }
    assert(s@.take(s@.len() as int) =~= s@);
    v
}

/// The value of an exponent (see `exponent_value`).
fn exponent_exec(x: &Vec<char>) -> (e: Option<i64>)
    ensures
        match e {
            Some(v) => exponent_value(x@) == Some(v as int),
            None => exponent_value(x@) is None,
        },
{
    let neg = x.len() > 0 && x[0] == '-';
    let plus = x.len() > 0 && x[0] == '+';
    let d = if neg || plus {
        slice_of(x, 1, x.len())
    } else {
        slice_of(x, 0, x.len())
    };
    assert(x@.subrange(0, x@.len() as int) =~= x@);
    assert(x@.len() > 0 ==> x@.subrange(1, x@.len() as int) =~= x@.drop_first());
    if 0 < d.len() && d.len() <= 4 && all_digits_exec(&d) {
        let v = digits_value_exec(&d) as i64;
        if neg {
            Some(-v)
        } else {
            Some(v)
        }
    } else {
        None
    }
}

/// How many `0` characters `s` begins with.
fn lead_zeros_exec(s: &Vec<char>) -> (k: usize)
    ensures
        k == lead_zeros(s@),
        k <= s@.len(),
{
    let mut i: usize = 0;
    assert(s@.skip(0) =~= s@);
    while i < s.len() && s[i] == '0'
        invariant
            i <= s@.len(),
            lead_zeros(s@) == i + lead_zeros(s@.skip(i as int)),
        decreases s@.len() - i,
    {
        assert(s@.skip(i as int).drop_first() =~= s@.skip(i + 1));
        i = i + 1;
    }
    i
}

/// The length of `s` without its trailing zeros.
fn trailing_cut(s: &Vec<char>) -> (k: usize)
    ensures
        k <= s@.len(),
        s@.take(k as int) == drop_trailing_zeros(s@),
{
    let mut k: usize = s.len();
    assert(s@.take(k as int) =~= s@);
    while k > 0 && s[k - 1] == '0'
        invariant
            k <= s@.len(),
            drop_trailing_zeros(s@) == drop_trailing_zeros(s@.take(k as int)),
        decreases k,
    {
        assert(s@.take(k as int).drop_last() =~= s@.take(k - 1));
        k = k - 1;
    }
    k
}

/// Appends `s[a..b]`.
fn push_range(out: &mut String, s: &Vec<char>, a: usize, b: usize)
    requires
        a <= b <= s@.len(),
    ensures
        final(out)@ == old(out)@ + s@.subrange(a as int, b as int),
{
    let ghost start = out@;
    let mut i = a;
    while i < b
        invariant
            a <= i <= b <= s@.len(),
            out@ == start + s@.subrange(a as int, i as int),
        decreases b - i,
    {
        push_char(out, s[i]);
        assert(s@.subrange(a as int, i + 1) =~= s@.subrange(a as int, i as int).push(s@[i as int]));
        i = i + 1;
    }
}

/// Appends `k` zeros.
fn push_zeros(out: &mut String, k: u128)
    ensures
        final(out)@ == old(out)@ + zeros(k as int),
{
    let ghost start = out@;
    let mut i: u128 = 0;
    while i < k
        invariant
            i <= k,
            out@ == start + zeros(i as int),
        decreases k - i,
    {
        push_char(out, '0');
        assert(zeros(i + 1) =~= zeros(i as int).push('0'));
        i = i + 1;
    }
}

/// Appends the decimal representation of `n`.
fn push_decimal_wide(out: &mut String, n: u128)
    ensures
        final(out)@ == old(out)@ + decimal(n as nat),
    decreases n,
{
    let ghost start = out@;
    if n >= 10 {
        push_decimal_wide(out, n / 10);
    }
    push_char(out, ((48 + n % 10) as u8) as char);
    assert(out@ =~= start + decimal(n as nat));
}

/// Appends ECMAScript's text of a number (see `es_text`).
fn push_es(out: &mut String, neg: bool, d: &Vec<char>, n: i128)
    requires
        -0x1_0000_0000_0000_0000_0000 < n < 0x1_0000_0000_0000_0000_0000,
    ensures
        final(out)@ == old(out)@ + es_text(neg, d@, n as int),
{
    let ghost start = out@;
    if d.len() == 0 {
        push_char(out, '0');
        assert(out@ =~= start + es_text(neg, d@, n as int));
        return;
    }
    if neg {
        push_char(out, '-');
    }
    let ghost mid = out@;
    let k = d.len() as i128;
    if k <= n && n <= 21 {
        push_range(out, d, 0, d.len());
        push_zeros(out, (n - k) as u128);
        assert(d@.subrange(0, d@.len() as int) =~= d@);
    } else if 0 < n && n <= 21 {
        push_range(out, d, 0, n as usize);
        push_char(out, '.');
        push_range(out, d, n as usize, d.len());
        assert(d@.subrange(0, n as int) =~= d@.take(n as int));
        assert(d@.subrange(n as int, d@.len() as int) =~= d@.skip(n as int));
    } else if -6 < n && n <= 0 {
        push_char(out, '0');
        push_char(out, '.');
        push_zeros(out, (-n) as u128);
        push_range(out, d, 0, d.len());
        assert(d@.subrange(0, d@.len() as int) =~= d@);
    } else {
        push_char(out, d[0]);
        if d.len() > 1 {
            push_char(out, '.');
            push_range(out, d, 1, d.len());
            assert(d@.subrange(1, d@.len() as int) =~= d@.skip(1));
        } else {
            assert(d@ =~= seq![d@[0]]);
        }
        push_char(out, 'e');
        let e = n - 1;
        if e >= 0 {
            push_char(out, '+');
            push_decimal_wide(out, e as u128);
        } else {
            push_char(out, '-');
            push_decimal_wide(out, (-e) as u128);
        }
    }
    assert(out@ =~= start + es_text(neg, d@, n as int));
}

/// Appends the canonical text of a floating-point number given as decimal
/// text (see `float_text`).
pub fn push_float_text(out: &mut String, t: &str)
    ensures
        final(out)@ == old(out)@ + float_text(t@),
{
    let ghost start = out@;
    let cs = chars_of(t);
    let neg = cs.len() > 0 && cs[0] == '-';
    let b = if neg {
        slice_of(&cs, 1, cs.len())
    } else {
        slice_of(&cs, 0, cs.len())
    };
    assert(cs@.subrange(0, cs@.len() as int) =~= cs@);
    assert(cs@.len() > 0 ==> cs@.subrange(1, cs@.len() as int) =~= cs@.drop_first());
    let e_at = find_exec(&b, 'e');
    let mant = slice_of(&b, 0, e_at);
    assert(b@.subrange(0, e_at as int) =~= b@.take(e_at as int));
    let exp = if e_at < b.len() {
        let x = slice_of(&b, e_at + 1, b.len());
        assert(b@.subrange(e_at + 1, b@.len() as int) =~= b@.skip(e_at + 1));
        exponent_exec(&x)
    } else {
        Some(0i64)
    };
    let d_at = find_exec(&mant, '.');
    let ip = slice_of(&mant, 0, d_at);
    assert(mant@.subrange(0, d_at as int) =~= mant@.take(d_at as int));
    let fp = if d_at < mant.len() {
        let f = slice_of(&mant, d_at + 1, mant.len());
        assert(mant@.subrange(d_at + 1, mant@.len() as int) =~= mant@.skip(d_at + 1));
        f
    } else {
        Vec::new()
    };
    let ok = ip.len() > 0 && all_digits_exec(&ip) && all_digits_exec(&fp) && (d_at >= mant.len() || fp.len()
        > 0);
    match exp {
        Some(x) => {
            if !ok {
                out.append(t);
                return;
            }
            let mut all = ip.clone();
            let mut f2 = fp.clone();
            all.append(&mut f2);
            assert(all@ =~= ip@ + fp@);
            let lead = lead_zeros_exec(&all);
            let rest = slice_of(&all, lead, all.len());
            assert(all@.subrange(lead as int, all@.len() as int) =~= all@.skip(lead as int));
            let cut = trailing_cut(&rest);
            let digits = slice_of(&rest, 0, cut);
            assert(rest@.subrange(0, cut as int) =~= rest@.take(cut as int));
            let n: i128 = (ip.len() as i128) + (x as i128) - (lead as i128);
            push_es(out, neg, &digits, n);
        },
        None => {
            out.append(t);
        },
    }
}

} // verus!

verus! {

/// How ECMAScript writes the number `0.d × 10^n` (`d` its `k` significant
/// digits): zero as `0`; a whole number below 10^21 in plain digits; a
/// number of at least 1 below 10^21 with a decimal point after its `n`
/// integer digits; a number of at least 10^-6 below 1 as `0.` then zeros
/// then its digits; any other with one digit, the rest after a point, `e`,
/// the exponent's sign and its decimal digits; a minus sign before a
/// negative number.
pub proof fn law_ecmascript_number_text(neg: bool, d: Seq<char>, n: int)
    ensures
        ({
            let k = d.len() as int;
            let t = es_text(neg, d, n);
            let body = if neg && k > 0 {
                t.drop_first()
            } else {
                t
            };
            &&& k == 0 ==> t == seq!['0']
            &&& k > 0 && neg ==> t[0] == '-'
            &&& k > 0 && k <= n <= 21 ==> body == d + Seq::new((n - k) as nat, |i: int| '0')
            &&& k > 0 && 0 < n < k && n <= 21 ==> body == d.subrange(0, n) + seq!['.'] + d.subrange(n, k)
            &&& k > 0 && -6 < n <= 0 ==> body == seq!['0', '.'] + Seq::new((-n) as nat, |i: int| '0') + d
            &&& k > 0 && (n > 21 || n <= -6) ==> body == (if k == 1 {
                d
            } else {
                seq![d[0], '.'] + d.subrange(1, k)
            }) + seq!['e', if n >= 1 { '+' } else { '-' }] + decimal(
                if n >= 1 {
                    (n - 1) as nat
                } else {
                    (1 - n) as nat
                },
            )
        }),
{
    let k = d.len() as int;
    if k > 0 {
        assert(d.take(n) =~= d.subrange(0, n)) by {
            if 0 < n < k {
            }
        }
        assert(d.skip(1) =~= d.subrange(1, k));
        if 0 < n < k {
            assert(d.skip(n) =~= d.subrange(n, k));
        }
        if k <= n <= 21 {
            assert(zeros(n - k) =~= Seq::new((n - k) as nat, |i: int| '0'));
        }
        if -6 < n <= 0 {
            assert(zeros(-n) =~= Seq::new((-n) as nat, |i: int| '0'));
        }
        let t = es_text(neg, d, n);
        if neg {
            assert(t.drop_first() =~= es_text(false, d, n));
        }
    }
}

} // verus!
