//! Entry time stamps: RFC 3339 UTC text with milliseconds, as `chrono`
//! writes it.
use vstd::prelude::*;
use crate::jcs::digit_char;
use crate::number::{all_digits, digits_value};

verus! {

/// The last millisecond of the year 9999 after the Unix epoch; up to it a year
/// is written with four digits.
pub const LAST_FOUR_DIGIT_MILLIS: u128 = 253_402_300_799_999;

/// `chrono`'s text (`%Y-%m-%dT%H:%M:%S%.3fZ`) of the UTC time `ms`
/// milliseconds after the Unix epoch; `None` where `chrono` has no such time.
pub uninterp spec fn chrono_utc_millis(ms: int) -> Option<Seq<char>>;

/// The characters of an optional text.
pub open spec fn text_view(o: Option<String>) -> Option<Seq<char>> {
    match o {
        Some(s) => Some(s@),
        None => None,
    }
}

/// Two decimal digits of `n` in `0..100`.
pub open spec fn two_digits(n: int) -> Seq<char> {
    seq![digit_char(n / 10), digit_char(n % 10)]
}

/// Three decimal digits of `n` in `0..1000`.
pub open spec fn three_digits(n: int) -> Seq<char> {
    seq![digit_char(n / 100), digit_char(n / 10 % 10), digit_char(n % 10)]
}

/// Text of the form `YYYY-MM-DDTHH:MM:SS.mmmZ`: a four-digit year, a month
/// from 01 to 12, a day from 01 to 31, and the time of day of the instant
/// `ms` milliseconds after the Unix epoch.
pub open spec fn utc_millis_shape(t: Seq<char>, ms: nat) -> bool {
    let r = (ms % 86_400_000) as int;
    &&& t.len() == 24
    &&& t[4] == '-' && t[7] == '-' && t[10] == 'T'
    &&& t[13] == ':' && t[16] == ':' && t[19] == '.' && t[23] == 'Z'
    &&& all_digits(t.subrange(0, 4)) && all_digits(t.subrange(5, 7)) && all_digits(t.subrange(8, 10))
    &&& 1 <= digits_value(t.subrange(5, 7)) <= 12
    &&& 1 <= digits_value(t.subrange(8, 10)) <= 31
    &&& t.subrange(11, 13) == two_digits(r / 3_600_000)
    &&& t.subrange(14, 16) == two_digits(r / 60_000 % 60)
    &&& t.subrange(17, 19) == two_digits(r / 1000 % 60)
    &&& t.subrange(20, 23) == three_digits(r % 1000)
}

/// `chrono::DateTime::from_timestamp_millis(ms)`, formatted with
/// `%Y-%m-%dT%H:%M:%S%.3fZ`. Claimed: the result is `chrono_utc_millis(ms)`;
/// up to the end of the year 9999 there is one, of the form that
/// `utc_millis_shape` gives (chrono's `%Y` writes four digits for the years
/// 0 to 9999, `%m`, `%d`, `%H`, `%M`, `%S` two, `%.3f` a point and three; the
/// time of day is the remainder of the seconds by 86 400).
#[verifier::external_body]
fn format_utc_millis(ms: i64) -> (t: Option<String>)
    ensures
        text_view(t) == chrono_utc_millis(ms as int),
        0 <= ms <= LAST_FOUR_DIGIT_MILLIS ==> t is Some && utc_millis_shape(t->0@, ms as nat),
{
    match chrono::DateTime::from_timestamp_millis(ms) {
        Some(d) => Some(d.format("%Y-%m-%dT%H:%M:%S%.3fZ").to_string()),
        None => None,
    }
}

/// The RFC 3339 UTC text, with milliseconds, of the instant `ms`
/// milliseconds after the Unix epoch; `None` past the dates that can be
/// written.
pub fn utc_text(ms: u128) -> (t: Option<String>)
    ensures
        ms <= i64::MAX ==> text_view(t) == chrono_utc_millis(ms as int),
        ms > i64::MAX ==> t is None,
        ms <= LAST_FOUR_DIGIT_MILLIS ==> t is Some && utc_millis_shape(t->0@, ms as nat),
{
    if ms > 0x7fff_ffff_ffff_ffff {
        return None;
    }
    format_utc_millis(ms as i64)
}

} // verus!
