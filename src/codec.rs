//! The timestamp codec: text to nanosecond count and back.

use crate::calendar::{date_before, epoch_day, lemma_epoch_day_increasing};
use crate::digits::{
    all_digits, digits_value, lemma_append_zeros, lemma_digits_bound, lemma_padded_digits_inverse,
    lemma_pow10_add, pow10, zeros,
};
use crate::timestamp::{
    field, fields_of, fraction_nanos, has_layout, lemma_epoch_nanos_injective, parse_fields,
    CivilDateTime, Ts9Error,
};
use vstd::prelude::*;

verus! {

/// What parsing a text yields: its nanosecond count, or why there is none.
pub open spec fn parse_result(s: Seq<char>) -> Result<i64, Ts9Error> {
    match parse_fields(s) {
        Ok(p) => p.nanos_result(),
        Err(e) => Err(e),
    }
}

/// The one valid instant whose nanosecond count is `n`.
pub open spec fn instant_at(n: int) -> CivilDateTime {
    choose|p: CivilDateTime| p.is_valid() && p.epoch_nanos() == n
}

/// The text that formatting the count `n` yields.
pub open spec fn format_text(n: int) -> Seq<char> {
    instant_at(n).text()
}

/// A valid instant is the one that its own nanosecond count names.
pub proof fn lemma_instant_at(p: CivilDateTime)
    requires
        p.is_valid(),
    ensures
        instant_at(p.epoch_nanos()) == p,
{
    let q = instant_at(p.epoch_nanos());
    assert(q.is_valid() && q.epoch_nanos() == p.epoch_nanos());
    lemma_epoch_nanos_injective(p, q);
}

/// Formatting the count parsed from a text with nine fraction digits gives that text back.
pub proof fn lemma_format_parse_round_trip(s: Seq<char>)
    requires
        parse_result(s).is_ok(),
        s.len() == 29,
    ensures
        format_text(parse_result(s)->Ok_0 as int) == s,
{
    let p = fields_of(s);
    let part = |a: int, b: int| s.subrange(a, b);
    lemma_digits_bound(part(0, 4));
    lemma_digits_bound(part(5, 7));
    lemma_digits_bound(part(8, 10));
    lemma_digits_bound(part(11, 13));
    lemma_digits_bound(part(14, 16));
    lemma_digits_bound(part(17, 19));
    lemma_digits_bound(part(20, 29));
    lemma_padded_digits_inverse(part(0, 4));
    lemma_padded_digits_inverse(part(5, 7));
    lemma_padded_digits_inverse(part(8, 10));
    lemma_padded_digits_inverse(part(11, 13));
    lemma_padded_digits_inverse(part(14, 16));
    lemma_padded_digits_inverse(part(17, 19));
    lemma_padded_digits_inverse(part(20, 29));
    reveal_with_fuel(pow10, 10);
    assert(fraction_nanos(s) == field(s, 20, 29) * 1);
    lemma_instant_at(p);
    assert(p.text() =~= s);
}

/// Zeros appended to the fraction do not change what a text parses to.
pub proof fn lemma_fraction_zero_padding(s: Seq<char>, k: nat)
    requires
        has_layout(s),
        s.len() + k <= 29,
    ensures
        parse_result(s + zeros(k)) == parse_result(s),
{
    let t = s + zeros(k);
    assert(t.subrange(0, 4) =~= s.subrange(0, 4));
    assert(t.subrange(5, 7) =~= s.subrange(5, 7));
    assert(t.subrange(8, 10) =~= s.subrange(8, 10));
    assert(t.subrange(11, 13) =~= s.subrange(11, 13));
    assert(t.subrange(14, 16) =~= s.subrange(14, 16));
    assert(t.subrange(17, 19) =~= s.subrange(17, 19));
    let fs = s.subrange(20, s.len() as int);
    let ft = t.subrange(20, t.len() as int);
    assert(ft =~= fs + zeros(k));
    assert(all_digits(ft)) by {
        assert forall|i: int| 0 <= i < ft.len() implies crate::digits::is_digit(#[trigger] ft[i]) by {
            if i < fs.len() {
                assert(ft[i] == fs[i]);
            }
        }
    }
    lemma_append_zeros(fs, k);
    let rest = (29 - t.len()) as nat;
    lemma_pow10_add(k, rest);
    assert((29 - s.len()) as nat == k + rest);
    let v = digits_value(fs);
    assert(v * pow10(k) * pow10(rest) == v * (pow10(k) * pow10(rest))) by (nonlinear_arith);
    assert(fraction_nanos(t) == fraction_nanos(s));
    assert(has_layout(t));
    assert(fields_of(t) == fields_of(s));
}

/// A month above 12, a day above 31, an hour above 23, a minute or a second above 59
/// makes the text malformed.
pub proof fn lemma_rejects_out_of_range_fields(s: Seq<char>)
    requires
        has_layout(s),
        field(s, 5, 7) > 12 || field(s, 8, 10) > 31 || field(s, 11, 13) > 23 || field(s, 14, 16)
            > 59 || field(s, 17, 19) > 59,
    ensures
        parse_result(s) == Err::<i64, Ts9Error>(Ts9Error::MalformedInput),
{
    lemma_digits_bound(s.subrange(5, 7));
    lemma_digits_bound(s.subrange(8, 10));
    lemma_digits_bound(s.subrange(11, 13));
    lemma_digits_bound(s.subrange(14, 16));
    lemma_digits_bound(s.subrange(17, 19));
    reveal_with_fuel(pow10, 3);
}

/// No instant that a signed 64-bit nanosecond count can hold falls after 2262-04-11.
pub proof fn lemma_latest_date(p: CivilDateTime)
    requires
        p.is_valid(),
        p.epoch_nanos() <= i64::MAX,
    ensures
        !date_before(2262, 4, 11, p.year as int, p.month as int, p.day as int),
{
    if date_before(2262, 4, 11, p.year as int, p.month as int, p.day as int) {
        lemma_epoch_day_increasing(2262, 4, 11, p.year as int, p.month as int, p.day as int);
        assert(epoch_day(2262, 4, 11) == 106751);
    }
}

/// The timestamp codec.
pub struct Ts9;

impl Ts9 {
    /// Parses `YYYY-MM-DD HH:MM:SS.f` (one to nine fraction digits, read as if padded
    /// with zeros to nine) into nanoseconds since 1970-01-01 00:00:00.
    pub fn str_to_ts9(s: String) -> (r: Result<i64, Ts9Error>)
        ensures
            r == parse_result(s@),
    {
        match CivilDateTime::parse(s.as_str()) {
            Ok(p) => p.to_epoch_nanos(),
            Err(e) => Err(e),
        }
    }

    /// Formats nanoseconds since 1970-01-01 00:00:00 as `YYYY-MM-DD HH:MM:SS.fffffffff`.
    /// Every `i64` has a text: the seconds are rounded down, so the fraction is never
    /// negative, and the dates run from 1677-09-21 to 2262-04-11.
    pub fn ts9_to_str(dt: i64) -> (r: String)
        ensures
            r@ == format_text(dt as int),
    {
        let p = CivilDateTime::from_epoch_nanos(dt);
        proof {
            lemma_instant_at(p);
        }
        p.to_text()
    }
}

} // verus!
