//! The stored string form of timestamps. Serialization writes the UTC
//! profile `YYYY-MM-DDTHH:MM:SSZ`; parsing accepts any full RFC 3339
//! timestamp — an optional fractional-second part and a numeric `±HH:MM`
//! offset as well as `Z` — and applies the offset, so data stored with an
//! explicit `+00:00` offset or subsecond digits reads back to the same
//! instant. The store models whole seconds: a fractional part is floored.
//! Parsing is verified complete: a string is rejected exactly when it
//! denotes no representable instant.

use vstd::prelude::*;

verus! {

use vstd::arithmetic::div_mod::{lemma_breakdown, lemma_fundamental_div_mod};
use crate::calendar::{
    days_before_month,
    days_before_year,
    days_in_month,
    days_from_year_doy,
    doy_from_month_day,
    lemma_days_before_month_mono,
    lemma_days_before_year_mono,
    lemma_days_before_year_step,
    lemma_md_rec_props,
    lemma_months_fill_year,
    lemma_year_doy_bounds,
    month_and_day,
    month_day_of_doy,
    month_len,
    year_and_doy,
    year_doy_of_days,
    MAX_DAYS,
};
use crate::digits::{
    dec,
    dec_val,
    is_digit,
    lemma_dec_props,
    lemma_pow10_small,
    push_dec,
    read_number,
};
use crate::{ts_valid, DataError, MAX_TS};

/// The calendar fields of `ts`: year, month, day-of-month, hour, minute,
/// second, all in UTC.
pub open spec fn rfc3339_fields(ts: u64) -> (int, int, int, int, int, int) {
    let days = ts as int / 86400;
    let sod = ts as int % 86400;
    let yd = year_doy_of_days(days);
    let md = month_day_of_doy(yd.0, yd.1);
    (yd.0, md.0, md.1, sod / 3600, (sod / 60) % 60, sod % 60)
}

/// The nineteen-character civil part `YYYY-MM-DDTHH:MM:SS`.
pub open spec fn civil_text(y: int, m: int, d: int, h: int, mi: int, s: int) -> Seq<char> {
    dec(y, 4) + seq!['-'] + dec(m, 2) + seq!['-'] + dec(d, 2) + seq!['T'] + dec(h, 2) + seq![':']
        + dec(mi, 2) + seq![':'] + dec(s, 2)
}

/// The stored serialization of `ts`: `YYYY-MM-DDTHH:MM:SSZ`.
pub open spec fn rfc3339_utc(ts: u64) -> Seq<char> {
    let f = rfc3339_fields(ts);
    civil_text(f.0, f.1, f.2, f.3, f.4, f.5) + seq!['Z']
}

/// A real calendar date with a four-digit year, and a real clock time.
pub open spec fn civil_ok(y: int, m: int, d: int, h: int, mi: int, s: int) -> bool {
    0 <= y <= 9999 && 1 <= m <= 12 && 1 <= d <= days_in_month(y, m) && 0 <= h < 24 && 0 <= mi < 60
        && 0 <= s < 60
}

/// Seconds from the Unix epoch to a civil datetime read in UTC; negative
/// before 1970.
pub open spec fn civil_secs(y: int, m: int, d: int, h: int, mi: int, s: int) -> int {
    (days_before_year(y) + days_before_month(y, m) + d - 1) * 86400 + h * 3600 + mi * 60 + s
}

/// A fractional-second part: empty, or a point followed by at least one
/// digit.
pub open spec fn frac_ok(frac: Seq<char>) -> bool {
    frac.len() == 0 || (frac[0] == '.' && frac.len() >= 2 && forall|i: int|
        1 <= i < frac.len() ==> is_digit(#[trigger] frac[i]))
}

/// A zone part denoting `off` seconds east of UTC: `Z`, or a sign with
/// two-digit hours and minutes.
pub open spec fn zone_denotes(z: Seq<char>, off: int) -> bool {
    (z =~= seq!['Z'] && off == 0) || (exists|zh: int, zm: int|
        0 <= zh <= 23 && 0 <= zm <= 59 && ((z =~= seq!['+'] + #[trigger] dec(zh, 2) + seq![':']
            + #[trigger] dec(zm, 2) && off == zh * 3600 + zm * 60) || (z =~= seq!['-'] + dec(
            zh,
            2,
        ) + seq![':'] + dec(zm, 2) && off == -(zh * 3600) - zm * 60)))
}

/// The text of a timestamp with the given civil fields, fraction and zone
/// parts.
pub open spec fn timestamp_text(
    y: int,
    m: int,
    d: int,
    h: int,
    mi: int,
    s: int,
    frac: Seq<char>,
    zone: Seq<char>,
) -> Seq<char> {
    civil_text(y, m, d, h, mi, s) + frac + zone
}

/// `s` denotes the instant `ts`: it is a full timestamp whose civil fields,
/// shifted west by its offset, name `ts`. The fractional part carries no
/// weight: the store models whole seconds, so a fraction is floored.
#[verifier::opaque]
pub open spec fn rfc3339_denotes(s: Seq<char>, ts: u64) -> bool {
    exists|y: int, m: int, d: int, h: int, mi: int, sec: int, frac: Seq<char>, zone: Seq<char>, off: int|
        #![trigger timestamp_text(y, m, d, h, mi, sec, frac, zone), zone_denotes(zone, off)]
        civil_ok(y, m, d, h, mi, sec) && frac_ok(frac) && zone_denotes(zone, off) && s
            == timestamp_text(y, m, d, h, mi, sec, frac, zone) && ts == civil_secs(
            y,
            m,
            d,
            h,
            mi,
            sec,
        ) - off
}

/// The instant a string denotes, if any: the unique `ts` some reading of
/// the string names.
pub open spec fn rfc3339_parse(s: Seq<char>) -> Option<u64> {
    if exists|t: u64| ts_valid(t) && rfc3339_denotes(s, t) {
        Some(choose|t: u64| ts_valid(t) && rfc3339_denotes(s, t))
    } else {
        None
    }
}

/// First index at or past `i` holding a non-digit, or the string's end.
pub open spec fn digit_run_end(s: Seq<char>, i: int) -> int
    decreases s.len() - i,
    when 0 <= i <= s.len()
{
    if i == s.len() {
        i
    } else if is_digit(s[i]) {
        digit_run_end(s, i + 1)
    } else {
        i
    }
}

/// The number the `w` characters at `start` denote.
pub open spec fn num_at(s: Seq<char>, start: int, w: nat) -> int {
    dec_val(s.subrange(start, start + w))
}

/// A run of digits ending at the first non-digit is found by
/// `digit_run_end`.
proof fn lemma_digit_run(s: Seq<char>, i: int, j: int)
    requires
        0 <= i <= j <= s.len(),
        forall|k: int| i <= k < j ==> is_digit(#[trigger] s[k]),
        j == s.len() || !is_digit(s[j]),
    ensures
        digit_run_end(s, i) == j,
    decreases j - i,
{
    if i < j {
        lemma_digit_run(s, i + 1, j);
    }
}

/// The fields of a representable instant are a real calendar date and
/// clock time, and reassembling them gives back the instant.
pub proof fn lemma_rfc3339_fields_bounds(ts: u64)
    requires
        ts_valid(ts),
    ensures
        ({
            let f = rfc3339_fields(ts);
            1970 <= f.0 <= 9999 && civil_ok(f.0, f.1, f.2, f.3, f.4, f.5) && ts == civil_secs(
                f.0,
                f.1,
                f.2,
                f.3,
                f.4,
                f.5,
            )
        }),
{
    let days = ts as int / 86400;
    let sod = ts as int % 86400;
    lemma_fundamental_div_mod(ts as int, 86400);
    assert(days <= MAX_DAYS);
    lemma_year_doy_bounds(days);
    let yd = year_doy_of_days(days);
    lemma_md_rec_props(yd.0, 1, yd.1);
    lemma_fundamental_div_mod(sod, 3600);
    lemma_breakdown(sod, 60, 60);
}

/// Character-level shape of the nineteen-character civil part followed by
/// anything: field positions, separator positions, and the trailing part.
proof fn lemma_civil_text_shape(y: int, m: int, d: int, h: int, mi: int, sec: int, rest: Seq<char>)
    requires
        civil_ok(y, m, d, h, mi, sec),
    ensures
        ({
            let s = civil_text(y, m, d, h, mi, sec) + rest;
            s.len() == 19 + rest.len() && s.subrange(0, 4) == dec(y, 4) && s[4] == '-'
                && s.subrange(5, 7) == dec(m, 2) && s[7] == '-' && s.subrange(8, 10) == dec(d, 2)
                && s[10] == 'T' && s.subrange(11, 13) == dec(h, 2) && s[13] == ':' && s.subrange(
                14,
                16,
            ) == dec(mi, 2) && s[16] == ':' && s.subrange(17, 19) == dec(sec, 2) && (forall|i: int|
                0 <= i < rest.len() ==> s[19 + i] == #[trigger] rest[i])
        }),
{
    lemma_pow10_small();
    lemma_dec_props(y, 4);
    lemma_dec_props(m, 2);
    lemma_dec_props(d, 2);
    lemma_dec_props(h, 2);
    lemma_dec_props(mi, 2);
    lemma_dec_props(sec, 2);
    let s = civil_text(y, m, d, h, mi, sec) + rest;
    assert(s.subrange(0, 4) =~= dec(y, 4));
    assert(s.subrange(5, 7) =~= dec(m, 2));
    assert(s.subrange(8, 10) =~= dec(d, 2));
    assert(s.subrange(11, 13) =~= dec(h, 2));
    assert(s.subrange(14, 16) =~= dec(mi, 2));
    assert(s.subrange(17, 19) =~= dec(sec, 2));
}

/// Character-level shape of the serialization: twenty characters, decimal
/// fields at fixed positions, fixed separators between them.
pub proof fn lemma_rfc3339_structure(ts: u64)
    requires
        ts_valid(ts),
    ensures
        ({
            let f = rfc3339_fields(ts);
            let s = rfc3339_utc(ts);
            s.len() == 20 && s.subrange(0, 4) == dec(f.0, 4) && s[4] == '-' && s.subrange(5, 7)
                == dec(f.1, 2) && s[7] == '-' && s.subrange(8, 10) == dec(f.2, 2) && s[10] == 'T'
                && s.subrange(11, 13) == dec(f.3, 2) && s[13] == ':' && s.subrange(14, 16) == dec(
                f.4,
                2,
            ) && s[16] == ':' && s.subrange(17, 19) == dec(f.5, 2) && s[19] == 'Z'
        }),
{
    let f = rfc3339_fields(ts);
    lemma_rfc3339_fields_bounds(ts);
    lemma_civil_text_shape(f.0, f.1, f.2, f.3, f.4, f.5, seq!['Z']);
}

/// Zone start: the index right after the civil part and any fraction.
pub open spec fn zone_start(s: Seq<char>) -> int {
    if s[19] == '.' {
        digit_run_end(s, 20)
    } else {
        19int
    }
}

/// The full positional package of a timestamp text built from the given
/// parts: where each field sits, what the fraction and zone regions hold,
/// and the offset the zone spells.
#[verifier::rlimit(100)]
proof fn lemma_text_parts(
    y0: int,
    m0: int,
    d0: int,
    h0: int,
    mi0: int,
    s0: int,
    frac: Seq<char>,
    zone: Seq<char>,
    off: int,
    s: Seq<char>,
)
    requires
        civil_ok(y0, m0, d0, h0, mi0, s0),
        frac_ok(frac),
        zone_denotes(zone, off),
        s == timestamp_text(y0, m0, d0, h0, mi0, s0, frac, zone),
    ensures
        s.len() >= 20,
        zone_start(s) == 19 + frac.len(),
        s.subrange(0, 4) == dec(y0, 4),
        s[4] == '-',
        s.subrange(5, 7) == dec(m0, 2),
        s[7] == '-',
        s.subrange(8, 10) == dec(d0, 2),
        s[10] == 'T',
        s.subrange(11, 13) == dec(h0, 2),
        s[13] == ':',
        s.subrange(14, 16) == dec(mi0, 2),
        s[16] == ':',
        s.subrange(17, 19) == dec(s0, 2),
        num_at(s, 0, 4) == y0,
        num_at(s, 5, 2) == m0,
        num_at(s, 8, 2) == d0,
        num_at(s, 11, 2) == h0,
        num_at(s, 14, 2) == mi0,
        num_at(s, 17, 2) == s0,
        s[19] == '.' ==> zone_start(s) > 20,
        19 <= zone_start(s) < s.len(),
        (s[zone_start(s)] == 'Z' || s[zone_start(s)] == '+' || s[zone_start(s)] == '-'),
        s[zone_start(s)] == 'Z' ==> s.len() == zone_start(s) + 1 && off == 0,
        s[zone_start(s)] == '+' ==> ({
            let q = zone_start(s);
            let zh = num_at(s, q + 1, 2);
            let zm = num_at(s, q + 4, 2);
            s.len() == q + 6 && s[q + 3] == ':' && s.subrange(q + 1, q + 3) == dec(zh, 2)
                && s.subrange(q + 4, q + 6) == dec(zm, 2) && 0 <= zh <= 23 && 0 <= zm <= 59 && off
                == zh * 3600 + zm * 60
        }),
        s[zone_start(s)] == '-' ==> ({
            let q = zone_start(s);
            let zh = num_at(s, q + 1, 2);
            let zm = num_at(s, q + 4, 2);
            s.len() == q + 6 && s[q + 3] == ':' && s.subrange(q + 1, q + 3) == dec(zh, 2)
                && s.subrange(q + 4, q + 6) == dec(zm, 2) && 0 <= zh <= 23 && 0 <= zm <= 59 && off
                == -(zh * 3600) - zm * 60
        }),
{
    let rest = frac + zone;
    lemma_civil_text_shape(y0, m0, d0, h0, mi0, s0, rest);
    assert(s =~= civil_text(y0, m0, d0, h0, mi0, s0) + rest);
    lemma_pow10_small();
    lemma_dec_props(y0, 4);
    lemma_dec_props(m0, 2);
    lemma_dec_props(d0, 2);
    lemma_dec_props(h0, 2);
    lemma_dec_props(mi0, 2);
    lemma_dec_props(s0, 2);
    let q0 = 19 + frac.len() as int;
    if zone =~= seq!['Z'] && off == 0 {
        assert(s[q0] == rest[frac.len() as int]);
        assert(s[q0] == 'Z');
        assert(s.len() == q0 + 1);
    } else {
        let (zh, zm) = choose|zh: int, zm: int|
            0 <= zh <= 23 && 0 <= zm <= 59 && ((zone =~= seq!['+'] + #[trigger] dec(zh, 2)
                + seq![':'] + #[trigger] dec(zm, 2) && off == zh * 3600 + zm * 60) || (zone
                =~= seq!['-'] + dec(zh, 2) + seq![':'] + dec(zm, 2) && off == -(zh * 3600) - zm
                * 60));
        lemma_dec_props(zh, 2);
        lemma_dec_props(zm, 2);
        assert(zone.len() == 6);
        assert(zone[0] == '+' || zone[0] == '-');
        assert(zone[3] == ':');
        assert forall|i: int| 0 <= i < 6 implies s[q0 + i] == #[trigger] zone[i] by {
            assert(s[19 + (frac.len() + i)] == rest[frac.len() + i]);
        }
        assert(s.len() == q0 + 6);
        assert(s.subrange(q0 + 1, q0 + 3) =~= dec(zh, 2)) by {
            assert(s[q0 + 1] == zone[1] && zone[1] == dec(zh, 2)[0]);
            assert(s[q0 + 2] == zone[2] && zone[2] == dec(zh, 2)[1]);
        }
        assert(s.subrange(q0 + 4, q0 + 6) =~= dec(zm, 2)) by {
            assert(s[q0 + 4] == zone[4] && zone[4] == dec(zm, 2)[0]);
            assert(s[q0 + 5] == zone[5] && zone[5] == dec(zm, 2)[1]);
        }
    }
    assert(!is_digit(s[q0]) && (s[q0] == 'Z' || s[q0] == '+' || s[q0] == '-'));
    if frac.len() == 0 {
        assert(s[19] == rest[0]);
        assert(s[19] != '.');
    } else {
        assert(s[19] == rest[0] && rest[0] == frac[0]);
        assert(frac[0] == '.');
        assert forall|k: int| 20 <= k < q0 implies is_digit(#[trigger] s[k]) by {
            assert(s[k] == rest[k - 19] && rest[k - 19] == frac[k - 19]);
        }
        lemma_digit_run(s, 20, q0);
    }
    assert(zone_start(s) == q0);
    assert(num_at(s, 0, 4) == dec_val(dec(y0, 4)));
    assert(num_at(s, 5, 2) == dec_val(dec(m0, 2)));
    assert(num_at(s, 8, 2) == dec_val(dec(d0, 2)));
    assert(num_at(s, 11, 2) == dec_val(dec(h0, 2)));
    assert(num_at(s, 14, 2) == dec_val(dec(mi0, 2)));
    assert(num_at(s, 17, 2) == dec_val(dec(s0, 2)));
}

/// Positional reading, first part: in any string that denotes an instant
/// the civil fields sit at fixed positions with their separators, and they
/// form a real date and clock time.
proof fn lemma_denotes_prefix(s: Seq<char>, ts: u64)
    requires
        rfc3339_denotes(s, ts),
    ensures
        s.len() >= 20,
        s.subrange(0, 4) == dec(num_at(s, 0, 4), 4),
        s[4] == '-',
        s.subrange(5, 7) == dec(num_at(s, 5, 2), 2),
        s[7] == '-',
        s.subrange(8, 10) == dec(num_at(s, 8, 2), 2),
        s[10] == 'T',
        s.subrange(11, 13) == dec(num_at(s, 11, 2), 2),
        s[13] == ':',
        s.subrange(14, 16) == dec(num_at(s, 14, 2), 2),
        s[16] == ':',
        s.subrange(17, 19) == dec(num_at(s, 17, 2), 2),
        civil_ok(
            num_at(s, 0, 4),
            num_at(s, 5, 2),
            num_at(s, 8, 2),
            num_at(s, 11, 2),
            num_at(s, 14, 2),
            num_at(s, 17, 2),
        ),
{
    reveal(rfc3339_denotes);
    let (y0, m0, d0, h0, mi0, s0, frac, zone, off) = choose|
        y0: int,
        m0: int,
        d0: int,
        h0: int,
        mi0: int,
        s0: int,
        frac: Seq<char>,
        zone: Seq<char>,
        off: int,
    |
        #![trigger timestamp_text(y0, m0, d0, h0, mi0, s0, frac, zone), zone_denotes(zone, off)]
        civil_ok(y0, m0, d0, h0, mi0, s0) && frac_ok(frac) && zone_denotes(zone, off) && s
            == timestamp_text(y0, m0, d0, h0, mi0, s0, frac, zone) && ts == civil_secs(
            y0,
            m0,
            d0,
            h0,
            mi0,
            s0,
        ) - off;
    lemma_text_parts(y0, m0, d0, h0, mi0, s0, frac, zone, off, s);
}

/// Positional reading, second part: after the fields comes an optional
/// point-and-digits fraction ending at `zone_start`, where the zone begins.
proof fn lemma_denotes_frac(s: Seq<char>, ts: u64)
    requires
        rfc3339_denotes(s, ts),
    ensures
        s.len() >= 20,
        s[19] == '.' ==> zone_start(s) > 20,
        19 <= zone_start(s) < s.len(),
        (s[zone_start(s)] == 'Z' || s[zone_start(s)] == '+' || s[zone_start(s)] == '-'),
{
    reveal(rfc3339_denotes);
    let (y0, m0, d0, h0, mi0, s0, frac, zone, off) = choose|
        y0: int,
        m0: int,
        d0: int,
        h0: int,
        mi0: int,
        s0: int,
        frac: Seq<char>,
        zone: Seq<char>,
        off: int,
    |
        #![trigger timestamp_text(y0, m0, d0, h0, mi0, s0, frac, zone), zone_denotes(zone, off)]
        civil_ok(y0, m0, d0, h0, mi0, s0) && frac_ok(frac) && zone_denotes(zone, off) && s
            == timestamp_text(y0, m0, d0, h0, mi0, s0, frac, zone) && ts == civil_secs(
            y0,
            m0,
            d0,
            h0,
            mi0,
            s0,
        ) - off;
    lemma_text_parts(y0, m0, d0, h0, mi0, s0, frac, zone, off, s);
}

/// Positional reading, third part: the zone's shape at `zone_start`, and
/// the denoted instant as the civil fields shifted west by the offset the
/// zone spells.
proof fn lemma_denotes_zone(s: Seq<char>, ts: u64)
    requires
        rfc3339_denotes(s, ts),
    ensures
        s[zone_start(s)] == 'Z' ==> s.len() == zone_start(s) + 1 && ts == civil_secs(
            num_at(s, 0, 4),
            num_at(s, 5, 2),
            num_at(s, 8, 2),
            num_at(s, 11, 2),
            num_at(s, 14, 2),
            num_at(s, 17, 2),
        ),
        s[zone_start(s)] == '+' ==> ({
            let q = zone_start(s);
            let zh = num_at(s, q + 1, 2);
            let zm = num_at(s, q + 4, 2);
            s.len() == q + 6 && s[q + 3] == ':' && s.subrange(q + 1, q + 3) == dec(zh, 2)
                && s.subrange(q + 4, q + 6) == dec(zm, 2) && 0 <= zh <= 23 && 0 <= zm <= 59 && ts
                == civil_secs(
                num_at(s, 0, 4),
                num_at(s, 5, 2),
                num_at(s, 8, 2),
                num_at(s, 11, 2),
                num_at(s, 14, 2),
                num_at(s, 17, 2),
            ) - zh * 3600 - zm * 60
        }),
        s[zone_start(s)] == '-' ==> ({
            let q = zone_start(s);
            let zh = num_at(s, q + 1, 2);
            let zm = num_at(s, q + 4, 2);
            s.len() == q + 6 && s[q + 3] == ':' && s.subrange(q + 1, q + 3) == dec(zh, 2)
                && s.subrange(q + 4, q + 6) == dec(zm, 2) && 0 <= zh <= 23 && 0 <= zm <= 59 && ts
                == civil_secs(
                num_at(s, 0, 4),
                num_at(s, 5, 2),
                num_at(s, 8, 2),
                num_at(s, 11, 2),
                num_at(s, 14, 2),
                num_at(s, 17, 2),
            ) + zh * 3600 + zm * 60
        }),
{
    reveal(rfc3339_denotes);
    let (y0, m0, d0, h0, mi0, s0, frac, zone, off) = choose|
        y0: int,
        m0: int,
        d0: int,
        h0: int,
        mi0: int,
        s0: int,
        frac: Seq<char>,
        zone: Seq<char>,
        off: int,
    |
        #![trigger timestamp_text(y0, m0, d0, h0, mi0, s0, frac, zone), zone_denotes(zone, off)]
        civil_ok(y0, m0, d0, h0, mi0, s0) && frac_ok(frac) && zone_denotes(zone, off) && s
            == timestamp_text(y0, m0, d0, h0, mi0, s0, frac, zone) && ts == civil_secs(
            y0,
            m0,
            d0,
            h0,
            mi0,
            s0,
        ) - off;
    lemma_text_parts(y0, m0, d0, h0, mi0, s0, frac, zone, off, s);
}

/// One string denotes at most one instant.
pub proof fn lemma_denotes_unique(s: Seq<char>, t1: u64, t2: u64)
    requires
        rfc3339_denotes(s, t1),
        rfc3339_denotes(s, t2),
    ensures
        t1 == t2,
{
    lemma_denotes_frac(s, t1);
    lemma_denotes_zone(s, t1);
    lemma_denotes_zone(s, t2);
}

/// The canonical serialization of an instant denotes it.
pub proof fn lemma_canonical_denotes(ts: u64)
    requires
        ts_valid(ts),
    ensures
        rfc3339_denotes(rfc3339_utc(ts), ts),
{
    reveal(rfc3339_denotes);
    let f = rfc3339_fields(ts);
    lemma_rfc3339_fields_bounds(ts);
    let zone = seq!['Z'];
    let frac = Seq::<char>::empty();
    assert(zone_denotes(zone, 0));
    assert(frac_ok(frac));
    assert(timestamp_text(f.0, f.1, f.2, f.3, f.4, f.5, frac, zone) =~= rfc3339_utc(ts));
    assert(ts == civil_secs(f.0, f.1, f.2, f.3, f.4, f.5) - 0);
}

/// No two representable instants serialize to the same string.
pub proof fn lemma_rfc3339_injective(t1: u64, t2: u64)
    requires
        ts_valid(t1),
        ts_valid(t2),
        rfc3339_utc(t1) == rfc3339_utc(t2),
    ensures
        t1 == t2,
{
    lemma_canonical_denotes(t1);
    lemma_canonical_denotes(t2);
    lemma_denotes_unique(rfc3339_utc(t1), t1, t2);
}

/// Serializing an instant and parsing the result yields the same instant.
pub proof fn lemma_rfc3339_round_trip(ts: u64)
    requires
        ts_valid(ts),
    ensures
        rfc3339_parse(rfc3339_utc(ts)) == Some(ts),
{
    lemma_canonical_denotes(ts);
    assert(ts_valid(ts) && rfc3339_denotes(rfc3339_utc(ts), ts));
    let t = choose|t: u64| ts_valid(t) && rfc3339_denotes(rfc3339_utc(ts), t);
    lemma_denotes_unique(rfc3339_utc(ts), t, ts);
}

/// Appends one separator character of the stored form to `s`.
pub(crate) fn push_sep(s: &mut String, which: u64)
    requires
        which < 4,
    ensures
        final(s)@ == old(s)@.push(
            if which == 0 {
                '-'
            } else if which == 1 {
                'T'
            } else if which == 2 {
                ':'
            } else {
                'Z'
            },
        ),
{
    if which == 0 {
        proof {
            reveal_strlit("-");
        }
        s.append("-");
        assert(s@ =~= old(s)@.push('-'));
    } else if which == 1 {
        proof {
            reveal_strlit("T");
        }
        s.append("T");
        assert(s@ =~= old(s)@.push('T'));
    } else if which == 2 {
        proof {
            reveal_strlit(":");
        }
        s.append(":");
        assert(s@ =~= old(s)@.push(':'));
    } else {
        proof {
            reveal_strlit("Z");
        }
        s.append("Z");
        assert(s@ =~= old(s)@.push('Z'));
    }
}

/// Serializes `ts` to the stored form `YYYY-MM-DDTHH:MM:SSZ`: the canonical
/// `Z`-suffixed UTC profile, without a fractional part. A writer that spells
/// the same instant with a numeric `+00:00` offset or subsecond digits
/// produces different bytes for the same instant; both forms parse back to
/// it, so stores written by either writer read uniformly.
pub fn time_to_str(ts: u64) -> (r: String)
    requires
        ts_valid(ts),
    ensures
        r@ == rfc3339_utc(ts),
{
    proof {
        lemma_rfc3339_fields_bounds(ts);
        lemma_fundamental_div_mod(ts as int, 86400);
        lemma_fundamental_div_mod(ts as int % 86400, 3600);
        lemma_breakdown(ts as int % 86400, 60, 60);
    }
    let days = ts / 86400;
    let sod = ts % 86400;
    let (y, doy) = year_and_doy(days);
    let (m, d) = month_and_day(y, doy);
    let h = sod / 3600;
    let mi = (sod / 60) % 60;
    let sec = sod % 60;
    let mut out = String::new();
    push_dec(&mut out, y, 4);
    push_sep(&mut out, 0);
    push_dec(&mut out, m, 2);
    push_sep(&mut out, 0);
    push_dec(&mut out, d, 2);
    push_sep(&mut out, 1);
    push_dec(&mut out, h, 2);
    push_sep(&mut out, 2);
    push_dec(&mut out, mi, 2);
    push_sep(&mut out, 2);
    push_dec(&mut out, sec, 2);
    push_sep(&mut out, 3);
    proof {
        assert(out@ =~= rfc3339_utc(ts));
    }
    out
}

/// Whether the character at `i` is a decimal digit.
fn digit_at(s: &str, i: usize) -> (b: bool)
    requires
        i < s@.len(),
    ensures
        b == is_digit(s@[i as int]),
{
    let cv = s.get_char(i) as u32;
    48 <= cv && cv <= 57
}

/// Assembles the denotation of a parsed timestamp from the positional facts
/// the parser has established: field windows, fraction run, zone shape, and
/// the instant equation.
proof fn lemma_build_denotes(
    s: Seq<char>,
    y: int,
    m: int,
    d: int,
    h: int,
    mi: int,
    sec: int,
    q: int,
    off: int,
    ts: u64,
)
    requires
        19 <= q < s.len(),
        s.subrange(0, 4) == dec(y, 4),
        s[4] == '-',
        s.subrange(5, 7) == dec(m, 2),
        s[7] == '-',
        s.subrange(8, 10) == dec(d, 2),
        s[10] == 'T',
        s.subrange(11, 13) == dec(h, 2),
        s[13] == ':',
        s.subrange(14, 16) == dec(mi, 2),
        s[16] == ':',
        s.subrange(17, 19) == dec(sec, 2),
        civil_ok(y, m, d, h, mi, sec),
        (q == 19 || (s[19] == '.' && q >= 21 && forall|k: int|
            20 <= k < q ==> is_digit(#[trigger] s[k]))),
        ((s[q] == 'Z' && s.len() == q + 1 && off == 0) || ((s[q] == '+' || s[q] == '-') && s.len()
            == q + 6 && s[q + 3] == ':' && (exists|zh: int, zm: int|
            0 <= zh <= 23 && 0 <= zm <= 59 && s.subrange(q + 1, q + 3) == #[trigger] dec(zh, 2)
                && s.subrange(q + 4, q + 6) == #[trigger] dec(zm, 2) && off == (
            if s[q] == '+' {
                zh * 3600 + zm * 60
            } else {
                -(zh * 3600) - zm * 60
            })))),
        ts == civil_secs(y, m, d, h, mi, sec) - off,
    ensures
        rfc3339_denotes(s, ts),
{
    reveal(rfc3339_denotes);
    let frac = s.subrange(19, q);
    let zone = s.subrange(q, s.len() as int);
    assert(frac_ok(frac)) by {
        if q != 19 {
            assert(frac[0] == s[19]);
            assert forall|i: int| 1 <= i < frac.len() implies is_digit(#[trigger] frac[i]) by {
                assert(frac[i] == s[19 + i]);
            }
        }
    }
    assert(zone_denotes(zone, off)) by {
        if s[q] == 'Z' && s.len() == q + 1 && off == 0 {
            assert(zone =~= seq!['Z']);
        } else {
            let (zh, zm) = choose|zh: int, zm: int|
                0 <= zh <= 23 && 0 <= zm <= 59 && s.subrange(q + 1, q + 3) == #[trigger] dec(zh, 2)
                    && s.subrange(q + 4, q + 6) == #[trigger] dec(zm, 2) && off == (
                if s[q] == '+' {
                    zh * 3600 + zm * 60
                } else {
                    -(zh * 3600) - zm * 60
                });
            lemma_pow10_small();
            lemma_dec_props(zh, 2);
            lemma_dec_props(zm, 2);
            if s[q] == '+' {
                assert(zone =~= seq!['+'] + dec(zh, 2) + seq![':'] + dec(zm, 2));
            } else {
                assert(zone =~= seq!['-'] + dec(zh, 2) + seq![':'] + dec(zm, 2));
            }
        }
    }
    lemma_civil_text_shape(y, m, d, h, mi, sec, frac + zone);
    assert(s =~= timestamp_text(y, m, d, h, mi, sec, frac, zone));
}

/// Reads the six civil fields and their separators. Rejects a string whose
/// fields are not a real calendar date and clock time.
fn parse_civil(s: &str) -> (r: Option<(u64, u64, u64, u64, u64, u64)>)
    requires
        20 <= s@.len() <= usize::MAX,
    ensures
        match r {
            Some(f) => ({
                let (y, m, d, h, mi, sec) = f;
                s@.subrange(0, 4) == dec(y as int, 4) && s@[4] == '-' && s@.subrange(5, 7) == dec(
                    m as int,
                    2,
                ) && s@[7] == '-' && s@.subrange(8, 10) == dec(d as int, 2) && s@[10] == 'T'
                    && s@.subrange(11, 13) == dec(h as int, 2) && s@[13] == ':' && s@.subrange(
                    14,
                    16,
                ) == dec(mi as int, 2) && s@[16] == ':' && s@.subrange(17, 19) == dec(
                    sec as int,
                    2,
                ) && civil_ok(y as int, m as int, d as int, h as int, mi as int, sec as int)
            }),
            None => forall|t: u64| ts_valid(t) ==> !rfc3339_denotes(s@, t),
        },
{
    proof {
        lemma_pow10_small();
    }
    let ry = read_number(s, 0, 4);
    let rm = read_number(s, 5, 2);
    let rd = read_number(s, 8, 2);
    let rh = read_number(s, 11, 2);
    let rmi = read_number(s, 14, 2);
    let rsec = read_number(s, 17, 2);
    let seps_ok = s.get_char(4) == '-' && s.get_char(7) == '-' && s.get_char(10) == 'T'
        && s.get_char(13) == ':' && s.get_char(16) == ':';
    let (y, m, d, h, mi, sec) = match (ry, rm, rd, rh, rmi, rsec) {
        (Some(y), Some(m), Some(d), Some(h), Some(mi), Some(sec)) => (y, m, d, h, mi, sec),
        _ => {
            proof {
                assert forall|t: u64| ts_valid(t) implies !rfc3339_denotes(s@, t) by {
                    if rfc3339_denotes(s@, t) {
                        lemma_denotes_prefix(s@, t);
                    }
                }
            }
            return None;
        },
    };
    if !seps_ok || m < 1 || 12 < m || d < 1 || month_len(y, m) < d || h > 23 || mi > 59 || sec
        > 59 {
        proof {
            assert forall|t: u64| ts_valid(t) implies !rfc3339_denotes(s@, t) by {
                if rfc3339_denotes(s@, t) {
                    lemma_denotes_prefix(s@, t);
                    lemma_dec_props(y as int, 4);
                    lemma_dec_props(m as int, 2);
                    lemma_dec_props(d as int, 2);
                    lemma_dec_props(h as int, 2);
                    lemma_dec_props(mi as int, 2);
                    lemma_dec_props(sec as int, 2);
                }
            }
        }
        return None;
    }
    Some((y, m, d, h, mi, sec))
}

/// Parses a stored timestamp back to an instant. Accepts any full RFC 3339
/// timestamp — `Z` or a numeric offset, with or without a fractional part —
/// and returns the denoted instant, flooring a fraction to whole seconds.
/// Returns `Err` exactly when the string denotes no representable instant:
/// malformed text, an impossible date or clock, or an instant outside the
/// store's range. That last case narrows the accepted language to the
/// store's model: a well-formed string naming an instant before 1970 or
/// after the end of 9999 — `1969-12-31T23:59:59Z`, say — is rejected as
/// unrepresentable, where a reader with a wider time model would accept it.
#[verifier::rlimit(100)]
pub fn str_to_time(s: &str) -> (r: Result<u64, DataError>)
    ensures
        match r {
            Ok(ts) => ts_valid(ts) && rfc3339_denotes(s@, ts) && rfc3339_parse(s@) == Some(ts),
            Err(e) => rfc3339_parse(s@) is None && e == DataError::CorruptTimestamp,
        },
{
    let n = s.unicode_len();
    proof {
        lemma_pow10_small();
    }
    if n < 20 {
        proof {
            assert forall|t: u64| ts_valid(t) implies !rfc3339_denotes(s@, t) by {
                if rfc3339_denotes(s@, t) {
                    lemma_denotes_prefix(s@, t);
                }
            }
        }
        return Err(DataError::CorruptTimestamp);
    }
    let (y, m, d, h, mi, sec) = match parse_civil(s) {
        Some(f) => f,
        None => {
            return Err(DataError::CorruptTimestamp);
        },
    };
    let clock = h * 3600 + mi * 60 + sec;
    // fraction: a point followed by one or more digits
    let dot = s.get_char(19) == '.';
    let mut p: usize = 19;
    if dot {
        p = 20;
        while p < n && digit_at(s, p)
            invariant
                20 <= p <= n,
                n == s@.len(),
                forall|k: int| 20 <= k < p ==> is_digit(#[trigger] s@[k]),
            decreases n - p,
        {
            p = p + 1;
        }
    }
    proof {
        if dot {
            lemma_digit_run(s@, 20, p as int);
        }
        assert(zone_start(s@) == p as int);
    }
    if dot && p == 20 {
        proof {
            assert forall|t: u64| ts_valid(t) implies !rfc3339_denotes(s@, t) by {
                if rfc3339_denotes(s@, t) {
                    lemma_denotes_frac(s@, t);
                }
            }
        }
        return Err(DataError::CorruptTimestamp);
    }
    if p >= n {
        proof {
            assert forall|t: u64| ts_valid(t) implies !rfc3339_denotes(s@, t) by {
                if rfc3339_denotes(s@, t) {
                    lemma_denotes_frac(s@, t);
                }
            }
        }
        return Err(DataError::CorruptTimestamp);
    }
    let zc = s.get_char(p);
    if zc != 'Z' && zc != '+' && zc != '-' {
        proof {
            assert forall|t: u64| ts_valid(t) implies !rfc3339_denotes(s@, t) by {
                if rfc3339_denotes(s@, t) {
                    lemma_denotes_frac(s@, t);
                }
            }
        }
        return Err(DataError::CorruptTimestamp);
    }
    // zone: Z, or a sign with two-digit hours and minutes
    let mut off: u64 = 0;
    if zc == 'Z' {
        if n - p != 1 {
            proof {
                assert forall|t: u64| ts_valid(t) implies !rfc3339_denotes(s@, t) by {
                    if rfc3339_denotes(s@, t) {
                        lemma_denotes_zone(s@, t);
                    }
                }
            }
            return Err(DataError::CorruptTimestamp);
        }
    } else {
        if n - p != 6 {
            proof {
                assert forall|t: u64| ts_valid(t) implies !rfc3339_denotes(s@, t) by {
                    if rfc3339_denotes(s@, t) {
                        lemma_denotes_zone(s@, t);
                    }
                }
            }
            return Err(DataError::CorruptTimestamp);
        }
        let colon_ok = s.get_char(p + 3) == ':';
        let rzh = read_number(s, p + 1, 2);
        let rzm = read_number(s, p + 4, 2);
        let (zh, zm) = match (rzh, rzm) {
            (Some(zh), Some(zm)) => (zh, zm),
            _ => {
                proof {
                    assert forall|t: u64| ts_valid(t) implies !rfc3339_denotes(s@, t) by {
                        if rfc3339_denotes(s@, t) {
                            lemma_denotes_zone(s@, t);
                        }
                    }
                }
                return Err(DataError::CorruptTimestamp);
            },
        };
        proof {
            lemma_dec_props(zh as int, 2);
            lemma_dec_props(zm as int, 2);
        }
        if !colon_ok || zh > 23 || zm > 59 {
            proof {
                assert forall|t: u64| ts_valid(t) implies !rfc3339_denotes(s@, t) by {
                    if rfc3339_denotes(s@, t) {
                        lemma_denotes_zone(s@, t);
                    }
                }
            }
            return Err(DataError::CorruptTimestamp);
        }
        off = zh * 3600 + zm * 60;
    }
    compute_instant(s, y, m, d, h, mi, sec, p, off, zc)
}

/// Turns parsed civil fields, fraction position and zone into the denoted
/// instant: the civil seconds shifted west by the offset, rejected when the
/// result lies outside the representable range.
#[verifier::rlimit(100)]
fn compute_instant(
    s: &str,
    y: u64,
    m: u64,
    d: u64,
    h: u64,
    mi: u64,
    sec: u64,
    p: usize,
    off: u64,
    zc: char,
) -> (r: Result<u64, DataError>)
    requires
        20 <= s@.len() <= usize::MAX,
        p as int == zone_start(s@),
        19 <= p < s@.len(),
        s@[p as int] == zc,
        zc == 'Z' || zc == '+' || zc == '-',
        zc == 'Z' ==> off == 0,
        s@.subrange(0, 4) == dec(y as int, 4),
        s@[4] == '-',
        s@.subrange(5, 7) == dec(m as int, 2),
        s@[7] == '-',
        s@.subrange(8, 10) == dec(d as int, 2),
        s@[10] == 'T',
        s@.subrange(11, 13) == dec(h as int, 2),
        s@[13] == ':',
        s@.subrange(14, 16) == dec(mi as int, 2),
        s@[16] == ':',
        s@.subrange(17, 19) == dec(sec as int, 2),
        civil_ok(y as int, m as int, d as int, h as int, mi as int, sec as int),
        (p == 19 || (s@[19] == '.' && p >= 21 && (forall|k: int|
            20 <= k < p ==> is_digit(#[trigger] s@[k])))),
        ((zc == 'Z' && s@.len() == p + 1) || ((zc == '+' || zc == '-') && s@.len() == p + 6
            && s@[p + 3] == ':' && (exists|zh: int, zm: int|
            0 <= zh <= 23 && 0 <= zm <= 59 && s@.subrange(p + 1, p + 3) == #[trigger] dec(zh, 2)
                && s@.subrange(p + 4, p + 6) == #[trigger] dec(zm, 2) && off == zh * 3600 + zm
                * 60))),
    ensures
        match r {
            Ok(ts) => ts_valid(ts) && rfc3339_denotes(s@, ts) && rfc3339_parse(s@) == Some(ts),
            Err(e) => rfc3339_parse(s@) is None && e == DataError::CorruptTimestamp,
        },
{
    proof {
        lemma_pow10_small();
        lemma_dec_props(y as int, 4);
        lemma_dec_props(m as int, 2);
        lemma_dec_props(d as int, 2);
        lemma_dec_props(h as int, 2);
        lemma_dec_props(mi as int, 2);
        lemma_dec_props(sec as int, 2);
        if zc != 'Z' {
            let (zh0, zm0) = choose|zh0: int, zm0: int|
                0 <= zh0 <= 23 && 0 <= zm0 <= 59 && s@.subrange(p + 1, p + 3) == #[trigger] dec(
                    zh0,
                    2,
                ) && s@.subrange(p + 4, p + 6) == #[trigger] dec(zm0, 2) && off == zh0 * 3600
                    + zm0 * 60;
            lemma_dec_props(zh0, 2);
            lemma_dec_props(zm0, 2);
            assert(num_at(s@, p + 1, 2) == zh0);
            assert(num_at(s@, p + 4, 2) == zm0);
            assert(num_at(s@, p + 1, 2) * 3600 + num_at(s@, p + 4, 2) * 60 == off);
        }
    }
    let clock = h * 3600 + mi * 60 + sec;
    let ghost off_int: int = if zc == '-' {
        -(off as int)
    } else {
        off as int
    };
    if y >= 1970 {
        let doy = doy_from_month_day(y, m, d);
        let days = days_from_year_doy(y, doy);
        let local = days * 86400 + clock;
        proof {
            assert(civil_secs(y as int, m as int, d as int, h as int, mi as int, sec as int)
                == local);
        }
        if zc == '+' && local < off {
            proof {
                assert forall|t: u64| ts_valid(t) implies !rfc3339_denotes(s@, t) by {
                    if rfc3339_denotes(s@, t) {
                        lemma_denotes_prefix(s@, t);
                        lemma_denotes_zone(s@, t);
                    }
                }
            }
            return Err(DataError::CorruptTimestamp);
        }
        let ts = if zc == '+' {
            local - off
        } else {
            local + off
        };
        if ts > MAX_TS {
            proof {
                assert forall|t: u64| ts_valid(t) implies !rfc3339_denotes(s@, t) by {
                    if rfc3339_denotes(s@, t) {
                        lemma_denotes_prefix(s@, t);
                        lemma_denotes_zone(s@, t);
                    }
                }
            }
            return Err(DataError::CorruptTimestamp);
        }
        proof {
            lemma_build_denotes(
                s@,
                y as int,
                m as int,
                d as int,
                h as int,
                mi as int,
                sec as int,
                p as int,
                off_int,
                ts,
            );
            assert(rfc3339_denotes(s@, ts));
            assert(ts_valid(ts));
            assert(exists|t: u64| ts_valid(t) && rfc3339_denotes(s@, t));
            let t = choose|t: u64| ts_valid(t) && rfc3339_denotes(s@, t);
            lemma_denotes_unique(s@, t, ts);
        }
        Ok(ts)
    } else if y == 1969 && zc == '-' {
        let doy = doy_from_month_day(y, m, d);
        let deficit = 31536000 - (doy * 86400 + clock);
        proof {
            lemma_days_before_year_step(1969);
            assert(days_before_year(1970) == 0);
            assert(civil_secs(y as int, m as int, d as int, h as int, mi as int, sec as int) == -(
            deficit as int));
        }
        if off < deficit {
            proof {
                assert forall|t: u64| ts_valid(t) implies !rfc3339_denotes(s@, t) by {
                    if rfc3339_denotes(s@, t) {
                        lemma_denotes_prefix(s@, t);
                        lemma_denotes_zone(s@, t);
                    }
                }
            }
            return Err(DataError::CorruptTimestamp);
        }
        let ts = off - deficit;
        proof {
            lemma_build_denotes(
                s@,
                y as int,
                m as int,
                d as int,
                h as int,
                mi as int,
                sec as int,
                p as int,
                off_int,
                ts,
            );
            assert(rfc3339_denotes(s@, ts));
            assert(ts_valid(ts));
            assert(exists|t: u64| ts_valid(t) && rfc3339_denotes(s@, t));
            let t = choose|t: u64| ts_valid(t) && rfc3339_denotes(s@, t);
            lemma_denotes_unique(s@, t, ts);
        }
        Ok(ts)
    } else {
        // civil datetimes before the last day of 1969 lie west of every
        // offset's reach; with `Z` or an eastern offset even 1969 does
        proof {
            assert forall|t: u64| ts_valid(t) implies !rfc3339_denotes(s@, t) by {
                if rfc3339_denotes(s@, t) {
                    lemma_denotes_prefix(s@, t);
                    lemma_denotes_zone(s@, t);
                    let yi = y as int;
                    lemma_months_fill_year(yi);
                    lemma_days_before_month_mono(yi, m as int + 1, 13);
                    lemma_days_before_year_step(yi);
                    lemma_days_before_year_mono(yi + 1, 1970);
                    lemma_days_before_year_step(1969);
                    assert(days_before_year(1970) == 0);
                    if yi + 1 <= 1969 {
                        lemma_days_before_year_mono(yi + 1, 1969);
                    }
                }
            }
        }
        Err(DataError::CorruptTimestamp)
    }
}

} // verus!