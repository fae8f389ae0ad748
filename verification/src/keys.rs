//! Key naming for the key-value store: per-case symptom logs live at
//! `case:<id>`, hour buckets at `time:<year>:<day-of-year>:<hour>`. The
//! bucket key of an instant depends only on its UTC hour, which is what makes
//! the hour-bucket index sound.

use vstd::prelude::*;

verus! {

use vstd::arithmetic::div_mod::{lemma_div_denominator, lemma_fundamental_div_mod};
use crate::calendar::{lemma_year_doy_bounds, year_and_doy, year_doy_of_days, MAX_DAYS};
use crate::digits::{dec, dec_val, lemma_dec_props, lemma_pow10_small, push_dec};
use crate::rfc3339::push_sep;
use crate::ts_valid;

/// The symptom-log key for case `id`.
pub open spec fn case_key_spec(id: Seq<char>) -> Seq<char> {
    "case:"@ + id
}

/// The hour-bucket key for instant `ts`: `time:<year>:<day-of-year>:<hour>`,
/// with the day-of-year one-based and zero-padded to three digits and the
/// hour zero-padded to two. It is a function of `ts / 3600` alone.
pub open spec fn bucket_key_spec(ts: u64) -> Seq<char> {
    let h = ts as int / 3600;
    let yd = year_doy_of_days(h / 24);
    "time:"@ + dec(yd.0, 4) + seq![':'] + dec(yd.1 + 1, 3) + seq![':'] + dec(h % 24, 2)
}

/// Builds the symptom-log key `case:<id>`.
pub fn case_key(id: &str) -> (r: String)
    ensures
        r@ == case_key_spec(id@),
{
    let mut out = String::new();
    proof {
        reveal_strlit("case:");
    }
    out.append("case:");
    out.append(id);
    proof {
        assert(out@ =~= case_key_spec(id@));
    }
    out
}

/// Appends the colon separator used inside bucket keys.
fn push_colon(s: &mut String)
    ensures
        final(s)@ == old(s)@.push(':'),
{
    push_sep(s, 2);
}

/// Builds the hour-bucket key `time:<year>:<day-of-year>:<hour>` for `ts`.
pub fn time_key(ts: u64) -> (r: String)
    requires
        ts_valid(ts),
    ensures
        r@ == bucket_key_spec(ts),
{
    let h = ts / 3600;
    let days = h / 24;
    let hour = h % 24;
    proof {
        lemma_div_denominator(ts as int, 3600, 24);
        lemma_fundamental_div_mod(ts as int, 86400);
        assert(days <= MAX_DAYS);
    }
    let (y, doy) = year_and_doy(days);
    let mut out = String::new();
    proof {
        reveal_strlit("time:");
    }
    out.append("time:");
    push_dec(&mut out, y, 4);
    push_colon(&mut out);
    push_dec(&mut out, doy + 1, 3);
    push_colon(&mut out);
    push_dec(&mut out, hour, 2);
    proof {
        assert(out@ =~= bucket_key_spec(ts));
    }
    out
}

/// Two instants of the same UTC hour have the same bucket key.
pub proof fn lemma_bucket_key_same_hour(t1: u64, t2: u64)
    requires
        ts_valid(t1),
        ts_valid(t2),
        t1 <= t2,
        t1 / 3600 == t2 / 3600,
    ensures
        bucket_key_spec(t1) == bucket_key_spec(t2),
{
}

/// Character-level shape of a bucket key: the prefix, then the three
/// zero-padded decimal fields at fixed positions.
proof fn lemma_bucket_key_structure(ts: u64)
    requires
        ts_valid(ts),
    ensures
        ({
            let h = ts as int / 3600;
            let yd = year_doy_of_days(h / 24);
            let s = bucket_key_spec(ts);
            s.len() == 16 && s.subrange(5, 9) == dec(yd.0, 4) && s.subrange(10, 13) == dec(
                yd.1 + 1,
                3,
            ) && s.subrange(14, 16) == dec(h % 24, 2) && 1970 <= yd.0 <= 9999 && 0 <= yd.1 < 366
            && days_before_year_doy(yd) == h / 24
        }),
{
    let h = ts as int / 3600;
    let days = h / 24;
    lemma_div_denominator(ts as int, 3600, 24);
    lemma_fundamental_div_mod(ts as int, 86400);
    assert(days <= MAX_DAYS);
    lemma_year_doy_bounds(days);
    let yd = year_doy_of_days(days);
    reveal_strlit("time:");
    lemma_pow10_small();
    lemma_dec_props(yd.0, 4);
    lemma_dec_props(yd.1 + 1, 3);
    lemma_dec_props(h % 24, 2);
    let s = bucket_key_spec(ts);
    assert(s.subrange(5, 9) =~= dec(yd.0, 4));
    assert(s.subrange(10, 13) =~= dec(yd.1 + 1, 3));
    assert(s.subrange(14, 16) =~= dec(h % 24, 2));
}

/// The epoch day a year and day-of-year pair stands for.
spec fn days_before_year_doy(yd: (int, int)) -> int {
    crate::calendar::days_before_year(yd.0) + yd.1
}

/// A bucket key identifies its UTC hour: two instants have the same bucket
/// key exactly when they fall in the same UTC hour. One key per hour.
pub proof fn lemma_bucket_key_identifies_hour(t1: u64, t2: u64)
    requires
        ts_valid(t1),
        ts_valid(t2),
    ensures
        (bucket_key_spec(t1) == bucket_key_spec(t2)) <==> (t1 / 3600 == t2 / 3600),
{
    if bucket_key_spec(t1) == bucket_key_spec(t2) {
        lemma_bucket_key_structure(t1);
        lemma_bucket_key_structure(t2);
        lemma_pow10_small();
        let h1 = t1 as int / 3600;
        let h2 = t2 as int / 3600;
        let yd1 = year_doy_of_days(h1 / 24);
        let yd2 = year_doy_of_days(h2 / 24);
        lemma_dec_props(yd1.0, 4);
        lemma_dec_props(yd2.0, 4);
        lemma_dec_props(yd1.1 + 1, 3);
        lemma_dec_props(yd2.1 + 1, 3);
        lemma_dec_props(h1 % 24, 2);
        lemma_dec_props(h2 % 24, 2);
        assert(dec_val(dec(yd1.0, 4)) == dec_val(dec(yd2.0, 4)));
        assert(dec_val(dec(yd1.1 + 1, 3)) == dec_val(dec(yd2.1 + 1, 3)));
        assert(dec_val(dec(h1 % 24, 2)) == dec_val(dec(h2 % 24, 2)));
        assert(yd1 == yd2);
        assert(h1 / 24 == h2 / 24);
        lemma_fundamental_div_mod(h1, 24);
        lemma_fundamental_div_mod(h2, 24);
        assert(h1 == h2);
    }
}

/// Number of whole hours from `since` to `now`; zero when `since` lies in
/// the future.
pub open spec fn hours_since(since: u64, now: u64) -> int {
    if now >= since {
        (now - since) / 3600
    } else {
        0
    }
}

/// Enumerates one bucket key per whole hour from `since` up to `now`,
/// excluding the current partial hour: a query less than one hour after
/// `since` yields no keys, so very recent reports may only appear once their
/// hour has elapsed.
pub fn time_keys_since(since: u64, now: u64) -> (r: Vec<String>)
    requires
        ts_valid(since),
        ts_valid(now),
    ensures
        r@.len() == hours_since(since, now),
        forall|i: int|
            0 <= i < r@.len() ==> #[trigger] r@[i]@ == bucket_key_spec((since + i * 3600) as u64),
{
    let mut out: Vec<String> = Vec::new();
    if now < since {
        return out;
    }
    let num_hours = (now - since) / 3600;
    let mut k: u64 = 0;
    proof {
        lemma_fundamental_div_mod((now - since) as int, 3600);
    }
    while k < num_hours
        invariant
            num_hours == hours_since(since, now),
            num_hours * 3600 <= now - since <= now,
            ts_valid(now),
            k <= num_hours,
            out@.len() == k,
            forall|i: int|
                0 <= i < k ==> #[trigger] out@[i]@ == bucket_key_spec((since + i * 3600) as u64),
        decreases num_hours - k,
    {
        proof {
            assert(k * 3600 < num_hours * 3600) by (nonlinear_arith)
                requires
                    k < num_hours,
            ;
        }
        let t = since + k * 3600;
        let key = time_key(t);
        out.push(key);
        k = k + 1;
    }
    out
}

} // verus!
