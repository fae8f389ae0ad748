//! The hour-bucketed case index and the report path. A symptom report
//! appends to the case's log and adds the case id to the current hour's
//! bucket set; a windowed query unions the bucket sets of every whole hour
//! from `since` to `now`. Any case reported in an hour the window covers is
//! returned.

use vstd::prelude::*;

verus! {

use vstd::arithmetic::div_mod::{
    lemma_div_is_ordered,
    lemma_div_multiples_vanish_fancy,
    lemma_fundamental_div_mod,
};
use crate::keys::{bucket_key_spec, case_key_spec, hours_since, time_key, time_keys_since};
use crate::kv::{vec_contains_str, KvStore};
use crate::symptom_log;
use crate::symptom_log::{log_entries, views_of};
use crate::ts_valid;

/// Case ids present in any of the first `n` hour buckets starting at
/// `since`'s hour.
pub open spec fn cases_in_window(store: KvStore, since: u64, n: int) -> Set<Seq<char>>
    decreases n,
{
    if n <= 0 {
        Set::empty()
    } else {
        cases_in_window(store, since, n - 1).union(
            store.set_at(bucket_key_spec((since + (n - 1) * 3600) as u64)),
        )
    }
}

/// Reports `symptoms` for `case_id` at instant `ts`: appends all labels to
/// the case's log in order and adds the case to `ts`'s hour bucket. One
/// batch in intent; on the in-memory store both effects always apply.
pub fn report_symptoms(store: &mut KvStore, case_id: &String, symptoms: &Vec<String>, ts: u64)
    requires
        ts_valid(ts),
    ensures
        final(store).list_at(case_key_spec(case_id@)) == old(store).list_at(
            case_key_spec(case_id@),
        ) + log_entries(ts, views_of(symptoms@)),
        final(store).set_at(bucket_key_spec(ts)) == old(store).set_at(
            bucket_key_spec(ts),
        ).insert(case_id@),
        forall|k: Seq<char>|
            k != case_key_spec(case_id@) ==> final(store).list_at(k) == old(store).list_at(k),
        forall|k: Seq<char>|
            k != bucket_key_spec(ts) ==> final(store).set_at(k) == old(store).set_at(k),
        forall|k: Seq<char>| final(store).str_at(k) == old(store).str_at(k),
{
    symptom_log::append(store, case_id, ts, symptoms);
    let bucket = time_key(ts);
    store.sadd(bucket, case_id.clone());
}

/// Lists the distinct case ids reported in any whole hour from `since` to
/// `now`, by unioning the covered hour buckets. The current partial hour is
/// not covered. Buckets never written behave as empty sets.
pub fn list_cases_since(store: &KvStore, since: u64, now: u64) -> (r: Vec<String>)
    requires
        ts_valid(since),
        ts_valid(now),
    ensures
        forall|i: int, j: int| 0 <= i < j < r@.len() ==> r@[i]@ != r@[j]@,
        forall|i: int|
            0 <= i < r@.len() ==> cases_in_window(*store, since, hours_since(since, now)).contains(
                #[trigger] r@[i]@,
            ),
        forall|m: Seq<char>|
            cases_in_window(*store, since, hours_since(since, now)).contains(m) ==> exists|i: int|
                0 <= i < r@.len() && r@[i]@ == m,
{
    let keys = time_keys_since(since, now);
    let mut out: Vec<String> = Vec::new();
    let mut k: usize = 0;
    while k < keys.len()
        invariant
            k <= keys@.len(),
            keys@.len() == hours_since(since, now),
            forall|i: int|
                0 <= i < keys@.len() ==> #[trigger] keys@[i]@ == bucket_key_spec(
                    (since + i * 3600) as u64,
                ),
            forall|a: int, b: int| 0 <= a < b < out@.len() ==> out@[a]@ != out@[b]@,
            forall|a: int|
                0 <= a < out@.len() ==> cases_in_window(*store, since, k as int).contains(
                    #[trigger] out@[a]@,
                ),
            forall|m: Seq<char>|
                cases_in_window(*store, since, k as int).contains(m) ==> exists|a: int|
                    0 <= a < out@.len() && out@[a]@ == m,
        decreases keys@.len() - k,
    {
        let ghost pre_out = out@;
        let members = store.smembers(&keys[k]);
        let mut j: usize = 0;
        while j < members.len()
            invariant
                j <= members@.len(),
                k < keys@.len(),
                keys@[k as int]@ == bucket_key_spec((since + k * 3600) as u64),
                forall|a: int, b: int| 0 <= a < b < members@.len() ==> members@[a]@ != members@[b]@,
                forall|a: int|
                    0 <= a < members@.len() ==> store.set_at(keys@[k as int]@).contains(
                        #[trigger] members@[a]@,
                    ),
                forall|m: Seq<char>|
                    store.set_at(keys@[k as int]@).contains(m) ==> exists|a: int|
                        0 <= a < members@.len() && members@[a]@ == m,
                forall|a: int, b: int| 0 <= a < b < out@.len() ==> out@[a]@ != out@[b]@,
                forall|a: int|
                    0 <= a < out@.len() ==> cases_in_window(*store, since, k as int).contains(
                        #[trigger] out@[a]@,
                    ) || store.set_at(keys@[k as int]@).contains(out@[a]@),
                forall|m: Seq<char>|
                    cases_in_window(*store, since, k as int).contains(m) ==> exists|a: int|
                        0 <= a < out@.len() && out@[a]@ == m,
                forall|b: int|
                    #![trigger members@[b]]
                    0 <= b < j ==> exists|a: int| 0 <= a < out@.len() && out@[a]@ == members@[b]@,
            decreases members@.len() - j,
        {
            let ghost pre_inner = out@;
            let present = vec_contains_str(&out, &members[j]);
            if !present {
                out.push(members[j].clone());
            }
            proof {
                assert forall|m: Seq<char>|
                    cases_in_window(*store, since, k as int).contains(m) implies exists|a: int|
                    0 <= a < out@.len() && out@[a]@ == m by {
                    let a = choose|a: int| 0 <= a < pre_inner.len() && pre_inner[a]@ == m;
                    assert(out@[a]@ == m);
                }
                assert forall|b: int| #![trigger members@[b]] 0 <= b < j + 1 implies exists|a: int|
                    0 <= a < out@.len() && out@[a]@ == members@[b]@ by {
                    if b < j {
                        let a = choose|a: int|
                            0 <= a < pre_inner.len() && pre_inner[a]@ == members@[b]@;
                        assert(out@[a]@ == members@[b]@);
                    } else {
                        if present {
                            let a = choose|a: int|
                                0 <= a < pre_inner.len() && pre_inner[a]@ == members@[j as int]@;
                            assert(out@[a]@ == members@[b]@);
                        } else {
                            assert(out@[out@.len() - 1]@ == members@[b]@);
                        }
                    }
                }
            }
            j = j + 1;
        }
        proof {
            let wider = cases_in_window(*store, since, k + 1);
            assert(wider == cases_in_window(*store, since, k as int).union(
                store.set_at(bucket_key_spec((since + (k as int) * 3600) as u64)),
            ));
            assert forall|m: Seq<char>| wider.contains(m) implies exists|a: int|
                0 <= a < out@.len() && out@[a]@ == m by {
                if cases_in_window(*store, since, k as int).contains(m) {
                } else {
                    assert(store.set_at(keys@[k as int]@).contains(m));
                    let b = choose|b: int| 0 <= b < members@.len() && members@[b]@ == m;
                    assert(exists|a: int| 0 <= a < out@.len() && out@[a]@ == members@[b]@);
                }
            }
        }
        k = k + 1;
    }
    out
}

/// Bucket union monotonicity: every covered bucket is contained in the
/// window union.
proof fn lemma_window_superset(store: KvStore, since: u64, n: int, j: int)
    requires
        0 <= j < n,
    ensures
        store.set_at(bucket_key_spec((since + j * 3600) as u64)) <= cases_in_window(
            store,
            since,
            n,
        ),
    decreases n,
{
    if j < n - 1 {
        lemma_window_superset(store, since, n - 1, j);
    }
}

/// A windowed query covers every reported case: if a case id was put in the
/// bucket of an instant `t` at or after `since` whose whole hour the window
/// reaches — the current partial hour may be excluded — then the union the
/// query returns contains that id.
pub proof fn lemma_list_cases_covers(store: KvStore, since: u64, now: u64, t: u64, id: Seq<char>)
    requires
        ts_valid(since),
        ts_valid(now),
        ts_valid(t),
        since <= t,
        t / 3600 - since / 3600 < hours_since(since, now),
        store.set_at(bucket_key_spec(t)).contains(id),
    ensures
        cases_in_window(store, since, hours_since(since, now)).contains(id),
{
    let i = t as int / 3600 - since as int / 3600;
    lemma_div_is_ordered(since as int, t as int, 3600);
    lemma_fundamental_div_mod(since as int, 3600);
    lemma_fundamental_div_mod(t as int, 3600);
    let q = since as int / 3600;
    let r = since as int % 3600;
    assert(since + i * 3600 == 3600 * (q + i) + r);
    lemma_div_multiples_vanish_fancy(q + i, r, 3600);
    assert((since + i * 3600) / 3600 == q + i);
    let h = hours_since(since, now);
    assert(h * 3600 <= now - since) by {
        lemma_fundamental_div_mod((now - since) as int, 3600);
    }
    assert(i * 3600 < h * 3600) by (nonlinear_arith)
        requires
            i < h,
    ;
    assert(since + i * 3600 <= now);
    let u = (since + i * 3600) as u64;
    assert(u as int / 3600 == t as int / 3600);
    assert(bucket_key_spec(u) == bucket_key_spec(t));
    lemma_window_superset(store, since, h, i);
}

} // verus!
