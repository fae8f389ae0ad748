//! Per-case ordered symptom log, backed by the key-value store: entries are
//! `(timestamp, label)` pairs stored flat under `case:<id>`, the timestamp
//! serialized to its stored string form. Appends keep issue order; reads
//! return the full log in append order and surface corrupt stored data
//! instead of dropping it.

use vstd::prelude::*;

verus! {

use crate::keys::{case_key, case_key_spec};
use crate::kv::KvStore;
use crate::rfc3339::{rfc3339_denotes, rfc3339_parse, rfc3339_utc, str_to_time, time_to_str};
use crate::{ts_valid, DataError};

/// The views of a sequence of strings.
pub open spec fn views_of(v: Seq<String>) -> Seq<Seq<char>> {
    v.map_values(|s: String| s@)
}

/// The flat stored form of appending `labels` at instant `ts`: for each
/// label in order, the serialized timestamp then the label.
pub open spec fn log_entries(ts: u64, labels: Seq<Seq<char>>) -> Seq<Seq<char>>
    decreases labels.len(),
{
    if labels.len() == 0 {
        Seq::empty()
    } else {
        log_entries(ts, labels.drop_last()).push(rfc3339_utc(ts)).push(labels.last())
    }
}

/// A well-formed stored log: timestamps and labels alternate, and every
/// stored timestamp is the serialization of some representable instant.
pub open spec fn log_wf(items: Seq<Seq<char>>) -> bool {
    items.len() % 2 == 0 && forall|i: int|
        0 <= i && 2 * i < items.len() ==> rfc3339_parse(#[trigger] items[2 * i]) is Some
}

/// `entries` is the decoding of the stored log `items`: pairs in stored
/// order, each timestamp parsed back to its instant.
pub open spec fn log_decodes(items: Seq<Seq<char>>, entries: Seq<(u64, String)>) -> bool {
    2 * entries.len() == items.len() && forall|i: int|
        0 <= i < entries.len() ==> ts_valid(#[trigger] entries[i].0) && rfc3339_denotes(
            items[2 * i],
            entries[i].0,
        ) && entries[i].1@ == items[2 * i + 1]
}

/// Shape of one appended batch: `labels.len()` pairs, each the serialized
/// `ts` followed by the label, in label order.
pub proof fn lemma_log_entries_index(ts: u64, labels: Seq<Seq<char>>)
    ensures
        log_entries(ts, labels).len() == 2 * labels.len(),
        forall|j: int|
            0 <= j < labels.len() ==> #[trigger] log_entries(ts, labels)[2 * j] == rfc3339_utc(ts),
        forall|j: int|
            0 <= j < labels.len() ==> #[trigger] log_entries(ts, labels)[2 * j + 1] == labels[j],
    decreases labels.len(),
{
    if labels.len() > 0 {
        lemma_log_entries_index(ts, labels.drop_last());
    }
}

/// Reading returns entries in the exact order appends were issued: decoding
/// a log extended by one appended batch yields the old entries unchanged,
/// followed by one entry per appended label, in label order, all at the
/// batch's instant. Chaining this step covers any number of interleaved
/// single- and multi-label appends.
pub proof fn lemma_read_after_append(
    items0: Seq<Seq<char>>,
    e0: Seq<(u64, String)>,
    ts: u64,
    labels: Seq<Seq<char>>,
    e1: Seq<(u64, String)>,
)
    requires
        ts_valid(ts),
        log_decodes(items0, e0),
        log_decodes(items0 + log_entries(ts, labels), e1),
    ensures
        e1.len() == e0.len() + labels.len(),
        forall|i: int|
            0 <= i < e0.len() ==> #[trigger] e1[i].0 == e0[i].0 && e1[i].1@ == e0[i].1@,
        forall|j: int|
            0 <= j < labels.len() ==> #[trigger] e1[e0.len() + j].0 == ts && e1[e0.len() + j].1@
                == labels[j],
{
    lemma_log_entries_index(ts, labels);
    let items = items0 + log_entries(ts, labels);
    assert forall|i: int| 0 <= i < e0.len() implies #[trigger] e1[i].0 == e0[i].0 && e1[i].1@
        == e0[i].1@ by {
        assert(items[2 * i] == items0[2 * i]);
        assert(items[2 * i + 1] == items0[2 * i + 1]);
        crate::rfc3339::lemma_denotes_unique(items0[2 * i], e1[i].0, e0[i].0);
    }
    assert forall|j: int| 0 <= j < labels.len() implies #[trigger] e1[e0.len() + j].0 == ts && e1[
        e0.len() + j
    ].1@ == labels[j] by {
        assert(items[2 * (e0.len() + j)] == log_entries(ts, labels)[2 * j]);
        assert(items[2 * (e0.len() + j) + 1] == log_entries(ts, labels)[2 * j + 1]);
        crate::rfc3339::lemma_canonical_denotes(ts);
        crate::rfc3339::lemma_denotes_unique(rfc3339_utc(ts), e1[e0.len() + j].0, ts);
    }
}

/// Appends one entry per label to the case's log, in the given order, all at
/// instant `ts`. Nothing else in the store changes.
pub fn append(store: &mut KvStore, case_id: &String, ts: u64, labels: &Vec<String>)
    requires
        ts_valid(ts),
    ensures
        final(store).list_at(case_key_spec(case_id@)) == old(store).list_at(
            case_key_spec(case_id@),
        ) + log_entries(ts, views_of(labels@)),
        forall|k: Seq<char>|
            k != case_key_spec(case_id@) ==> final(store).list_at(k) == old(store).list_at(k),
        forall|k: Seq<char>| final(store).str_at(k) == old(store).str_at(k),
        forall|k: Seq<char>| final(store).set_at(k) == old(store).set_at(k),
{
    let key = case_key(case_id);
    let ghost ck = case_key_spec(case_id@);
    let mut i: usize = 0;
    while i < labels.len()
        invariant
            i <= labels@.len(),
            ts_valid(ts),
            key@ == ck,
            ck == case_key_spec(case_id@),
            store.list_at(ck) == old(store).list_at(ck) + log_entries(
                ts,
                views_of(labels@.subrange(0, i as int)),
            ),
            forall|k: Seq<char>| k != ck ==> store.list_at(k) == old(store).list_at(k),
            forall|k: Seq<char>| store.str_at(k) == old(store).str_at(k),
            forall|k: Seq<char>| store.set_at(k) == old(store).set_at(k),
        decreases labels@.len() - i,
    {
        let ghost pre_labels = views_of(labels@.subrange(0, i as int));
        let ts_str = time_to_str(ts);
        store.rpush(key.clone(), ts_str);
        store.rpush(key.clone(), labels[i].clone());
        proof {
            let cur_labels = views_of(labels@.subrange(0, i + 1));
            assert(cur_labels.drop_last() =~= pre_labels);
            assert(cur_labels.last() == labels@[i as int]@);
            assert(store.list_at(ck) =~= old(store).list_at(ck) + log_entries(ts, cur_labels));
        }
        i = i + 1;
    }
    proof {
        assert(labels@.subrange(0, labels@.len() as int) =~= labels@);
    }
}

/// Decodes a flat stored log — alternating serialized timestamps and
/// labels, as the store's list range returns them — into `(instant, label)`
/// pairs in stored order. An unpaired entry or an unparseable timestamp is
/// surfaced as a corruption error, never dropped. This is the pure read
/// side: a driver that fetched the raw list from any backend decodes it
/// here.
pub fn decode_entries(raw: &Vec<String>) -> (r: Result<Vec<(u64, String)>, DataError>)
    ensures
        match r {
            Ok(entries) => log_wf(views_of(raw@)) && log_decodes(views_of(raw@), entries@),
            Err(e) => !log_wf(views_of(raw@)) && e == (
            if raw@.len() % 2 != 0 {
                DataError::CorruptLog
            } else {
                DataError::CorruptTimestamp
            }),
        },
{
    let ghost items = views_of(raw@);
    if raw.len() % 2 != 0 {
        return Err(DataError::CorruptLog);
    }
    let half = raw.len() / 2;
    let mut out: Vec<(u64, String)> = Vec::new();
    let mut i: usize = 0;
    proof {
        assert(2 * (half as int) == items.len());
    }
    while i < half
        invariant
            i <= half,
            2 * (half as int) == items.len(),
            2 * (half as int) <= usize::MAX,
            raw@.len() == items.len(),
            items == views_of(raw@),
            out@.len() == i,
            forall|j: int|
                0 <= j < i ==> ts_valid(#[trigger] out@[j].0) && rfc3339_denotes(
                    items[2 * j],
                    out@[j].0,
                ) && out@[j].1@ == items[2 * j + 1],
        decreases half - i,
    {
        match str_to_time(&raw[2 * i]) {
            Ok(ts) => {
                out.push((ts, raw[2 * i + 1].clone()));
            },
            Err(_) => {
                proof {
                    assert(rfc3339_parse(items[2 * (i as int)]) is None);
                }
                return Err(DataError::CorruptTimestamp);
            },
        }
        i = i + 1;
    }
    proof {
        assert forall|j: int| 0 <= j && 2 * j < items.len() implies rfc3339_parse(
            #[trigger] items[2 * j],
        ) is Some by {
            assert(ts_valid(out@[j].0) && rfc3339_denotes(items[2 * j], out@[j].0));
            assert(exists|t: u64| ts_valid(t) && rfc3339_denotes(items[2 * j], t));
        }
    }
    Ok(out)
}

/// Reads the full log for a case, oldest entry first, parsing each stored
/// timestamp back. An unknown case reads as an empty log. A malformed stored
/// log — an unpaired entry or an unparseable timestamp — is surfaced as a
/// corruption error, never dropped.
pub fn read(store: &KvStore, case_id: &String) -> (r: Result<Vec<(u64, String)>, DataError>)
    ensures
        match r {
            Ok(entries) => log_wf(store.list_at(case_key_spec(case_id@))) && log_decodes(
                store.list_at(case_key_spec(case_id@)),
                entries@,
            ),
            Err(e) => !log_wf(store.list_at(case_key_spec(case_id@))) && e == (
            if store.list_at(case_key_spec(case_id@)).len() % 2 != 0 {
                DataError::CorruptLog
            } else {
                DataError::CorruptTimestamp
            }),
        },
{
    let key = case_key(case_id);
    let raw = store.lrange_all(&key);
    proof {
        assert(views_of(raw@) =~= store.list_at(case_key_spec(case_id@)));
    }
    decode_entries(&raw)
}

} // verus!
