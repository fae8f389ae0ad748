use casetrace::case_index::{list_cases_since, report_symptoms};
use casetrace::kv::KvStore;
use casetrace::linker::{link, resolve_owner, resolve_owners, fetch_symptom_logs, LINK_TTL_SECS};
use casetrace::symptom_log;
use casetrace::DataError;

const T_REPORT: u64 = 1672567200; // 2023-01-01T10:00:00Z
const T_SINCE: u64 = 1672563600; // 2023-01-01T09:00:00Z

fn strings(v: &[&str]) -> Vec<String> {
    v.iter().map(|s| s.to_string()).collect()
}

#[test]
fn report_then_list_and_read() {
    // Report symptoms ["fever","cough"] for case "abc" at
    // 2023-01-01T10:00:00Z; a query since 09:00 covering that hour returns
    // "abc", and the log reads back both entries in order.
    let mut store = KvStore::new();
    let case = "abc".to_string();
    report_symptoms(&mut store, &case, &strings(&["fever", "cough"]), T_REPORT);

    // Two whole hours after `since` the 10:00 bucket is covered.
    let now = T_SINCE + 2 * 3600 + 1800;
    let cases = list_cases_since(&store, T_SINCE, now);
    assert_eq!(cases, vec!["abc".to_string()]);

    let log = symptom_log::read(&store, &case).unwrap();
    assert_eq!(
        log,
        vec![(T_REPORT, "fever".to_string()), (T_REPORT, "cough".to_string())]
    );
}

#[test]
fn list_misses_current_partial_hour() {
    // A report in the current, still-incomplete hour is not returned until
    // that hour has elapsed: a documented edge of the bucket enumeration.
    let mut store = KvStore::new();
    report_symptoms(&mut store, &"abc".to_string(), &strings(&["fever"]), T_REPORT);
    // Queried half an hour after the report, with `since` in the same hour.
    let cases = list_cases_since(&store, T_REPORT, T_REPORT + 1800);
    assert_eq!(cases.len(), 0);
    // Once the hour has elapsed the report is visible.
    let cases = list_cases_since(&store, T_REPORT, T_REPORT + 3600);
    assert_eq!(cases, vec!["abc".to_string()]);
}

#[test]
fn mid_hour_since_covers_whole_hour() {
    // `since` in the middle of an hour still covers reports from earlier in
    // that same hour: coverage is by whole UTC-hour buckets, rounded to the
    // hour `since` falls in.
    let mut store = KvStore::new();
    let since = T_REPORT + 1800; // 10:30
    report_symptoms(&mut store, &"abc".to_string(), &strings(&["fever"]), T_REPORT + 2700); // 10:45
    // 61 minutes later one whole hour has elapsed; the 10:00 bucket is covered.
    let cases = list_cases_since(&store, since, since + 3660);
    assert_eq!(cases, vec!["abc".to_string()]);
}

#[test]
fn read_unknown_case_is_empty() {
    let store = KvStore::new();
    assert_eq!(symptom_log::read(&store, &"nobody".to_string()), Ok(vec![]));
}

#[test]
fn interleaved_appends_keep_order() {
    // Any mix of single- and multi-label appends reads back in issue order.
    let mut store = KvStore::new();
    let case = "c1".to_string();
    symptom_log::append(&mut store, &case, T_REPORT, &strings(&["fever"]));
    symptom_log::append(&mut store, &case, T_REPORT + 60, &strings(&["cough", "ache"]));
    symptom_log::append(&mut store, &case, T_REPORT + 120, &strings(&["chills"]));
    let log = symptom_log::read(&store, &case).unwrap();
    assert_eq!(
        log,
        vec![
            (T_REPORT, "fever".to_string()),
            (T_REPORT + 60, "cough".to_string()),
            (T_REPORT + 60, "ache".to_string()),
            (T_REPORT + 120, "chills".to_string()),
        ]
    );
}

#[test]
fn two_cases_two_buckets() {
    let mut store = KvStore::new();
    report_symptoms(&mut store, &"a".to_string(), &strings(&["fever"]), T_REPORT);
    report_symptoms(&mut store, &"b".to_string(), &strings(&["cough"]), T_REPORT + 3600);
    let mut cases = list_cases_since(&store, T_SINCE, T_SINCE + 4 * 3600);
    cases.sort();
    assert_eq!(cases, vec!["a".to_string(), "b".to_string()]);
}

#[test]
fn repeated_report_listed_once() {
    let mut store = KvStore::new();
    report_symptoms(&mut store, &"a".to_string(), &strings(&["fever"]), T_REPORT);
    report_symptoms(&mut store, &"a".to_string(), &strings(&["cough"]), T_REPORT + 10);
    let cases = list_cases_since(&store, T_SINCE, T_SINCE + 4 * 3600);
    assert_eq!(cases, vec!["a".to_string()]);
}

#[test]
fn corrupt_log_unpaired_entry() {
    let mut store = KvStore::new();
    // One bare item under the case key: not a (timestamp, label) pairing.
    store.rpush("case:broken".to_string(), "2023-01-01T10:00:00Z".to_string());
    assert_eq!(
        symptom_log::read(&store, &"broken".to_string()),
        Err(DataError::CorruptLog)
    );
}

#[test]
fn corrupt_log_bad_timestamp() {
    let mut store = KvStore::new();
    store.rpush("case:broken".to_string(), "not-a-timestamp-----".to_string());
    store.rpush("case:broken".to_string(), "fever".to_string());
    assert_eq!(
        symptom_log::read(&store, &"broken".to_string()),
        Err(DataError::CorruptTimestamp)
    );
}

#[test]
fn link_window() {
    // A link is absent before creation, present through its seven days,
    // and absent strictly after.
    let mut store = KvStore::new();
    let id = "i1".to_string();
    let t_link = T_REPORT;
    assert_eq!(resolve_owner(&store, &id, t_link), None);
    link(&mut store, &strings(&["i1"]), &"case-1".to_string(), t_link);
    assert_eq!(resolve_owner(&store, &id, t_link), Some("case-1".to_string()));
    assert_eq!(
        resolve_owner(&store, &id, t_link + LINK_TTL_SECS - 1),
        Some("case-1".to_string())
    );
    assert_eq!(resolve_owner(&store, &id, t_link + LINK_TTL_SECS), None);
    assert_eq!(resolve_owner(&store, &id, t_link + LINK_TTL_SECS + 1), None);
}

#[test]
fn relink_resets_ttl_and_owner() {
    let mut store = KvStore::new();
    let id = "i1".to_string();
    link(&mut store, &strings(&["i1"]), &"case-1".to_string(), T_REPORT);
    let later = T_REPORT + LINK_TTL_SECS - 10;
    link(&mut store, &strings(&["i1"]), &"case-2".to_string(), later);
    // Past the first expiry, the reset link still resolves, to the new owner.
    assert_eq!(
        resolve_owner(&store, &id, T_REPORT + LINK_TTL_SECS + 5),
        Some("case-2".to_string())
    );
}

#[test]
fn resolve_unlinked_id_contributes_nothing() {
    // Link "i1" to "case-1"; resolving ["i1", "i2"] where "i2" was never
    // linked returns exactly {"case-1"}.
    let mut store = KvStore::new();
    link(&mut store, &strings(&["i1"]), &"case-1".to_string(), T_REPORT);
    let owners = resolve_owners(&store, &strings(&["i1", "i2"]), T_REPORT + 5);
    assert_eq!(owners, vec!["case-1".to_string()]);
}

#[test]
fn resolve_duplicates_returns_owner_once() {
    // Many interaction ids for one owner, with repetitions in the query:
    // the owner comes back exactly once.
    let mut store = KvStore::new();
    link(&mut store, &strings(&["i1", "i2"]), &"case-1".to_string(), T_REPORT);
    link(&mut store, &strings(&["i3"]), &"case-2".to_string(), T_REPORT);
    let mut owners = resolve_owners(
        &store,
        &strings(&["i1", "i2", "i1", "i3", "i2"]),
        T_REPORT + 5,
    );
    owners.sort();
    assert_eq!(owners, vec!["case-1".to_string(), "case-2".to_string()]);
}

#[test]
fn resolve_expired_is_absent() {
    let mut store = KvStore::new();
    link(&mut store, &strings(&["i1"]), &"case-1".to_string(), T_REPORT);
    let owners = resolve_owners(&store, &strings(&["i1"]), T_REPORT + LINK_TTL_SECS + 1);
    assert_eq!(owners.len(), 0);
}

#[test]
fn fetch_logs_per_owner() {
    let mut store = KvStore::new();
    report_symptoms(&mut store, &"a".to_string(), &strings(&["fever"]), T_REPORT);
    report_symptoms(&mut store, &"b".to_string(), &strings(&["cough"]), T_REPORT + 60);
    let logs = fetch_symptom_logs(&store, &strings(&["a", "b", "c"])).unwrap();
    assert_eq!(logs.len(), 3);
    assert_eq!(logs[0], vec![(T_REPORT, "fever".to_string())]);
    assert_eq!(logs[1], vec![(T_REPORT + 60, "cough".to_string())]);
    assert_eq!(logs[2], vec![]);
}

#[test]
fn store_set_semantics() {
    let mut store = KvStore::new();
    store.sadd("k".to_string(), "x".to_string());
    store.sadd("k".to_string(), "x".to_string());
    store.sadd("k".to_string(), "y".to_string());
    let mut members = store.smembers(&"k".to_string());
    members.sort();
    assert_eq!(members, vec!["x".to_string(), "y".to_string()]);
    assert_eq!(store.smembers(&"other".to_string()).len(), 0);
}

#[test]
fn distinct_strings_keeps_first_occurrences() {
    let v = strings(&["a", "b", "a", "c", "b", "a"]);
    assert_eq!(
        casetrace::kv::distinct_strings(&v),
        strings(&["a", "b", "c"])
    );
    assert_eq!(casetrace::kv::distinct_strings(&strings(&[])).len(), 0);
}

#[test]
fn reads_logs_stored_with_offset_timestamps() {
    // A log written by an earlier deployment with +00:00 offsets and
    // subsecond digits still reads back.
    let mut store = KvStore::new();
    store.rpush(
        "case:old".to_string(),
        "2023-01-01T10:00:00.123456789+00:00".to_string(),
    );
    store.rpush("case:old".to_string(), "fever".to_string());
    assert_eq!(
        symptom_log::read(&store, &"old".to_string()),
        Ok(vec![(T_REPORT, "fever".to_string())])
    );
}
