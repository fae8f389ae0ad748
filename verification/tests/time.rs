use casetrace::calendar::{month_and_day, year_and_doy};
use casetrace::clock::{instant_of_reading, now_ts};
use casetrace::keys::{case_key, time_key, time_keys_since};
use casetrace::rfc3339::{str_to_time, time_to_str};
use casetrace::DataError;

#[test]
fn formats_epoch_start() {
    assert_eq!(time_to_str(0), "1970-01-01T00:00:00Z");
}

#[test]
fn formats_last_instant() {
    assert_eq!(time_to_str(253402300799), "9999-12-31T23:59:59Z");
}

#[test]
fn formats_known_instant() {
    // 2023-01-01T10:00:00Z
    assert_eq!(time_to_str(1672567200), "2023-01-01T10:00:00Z");
}

#[test]
fn formats_leap_day() {
    // 2020-02-29T12:00:00Z
    assert_eq!(time_to_str(1582977600), "2020-02-29T12:00:00Z");
}

#[test]
fn formats_leap_second_adjacent() {
    assert_eq!(time_to_str(1483228799), "2016-12-31T23:59:59Z");
    assert_eq!(time_to_str(1483228800), "2017-01-01T00:00:00Z");
}

#[test]
fn parses_known_instant() {
    assert_eq!(str_to_time("2023-01-01T10:00:00Z"), Ok(1672567200));
    assert_eq!(str_to_time("1970-01-01T00:00:00Z"), Ok(0));
    assert_eq!(str_to_time("9999-12-31T23:59:59Z"), Ok(253402300799));
}

#[test]
fn rejects_malformed_timestamps() {
    let bad = [
        "",
        "2023-01-01T10:00:00",      // missing zone
        "2023-01-01 10:00:00Z",     // wrong separator
        "2023-13-01T10:00:00Z",     // month out of range
        "2023-00-01T10:00:00Z",     // month zero
        "2023-01-32T10:00:00Z",     // day out of range
        "2023-01-00T10:00:00Z",     // day zero
        "2021-02-29T10:00:00Z",     // February 29 of a common year
        "2023-01-01T24:00:00Z",     // hour out of range
        "2023-01-01T10:60:00Z",     // minute out of range
        "2023-01-01T10:00:60Z",     // second out of range
        "1969-12-31T23:59:59Z",     // before the epoch
        "2023-01-01T10:00:0xZ",     // non-digit
        "20230101T100000Z",         // undelimited
    ];
    for s in bad {
        assert_eq!(str_to_time(s), Err(DataError::CorruptTimestamp), "{}", s);
    }
}

#[test]
fn accepts_leap_day_of_leap_year() {
    assert_eq!(str_to_time("2020-02-29T12:00:00Z"), Ok(1582977600));
    assert_eq!(str_to_time("2000-02-29T00:00:00Z"), Ok(951782400));
}

#[test]
fn round_trips_across_wide_range() {
    // A spread of instants over the whole representable range, stepping by
    // a prime-ish stride so every field varies.
    let mut ts: u64 = 0;
    while ts <= 253402300799 {
        let s = time_to_str(ts);
        assert_eq!(str_to_time(&s), Ok(ts), "round trip failed at {}", ts);
        ts = ts.saturating_add(86399 * 977 + 12345);
        if ts == u64::MAX {
            break;
        }
    }
}

#[test]
fn matches_chrono_formatting() {
    let mut ts: u64 = 1;
    while ts <= 253402300799 {
        let s = time_to_str(ts);
        let c = chrono::DateTime::from_timestamp(ts as i64, 0).unwrap();
        assert_eq!(s, c.format("%Y-%m-%dT%H:%M:%SZ").to_string(), "at {}", ts);
        let parsed: chrono::DateTime<chrono::Utc> =
            chrono::DateTime::parse_from_rfc3339(&s).unwrap().into();
        assert_eq!(parsed.timestamp(), ts as i64, "chrono parse at {}", ts);
        ts = ts.saturating_add(86400 * 733 + 54321);
    }
}

#[test]
fn time_key_matches_chrono() {
    let samples: [u64; 5] = [0, 1672567200, 1582977600, 1609455600, 253402300799];
    for ts in samples {
        let c = chrono::DateTime::from_timestamp(ts as i64, 0).unwrap();
        assert_eq!(
            time_key(ts),
            c.format("time:%Y:%j:%H").to_string(),
            "at {}",
            ts
        );
    }
}

#[test]
fn time_key_known_values() {
    assert_eq!(time_key(1672567200), "time:2023:001:10");
    // 2020-12-31T23:00:00Z: day 366 of a leap year.
    assert_eq!(time_key(1609455600), "time:2020:366:23");
    assert_eq!(time_key(0), "time:1970:001:00");
}

#[test]
fn same_hour_same_key() {
    // Any two instants of one UTC hour share a bucket key.
    assert_eq!(time_key(1672567200), time_key(1672567200 + 3599));
    assert_ne!(time_key(1672567200), time_key(1672567200 + 3600));
}

#[test]
fn case_key_prefixes_id() {
    assert_eq!(case_key("abc"), "case:abc");
    assert_eq!(case_key(""), "case:");
}

#[test]
fn keys_since_excludes_partial_hour() {
    let since: u64 = 1672563600; // 2023-01-01T09:00:00Z
    // Less than one hour later: no keys yet.
    assert_eq!(time_keys_since(since, since + 3599).len(), 0);
    // Exactly one hour later: one key, the 09:00 bucket.
    let one = time_keys_since(since, since + 3600);
    assert_eq!(one, vec!["time:2023:001:09".to_string()]);
    // Two and a half hours later: the 09:00 and 10:00 buckets.
    let two = time_keys_since(since, since + 9000);
    assert_eq!(
        two,
        vec!["time:2023:001:09".to_string(), "time:2023:001:10".to_string()]
    );
    // A future `since` yields nothing.
    assert_eq!(time_keys_since(since, since - 1).len(), 0);
}

#[test]
fn calendar_splits_agree() {
    // 2020-02-29 is day index 59 (zero-based) of 2020.
    let (y, doy) = year_and_doy(18321);
    assert_eq!((y, doy), (2020, 59));
    let (m, d) = month_and_day(2020, 59);
    assert_eq!((m, d), (2, 29));
}

#[test]
fn clock_reads_in_range() {
    // The wall clock of any machine running this suite is inside the
    // representable range.
    assert!(now_ts().is_some());
}

#[test]
fn clock_reading_range_decision() {
    // A reading is an instant exactly when it lies in the representable
    // range.
    assert_eq!(instant_of_reading(0), Some(0));
    assert_eq!(instant_of_reading(1672567200), Some(1672567200));
    assert_eq!(instant_of_reading(253402300799), Some(253402300799));
    assert_eq!(instant_of_reading(253402300800), None);
    assert_eq!(instant_of_reading(u64::MAX), None);
}

#[test]
fn parses_numeric_offsets() {
    // The same instant written with Z, +00:00, and nonzero offsets.
    assert_eq!(str_to_time("2023-01-01T10:00:00+00:00"), Ok(1672567200));
    assert_eq!(str_to_time("2023-01-01T10:00:00-00:00"), Ok(1672567200));
    assert_eq!(str_to_time("2023-01-01T11:00:00+01:00"), Ok(1672567200));
    assert_eq!(str_to_time("2023-01-01T05:00:00-05:00"), Ok(1672567200));
    assert_eq!(str_to_time("2023-01-01T10:30:00+00:30"), Ok(1672567200));
}

#[test]
fn parses_fractional_seconds_floored() {
    assert_eq!(str_to_time("2023-01-01T10:00:00.5Z"), Ok(1672567200));
    assert_eq!(str_to_time("2023-01-01T10:00:00.123456789Z"), Ok(1672567200));
    assert_eq!(
        str_to_time("2023-01-01T10:00:00.999999999+00:00"),
        Ok(1672567200)
    );
}

#[test]
fn parses_offsets_across_epoch_boundaries() {
    // A 1969 civil date with a western offset still names a representable
    // instant.
    assert_eq!(str_to_time("1969-12-31T23:00:00-02:00"), Ok(3600));
    assert_eq!(str_to_time("1969-12-31T23:59:59-00:01"), Ok(59));
    // Instants shifted out of the representable range are rejected.
    assert_eq!(
        str_to_time("1970-01-01T00:00:00+00:01"),
        Err(DataError::CorruptTimestamp)
    );
    assert_eq!(
        str_to_time("9999-12-31T23:59:59-00:01"),
        Err(DataError::CorruptTimestamp)
    );
    assert_eq!(
        str_to_time("1969-12-31T22:00:00-01:00"),
        Err(DataError::CorruptTimestamp)
    );
}

#[test]
fn rejects_malformed_suffixes() {
    let bad = [
        "2023-01-01T10:00:00",          // no zone
        "2023-01-01T10:00:00.Z",        // fraction without digits
        "2023-01-01T10:00:00.5",        // fraction without zone
        "2023-01-01T10:00:00+0000",     // undelimited offset
        "2023-01-01T10:00:00+24:00",    // offset hours out of range
        "2023-01-01T10:00:00+00:60",    // offset minutes out of range
        "2023-01-01T10:00:00Zx",        // trailing text
        "2023-01-01T10:00:00+00:00x",   // trailing text after offset
        "2023-01-01T10:00:00 00:00",    // bad zone lead character
    ];
    for s in bad {
        assert_eq!(str_to_time(s), Err(DataError::CorruptTimestamp), "{}", s);
    }
}

#[test]
fn parses_what_chrono_writes() {
    // The original stored timestamps with chrono's to_rfc3339: a +00:00
    // offset and subsecond digits. Those strings read back to the same
    // whole-second instant.
    let samples: [u64; 4] = [0, 1672567200, 1582977600, 253402300799];
    for ts in samples {
        let whole = chrono::DateTime::from_timestamp(ts as i64, 0).unwrap();
        assert_eq!(str_to_time(&whole.to_rfc3339()), Ok(ts), "at {}", ts);
        if ts < 253402300799 {
            let frac = chrono::DateTime::from_timestamp(ts as i64, 123_456_789).unwrap();
            assert_eq!(str_to_time(&frac.to_rfc3339()), Ok(ts), "frac at {}", ts);
        }
    }
}
