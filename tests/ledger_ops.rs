use last_position::ledger::{
    add_info, add_info_sec, delete_log, expire_logs, expire_points, expire_points_sec,
    generate_log_token, generate_new_log, generate_random_url, get_all_logs, get_last_info,
    get_last_info_sec, get_log_from_token, get_log_from_url, set_last_activity, set_log_token,
    set_unique_url, Error, Ledger, TOKEN_LEN,
};
use last_position::models::{LogLocationPoint, NewInfo, NewInfoSec, COORD_SCALE, MEASURE_SCALE};
use last_position::retention::retention_threshold;
use last_position::segment::{segment, TRIP_GAP_SECS};

fn fix(log_id: i32, device_ts: i32, server_ts: i32, lat: i64, lon: i64, alt: Option<i64>) -> NewInfo {
    NewInfo {
        log_id,
        device_timestamp: device_ts,
        server_timestamp: Some(server_ts),
        lat,
        lon,
        altitude: alt,
        speed: None,
        direction: None,
        accuracy: None,
        loc_provider: Some("gps".to_string()),
        battery: None,
    }
}

fn one_log() -> Ledger {
    let mut db = Ledger::new();
    generate_new_log(&mut db, false, &vec![], 0).unwrap();
    db
}

fn count_of(db: &Ledger, log_id: i32) -> usize {
    get_last_info(db, log_id, -1, false).map_or(0, |v| v.len())
}

#[test]
fn valid_fixes_at_the_bounds_are_stored_and_newest() {
    let mut db = one_log();
    let corners = [
        (90 * COORD_SCALE, 180 * COORD_SCALE, Some(10000 * MEASURE_SCALE)),
        (-90 * COORD_SCALE, -180 * COORD_SCALE, Some(-500 * MEASURE_SCALE)),
        (0, 0, None),
    ];
    for (i, (lat, lon, alt)) in corners.into_iter().enumerate() {
        let p = add_info(&mut db, fix(1, 100 + i as i32, 200, lat, lon, alt)).unwrap();
        let last = get_last_info(&db, 1, 1, false).unwrap();
        assert_eq!(last.len(), 1);
        assert_eq!(last[0].id, p.id);
        assert_eq!(last[0].lat, lat);
        assert_eq!(last[0].lon, lon);
        assert_eq!(last[0].altitude, alt);
        assert_eq!(last[0].loc_provider, Some("gps".to_string()));
    }
    assert!(get_log_from_token(&db, "nothing").is_none());
}

#[test]
fn out_of_bounds_fixes_are_refused_without_trace() {
    let mut db = one_log();
    add_info(&mut db, fix(1, 1, 1, 0, 0, None)).unwrap();
    let bad = [
        (91 * COORD_SCALE, 0, None),
        (-90 * COORD_SCALE - 1, 0, None),
        (0, -181 * COORD_SCALE, None),
        (0, 180 * COORD_SCALE + 1, None),
        (0, 0, Some(10001 * MEASURE_SCALE)),
        (0, 0, Some(-500 * MEASURE_SCALE - 1)),
    ];
    for (lat, lon, alt) in bad {
        let res = add_info(&mut db, fix(1, 2, 2, lat, lon, alt));
        assert_eq!(res.unwrap_err(), Error::ValidationError);
        assert_eq!(count_of(&db, 1), 1);
    }
    let logs = get_all_logs(&db).unwrap();
    assert_eq!(logs[0].last_activity, Some(1));
}

#[test]
fn append_errors() {
    let mut db = one_log();
    assert_eq!(add_info(&mut db, fix(7, 1, 1, 0, 0, None)).unwrap_err(), Error::LogNotFound);
    let mut no_ts = fix(1, 1, 1, 0, 0, None);
    no_ts.server_timestamp = None;
    assert_eq!(add_info(&mut db, no_ts).unwrap_err(), Error::Undefined);
    assert_eq!(count_of(&db, 1), 0);
}

#[test]
fn fetch_returns_min_of_count_and_size_newest_first() {
    let mut db = one_log();
    generate_new_log(&mut db, false, &vec![], 0).unwrap();
    for i in 0..7 {
        add_info(&mut db, fix(1, 1000 - i, 10 + i, 0, 0, None)).unwrap();
        add_info(&mut db, fix(2, i, 10 + i, 0, 0, None)).unwrap();
    }
    for n in [0i64, 1, 3, 7, 8, 50] {
        let got = get_last_info(&db, 1, n, false);
        let expect = std::cmp::min(n as usize, 7);
        if expect == 0 {
            assert!(got.is_none());
            continue;
        }
        let got = got.unwrap();
        assert_eq!(got.len(), expect);
        for w in got.windows(2) {
            assert!(w[0].id > w[1].id);
        }
        assert!(got.iter().all(|p: &LogLocationPoint| p.log_id == 1));
        // arrival order, not device time
        assert_eq!(got[0].device_timestamp, 1000 - 6);
    }
    assert!(get_last_info(&db, 3, 5, false).is_none());
}

#[test]
fn retention_keeps_max_count_and_is_idempotent() {
    let mut db = one_log();
    for i in 1..=10 {
        add_info(&mut db, fix(1, i, i * 10, 0, 0, None)).unwrap();
    }
    assert_eq!(expire_points(&mut db, 1, 5, None, 1000), 5);
    assert_eq!(count_of(&db, 1), 5);
    assert_eq!(expire_points(&mut db, 1, 5, None, 1000), 0);
    assert_eq!(count_of(&db, 1), 5);
    let kept: Vec<i32> = get_last_info(&db, 1, -1, false).unwrap().iter().map(|p| p.server_timestamp).collect();
    assert_eq!(kept, vec![100, 90, 80, 70, 60]);
}

#[test]
fn retention_with_age_bound() {
    let mut db = one_log();
    for i in 1..=10 {
        add_info(&mut db, fix(1, i, i * 10, 0, 0, None)).unwrap();
    }
    assert_eq!(expire_points(&mut db, 1, 5, Some(60), 150), 8);
    let kept: Vec<i32> = get_last_info(&db, 1, -1, false).unwrap().iter().map(|p| p.server_timestamp).collect();
    assert_eq!(kept, vec![100, 90]);
}

#[test]
fn retention_keeps_ties_and_never_deletes_for_few_points() {
    let mut db = one_log();
    for ts in [10, 20, 20, 20, 30] {
        add_info(&mut db, fix(1, ts, ts, 0, 0, None)).unwrap();
    }
    assert_eq!(expire_points(&mut db, 1, 2, None, 100), 1);
    assert_eq!(count_of(&db, 1), 4);
    assert_eq!(expire_points(&mut db, 1, 10, None, 100), 0);
    assert_eq!(expire_points(&mut db, 1, 0, None, 100), 0);
    // nothing young enough: nothing to keep by, nothing expired
    assert_eq!(expire_points(&mut db, 1, 1, Some(5), 100), 0);
    assert_eq!(count_of(&db, 1), 4);
}

#[test]
fn retention_threshold_values() {
    assert_eq!(retention_threshold(&vec![5, 1, 9, 7, 3], 2, None), Some(7));
    assert_eq!(retention_threshold(&vec![5, 1, 9, 7, 3], 9, None), Some(1));
    assert_eq!(retention_threshold(&vec![5, 1, 9, 7, 3], 0, None), None);
    assert_eq!(retention_threshold(&vec![5, 1, 9, 7, 3], 2, Some(6)), Some(7));
    assert_eq!(retention_threshold(&vec![5, 1, 9, 7, 3], 5, Some(6)), Some(7));
    assert_eq!(retention_threshold(&vec![5, 1, 9, 7, 3], 5, Some(10)), None);
    assert_eq!(retention_threshold(&vec![4, 4, 4], 1, None), Some(4));
    assert_eq!(retention_threshold(&vec![], 3, None), None);
    assert_eq!(retention_threshold(&vec![i32::MIN, i32::MAX], 2, Some(i64::from(i32::MIN) - 5)), Some(i32::MIN));
}

#[test]
fn sealed_sweep_and_cascade() {
    let mut db = one_log();
    generate_new_log(&mut db, false, &vec![], 0).unwrap();
    for i in 1..=4 {
        add_info_sec(&mut db, NewInfoSec { log_id: 1, server_timestamp: Some(i), data: vec![i as u8] }).unwrap();
        add_info_sec(&mut db, NewInfoSec { log_id: 2, server_timestamp: Some(i), data: vec![] }).unwrap();
    }
    assert_eq!(expire_points_sec(&mut db, 1, 1, None, 10), 3);
    let left = get_last_info_sec(&db, 1, 10, false).unwrap();
    assert_eq!(left.len(), 1);
    assert_eq!(left[0].data, vec![4u8]);
    assert!(delete_log(&mut db, 2).is_ok());
    assert!(get_last_info_sec(&db, 2, 10, false).is_none());
    assert_eq!(get_last_info_sec(&db, 1, 10, false).unwrap().len(), 1);
}

#[test]
fn sealed_size_bound() {
    let mut db = one_log();
    let ok = NewInfoSec { log_id: 1, server_timestamp: Some(5), data: vec![0xab; 400] };
    assert!(add_info_sec(&mut db, ok).is_ok());
    let too_big = NewInfoSec { log_id: 1, server_timestamp: Some(6), data: vec![0xab; 401] };
    assert_eq!(add_info_sec(&mut db, too_big).unwrap_err(), Error::ValidationError);
    let stored = get_last_info_sec(&db, 1, 10, false).unwrap();
    assert_eq!(stored.len(), 1);
    assert_eq!(stored[0].data.len(), 400);
    assert_eq!(get_all_logs(&db).unwrap()[0].last_activity, Some(5));
    let orphan = NewInfoSec { log_id: 9, server_timestamp: Some(6), data: vec![] };
    assert_eq!(add_info_sec(&mut db, orphan).unwrap_err(), Error::LogNotFound);
}

#[test]
fn segmentation_keeps_newest_trip() {
    let mut db = one_log();
    let t0 = 1_000_000;
    for i in 0..10 {
        add_info(&mut db, fix(1, t0 + i, 0, 0, 0, None)).unwrap();
    }
    for i in 0..20 {
        add_info(&mut db, fix(1, t0 + 24 * 3600 + i, 0, 0, 0, None)).unwrap();
    }
    let all = get_last_info(&db, 1, 30, false).unwrap();
    assert_eq!(all.len(), 30);
    let cut = segment(all, TRIP_GAP_SECS);
    assert_eq!(cut.len(), 20);
    assert_eq!(cut[19].device_timestamp, t0 + 24 * 3600);
    assert_eq!(get_last_info(&db, 1, 30, true).unwrap().len(), 20);
    assert_eq!(get_last_info(&db, 1, 5, true).unwrap().len(), 5);
    // exactly the gap is still one trip
    let mut db = one_log();
    add_info(&mut db, fix(1, 0, 0, 0, 0, None)).unwrap();
    add_info(&mut db, fix(1, TRIP_GAP_SECS, 0, 0, 0, None)).unwrap();
    add_info(&mut db, fix(1, 2 * TRIP_GAP_SECS + 1, 0, 0, 0, None)).unwrap();
    assert_eq!(get_last_info(&db, 1, 10, true).unwrap().len(), 1);
    assert_eq!(segment(Vec::<LogLocationPoint>::new(), TRIP_GAP_SECS).len(), 0);
}

#[test]
fn urls_and_tokens() {
    let mut db = one_log();
    generate_new_log(&mut db, false, &vec![], 0).unwrap();
    assert!(set_unique_url(&mut db, 1, "alpha").is_ok());
    assert_eq!(set_unique_url(&mut db, 2, "alpha").unwrap_err(), Error::DatabaseError);
    assert_eq!(set_unique_url(&mut db, 3, "beta").unwrap_err(), Error::LogNotFound);
    assert_eq!(get_log_from_url(&db, "alpha").unwrap().id, 1);
    assert!(get_log_from_url(&db, "beta").is_none());

    let cands = vec!["alpha".to_string(), "beta".to_string()];
    assert!(generate_random_url(&mut db, 2, &cands).is_ok());
    assert_eq!(get_log_from_url(&db, "beta").unwrap().id, 2);
    assert_eq!(generate_random_url(&mut db, 2, &vec!["alpha".to_string()]).unwrap_err(), Error::Undefined);

    let t = generate_log_token(&mut db, 2).unwrap();
    assert_eq!(t.chars().count(), TOKEN_LEN);
    assert!(t.chars().all(|c| c.is_ascii_alphanumeric()));
    assert_eq!(get_log_from_token(&db, &t).unwrap().id, 2);
    assert_eq!(generate_log_token(&mut db, 5).unwrap_err(), Error::LogNotFound);
    assert_eq!(set_log_token(&mut db, 1, "tok".to_string()).unwrap(), "tok");
    assert_eq!(get_log_from_token(&db, "tok").unwrap().id, 1);
}

#[test]
fn new_logs_and_log_expiry() {
    let mut db = Ledger::new();
    let cands = vec!["one".to_string(), "two".to_string()];
    let l1 = generate_new_log(&mut db, true, &cands, 100).unwrap();
    assert_eq!(l1.id, 1);
    assert_eq!(l1.unique_url, Some("one".to_string()));
    assert_eq!(l1.priv_token.as_ref().map(|t| t.len()), Some(TOKEN_LEN));
    assert_eq!(l1.last_activity, Some(100));
    let l2 = generate_new_log(&mut db, true, &cands, 200).unwrap();
    assert_eq!(l2.unique_url, Some("two".to_string()));
    assert!(generate_new_log(&mut db, true, &cands, 300).is_err());
    let l4 = generate_new_log(&mut db, false, &cands, 400).unwrap();
    assert_eq!(l4.id, 4);
    assert_eq!(l4.unique_url, None);

    add_info(&mut db, fix(1, 1, 150, 0, 0, None)).unwrap();
    assert!(set_last_activity(&mut db, 2, 120).is_ok());
    // logs 1 (150) and 2 (120) are older than 400 - 100; log 3 has no
    // activity at all and stays
    assert_eq!(expire_logs(&mut db, 100, 400), 2);
    let left: Vec<i32> = get_all_logs(&db).unwrap().iter().map(|l| l.id).collect();
    assert_eq!(left, vec![3, 4]);
    assert!(get_last_info(&db, 1, 10, false).is_none());
    // ids are never given again
    assert_eq!(generate_new_log(&mut db, false, &cands, 500).unwrap().id, 5);
}

#[test]
fn expire() {
    let mut db = one_log();
    for i in 1..=10 {
        let mut n = fix(1, 1_727_038_236, i * 10, 45 * COORD_SCALE, 5 * COORD_SCALE, Some(500 * MEASURE_SCALE));
        n.battery = Some(99 * MEASURE_SCALE);
        add_info(&mut db, n).unwrap();
    }
    expire_points(&mut db, 1, 10, None, 1000);
    assert_eq!(count_of(&db, 1), 10);
    // max count 5, with 10 fixes: 5 remain
    expire_points(&mut db, 1, 5, None, 1000);
    assert_eq!(count_of(&db, 1), 5);
    // max count 5 and max lifetime 60 at time 150: 2 remain
    expire_points(&mut db, 1, 5, Some(60), 150);
    assert_eq!(count_of(&db, 1), 2);
}
