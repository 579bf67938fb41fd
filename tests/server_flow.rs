use last_position::apitypes::{
    get_last_location, get_last_location_secure, set_last_location, set_last_location_secure,
    ApiError, SetLastLocParams, SetLastLocSecParams,
};
use last_position::ledger::{
    delete_log, generate_log_token, generate_new_log, get_log, set_unique_url, Ledger,
};
use last_position::models::COORD_SCALE;

const CURR_TIME: i32 = 1_727_000_000;

fn deg(d: i64) -> i64 {
    d * COORD_SCALE
}

fn form(token: &str, device_ts: i32, lat: i64, lon: i64) -> SetLastLocParams {
    SetLastLocParams {
        priv_token: token.to_string(),
        device_timestamp: device_ts,
        server_timestamp: None,
        lat,
        lon,
        altitude: None,
        speed: None,
        direction: None,
        accuracy: None,
        loc_provider: None,
        battery: None,
    }
}

fn form_with_altitude(token: &str, device_ts: i32, lat: i64, lon: i64, alt: i64) -> SetLastLocParams {
    let mut f = form(token, device_ts, lat, lon);
    f.altitude = Some(alt);
    f
}

fn new_db_with_token() -> (Ledger, String) {
    let mut db = Ledger::new();
    assert!(generate_new_log(&mut db, false, &vec![], CURR_TIME).is_ok());
    let token = generate_log_token(&mut db, 1).unwrap();
    (db, token)
}

#[test]
fn simple_location_post_get() {
    let (mut db, token) = new_db_with_token();
    assert!(get_log(&db, 1).is_some());
    assert!(get_log(&db, 2).is_none());

    // no data yet
    let res = get_last_location(&db, Some(1), None, None, None);
    assert_eq!(res.unwrap_err(), ApiError::NotFound);

    // get/set single/only data
    assert!(set_last_location(&mut db, form(&token, CURR_TIME + 1, deg(32), deg(22)), CURR_TIME).is_ok());
    let json_res = get_last_location(&db, Some(1), None, None, None).unwrap();
    assert_eq!(json_res.len(), 1);
    assert_eq!(json_res[0].device_timestamp, CURR_TIME + 1);
    assert_eq!(json_res[0].lat, deg(32));
    assert_eq!(json_res[0].lon, deg(22));

    // get set latest data
    assert!(set_last_location(&mut db, form(&token, CURR_TIME + 2, deg(66), deg(77)), CURR_TIME).is_ok());
    let json_res = get_last_location(&db, Some(1), None, None, None).unwrap();
    assert_eq!(json_res.len(), 1);
    assert_eq!(json_res[0].device_timestamp, CURR_TIME + 2);
    assert_eq!(json_res[0].lat, deg(66));
    assert_eq!(json_res[0].lon, deg(77));

    let res = get_last_location(&db, None, Some("something_something".to_string()), None, None);
    assert_eq!(res.unwrap_err(), ApiError::NotFound);

    assert!(set_unique_url(&mut db, 1, "something_something").is_ok());
    let json_res = get_last_location(&db, None, Some("something_something".to_string()), None, None).unwrap();
    assert_eq!(json_res.len(), 1);
    assert_eq!(json_res[0].device_timestamp, CURR_TIME + 2);
    assert_eq!(json_res[0].lat, deg(66));
    assert_eq!(json_res[0].lon, deg(77));

    assert!(set_unique_url(&mut db, 1, "something_something").is_ok());

    assert!(set_last_location(&mut db, form(&token, CURR_TIME + 3, deg(88), deg(99)), CURR_TIME).is_ok());
    assert!(set_last_location(&mut db, form(&token, CURR_TIME + 4, deg(11), deg(22)), CURR_TIME).is_ok());
    let json_res =
        get_last_location(&db, None, Some("something_something".to_string()), Some(10), None).unwrap();
    assert_eq!(json_res.len(), 4);
}

#[test]
fn simple_invalid_location_post_get() {
    let (mut db, token) = new_db_with_token();
    assert!(set_unique_url(&mut db, 1, "something_something").is_ok());

    // no data yet
    let res = get_last_location(&db, Some(1), None, None, None);
    assert_eq!(res.unwrap_err(), ApiError::NotFound);

    let bad = [
        form(&token, 1, deg(-91), deg(22)),
        form(&token, 1, deg(91), deg(22)),
        form(&token, 1, deg(10), deg(-181)),
        form(&token, 1, deg(10), deg(181)),
        form(&token, 1, deg(-100), deg(-200)),
        form(&token, 1, deg(100), deg(300)),
        form_with_altitude(&token, 1, deg(10), deg(20), -3000 * 1000),
        form_with_altitude(&token, 1, deg(10), deg(20), (10000 + 1) * 1000),
    ];
    for f in bad {
        let res = set_last_location(&mut db, f, CURR_TIME);
        assert_eq!(res.unwrap_err(), ApiError::BadRequest);
    }

    // nothing got added to the log
    let res = get_last_location(&db, None, Some("something_something".to_string()), Some(10), None);
    assert_eq!(res.unwrap_err(), ApiError::NotFound);
}

#[test]
fn test_cut_last_segment_get() {
    let (mut db, token) = new_db_with_token();
    assert!(get_log(&db, 1).is_some());
    assert!(get_log(&db, 2).is_none());

    for i in 1..11 {
        let res = set_last_location(&mut db, form(&token, CURR_TIME + i, deg(32), deg(22)), CURR_TIME);
        assert!(res.is_ok());
    }
    for i in 1..21 {
        let res = set_last_location(
            &mut db,
            form(&token, CURR_TIME + i + 24 * 3600, deg(32), deg(22)),
            CURR_TIME,
        );
        assert!(res.is_ok());
    }
    assert!(set_unique_url(&mut db, 1, "something_something").is_ok());

    // 30 asked, trips cut: only the newest 20 come back
    let url = Some("something_something".to_string());
    let json_res = get_last_location(&db, None, url.clone(), Some(30), Some(true)).unwrap();
    assert_eq!(json_res.len(), 20);

    let json_res = get_last_location(&db, None, url.clone(), Some(30), Some(false)).unwrap();
    assert_eq!(json_res.len(), 30);

    let json_res = get_last_location(&db, None, url, Some(50), Some(false)).unwrap();
    assert_eq!(json_res.len(), 30);
}

#[test]
fn delete_log_test() {
    let mut db = Ledger::new();
    assert!(generate_new_log(&mut db, false, &vec![], CURR_TIME).is_ok());
    assert!(generate_new_log(&mut db, false, &vec![], CURR_TIME).is_ok());
    assert!(delete_log(&mut db, 1).is_ok());
    assert!(delete_log(&mut db, 1).is_err());
    assert!(delete_log(&mut db, 3).is_err());
    assert!(delete_log(&mut db, 2).is_ok());
    assert!(delete_log(&mut db, 2).is_err());
}

#[test]
fn simple_location_post_get_sec() {
    let (mut db, token) = new_db_with_token();
    assert!(get_log(&db, 1).is_some());

    // no data yet
    let res = get_last_location_secure(&db, Some(1), None, None, None);
    assert_eq!(res.unwrap_err(), ApiError::NotFound);

    let params = SetLastLocSecParams { priv_token: token.clone(), data: "abcdef".to_string() };
    assert!(set_last_location_secure(&mut db, params, CURR_TIME).is_ok());

    let json_res = get_last_location_secure(&db, Some(1), None, None, None).unwrap();
    assert_eq!(json_res.len(), 1);
    assert_eq!(json_res[0].data.len(), 3usize);

    let params = SetLastLocSecParams { priv_token: token.clone(), data: "ab".to_string().repeat(400usize) };
    assert!(set_last_location_secure(&mut db, params, CURR_TIME).is_ok());

    let params = SetLastLocSecParams { priv_token: token.clone(), data: "ab".to_string().repeat(401usize) };
    assert!(set_last_location_secure(&mut db, params, CURR_TIME).is_err());
}
