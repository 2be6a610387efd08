use std::collections::HashMap;

use panel_sync::json::{read_json, JsonValue};
use panel_sync::outside::UtcInstant;
use panel_sync::panel::{
    add_client_body, add_client_outcome, add_client_request, add_client_request_at, added_days,
    extend_outcome, join_failures, login_outcome, new_user_record, update_client_body,
    update_client_path, update_client_request, update_client_request_at, update_client_settings,
    update_failure, update_failure_from_reply,
};
use panel_sync::sync::{
    collect_synced_users, schedule_from, synced_users_from_reply, user_schedule, SyncError,
};
use serde_json::Value;

fn parse(text: &str) -> JsonValue {
    read_json(text).unwrap()
}

fn object(entries: Vec<(&str, Value)>) -> Value {
    let mut m = serde_json::Map::new();
    for (k, v) in entries {
        m.insert(k.to_string(), v);
    }
    Value::Object(m)
}

#[test]
fn add_body_matches_the_panel_format() {
    let body = add_client_body("u-1", "bob", 2, 1700006400000);
    let settings = format!(
        "{{\"clients\":[{{\"id\":\"{}\",\"email\":\"{}-{}\",\"enable\":true,\"expiryTime\":{}}}]}}",
        "u-1", "bob", 2, 1700006400000i64
    );
    let want = object(vec![("id", Value::from(2)), ("settings", Value::from(settings))]).to_string();
    assert_eq!(body, want);
}

#[test]
fn add_request_expires_at_a_midnight() {
    let r = add_client_request("u", "e", 30, 1).unwrap();
    assert_eq!(r.expiry_ms % 86_400_000, 0);
    assert_eq!(r.body, add_client_body("u", "e", 1, r.expiry_ms));
    assert!(add_client_request("u", "e", i64::MAX, 1).is_none());
}

#[test]
fn update_settings_match_serde_json() {
    let s = update_client_settings("id\"x", "ma\\il", 2, false, 10, -20, 86_400_000, 5);
    let client = object(vec![
        ("enable", Value::from(false)),
        ("email", Value::from("ma\\il-2")),
        ("id", Value::from("id\"x")),
        ("up", Value::from(10)),
        ("down", Value::from(-20)),
        ("expiryTime", Value::from(86_400_000i64)),
        ("lastOnline", Value::from(5)),
    ]);
    let want = object(vec![("clients", Value::Array(vec![client]))]).to_string();
    assert_eq!(s, want);
    assert_eq!(update_client_body(2, &s), format!("id=2&settings={}", s));
    assert_eq!(update_client_path("abc"), "/panel/api/inbounds/updateClient/abc");
}

#[test]
fn update_request_uses_the_inbound_values() {
    let up: HashMap<i64, i64> = [(1, 7)].into_iter().collect();
    let down: HashMap<i64, i64> = HashMap::new();
    let last: HashMap<i64, i64> = [(2, 9)].into_iter().collect();
    let request = update_client_request("u", "e", 3, 1, true, &up, &down, &last).unwrap();
    assert_eq!(request.expiry_ms % 86_400_000, 0);
    let body = request.body;
    assert!(body.contains(&format!("\"expiryTime\":{},", request.expiry_ms)));
    assert!(body.starts_with("id=1&settings={\"clients\":[{\"down\":0,\"email\":\"e-1\",\"enable\":true,\"expiryTime\":"));
    assert!(body.ends_with(",\"id\":\"u\",\"lastOnline\":0,\"up\":7}]}"));
}

#[test]
fn update_failures() {
    let ok = Some(parse(r#"{"success":true,"msg":"fine"}"#));
    assert_eq!(update_failure(1, true, "200 OK", &ok), None);
    assert_eq!(
        update_failure(1, false, "500 Internal Server Error", &ok),
        Some("inbound 1: fine (status 500 Internal Server Error)".to_string())
    );
    let refused = Some(parse(r#"{"success":false}"#));
    assert_eq!(
        update_failure(2, true, "200 OK", &refused),
        Some("inbound 2: updateClient failed (status 200 OK)".to_string())
    );
    assert_eq!(
        update_failure(2, true, "200 OK", &None),
        Some("inbound 2: updateClient failed (status 200 OK)".to_string())
    );
    let odd = Some(parse(r#"{"success":"true","msg":5}"#));
    assert_eq!(
        update_failure(1, true, "200 OK", &odd),
        Some("inbound 1: updateClient failed (status 200 OK)".to_string())
    );
}

#[test]
fn extend_outcomes() {
    assert_eq!(extend_outcome("bob", &vec![]), Ok(()));
    let failures = vec!["a".to_string(), "b".to_string()];
    assert_eq!(join_failures(&failures), "a; b");
    assert_eq!(
        extend_outcome("bob", &failures),
        Err("failed to extend user bob: a; b".to_string())
    );
}

#[test]
fn new_users_start_empty() {
    let u = new_user_record();
    assert_eq!(u.uuid.len(), 36);
    let parsed = uuid::Uuid::parse_str(&u.uuid).unwrap();
    assert_eq!(parsed.get_version_num(), 4);
    assert_eq!(parsed.to_string(), u.uuid);
    assert_eq!(u.up_json, r#"[{"data":0,"inbID":1},{"data":0,"inbID":2}]"#);
    assert_eq!(u.down_json, u.up_json);
    assert_eq!(u.last_online_json, u.up_json);
}

#[test]
fn days_are_added() {
    assert_eq!(added_days(10, 5), 15);
    assert_eq!(added_days(10, -15), -5);
}

#[test]
fn users_are_gathered_across_inbounds() {
    let reply = parse(
        r#"{"obj":[
            {"id":1,"clientStats":[
                {"uuid":"u1","email":"ann-1","enable":false,"up":10,"down":20,"lastOnline":5,"expiryTime":100},
                {"uuid":"","email":"ghost-1","enable":true},
                {"uuid":"u2","email":"bob-1","enable":true,"up":1,"down":2,"lastOnline":3,"expiryTime":50}
            ]},
            {"name":"no id","clientStats":"ignored"},
            {"id":2,"clientStats":[
                {"uuid":"u1","email":"anne-2","enable":true,"up":30,"down":40,"lastOnline":6,"expiryTime":90}
            ]}
        ]}"#,
    );
    let users = collect_synced_users(&reply).ok().unwrap();
    assert_eq!(users.len(), 2);
    let ann = &users[0];
    assert_eq!(ann.uuid, "u1");
    assert_eq!(ann.name, "anne");
    assert!(ann.is_active);
    assert_eq!(ann.max_expiry, 100);
    assert_eq!(ann.up, [(1, 10), (2, 30)].into_iter().collect());
    assert_eq!(ann.down, [(1, 20), (2, 40)].into_iter().collect());
    assert_eq!(ann.last_online, [(1, 5), (2, 6)].into_iter().collect());
    let bob = &users[1];
    assert_eq!(bob.uuid, "u2");
    assert_eq!(bob.name, "bob");
    assert!(bob.is_active);
    assert_eq!(bob.max_expiry, 50);
}

#[test]
fn sync_errors() {
    assert!(matches!(collect_synced_users(&parse(r#"{"x":1}"#)), Err(SyncError::NoObj)));
    assert!(matches!(
        collect_synced_users(&parse(r#"{"obj":[{"id":1,"clientStats":[]},{"id":2}]}"#)),
        Err(SyncError::NoClientStats)
    ));
    assert_eq!(SyncError::NoObj.message(), "no obj");
    assert_eq!(SyncError::NoClientStats.message(), "no clientStats");
    assert_eq!(SyncError::InvalidExpiry.message(), "invalid expiryTime");
}

#[test]
fn schedules() {
    let now = UtcInstant { secs: 1_700_000_000, nanos: 0 };
    assert_eq!(user_schedule(0, &now).ok(), Some((0, String::new())));
    assert_eq!(user_schedule(-5, &now).ok(), Some((0, String::new())));
    assert_eq!(
        user_schedule(1_700_000_000_000 + 3 * 86_400_000 + 1, &now).ok(),
        Some((3, "2023-11-17".to_string()))
    );
    assert!(matches!(user_schedule(i64::MAX, &now), Err(SyncError::InvalidExpiry)));
}

#[test]
fn schedules_from_chrono_readings() {
    assert_eq!(schedule_from(0, None, None).ok(), Some((0, String::new())));
    assert_eq!(schedule_from(0, Some("x".to_string()), Some(4)).ok(), Some((0, String::new())));
    assert_eq!(
        schedule_from(5, Some("1970-01-01".to_string()), Some(-2)).ok(),
        Some((-2, "1970-01-01".to_string()))
    );
    assert!(matches!(schedule_from(5, None, Some(1)), Err(SyncError::InvalidExpiry)));
    assert!(matches!(schedule_from(5, Some("d".to_string()), None), Err(SyncError::InvalidExpiry)));
}

#[test]
fn add_request_at_a_given_instant() {
    // 1_700_000_000 s is 2023-11-14T22:13:20Z: day 19675 since the epoch.
    let now = UtcInstant { secs: 1_700_000_000, nanos: 0 };
    let r = add_client_request_at("u", "e", 30, 1, &now).unwrap();
    assert_eq!(r.expiry_ms, 19_705 * 86_400_000);
    assert_eq!(r.body, add_client_body("u", "e", 1, 19_705 * 86_400_000));
    let early = UtcInstant { secs: 86_399, nanos: 999_999_999 };
    assert_eq!(add_client_request_at("u", "e", 0, 2, &early).unwrap().expiry_ms, 0);
    let before_epoch = UtcInstant { secs: -1, nanos: 0 };
    assert_eq!(
        add_client_request_at("u", "e", 1, 2, &before_epoch).unwrap().expiry_ms,
        0
    );
    assert!(add_client_request_at("u", "e", i64::MAX, 1, &now).is_none());
}

#[test]
fn update_request_at_a_given_instant() {
    let now = UtcInstant { secs: 1_700_000_000, nanos: 0 };
    let up: HashMap<i64, i64> = [(2, 4)].into_iter().collect();
    let down: HashMap<i64, i64> = [(2, 6)].into_iter().collect();
    let last: HashMap<i64, i64> = HashMap::new();
    let r = update_client_request_at("u", "e", -10, 2, false, &up, &down, &last, &now).unwrap();
    assert_eq!(r.expiry_ms, 19_665 * 86_400_000);
    let settings = update_client_settings("u", "e", 2, false, 4, 6, 19_665 * 86_400_000, 0);
    assert_eq!(r.body, update_client_body(2, &settings));
}

#[test]
fn panel_replies() {
    assert_eq!(login_outcome(true), Ok(()));
    assert_eq!(login_outcome(false), Err("login failed".to_string()));
    assert_eq!(add_client_outcome(true, "200 OK"), Ok(()));
    assert_eq!(
        add_client_outcome(false, "404 Not Found"),
        Err("addClient failed: 404 Not Found".to_string())
    );
}

#[test]
fn clients_and_inbounds_without_ids_change_nothing() {
    let plain = parse(
        r#"{"obj":[
            {"id":1,"clientStats":[
                {"uuid":"u1","email":"ann-1","enable":true,"up":1,"down":2,"lastOnline":3,"expiryTime":4}
            ]},
            {"id":2,"clientStats":[
                {"uuid":"u1","email":"ann-2","enable":false,"up":5,"down":6,"lastOnline":7,"expiryTime":8}
            ]}
        ]}"#,
    );
    let more = parse(
        r#"{"obj":[
            {"id":"1","clientStats":[{"uuid":"u9","email":"x-1","enable":true}]},
            {"id":1,"clientStats":[
                {"email":"nobody-1","enable":true,"expiryTime":99},
                {"uuid":"u1","email":"ann-1","enable":true,"up":1,"down":2,"lastOnline":3,"expiryTime":4}
            ]},
            {"id":2,"clientStats":[
                {"uuid":"u1","email":"ann-2","enable":false,"up":5,"down":6,"lastOnline":7,"expiryTime":8},
                {"uuid":"","email":"blank-2","enable":true,"expiryTime":100}
            ]},
            {"id":2.5}
        ]}"#,
    );
    let a = collect_synced_users(&plain).ok().unwrap();
    let b = collect_synced_users(&more).ok().unwrap();
    assert_eq!(a.len(), 1);
    assert_eq!(b.len(), 1);
    assert_eq!(a[0].uuid, b[0].uuid);
    assert_eq!(a[0].name, b[0].name);
    assert_eq!(a[0].is_active, b[0].is_active);
    assert_eq!(a[0].max_expiry, b[0].max_expiry);
    assert_eq!(a[0].up, b[0].up);
    assert_eq!(a[0].down, b[0].down);
    assert_eq!(a[0].last_online, b[0].last_online);
}

#[test]
fn days_left_are_truncated_toward_zero() {
    let now = UtcInstant { secs: 1_700_000_000, nanos: 500_000_000 };
    // 2 days and 1 ms in the past: -2 whole days.
    let past = 1_700_000_000_500 - 2 * 86_400_000 - 1;
    assert_eq!(user_schedule(past, &now).ok().map(|(d, _)| d), Some(-2));
    // Half a day ahead: no whole day yet.
    let soon = 1_700_000_000_500 + 43_200_000;
    assert_eq!(user_schedule(soon, &now).ok().map(|(d, _)| d), Some(0));
    // One nanosecond short of a day is still no whole day.
    let day_ahead = 1_700_000_000_500 + 86_400_000;
    let later = UtcInstant { secs: 1_700_000_000, nanos: 500_000_001 };
    assert_eq!(user_schedule(day_ahead, &later).ok().map(|(d, _)| d), Some(0));
    assert_eq!(user_schedule(day_ahead, &now).ok().map(|(d, _)| d), Some(1));
}

#[test]
fn update_failures_from_reply_bodies() {
    assert_eq!(update_failure_from_reply(1, true, "200 OK", r#"{"success":true}"#), None);
    assert_eq!(
        update_failure_from_reply(2, true, "200 OK", r#"{"success":false,"msg":"no such client"}"#),
        Some("inbound 2: no such client (status 200 OK)".to_string())
    );
    assert_eq!(
        update_failure_from_reply(1, true, "200 OK", "<html>"),
        Some("inbound 1: updateClient failed (status 200 OK)".to_string())
    );
    assert_eq!(
        update_failure_from_reply(1, false, "502 Bad Gateway", r#"{"success":true,"msg":"ok"}"#),
        Some("inbound 1: ok (status 502 Bad Gateway)".to_string())
    );
}

#[test]
fn users_from_reply_bodies() {
    let body = r#"{"obj":[{"id":1,"clientStats":[{"uuid":"u1","email":"ann-1","enable":true,"up":1,"down":2,"lastOnline":3,"expiryTime":4}]}]}"#;
    let users = synced_users_from_reply(body).ok().unwrap();
    assert_eq!(users.len(), 1);
    assert_eq!(users[0].uuid, "u1");
    assert_eq!(users[0].name, "ann");
    assert_eq!(synced_users_from_reply(r#"{"x":1}"#).err(), Some("no obj".to_string()));
    assert_eq!(
        synced_users_from_reply(r#"{"obj":[{"id":1}]}"#).err(),
        Some("no clientStats".to_string())
    );
    let want = serde_json::from_str::<Value>("not json").unwrap_err().to_string();
    assert_eq!(synced_users_from_reply("not json").err(), Some(want));
}

#[test]
fn expiries_at_the_edges_of_chrono_range() {
    let last_day = UtcInstant { secs: 95_026_236 * 86_400, nanos: 0 };
    assert_eq!(
        add_client_request_at("u", "e", 0, 1, &last_day).unwrap().expiry_ms,
        95_026_236 * 86_400_000
    );
    assert!(add_client_request_at("u", "e", 1, 1, &last_day).is_none());
    let first_day = UtcInstant { secs: -96_465_292 * 86_400, nanos: 0 };
    assert!(add_client_request_at("u", "e", 0, 1, &first_day).is_some());
    assert!(add_client_request_at("u", "e", -1, 1, &first_day).is_none());
    let before = UtcInstant { secs: -96_465_292 * 86_400 - 1, nanos: 0 };
    assert!(add_client_request_at("u", "e", 5, 1, &before).is_none());
}
