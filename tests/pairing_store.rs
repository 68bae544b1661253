use globalrts::codes::{generate_code, generate_id, generate_token, now_unix, rand_u16, secs_of_nanos};
use globalrts::store::{DeviceInfo, DeviceStatus, Pose, StateDb};

fn is_code_char(c: char) -> bool {
    "ABCDEFGHJKLMNPQRSTUVWXYZ23456789".contains(c)
}

#[test]
fn codes_use_the_alphabet_and_have_six_symbols() {
    for t in [0u128, 1, 0xdead_beef, 1_700_000_000_123_456_789, u128::MAX] {
        let c = generate_code(t);
        assert_eq!(c.chars().count(), 6);
        assert!(c.chars().all(is_code_char), "{}", c);
    }
    assert_eq!(generate_code(0), "AAAAAA");
    assert_eq!(generate_code(1), "BAAAAA");
}

#[test]
fn token_is_sixty_four_lower_hex_digits() {
    let t = generate_token(1);
    assert_eq!(
        t,
        "5851f42d4c957f2c005851f42d4c957f00005851f42d4c950000005851f42d4c"
    );
    assert_eq!(generate_token(0), "0".repeat(64));
    let u = generate_token(1_700_000_000_123_456_789);
    assert_eq!(u.len(), 64);
    assert!(u.chars().all(|c| c.is_ascii_hexdigit() && !c.is_ascii_uppercase()));
}

#[test]
fn command_id_is_time_dash_four_hex_digits() {
    assert_eq!(generate_id(0x65, 0xab), "65-00ab");
    assert_eq!(generate_id(0, 0), "0-0000");
    assert_eq!(generate_id(1_700_000_000, 0xbeef), "6553f100-beef");
    assert_eq!(rand_u16(0x1234_5678), 0x444c);
}

#[test]
fn pair_then_validate_then_code_is_spent() {
    let mut db = StateDb::new();
    let code = db.create_pairing_request("r1", "Alpha", "robot", 1000, 42);
    assert!(code.chars().all(is_code_char));
    let token = generate_token(777);
    let t = db
        .confirm_pairing("r1", &code.to_lowercase(), 1010, token.clone())
        .unwrap();
    assert_eq!(t, token);
    assert_eq!(db.validate_token(&t), Some("r1".to_string()));
    assert!(db.confirm_pairing("r1", &code, 1011, generate_token(778)).is_err());
    let listed = db.get_all_devices();
    assert_eq!(listed.len(), 1);
    assert_eq!(listed[0].id, "r1");
    assert_eq!(listed[0].name, "Alpha");
    assert_eq!(listed[0].device_type, "robot");
    assert_eq!(listed[0].status, DeviceStatus::Offline);
    assert!(db.get_pending_pairing_requests(1011).is_empty());
}

#[test]
fn confirm_after_expiry_is_rejected() {
    let mut db = StateDb::new();
    let code = db.create_pairing_request("r1", "Alpha", "robot", 1000, 7);
    let r = db.confirm_pairing("r1", &code, 1301, generate_token(1));
    assert_eq!(r, Err("Invalid or expired code".to_string()));
    assert_eq!(db.validate_token(&generate_token(1)), None);
}

#[test]
fn confirm_exactly_at_expiry_is_rejected() {
    let mut db = StateDb::new();
    let code = db.create_pairing_request("r1", "Alpha", "robot", 1000, 7);
    assert_eq!(db.requests[0].expires_at, 1300);
    assert!(db.confirm_pairing("r1", &code, 1300, generate_token(1)).is_err());
    assert!(db.confirm_pairing("r1", &code, 1299, generate_token(1)).is_ok());
}

#[test]
fn wrong_code_and_unknown_device_are_rejected() {
    let mut db = StateDb::new();
    let code = db.create_pairing_request("r1", "Alpha", "robot", 1000, 7);
    let wrong = if code == "ZZZZZZ" { "YYYYYY" } else { "ZZZZZZ" };
    assert!(db.confirm_pairing("r1", wrong, 1001, generate_token(1)).is_err());
    assert!(db.confirm_pairing("r2", &code, 1001, generate_token(1)).is_err());
    assert_eq!(db.requests.len(), 1);
}

#[test]
fn a_new_request_replaces_the_old_one() {
    let mut db = StateDb::new();
    let first = db.create_pairing_request("r1", "Alpha", "robot", 1000, 0);
    let second = db.create_pairing_request("r1", "Alpha", "robot", 1005, 1);
    assert_eq!(db.requests.len(), 1);
    assert_eq!(db.requests[0].code, second);
    assert_ne!(first, second);
    assert!(db.confirm_pairing("r1", &first, 1006, generate_token(5)).is_err());
    assert!(db.confirm_pairing("r1", &second, 1006, generate_token(5)).is_ok());
}

#[test]
fn sweep_drops_requests_at_or_past_expiry() {
    let mut db = StateDb::new();
    db.create_pairing_request("a", "A", "robot", 1000, 1);
    db.create_pairing_request("b", "B", "drone", 1200, 2);
    assert_eq!(db.get_pending_pairing_requests(1299).len(), 2);
    assert_eq!(db.cleanup_expired_requests(1300), 1);
    let left = db.get_pending_pairing_requests(1300);
    assert_eq!(left.len(), 1);
    assert_eq!(left[0].device_id, "b");
    assert_eq!(left[0].created_at, 1200);
    assert_eq!(left[0].expires_at, 1500);
}

#[test]
fn dismiss_removes_the_request() {
    let mut db = StateDb::new();
    let code = db.create_pairing_request("a", "A", "robot", 1000, 1);
    db.delete_pairing_request("a");
    assert!(db.get_pending_pairing_requests(1000).is_empty());
    assert!(db.confirm_pairing("a", &code, 1001, generate_token(3)).is_err());
}

#[test]
fn only_paired_devices_are_listed() {
    let mut db = StateDb::new();
    let info = DeviceInfo {
        id: "loose".to_string(),
        name: "Loose".to_string(),
        device_type: "sensor".to_string(),
        status: DeviceStatus::Online,
        pose: Pose { latitude: 1, longitude: 2, altitude: 3, heading: 0, speed: 0, battery: 5 },
        last_seen: 10,
    };
    db.upsert_device(&info);
    assert!(db.get_all_devices().is_empty());
    assert!(db.get_device("loose").is_some());
    let code = db.create_pairing_request("r1", "Alpha", "robot", 1000, 9);
    db.confirm_pairing("r1", &code, 1001, generate_token(9)).unwrap();
    let listed = db.get_all_devices();
    assert_eq!(listed.len(), 1);
    assert_eq!(listed[0].id, "r1");
}

#[test]
fn revoked_device_leaves_listing_and_token_fails() {
    let mut db = StateDb::new();
    let code = db.create_pairing_request("r1", "Alpha", "robot", 1000, 9);
    let t = db.confirm_pairing("r1", &code, 1001, generate_token(9)).unwrap();
    db.revoke_device("r1");
    assert!(db.get_all_devices().is_empty());
    assert_eq!(db.validate_token(&t), None);
    assert_eq!(db.get_device("r1").unwrap().status, DeviceStatus::Revoked);
    db.delete_device("r1");
    assert!(db.get_device("r1").is_none());
}

#[test]
fn a_token_held_by_another_device_is_refused() {
    let mut db = StateDb::new();
    let a = db.create_pairing_request("a", "A", "robot", 1000, 1);
    let b = db.create_pairing_request("b", "B", "robot", 1000, 2);
    db.confirm_pairing("a", &a, 1001, generate_token(5)).unwrap();
    assert_eq!(
        db.confirm_pairing("b", &b, 1001, generate_token(5)),
        Err("Token already in use".to_string())
    );
    assert!(db.confirm_pairing("b", &b, 1001, generate_token(6)).is_ok());
}

#[test]
fn telemetry_and_status_update_the_record() {
    let mut db = StateDb::new();
    let code = db.create_pairing_request("r1", "Alpha", "robot", 1000, 9);
    db.confirm_pairing("r1", &code, 1001, generate_token(9)).unwrap();
    let pose = Pose { latitude: 34_052_200, longitude: -118_243_700, altitude: 0, heading: 90_000_000, speed: 1_000_000, battery: 80_000_000 };
    db.update_telemetry("r1", pose, 2000);
    let d = db.get_device("r1").unwrap();
    assert_eq!(d.pose, pose);
    assert_eq!(d.status, DeviceStatus::Online);
    assert_eq!(d.last_seen, 2000);
    db.set_status("r1", DeviceStatus::Offline, 2001);
    let d = db.get_device("r1").unwrap();
    assert_eq!(d.status, DeviceStatus::Offline);
    assert_eq!(d.last_seen, 2001);
}

#[test]
fn commands_keep_unique_ids_and_track_status() {
    let mut db = StateDb::new();
    assert!(db.save_command("c1", "r1", "ring", "{}", "pending", 5).is_ok());
    assert!(db.save_command("c1", "r1", "stop", "{}", "pending", 6).is_err());
    db.update_command_status("c1", "sent");
    assert_eq!(db.commands.len(), 1);
    assert_eq!(db.commands[0].status, "sent");
    assert_eq!(db.commands[0].command_type, "ring");
}

#[test]
fn pending_requests_are_listed_newest_first() {
    let mut db = StateDb::new();
    db.create_pairing_request("a", "A", "robot", 1000, 1);
    db.create_pairing_request("b", "B", "robot", 1100, 2);
    db.create_pairing_request("c", "C", "robot", 1050, 3);
    let ids: Vec<String> = db
        .get_pending_pairing_requests(1200)
        .into_iter()
        .map(|r| r.device_id)
        .collect();
    assert_eq!(ids, vec!["b", "c", "a"]);
}

#[test]
fn devices_are_listed_most_recently_seen_first() {
    let mut db = StateDb::new();
    for (id, e) in [("a", 1u128), ("b", 2), ("c", 3)] {
        let code = db.create_pairing_request(id, id, "robot", 1000, e);
        db.confirm_pairing(id, &code, 1001, generate_token(e)).unwrap();
    }
    let p = Pose { latitude: 0, longitude: 0, altitude: 0, heading: 0, speed: 0, battery: 0 };
    db.update_telemetry("a", p, 3000);
    db.update_telemetry("c", p, 2000);
    let ids: Vec<String> = db.get_all_devices().into_iter().map(|d| d.id).collect();
    assert_eq!(ids, vec!["a", "c", "b"]);
}

#[test]
fn seconds_from_nanoseconds() {
    assert_eq!(secs_of_nanos(0), 0);
    assert_eq!(secs_of_nanos(1_999_999_999), 1);
    assert_eq!(secs_of_nanos(1_700_000_000_123_456_789), 1_700_000_000);
    assert_eq!(secs_of_nanos(u128::MAX), i64::MAX);
    assert!(now_unix() > 1_600_000_000);
}
