use globalrts::codes::generate_token;
use globalrts::server::{Event, Message, Server};
use globalrts::store::{DeviceStatus, Pose};

const NOW: i64 = 1_700_000_000;

fn pose() -> Pose {
    Pose { latitude: 0, longitude: 0, altitude: 0, heading: 5, speed: 6, battery: 7 }
}

fn register(token: Option<&str>, device_id: &str) -> Message {
    Message::Register {
        token: token.map(|t| t.to_string()),
        device_id: device_id.to_string(),
        name: "Alpha".to_string(),
        device_type: "robot".to_string(),
        pose: pose(),
    }
}

fn paired(s: &mut Server, id: &str, entropy: u128) -> String {
    let code = s.db.create_pairing_request(id, "Alpha", "robot", NOW, entropy);
    s.db.confirm_pairing(id, &code.to_lowercase(), NOW + 1, generate_token(entropy)).unwrap()
}

#[test]
fn pair_and_authenticate() {
    let mut s = Server::new();
    let ui = s.add_client();
    let listing = s.handle_message(ui, Message::GetDevices, NOW, 0);
    assert_eq!(listing.deliveries.len(), 2);
    let code = s.db.create_pairing_request("r1", "Alpha", "robot", NOW, 99);
    let tick = s.tick(NOW + 1);
    assert_eq!(tick.len(), 1);
    assert_eq!(tick[0].peers, vec![ui]);
    match &tick[0].event {
        Event::PairingRequests(l) => {
            assert_eq!(l.len(), 1);
            assert_eq!(l[0].code, code);
            assert_eq!(l[0].device_id, "r1");
        }
        _ => panic!("expected pairing requests"),
    }
    let token = s.db.confirm_pairing("r1", &code.to_lowercase(), NOW + 2, generate_token(99)).unwrap();
    assert_eq!(token.len(), 64);
    let dev = s.add_client();
    let r = s.handle_message(dev, register(Some(&token), "r1"), NOW + 3, 0);
    assert_eq!(r.deliveries.len(), 2);
    assert_eq!(r.deliveries[0].peers, vec![dev]);
    assert!(matches!(&r.deliveries[0].event, Event::Registered(d) if d.id == "r1"));
    assert_eq!(r.deliveries[1].peers, vec![ui]);
    assert!(matches!(&r.deliveries[1].event, Event::DeviceOnline(d) if d.id == "r1" && d.status == DeviceStatus::Online));
}

#[test]
fn register_without_token_is_refused() {
    let mut s = Server::new();
    let ui = s.add_client();
    s.handle_message(ui, Message::GetDevices, NOW, 0);
    let dev = s.add_client();
    for tok in [None, Some("")] {
        let r = s.handle_message(dev, register(tok, "r1"), NOW, 0);
        assert_eq!(r.deliveries.len(), 1);
        assert_eq!(r.deliveries[0].peers, vec![dev]);
        assert!(matches!(&r.deliveries[0].event, Event::Error { code, .. } if code == "no_token"));
    }
    let listing = s.handle_message(ui, Message::GetDevices, NOW, 0);
    assert!(matches!(&listing.deliveries[0].event, Event::DevicesList(l) if l.is_empty()));
    assert!(s.db.get_device("r1").is_none());
}

#[test]
fn register_with_unknown_token_is_refused() {
    let mut s = Server::new();
    let dev = s.add_client();
    let r = s.handle_message(dev, register(Some("deadbeef"), "r1"), NOW, 0);
    assert!(matches!(&r.deliveries[0].event, Event::Error { code, .. } if code == "invalid_token"));
    assert!(s.db.get_device("r1").is_none());
}

#[test]
fn empty_device_id_adopts_the_token_device() {
    let mut s = Server::new();
    let token = paired(&mut s, "r1", 3);
    let dev = s.add_client();
    let r = s.handle_message(dev, register(Some(&token), ""), NOW + 5, 0);
    assert!(matches!(&r.deliveries[0].event, Event::Registered(d) if d.id == "r1"));
    assert_eq!(s.db.get_device("r1").unwrap().status, DeviceStatus::Online);
}

#[test]
fn command_round_trip_sent_and_failed() {
    let mut s = Server::new();
    let ui = s.add_client();
    s.handle_message(ui, Message::GetDevices, NOW, 0);
    let token = paired(&mut s, "r1", 4);
    let dev = s.add_client();
    s.handle_message(dev, register(Some(&token), "r1"), NOW, 0);
    let cmd = Message::SendCommand {
        device_id: "r1".to_string(),
        command_type: "ring".to_string(),
        payload: "{}".to_string(),
    };
    let r = s.handle_message(ui, cmd, NOW, 0x1234_5678);
    assert_eq!(r.deliveries.len(), 1);
    assert_eq!(r.deliveries[0].peers, vec![dev]);
    let id = match &r.deliveries[0].event {
        Event::Command { command_id, command_type, payload } => {
            assert_eq!(command_type, "ring");
            assert_eq!(payload, "{}");
            command_id.clone()
        }
        _ => panic!("expected a command"),
    };
    assert_eq!(id, "6553f100-444c");
    let done = s.finish_command(r.dispatch.unwrap(), true);
    assert_eq!(done.peers, vec![ui]);
    assert!(matches!(&done.event, Event::CommandSent { status, device_id, .. } if status == "sent" && device_id == "r1"));
    assert_eq!(s.db.commands[0].status, "sent");

    s.remove_client(dev, NOW + 1);
    let cmd = Message::SendCommand {
        device_id: "r1".to_string(),
        command_type: "ring".to_string(),
        payload: "{}".to_string(),
    };
    let r = s.handle_message(ui, cmd, NOW + 2, 1);
    assert!(r.deliveries.is_empty());
    let done = s.finish_command(r.dispatch.unwrap(), false);
    assert!(matches!(&done.event, Event::CommandSent { status, .. } if status == "failed"));
    assert_eq!(s.db.commands[1].status, "failed");
}

#[test]
fn disconnect_sends_one_offline_event() {
    let mut s = Server::new();
    let ui1 = s.add_client();
    let ui2 = s.add_client();
    s.handle_message(ui1, Message::GetDevices, NOW, 0);
    s.handle_message(ui2, Message::GetDevices, NOW, 0);
    let token = paired(&mut s, "r1", 5);
    let dev = s.add_client();
    s.handle_message(dev, register(Some(&token), "r1"), NOW, 0);
    let off = s.remove_client(dev, NOW + 9);
    assert_eq!(off.len(), 1);
    assert_eq!(off[0].peers, vec![ui1, ui2]);
    assert!(matches!(&off[0].event, Event::DeviceOffline(d) if d == "r1"));
    assert_eq!(s.db.get_device("r1").unwrap().status, DeviceStatus::Offline);
    assert!(s.remove_client(dev, NOW + 10).is_empty());
    let unbound = s.add_client();
    assert!(s.remove_client(unbound, NOW + 11).is_empty());
}

#[test]
fn last_registration_wins() {
    let mut s = Server::new();
    let ui = s.add_client();
    s.handle_message(ui, Message::GetDevices, NOW, 0);
    let token = paired(&mut s, "r1", 6);
    let a = s.add_client();
    let b = s.add_client();
    s.handle_message(a, register(Some(&token), "r1"), NOW, 0);
    let r = s.handle_message(b, register(Some(&token), "r1"), NOW + 1, 0);
    assert_eq!(r.deliveries.len(), 3);
    assert!(matches!(&r.deliveries[0].event, Event::DeviceOffline(d) if d == "r1"));
    assert!(matches!(&r.deliveries[1].event, Event::Registered(_)));
    assert!(matches!(&r.deliveries[2].event, Event::DeviceOnline(_)));
    assert!(!s.has_client(a));
    assert!(s.has_client(b));
    let bound: Vec<_> = s.clients.iter().filter(|c| c.device_id.as_deref() == Some("r1")).collect();
    assert_eq!(bound.len(), 1);
    assert_eq!(bound[0].id, b);
}

#[test]
fn telemetry_only_from_bound_devices() {
    let mut s = Server::new();
    let ui = s.add_client();
    s.handle_message(ui, Message::GetDevices, NOW, 0);
    let stranger = s.add_client();
    let p = Pose { latitude: 1, longitude: 2, altitude: 3, heading: 4, speed: 5, battery: 6 };
    let r = s.handle_message(stranger, Message::Telemetry { pose: p }, NOW, 0);
    assert!(r.deliveries.is_empty());
    let token = paired(&mut s, "r1", 7);
    let dev = s.add_client();
    s.handle_message(dev, register(Some(&token), "r1"), NOW, 0);
    let r = s.handle_message(dev, Message::Telemetry { pose: p }, NOW + 1, 0);
    assert_eq!(r.deliveries.len(), 1);
    assert_eq!(r.deliveries[0].peers, vec![ui]);
    assert!(matches!(&r.deliveries[0].event, Event::DeviceUpdate { device_id, pose } if device_id == "r1" && *pose == p));
    assert_eq!(s.db.get_device("r1").unwrap().pose, p);
}

#[test]
fn reports_dismissals_and_revocations() {
    let mut s = Server::new();
    let ui = s.add_client();
    s.handle_message(ui, Message::GetDevices, NOW, 0);
    s.db.save_command("c1", "r1", "ring", "{}", "sent", NOW).unwrap();
    let raw = "{\"type\":\"command:ack\",\"data\":{\"commandId\":\"c1\"}}".to_string();
    let r = s.handle_message(ui, Message::CommandReport { command_id: Some("c1".to_string()), status: None, raw: raw.clone() }, NOW, 0);
    assert!(matches!(&r.deliveries[0].event, Event::Forward(x) if *x == raw));
    assert_eq!(s.db.commands[0].status, "acknowledged");
    s.handle_message(ui, Message::CommandReport { command_id: Some("c1".to_string()), status: Some("completed".to_string()), raw }, NOW, 0);
    assert_eq!(s.db.commands[0].status, "completed");

    s.db.create_pairing_request("p1", "P", "phone", NOW, 1);
    s.handle_message(ui, Message::DismissPairing(Some("p1".to_string())), NOW, 0);
    assert!(s.db.get_pending_pairing_requests(NOW).is_empty());

    paired(&mut s, "r2", 8);
    let r = s.handle_message(ui, Message::RevokeDevice(Some("r2".to_string())), NOW, 0);
    assert!(matches!(&r.deliveries[0].event, Event::DeviceRevoked(d) if d == "r2"));
    assert!(s.db.get_all_devices().is_empty());
    assert!(s.handle_message(ui, Message::Unknown, NOW, 0).deliveries.is_empty());
}

#[test]
fn tick_sweeps_expired_requests_and_is_quiet_without_any() {
    let mut s = Server::new();
    let ui = s.add_client();
    s.handle_message(ui, Message::GetDevices, NOW, 0);
    assert!(s.tick(NOW).is_empty());
    s.db.create_pairing_request("p1", "P", "phone", NOW, 1);
    assert_eq!(s.tick(NOW + 299).len(), 1);
    assert!(s.tick(NOW + 300).is_empty());
    assert!(s.db.requests.is_empty());
}
