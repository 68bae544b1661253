use globalrts::frame::{
    decode_frame, encode_frame, State, WebSocket, OPCODE_CLOSE, OPCODE_PING, OPCODE_PONG,
    OPCODE_TEXT,
};

fn client_frame(opcode: u8, key: [u8; 4], payload: &[u8]) -> Vec<u8> {
    let mut f = vec![0x80 | opcode];
    let len = payload.len();
    if len < 126 {
        f.push(0x80 | len as u8);
    } else if len < 65536 {
        f.push(0x80 | 126);
        f.extend_from_slice(&(len as u16).to_be_bytes());
    } else {
        f.push(0x80 | 127);
        f.extend_from_slice(&(len as u64).to_be_bytes());
    }
    f.extend_from_slice(&key);
    for (i, b) in payload.iter().enumerate() {
        f.push(b ^ key[i % 4]);
    }
    f
}

#[test]
fn short_text_frame_layout() {
    let f = encode_frame(b"hi", OPCODE_TEXT);
    assert_eq!(f, vec![0x81, 2, b'h', b'i']);
}

#[test]
fn length_125_uses_seven_bits() {
    let p = vec![7u8; 125];
    let f = encode_frame(&p, OPCODE_TEXT);
    assert_eq!(f[1], 125);
    assert_eq!(f.len(), 2 + 125);
    let d = decode_frame(&f).unwrap();
    assert_eq!(d.payload, p);
    assert_eq!(d.consumed, f.len());
}

#[test]
fn length_126_switches_to_sixteen_bits() {
    let p = vec![1u8; 126];
    let f = encode_frame(&p, OPCODE_TEXT);
    assert_eq!(&f[1..4], &[126, 0, 126]);
    assert_eq!(f.len(), 4 + 126);
    assert_eq!(decode_frame(&f).unwrap().payload, p);
}

#[test]
fn length_127_uses_sixteen_bits() {
    let p = vec![2u8; 127];
    let f = encode_frame(&p, OPCODE_TEXT);
    assert_eq!(&f[1..4], &[126, 0, 127]);
    assert_eq!(decode_frame(&f).unwrap().payload, p);
}

#[test]
fn length_65535_still_sixteen_bits() {
    let p = vec![3u8; 65535];
    let f = encode_frame(&p, OPCODE_TEXT);
    assert_eq!(&f[1..4], &[126, 0xff, 0xff]);
    assert_eq!(f.len(), 4 + 65535);
    assert_eq!(decode_frame(&f).unwrap().payload, p);
}

#[test]
fn length_65536_switches_to_sixty_four_bits() {
    let p = vec![4u8; 65536];
    let f = encode_frame(&p, OPCODE_TEXT);
    assert_eq!(&f[1..10], &[127, 0, 0, 0, 0, 0, 1, 0, 0]);
    assert_eq!(f.len(), 10 + 65536);
    let d = decode_frame(&f).unwrap();
    assert_eq!(d.payload, p);
    assert_eq!(d.consumed, f.len());
}

#[test]
fn masked_client_frames_decode_at_each_boundary() {
    let key = [0x37, 0xfa, 0x21, 0x3d];
    for len in [0usize, 1, 125, 126, 127, 65535, 65536] {
        let p: Vec<u8> = (0..len).map(|i| (i % 251) as u8).collect();
        let f = client_frame(OPCODE_TEXT, key, &p);
        let d = decode_frame(&f).unwrap();
        assert!(d.fin);
        assert_eq!(d.opcode, OPCODE_TEXT);
        assert_eq!(d.payload, p);
        assert_eq!(d.consumed, f.len());
    }
}

#[test]
fn server_text_round_trip() {
    let s = "héllo, wörld ✓";
    let f = encode_frame(s.as_bytes(), OPCODE_TEXT);
    let d = decode_frame(&f).unwrap();
    let mut ws = WebSocket::new();
    assert_eq!(ws.read(d).unwrap(), Some(s.to_string()));
}

#[test]
fn client_text_round_trip() {
    let s = "{\"type\":\"getDevices\",\"data\":{}}";
    let f = client_frame(OPCODE_TEXT, [1, 2, 3, 4], s.as_bytes());
    let d = decode_frame(&f).unwrap();
    let mut ws = WebSocket::new();
    assert_eq!(ws.read(d).unwrap(), Some(s.to_string()));
    assert!(ws.take_outbox().is_empty());
}

#[test]
fn incomplete_frames_wait_for_more_bytes() {
    let f = client_frame(OPCODE_TEXT, [9, 9, 9, 9], b"hello");
    for cut in 0..f.len() {
        assert!(decode_frame(&f[..cut]).is_none());
    }
    let mut longer = f.clone();
    longer.extend_from_slice(&[0x81, 0x00]);
    assert_eq!(decode_frame(&longer).unwrap().consumed, f.len());
}

#[test]
fn unsolicited_ping_gets_matching_pong() {
    let f = client_frame(OPCODE_PING, [5, 6, 7, 8], b"hi");
    let d = decode_frame(&f).unwrap();
    let mut ws = WebSocket::new();
    assert_eq!(ws.read(d).unwrap(), None);
    let out = ws.take_outbox();
    assert_eq!(out, vec![0x80 | OPCODE_PONG, 2, b'h', b'i']);
    assert_eq!(ws.state, State::Open);
}

#[test]
fn close_is_echoed_and_closes() {
    let f = client_frame(OPCODE_CLOSE, [1, 1, 1, 1], &[0x03, 0xe8]);
    let d = decode_frame(&f).unwrap();
    let mut ws = WebSocket::new();
    assert_eq!(ws.read(d).unwrap(), None);
    assert_eq!(ws.state, State::Closed);
    assert_eq!(ws.take_outbox(), vec![0x88, 2, 0x03, 0xe8]);
    assert_eq!(ws.send("late"), Err("Connection not open".to_string()));
    let again = decode_frame(&client_frame(OPCODE_TEXT, [0; 4], b"x")).unwrap();
    assert_eq!(ws.read(again).unwrap(), None);
}

#[test]
fn pong_and_unknown_opcodes_are_ignored() {
    let mut ws = WebSocket::new();
    let pong = decode_frame(&client_frame(OPCODE_PONG, [0; 4], b"z")).unwrap();
    assert_eq!(ws.read(pong).unwrap(), None);
    let other = decode_frame(&client_frame(0x2, [0; 4], b"bin")).unwrap();
    assert_eq!(ws.read(other).unwrap(), None);
    assert!(ws.take_outbox().is_empty());
    assert_eq!(ws.state, State::Open);
}

#[test]
fn invalid_utf8_is_a_read_error() {
    let d = decode_frame(&client_frame(OPCODE_TEXT, [3, 3, 3, 3], &[0xff, 0xfe])).unwrap();
    let mut ws = WebSocket::new();
    assert!(ws.read(d).is_err());
}

#[test]
fn send_queues_unmasked_text_and_close_sends_once() {
    let mut ws = WebSocket::new();
    ws.send("ok").unwrap();
    assert_eq!(ws.take_outbox(), vec![0x81, 2, b'o', b'k']);
    ws.close();
    assert_eq!(ws.state, State::Closed);
    assert_eq!(ws.take_outbox(), vec![0x88, 0]);
    ws.close();
    assert!(ws.take_outbox().is_empty());
}
