use cronet_receiver::assembly::{Assembler, MessageData};
use cronet_receiver::protocol::Packet;

fn packet(app: &str, url: &str, end: bool, payload: &[u8]) -> Packet {
    Packet::new(app.to_string(), url.to_string(), end, payload.to_vec())
}

#[test]
fn chunks_gather_into_one_json_message() {
    let mut a = Assembler::new();
    assert!(a.on_packet(packet("app1", "/u", false, b"{\"a\":")).is_none());
    assert!(a.on_packet(packet("app1", "/u", false, b"[1,")).is_none());
    let m = a.on_packet(packet("app1", "/u", true, b"2]}")).unwrap();
    assert_eq!(m.tag, "app1|/u");
    assert_eq!(m.tag_app, "app1");
    assert_eq!(m.tag_url, "/u");
    let expected: serde_json::Value = serde_json::from_str("{\"a\":[1,2]}").unwrap();
    match m.data {
        MessageData::Json(v) => assert_eq!(v, expected),
        MessageData::InvalidJson { .. } => panic!("expected JSON"),
    }
}

#[test]
fn single_last_chunk_is_a_whole_message() {
    let mut a = Assembler::new();
    let m = a.on_packet(packet("a", "b", true, b"42")).unwrap();
    assert!(matches!(m.data, MessageData::Json(serde_json::Value::Number(_))));
}

#[test]
fn invalid_json_becomes_error_message() {
    let mut a = Assembler::new();
    a.on_packet(packet("app1", "/u", false, b"not "));
    let m = a.on_packet(packet("app1", "/u", true, &[b'j', 0xe9])).unwrap();
    assert_eq!(m.tag, "error|app1|/u");
    assert_eq!(m.tag_app, "app1");
    assert_eq!(m.tag_url, "/u");
    match m.data {
        MessageData::InvalidJson { message } => assert_eq!(message, "not j\u{e9}"),
        MessageData::Json(_) => panic!("expected an error message"),
    }
}

#[test]
fn empty_message_is_dropped() {
    let mut a = Assembler::new();
    assert!(a.on_packet(packet("a", "b", false, b"")).is_none());
    assert!(a.on_packet(packet("a", "b", true, b"")).is_none());
}

#[test]
fn tag_keeps_its_id() {
    let mut a = Assembler::new();
    let first = a.on_packet(packet("app1", "/u", true, b"1")).unwrap();
    let second = a.on_packet(packet("app1", "/u", true, b"2")).unwrap();
    assert_eq!(first.id, second.id);
    assert_eq!(first.id.chars().count(), 8);
    assert!(first
        .id
        .chars()
        .all(|c| c == '_' || c == '-' || c.is_ascii_alphanumeric()));
}

#[test]
fn nothing_held_after_a_message() {
    let mut a = Assembler::new();
    a.on_packet(packet("t", "u", false, b"[1]"));
    a.on_packet(packet("t", "u", true, b""));
    let m = a.on_packet(packet("t", "u", true, b"7")).unwrap();
    let expected: serde_json::Value = serde_json::from_str("7").unwrap();
    match m.data {
        MessageData::Json(v) => assert_eq!(v, expected),
        MessageData::InvalidJson { .. } => panic!("expected JSON"),
    }
}

#[test]
fn tags_do_not_mix() {
    let mut a = Assembler::new();
    a.on_packet(packet("x", "1", false, b"[\"x\""));
    a.on_packet(packet("y", "1", false, b"[\"y\""));
    let mx = a.on_packet(packet("x", "1", true, b"]")).unwrap();
    let my = a.on_packet(packet("y", "1", true, b"]")).unwrap();
    let ex: serde_json::Value = serde_json::from_str("[\"x\"]").unwrap();
    let ey: serde_json::Value = serde_json::from_str("[\"y\"]").unwrap();
    assert!(matches!(mx.data, MessageData::Json(ref v) if *v == ex));
    assert!(matches!(my.data, MessageData::Json(ref v) if *v == ey));
    assert_ne!(mx.id, my.id);
}

#[test]
fn complete_message_without_value_is_error_text() {
    let m = cronet_receiver::assembly::complete_message(packet("a", "b", true, b""), "id".to_string(), b"x\xff", None);
    assert_eq!(m.tag, "error|a|b");
    assert_eq!(m.id, "id");
    assert!(matches!(m.data, MessageData::InvalidJson { ref message } if message == "x\u{ff}"));
}

#[test]
fn complete_message_keeps_given_value() {
    let v: serde_json::Value = serde_json::from_str("[1]").unwrap();
    let m = cronet_receiver::assembly::complete_message(packet("a", "b", true, b""), "id".to_string(), b"[1]", Some(v.clone()));
    assert_eq!(m.tag, "a|b");
    assert!(matches!(m.data, MessageData::Json(ref w) if *w == v));
}

#[test]
fn held_bytes_counts_pending_chunks() {
    let mut a = Assembler::new();
    assert_eq!(a.held_bytes("a|b"), 0);
    a.on_packet(packet("a", "b", false, b"abc"));
    a.on_packet(packet("a", "b", false, b"de"));
    assert_eq!(a.held_bytes("a|b"), 5);
    a.on_packet(packet("a", "b", true, b"f"));
    assert_eq!(a.held_bytes("a|b"), 0);
}
