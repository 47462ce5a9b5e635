use bytes::BytesMut;
use cronet_receiver::protocol::{DecodeError, Packet, ProtocolCodec};

fn frame(magic: &[u8], app: &[u8], url: &[u8], end: u32, payload: &[u8]) -> Vec<u8> {
    let mut f = Vec::new();
    f.extend_from_slice(magic);
    f.extend_from_slice(&(app.len() as u16).to_be_bytes());
    f.extend_from_slice(&(url.len() as u16).to_be_bytes());
    f.extend_from_slice(&(payload.len() as u32).to_be_bytes());
    f.extend_from_slice(&end.to_be_bytes());
    f.extend_from_slice(app);
    f.extend_from_slice(url);
    f.extend_from_slice(payload);
    f
}

fn codec() -> ProtocolCodec {
    ProtocolCodec::new(&"MAGI".to_string())
}

#[test]
fn codec_key_is_cut_to_four_bytes() {
    let c = ProtocolCodec::new(&"my_secret_key".to_string());
    assert_eq!(c.magic_key, b"my_s".to_vec());
}

#[test]
fn codec_key_is_padded_with_zeros() {
    let c = ProtocolCodec::new(&"ab".to_string());
    assert_eq!(c.magic_key, vec![b'a', b'b', 0, 0]);
    let e = ProtocolCodec::new(&String::new());
    assert_eq!(e.magic_key, vec![0, 0, 0, 0]);
}

#[test]
fn codec_key_counts_utf8_bytes() {
    let c = ProtocolCodec::new(&"é键".to_string());
    assert_eq!(c.magic_key, "é键".as_bytes()[..4].to_vec());
}

#[test]
fn packet_tag_joins_app_and_url() {
    let p = Packet::new("app1".to_string(), "/api/test".to_string(), true, vec![1, 2]);
    assert_eq!(p.tag, "app1|/api/test");
    assert_eq!(p.tag_app, "app1");
    assert_eq!(p.tag_url, "/api/test");
    assert!(p.end_flag);
    assert_eq!(p.payload, vec![1, 2]);
}

#[test]
fn short_header_waits() {
    let mut buf = BytesMut::from(&b"MAGI\x00\x01"[..]);
    let r = codec().decode(&mut buf);
    assert!(matches!(r, Ok(None)));
    assert_eq!(&buf[..], b"MAGI\x00\x01");
}

#[test]
fn wrong_magic_is_refused() {
    let f = frame(b"XXXX", b"app1", b"/u", 1, b"{}");
    let mut buf = BytesMut::from(&f[..]);
    let r = codec().decode(&mut buf);
    assert!(matches!(r, Err(DecodeError::InvalidMagic)));
    assert_eq!(&buf[..], &f[..]);
}

#[test]
fn wrong_magic_waits_for_a_whole_header() {
    let mut buf = BytesMut::from(&b"XXXX\x00\x00\x00\x00"[..]);
    assert!(matches!(codec().decode(&mut buf), Ok(None)));
}

#[test]
fn whole_frame_decodes_and_is_taken_off() {
    let mut bytes = frame(b"MAGI", b"app1", b"/api/test", 1, b"{\"k\":1}");
    bytes.extend_from_slice(b"rest");
    let mut buf = BytesMut::from(&bytes[..]);
    let p = codec().decode(&mut buf).unwrap().unwrap();
    assert_eq!(p.tag_app, "app1");
    assert_eq!(p.tag_url, "/api/test");
    assert_eq!(p.tag, "app1|/api/test");
    assert!(p.end_flag);
    assert_eq!(p.payload, b"{\"k\":1}".to_vec());
    assert_eq!(&buf[..], b"rest");
}

#[test]
fn end_flag_zero_means_more_to_come() {
    let f = frame(b"MAGI", b"a", b"b", 0, b"xy");
    let mut buf = BytesMut::from(&f[..]);
    let p = codec().decode(&mut buf).unwrap().unwrap();
    assert!(!p.end_flag);
    assert!(buf.is_empty());
}

#[test]
fn any_nonzero_end_word_ends() {
    let f = frame(b"MAGI", b"a", b"b", 0x0100_0000, b"");
    let mut buf = BytesMut::from(&f[..]);
    let p = codec().decode(&mut buf).unwrap().unwrap();
    assert!(p.end_flag);
    assert!(p.payload.is_empty());
}

#[test]
fn partial_frame_waits_and_keeps_bytes() {
    let f = frame(b"MAGI", b"app1", b"/api", 1, b"payload");
    for k in 0..f.len() {
        let mut buf = BytesMut::from(&f[..k]);
        let r = codec().decode(&mut buf);
        assert!(matches!(r, Ok(None)), "prefix of length {}", k);
        assert_eq!(&buf[..], &f[..k]);
    }
}

#[test]
fn frames_stuck_together_come_apart() {
    let mut bytes = frame(b"MAGI", b"a", b"1", 0, b"[1,");
    bytes.extend(frame(b"MAGI", b"a", b"1", 1, b"2]"));
    let mut buf = BytesMut::from(&bytes[..]);
    let mut c = codec();
    let first = c.decode(&mut buf).unwrap().unwrap();
    let second = c.decode(&mut buf).unwrap().unwrap();
    assert_eq!(first.payload, b"[1,".to_vec());
    assert!(!first.end_flag);
    assert_eq!(second.payload, b"2]".to_vec());
    assert!(second.end_flag);
    assert!(matches!(c.decode(&mut buf), Ok(None)));
}

#[test]
fn invalid_utf8_tag_is_replaced() {
    let f = frame(b"MAGI", &[0x61, 0xff], b"/x", 1, b"1");
    let mut buf = BytesMut::from(&f[..]);
    let p = codec().decode(&mut buf).unwrap().unwrap();
    assert_eq!(p.tag_app, "a\u{FFFD}");
    assert_eq!(p.tag, "a\u{FFFD}|/x");
}

#[test]
fn short_key_codec_checks_padded_magic() {
    let mut c = ProtocolCodec::new(&"ab".to_string());
    let f = frame(&[b'a', b'b', 0, 0], b"t", b"u", 1, b"1");
    let mut buf = BytesMut::from(&f[..]);
    assert!(c.decode(&mut buf).unwrap().is_some());
}

#[test]
fn large_declared_payload_waits() {
    let mut f = frame(b"MAGI", b"a", b"b", 1, b"");
    f[8..12].copy_from_slice(&100_000u32.to_be_bytes());
    let mut buf = BytesMut::from(&f[..]);
    assert!(matches!(codec().decode(&mut buf), Ok(None)));
    assert_eq!(&buf[..], &f[..]);
}
