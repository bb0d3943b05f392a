use relay_core::codec::{Message, FormatError, MAX_MESSAGE_SIZE};

fn request(uuid: &str, peer_id: &str, role: &str) -> Message {
    Message::RelayRequest {
        uuid: uuid.to_string(),
        peer_id: peer_id.to_string(),
        role: role.to_string(),
    }
}

fn frame_of(m: &Message) -> Vec<u8> {
    m.to_bytes().expect("frame fits")
}

#[test]
fn request_encodes_as_length_prefixed_json() {
    let bytes = frame_of(&request("s1", "p", "host"));
    let payload = br#"{"RelayRequest":{"uuid":"s1","peer_id":"p","role":"host"}}"#;
    let n = payload.len() as u32;
    assert_eq!(&bytes[..4], &n.to_be_bytes()[..]);
    assert_eq!(&bytes[4..], &payload[..]);
}

#[test]
fn response_encodes_success_and_null_message() {
    let m = Message::RelayResponse { success: true, message: None };
    let bytes = frame_of(&m);
    assert_eq!(&bytes[4..], br#"{"RelayResponse":{"success":true,"message":null}}"#);
}

#[test]
fn response_encodes_failure_text() {
    let m = Message::RelayResponse { success: false, message: Some("nope".to_string()) };
    let bytes = frame_of(&m);
    assert_eq!(&bytes[4..], br#"{"RelayResponse":{"success":false,"message":"nope"}}"#);
}

#[test]
fn round_trip_request() {
    let bytes = frame_of(&request("session-9", "peer-x", "client"));
    match Message::from_bytes(&bytes).unwrap() {
        Message::RelayRequest { uuid, peer_id, role } => {
            assert_eq!(uuid, "session-9");
            assert_eq!(peer_id, "peer-x");
            assert_eq!(role, "client");
        }
        other => panic!("wrong variant: {:?}", other),
    }
}

#[test]
fn round_trip_response() {
    let m = Message::RelayResponse { success: false, message: Some("busy".to_string()) };
    match Message::from_bytes(&frame_of(&m)).unwrap() {
        Message::RelayResponse { success, message } => {
            assert!(!success);
            assert_eq!(message.as_deref(), Some("busy"));
        }
        other => panic!("wrong variant: {:?}", other),
    }
}

#[test]
fn round_trip_escaped_and_unicode_strings() {
    let tricky = "q\"b\\c\nd\te\u{8}f\u{c}g\rh\u{1}i\u{e9}j\u{1f600}k";
    let bytes = frame_of(&request(tricky, "\u{7f}", ""));
    match Message::from_bytes(&bytes).unwrap() {
        Message::RelayRequest { uuid, peer_id, role } => {
            assert_eq!(uuid, tricky);
            assert_eq!(peer_id, "\u{7f}");
            assert_eq!(role, "");
        }
        other => panic!("wrong variant: {:?}", other),
    }
}

#[test]
fn control_and_astral_chars_are_escaped() {
    let bytes = frame_of(&request("\u{1}", "\u{e9}", "\u{1f600}"));
    let text = String::from_utf8(bytes[4..].to_vec()).unwrap();
    assert!(text.contains(r#""uuid":"\u0001""#));
    assert!(text.contains(r#""peer_id":"\u00e9""#));
    assert!(text.contains(r#""role":"\ud83d\ude00""#));
}

#[test]
fn too_short_frame_is_rejected() {
    let bytes = vec![0u8, 0, 0];
    assert_eq!(Message::from_bytes(&bytes).unwrap_err(), FormatError::TooShort);
}

#[test]
fn oversized_declared_length_is_rejected() {
    let n = (MAX_MESSAGE_SIZE as u32) + 1;
    let mut bytes = n.to_be_bytes().to_vec();
    bytes.extend_from_slice(b"xx");
    assert_eq!(Message::from_bytes(&bytes).unwrap_err(), FormatError::TooLarge);
}

#[test]
fn incomplete_payload_is_rejected() {
    let mut bytes = frame_of(&request("s", "p", "host"));
    bytes.pop();
    assert_eq!(Message::from_bytes(&bytes).unwrap_err(), FormatError::Incomplete);
}

#[test]
fn malformed_payload_is_rejected() {
    let payload = b"{\"Nonsense\":{}}";
    let mut bytes = (payload.len() as u32).to_be_bytes().to_vec();
    bytes.extend_from_slice(payload);
    assert_eq!(Message::from_bytes(&bytes).unwrap_err(), FormatError::Malformed);
}

#[test]
fn trailing_bytes_after_payload_are_ignored() {
    let mut bytes = frame_of(&request("s", "p", "host"));
    bytes.extend_from_slice(b"garbage");
    assert!(Message::from_bytes(&bytes).is_ok());
}

#[test]
fn whitespace_in_object_shape_is_rejected() {
    // String content may come escaped or raw, but the object shape itself
    // is the compact form standard JSON encoders produce: insignificant
    // whitespace is not admitted.
    let payload = br#"{ "RelayRequest": { "uuid": "s", "peer_id": "p", "role": "host" } }"#;
    let mut bytes = (payload.len() as u32).to_be_bytes().to_vec();
    bytes.extend_from_slice(payload);
    assert_eq!(Message::from_bytes(&bytes).unwrap_err(), FormatError::Malformed);
}

#[test]
fn raw_utf8_strings_are_accepted() {
    // A peer's JSON encoder leaves characters outside ASCII as raw UTF-8
    // rather than escaping them; such a handshake must still parse.
    let mut payload = br#"{"RelayRequest":{"uuid":""#.to_vec();
    payload.extend_from_slice("caf\u{e9}-\u{1f600}".as_bytes());
    payload.extend_from_slice(br#"","peer_id":""#);
    payload.extend_from_slice("\u{7f}".as_bytes());
    payload.extend_from_slice(br#"","role":""#);
    payload.extend_from_slice("h\u{f6}st".as_bytes());
    payload.extend_from_slice(br#""}}"#);
    let mut bytes = (payload.len() as u32).to_be_bytes().to_vec();
    bytes.extend_from_slice(&payload);
    match Message::from_bytes(&bytes).unwrap() {
        Message::RelayRequest { uuid, peer_id, role } => {
            assert_eq!(uuid, "caf\u{e9}-\u{1f600}");
            assert_eq!(peer_id, "\u{7f}");
            assert_eq!(role, "h\u{f6}st");
        }
        other => panic!("wrong variant: {:?}", other),
    }
}

#[test]
fn ill_formed_utf8_is_rejected() {
    let prefix = br#"{"RelayRequest":{"uuid":""#;
    let suffix = br#"","peer_id":"p","role":"host"}}"#;
    // A lone continuation byte, an overlong two-byte form, and a UTF-8
    // encoded surrogate are each refused.
    for bad in [&[0x80u8][..], &[0xc0, 0xaf][..], &[0xed, 0xa0, 0x80][..]] {
        let mut payload = prefix.to_vec();
        payload.extend_from_slice(bad);
        payload.extend_from_slice(suffix);
        let mut bytes = (payload.len() as u32).to_be_bytes().to_vec();
        bytes.extend_from_slice(&payload);
        assert_eq!(Message::from_bytes(&bytes).unwrap_err(), FormatError::Malformed);
    }
}
