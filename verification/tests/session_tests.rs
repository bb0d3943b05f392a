use relay_core::codec::Message;
use relay_core::handler::{
    decide_wait, extract_request, failure_response, handshake_len_ok, read_len_prefix,
    success_response, RelayError, WaitDecision, WaitOutcome,
};
use relay_core::registry::{Arrival, PairingRegistry};
use relay_core::relay::{decide_read, Direction, ReadEvent, RelayAction, RelayTotals, WriteResult};

fn request_payload(uuid: &str, peer_id: &str, role: &str) -> Vec<u8> {
    let m = Message::RelayRequest {
        uuid: uuid.to_string(),
        peer_id: peer_id.to_string(),
        role: role.to_string(),
    };
    m.to_bytes().unwrap()[4..].to_vec()
}

#[test]
fn read_len_prefix_is_big_endian() {
    let h = vec![0u8, 0x01, 0x02, 0x03];
    assert_eq!(read_len_prefix(&h), 0x010203);
}

#[test]
fn handshake_cap_is_one_mebibyte() {
    assert!(handshake_len_ok(1024 * 1024));
    assert!(!handshake_len_ok(1024 * 1024 + 1));
}

#[test]
fn extract_request_reads_the_fields() {
    let q = extract_request(&request_payload("s1", "p", "host")).unwrap();
    assert_eq!(q.uuid, "s1");
    assert_eq!(q.peer_id, "p");
    assert_eq!(q.role, "host");
}

#[test]
fn extract_request_refuses_a_response() {
    let m = Message::RelayResponse { success: true, message: None };
    let payload = m.to_bytes().unwrap()[4..].to_vec();
    assert!(extract_request(&payload).is_err());
}

#[test]
fn extract_request_refuses_garbage() {
    assert!(extract_request(&b"not json".to_vec()).is_err());
}

#[test]
fn wait_outcomes_map_to_their_errors() {
    assert_eq!(decide_wait(WaitOutcome::Received(4)), WaitDecision::StartRelay(4));
    assert_eq!(
        decide_wait(WaitOutcome::ChannelClosed),
        WaitDecision::Fail(RelayError::PairingFailed)
    );
    assert_eq!(decide_wait(WaitOutcome::TimedOut), WaitDecision::Fail(RelayError::Timeout));
}

#[test]
fn read_events_decide_forward_or_stop() {
    assert_eq!(decide_read(ReadEvent::Data(5)), RelayAction::Forward(5));
    assert_eq!(decide_read(ReadEvent::Data(0)), RelayAction::Stop);
    assert_eq!(decide_read(ReadEvent::Failed), RelayAction::Stop);
}

#[test]
fn totals_count_each_direction_and_saturate() {
    let mut t = RelayTotals::new();
    assert!(t.on_write(Direction::AToB, WriteResult::Completed, 3));
    assert!(t.on_write(Direction::BToA, WriteResult::Completed, 10));
    assert!(t.on_write(Direction::AToB, WriteResult::Completed, 4));
    assert_eq!(t.a_to_b, 7);
    assert_eq!(t.b_to_a, 10);
    let mut near = RelayTotals { a_to_b: u64::MAX - 1, b_to_a: 0 };
    assert!(near.on_write(Direction::AToB, WriteResult::Completed, 5));
    assert_eq!(near.a_to_b, u64::MAX);
}

#[test]
fn failed_write_counts_nothing_and_ends_the_session() {
    let mut t = RelayTotals::new();
    assert!(t.on_write(Direction::AToB, WriteResult::Completed, 2));
    assert!(!t.on_write(Direction::AToB, WriteResult::Failed, 9));
    assert_eq!(t.a_to_b, 2);
    assert_eq!(t.b_to_a, 0);
}

/// Two connections present the same identifier, are paired, and bytes flow
/// verbatim in both directions until one side closes.
#[test]
fn paired_session_relays_bytes_both_ways() {
    // Handshakes arrive and parse.
    let h = extract_request(&request_payload("s1", "p", "host")).unwrap();
    let c = extract_request(&request_payload("s1", "q", "client")).unwrap();

    // The registry orders them: H first (waits), C second (claims H).
    let mut reg = PairingRegistry::new();
    let h_ticket = match reg.arrive(&h.uuid) {
        Arrival::Waiting(t) => t,
        other => panic!("expected a first arrival, got {:?}", other),
    };
    assert_eq!(reg.arrive(&c.uuid), Arrival::Paired(h_ticket));
    assert!(!reg.contains(&h.uuid));

    // Both are owed a success response.
    let ok = success_response().to_bytes().unwrap();
    assert_eq!(&ok[4..], br#"{"RelayResponse":{"success":true,"message":null}}"#);

    // H writes three bytes; they are forwarded verbatim to C, and back.
    let mut totals = RelayTotals::new();
    let from_h = [1u8, 2, 3];
    match decide_read(ReadEvent::Data(from_h.len())) {
        RelayAction::Forward(n) => {
            assert_eq!(&from_h[..n], &[1, 2, 3]);
            assert!(totals.on_write(Direction::AToB, WriteResult::Completed, n));
        }
        RelayAction::Stop => panic!("session ended early"),
    }
    match decide_read(ReadEvent::Data(1)) {
        RelayAction::Forward(n) => {
            assert!(totals.on_write(Direction::BToA, WriteResult::Completed, n));
        }
        RelayAction::Stop => panic!("session ended early"),
    }
    assert_eq!(totals.a_to_b, 3);
    assert_eq!(totals.b_to_a, 1);

    // H closes: C's side observes end of stream and the session stops.
    assert_eq!(decide_read(ReadEvent::Data(0)), RelayAction::Stop);
}

/// A connection that waits alone times out, fails with a timeout, and
/// leaves no registry entry behind.
#[test]
fn lone_connection_times_out_and_leaves_no_entry() {
    let q = extract_request(&request_payload("s2", "p", "host")).unwrap();
    let mut reg = PairingRegistry::new();
    assert!(matches!(reg.arrive(&q.uuid), Arrival::Waiting(_)));

    // No peer arrives within the pairing window.
    let decision = decide_wait(WaitOutcome::TimedOut);
    assert_eq!(decision, WaitDecision::Fail(RelayError::Timeout));
    reg.cancel_wait(&q.uuid);
    assert!(!reg.contains(&q.uuid));

    // The failure response it is owed says so.
    let bytes = failure_response("Pairing timeout".to_string()).to_bytes().unwrap();
    assert_eq!(
        &bytes[4..],
        br#"{"RelayResponse":{"success":false,"message":"Pairing timeout"}}"#
    );
}
