//! Connection handler decision logic: what to make of the handshake bytes a
//! connection sends, and what to do with the outcome of the bounded wait
//! for a peer. The surrounding process reads the bytes, runs the timers and
//! owns the delivery channels; every decision it acts on is made here.

use vstd::prelude::*;

use crate::codec::{be32, parse_payload, parse_payload_bytes, FormatError, MessageView, Message};

verus! {

/// Seconds a connection has to deliver its handshake request.
pub const HANDSHAKE_TIMEOUT_SECS: u64 = 10;

/// Seconds a first arrival waits for its peer before giving up.
pub const PAIRING_TIMEOUT_SECS: u64 = 30;

/// The stricter cap on the handshake payload, applied before the general
/// frame-size limit (1 MiB).
pub const MAX_HANDSHAKE_SIZE: usize = 1024 * 1024;

/// Everything that can end a connection's task.
#[derive(PartialEq, Eq, Structural, Clone, Copy, Debug)]
pub enum RelayError {
    /// A read, write or accept failed at the transport.
    Transport,
    /// The handshake bytes were not an acceptable request: an oversized
    /// frame, a payload that does not parse, or a message of the wrong
    /// variant.
    Format(FormatError),
    /// The handshake read or the pairing wait ran out of time.
    Timeout,
    /// The waiting side's delivery channel closed without a value.
    PairingFailed,
}

/// The fields of a relay request, as the handler consumes them.
pub struct RelayRequestData {
    pub uuid: String,
    pub peer_id: String,
    pub role: String,
}

/// The big-endian value of a 4-byte length header.
pub fn read_len_prefix(h: &Vec<u8>) -> (r: u32)
    requires
        h@.len() == 4,
    ensures
        r == be32(h@),
{
    (h[0] as u32) * 0x1000000 + (h[1] as u32) * 0x10000 + (h[2] as u32) * 0x100 + (h[3] as u32)
}

/// Whether a declared handshake payload length is acceptable: the
/// handshake read enforces this stricter cap before the codec's own limit.
pub fn handshake_len_ok(len: u32) -> (r: bool)
    ensures
        r == (len as int <= MAX_HANDSHAKE_SIZE as int),
{
    len as usize <= MAX_HANDSHAKE_SIZE
}

/// Reads the handshake payload (the bytes after the length prefix) as a
/// relay request. Fails on bytes that do not parse as a handshake message,
/// and on a message of the response variant where a request is owed.
pub fn extract_request(data: &Vec<u8>) -> (r: Result<RelayRequestData, RelayError>)
    ensures
        match r {
            Ok(q) => parse_payload(data@) == Some(
                MessageView::RelayRequest { uuid: q.uuid@, peer_id: q.peer_id@, role: q.role@ },
            ),
            Err(e) => e == RelayError::Format(FormatError::Malformed) && (match parse_payload(
                data@,
            ) {
                None => true,
                Some(m) => !(m is RelayRequest),
            }),
        },
{
    match parse_payload_bytes(data) {
        Some(m) => match m {
            Message::RelayRequest { uuid, peer_id, role } => Ok(
                RelayRequestData { uuid, peer_id, role },
            ),
            Message::RelayResponse { .. } => Err(RelayError::Format(FormatError::Malformed)),
        },
        None => Err(RelayError::Format(FormatError::Malformed)),
    }
}

/// What the bounded wait on the delivery channel produced.
#[derive(PartialEq, Eq, Structural, Clone, Copy, Debug)]
pub enum WaitOutcome {
    /// The peer arrived: its connection ticket was delivered.
    Received(u64),
    /// The channel closed without a value.
    ChannelClosed,
    /// The pairing window elapsed.
    TimedOut,
}

/// What the first-arrival task must do after its wait.
#[derive(PartialEq, Eq, Structural, Clone, Copy, Debug)]
pub enum WaitDecision {
    /// Drive the relay engine with the delivered peer connection.
    StartRelay(u64),
    /// Cancel the wait and end the task with this error.
    Fail(RelayError),
}

/// Decides the outcome of the pairing wait: a delivered peer starts the
/// relay; a closed channel fails the connection as a failed pairing; an
/// elapsed window fails it as a timeout. In both failure cases the caller
/// must cancel its registry entry before propagating the error.
pub fn decide_wait(outcome: WaitOutcome) -> (r: WaitDecision)
    ensures
        r == (match outcome {
            WaitOutcome::Received(t) => WaitDecision::StartRelay(t),
            WaitOutcome::ChannelClosed => WaitDecision::Fail(RelayError::PairingFailed),
            WaitOutcome::TimedOut => WaitDecision::Fail(RelayError::Timeout),
        }),
{
    match outcome {
        WaitOutcome::Received(t) => WaitDecision::StartRelay(t),
        WaitOutcome::ChannelClosed => WaitDecision::Fail(RelayError::PairingFailed),
        WaitOutcome::TimedOut => WaitDecision::Fail(RelayError::Timeout),
    }
}

/// The response the relay owes a successfully paired connection.
pub fn success_response() -> (r: Message)
    ensures
        r@ == (MessageView::RelayResponse { success: true, message: None }),
{
    Message::RelayResponse { success: true, message: None }
}

/// The best-effort response sent before closing a connection that failed
/// ahead of pairing, carrying the diagnostic text.
pub fn failure_response(text: String) -> (r: Message)
    ensures
        r@ == (MessageView::RelayResponse { success: false, message: Some(text@) }),
{
    Message::RelayResponse { success: false, message: Some(text) }
}

} // verus!
