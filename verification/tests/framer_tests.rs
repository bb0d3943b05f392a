use relay_core::codec::{Message, MAX_MESSAGE_SIZE};
use relay_core::framer::MessageFramer;

fn request(uuid: &str) -> Message {
    Message::RelayRequest {
        uuid: uuid.to_string(),
        peer_id: "p".to_string(),
        role: "host".to_string(),
    }
}

fn frame_of(m: &Message) -> Vec<u8> {
    m.to_bytes().expect("frame fits")
}

fn uuid_of(m: &Message) -> String {
    match m {
        Message::RelayRequest { uuid, .. } => uuid.clone(),
        other => panic!("wrong variant: {:?}", other),
    }
}

#[test]
fn whole_stream_in_one_feed() {
    let mut stream = frame_of(&request("a"));
    stream.extend_from_slice(&frame_of(&request("b")));
    let mut f = MessageFramer::new();
    let msgs = f.feed(&stream);
    assert_eq!(msgs.len(), 2);
    assert_eq!(uuid_of(&msgs[0]), "a");
    assert_eq!(uuid_of(&msgs[1]), "b");
}

#[test]
fn byte_at_a_time_yields_the_same_messages() {
    let mut stream = frame_of(&request("alpha"));
    stream.extend_from_slice(&frame_of(&Message::RelayResponse {
        success: true,
        message: None,
    }));
    stream.extend_from_slice(&frame_of(&request("omega")));

    let mut all_at_once = MessageFramer::new();
    let whole: Vec<Message> = all_at_once.feed(&stream);

    let mut one_by_one = MessageFramer::new();
    let mut pieced: Vec<Message> = Vec::new();
    for b in &stream {
        pieced.extend(one_by_one.feed(&vec![*b]));
    }

    assert_eq!(whole.len(), pieced.len());
    for (w, p) in whole.iter().zip(pieced.iter()) {
        assert_eq!(format!("{:?}", w), format!("{:?}", p));
    }
}

#[test]
fn partial_frame_waits_for_more_bytes() {
    let frame = frame_of(&request("slow"));
    let (head, tail) = frame.split_at(5);
    let mut f = MessageFramer::new();
    assert!(f.feed(&head.to_vec()).is_empty());
    let msgs = f.feed(&tail.to_vec());
    assert_eq!(msgs.len(), 1);
    assert_eq!(uuid_of(&msgs[0]), "slow");
}

#[test]
fn oversized_length_discards_buffer_and_yields_nothing() {
    let n = (MAX_MESSAGE_SIZE as u32) + 1;
    let mut stream = n.to_be_bytes().to_vec();
    stream.extend_from_slice(&frame_of(&request("lost")));
    let mut f = MessageFramer::new();
    assert!(f.feed(&stream).is_empty());
    // The valid frame that followed the corrupt header was discarded with
    // the buffer: only a frame fed afterwards comes through.
    let msgs = f.feed(&frame_of(&request("fresh")));
    assert_eq!(msgs.len(), 1);
    assert_eq!(uuid_of(&msgs[0]), "fresh");
}

#[test]
fn undecodable_frame_is_skipped_alone() {
    let mut stream = frame_of(&request("first"));
    let junk = b"this is not a handshake";
    stream.extend_from_slice(&(junk.len() as u32).to_be_bytes());
    stream.extend_from_slice(junk);
    stream.extend_from_slice(&frame_of(&request("last")));
    let mut f = MessageFramer::new();
    let msgs = f.feed(&stream);
    assert_eq!(msgs.len(), 2);
    assert_eq!(uuid_of(&msgs[0]), "first");
    assert_eq!(uuid_of(&msgs[1]), "last");
}

#[test]
fn clear_drops_buffered_bytes() {
    let frame = frame_of(&request("gone"));
    let (head, tail) = frame.split_at(6);
    let mut f = MessageFramer::new();
    assert!(f.feed(&head.to_vec()).is_empty());
    f.clear();
    // The rest of the frame no longer completes anything.
    assert!(f.feed(&tail.to_vec()).is_empty());
}

#[test]
fn default_framer_starts_empty() {
    let mut f = MessageFramer::default();
    let msgs = f.feed(&frame_of(&request("d")));
    assert_eq!(msgs.len(), 1);
}
