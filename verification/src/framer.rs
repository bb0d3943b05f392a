//! Frame reassembler: accumulates inbound bytes and extracts complete
//! length-prefixed frames from a stream that may deliver partial or
//! multiple frames per read.
//!
//! An oversized declared length is treated as unrecoverable protocol
//! corruption: the whole buffer is discarded and no further frame is
//! extracted from that feed. This is a deliberate, lossy recovery policy,
//! not a resynchronizing scan. A frame that extracts but fails to decode is
//! skipped alone; the buffer has already advanced past it.

use vstd::prelude::*;

use crate::codec::{be32, decode_frame, Message, MessageView, MAX_MESSAGE_SIZE};

verus! {

/// The messages a full drain of `buf` extracts: complete, well-sized frames
/// are removed from the front one at a time and the ones that decode are
/// kept, until the buffer is empty, incomplete, or declares an oversized
/// length.
pub open spec fn drain_msgs(buf: Seq<u8>) -> Seq<MessageView>
    decreases buf.len(),
{
    if buf.len() < 4 {
        Seq::empty()
    } else if be32(buf) > MAX_MESSAGE_SIZE {
        Seq::empty()
    } else if buf.len() < 4 + be32(buf) {
        Seq::empty()
    } else {
        let flen = 4 + be32(buf);
        let rest = drain_msgs(buf.skip(flen));
        match decode_frame(buf.subrange(0, flen)) {
            Ok(m) => seq![m] + rest,
            Err(_) => rest,
        }
    }
}

/// What remains buffered after a full drain of `buf`: the incomplete tail,
/// or nothing at all once an oversized length was seen.
pub open spec fn drain_rest(buf: Seq<u8>) -> Seq<u8>
    decreases buf.len(),
{
    if buf.len() < 4 {
        buf
    } else if be32(buf) > MAX_MESSAGE_SIZE {
        Seq::empty()
    } else if buf.len() < 4 + be32(buf) {
        buf
    } else {
        drain_rest(buf.skip(4 + be32(buf)))
    }
}

/// A byte stream whose reachable frame boundaries never declare an
/// oversized length: every complete, well-sized frame can be peeled off the
/// front, ending in a tail that is empty, shorter than a header, or still
/// awaiting payload bytes.
pub open spec fn well_formed_stream(s: Seq<u8>) -> bool
    decreases s.len(),
{
    if s.len() < 4 {
        true
    } else if be32(s) > MAX_MESSAGE_SIZE {
        false
    } else if s.len() < 4 + be32(s) {
        true
    } else {
        well_formed_stream(s.skip(4 + be32(s)))
    }
}

/// Reassembles length-prefixed frames for one logical byte stream.
pub struct MessageFramer {
    buffer: Vec<u8>,
}

impl View for MessageFramer {
    type V = Seq<u8>;

    closed spec fn view(&self) -> Seq<u8> {
        self.buffer@
    }
}

impl MessageFramer {
    /// A reassembler with an empty buffer.
    pub fn new() -> (r: MessageFramer)
        ensures
            r@ == Seq::<u8>::empty(),
    {
        MessageFramer { buffer: Vec::new() }
    }

    /// Empties the buffer.
    pub fn clear(&mut self)
        ensures
            final(self)@ == Seq::<u8>::empty(),
    {
        self.buffer.truncate(0);
        proof {
            assert(final(self)@ =~= Seq::<u8>::empty());
        }
    }

    /// Appends `data` to the buffer and extracts every complete frame,
    /// returning the messages that decoded, in stream order. The buffer
    /// keeps exactly the undrained tail; an oversized declared length
    /// discards the buffer whole.
    #[verifier::rlimit(100)]
    pub fn feed(&mut self, data: &Vec<u8>) -> (r: Vec<Message>)
        ensures
            r@.map_values(|m: Message| m@) == drain_msgs(old(self)@ + data@),
            final(self)@ == drain_rest(old(self)@ + data@),
    {
        let dn = data.len();
        let mut i: usize = 0;
        while i < dn
            invariant
                dn == data@.len(),
                i <= dn,
                self.buffer@ == old(self)@ + data@.subrange(0, i as int),
            decreases dn - i,
        {
            self.buffer.push(data[i]);
            proof {
                assert(self.buffer@ =~= old(self)@ + data@.subrange(0, i + 1 as int));
            }
            i = i + 1;
        }
        proof {
            assert(self.buffer@ =~= old(self)@ + data@);
        }
        let ghost whole: Seq<u8> = old(self)@ + data@;
        let mut out: Vec<Message> = Vec::new();
        loop
            invariant
                drain_msgs(whole) == out@.map_values(|m: Message| m@) + drain_msgs(self.buffer@),
                drain_rest(whole) == drain_rest(self.buffer@),
            ensures
                drain_msgs(whole) == out@.map_values(|m: Message| m@),
                drain_rest(whole) == self.buffer@,
            decreases self.buffer@.len(),
        {
            let ghost b0 = self.buffer@;
            if self.buffer.len() < 4 {
                proof {
                    assert(out@.map_values(|m: Message| m@) + drain_msgs(self.buffer@)
                        =~= out@.map_values(|m: Message| m@));
                }
                break ;
            }
            let n: u32 = (self.buffer[0] as u32) * 0x1000000 + (self.buffer[1] as u32) * 0x10000 + (
            self.buffer[2] as u32) * 0x100 + (self.buffer[3] as u32);
            proof {
                assert(n == be32(b0));
            }
            if n as usize > MAX_MESSAGE_SIZE {
                self.buffer.truncate(0);
                proof {
                    assert(drain_msgs(b0) =~= Seq::<MessageView>::empty());
                    assert(drain_rest(b0) =~= Seq::<u8>::empty());
                    assert(self.buffer@ =~= Seq::<u8>::empty());
                    assert(out@.map_values(|m: Message| m@) + drain_msgs(self.buffer@)
                        =~= out@.map_values(|m: Message| m@) + drain_msgs(b0));
                }
                break ;
            }
            if self.buffer.len() - 4 < n as usize {
                proof {
                    assert(drain_msgs(self.buffer@) =~= Seq::<MessageView>::empty());
                    assert(out@.map_values(|m: Message| m@) + drain_msgs(self.buffer@)
                        =~= out@.map_values(|m: Message| m@));
                }
                break ;
            }
            let flen = 4 + n as usize;
            let tail = self.buffer.split_off(flen);
            proof {
                assert(self.buffer@ =~= b0.subrange(0, flen as int));
                assert(tail@ =~= b0.skip(flen as int));
            }
            let decoded = Message::from_bytes(&self.buffer);
            self.buffer = tail;
            match decoded {
                Ok(m) => {
                    let ghost out0 = out@;
                    out.push(m);
                    proof {
                        assert(decode_frame(b0.subrange(0, flen as int)) == Ok::<
                            MessageView,
                            crate::codec::FormatError,
                        >(m@));
                        assert(out@.map_values(|mm: Message| mm@) =~= out0.map_values(
                            |mm: Message| mm@,
                        ) + seq![m@]);
                        assert(out0.map_values(|mm: Message| mm@) + (seq![m@] + drain_msgs(
                            self.buffer@,
                        )) =~= out@.map_values(|mm: Message| mm@) + drain_msgs(self.buffer@));
                    }
                },
                Err(_) => {
                    proof {
                        assert(drain_msgs(b0) == drain_msgs(self.buffer@));
                    }
                },
            }
        }
        out
    }
}

impl Default for MessageFramer {
    /// Same as `new`: a reassembler with an empty buffer.
    fn default() -> (r: MessageFramer)
        ensures
            r@ == Seq::<u8>::empty(),
    {
        MessageFramer::new()
    }
}

/// Law: wherever a well-formed byte stream is split in two, feeding the two
/// pieces one after the other drains the same messages, and leaves the same
/// tail, as feeding the whole stream at once. Applied piece by piece, this
/// makes the decoded message sequence independent of read boundaries.
pub proof fn lemma_feed_split(s1: Seq<u8>, s2: Seq<u8>)
    requires
        well_formed_stream(s1),
    ensures
        drain_msgs(s1 + s2) == drain_msgs(s1) + drain_msgs(drain_rest(s1) + s2),
        drain_rest(s1 + s2) == drain_rest(drain_rest(s1) + s2),
    decreases s1.len(),
{
    if s1.len() < 4 {
        assert(drain_rest(s1) == s1);
        assert(drain_rest(s1) + s2 =~= s1 + s2);
        assert(drain_msgs(s1) + drain_msgs(s1 + s2) =~= drain_msgs(s1 + s2));
    } else {
        let n = be32(s1);
        assert((s1 + s2)[0] == s1[0] && (s1 + s2)[1] == s1[1] && (s1 + s2)[2] == s1[2] && (s1
            + s2)[3] == s1[3]);
        assert(be32(s1 + s2) == n);
        assert(n <= MAX_MESSAGE_SIZE);
        if s1.len() < 4 + n {
            assert(drain_msgs(s1) == Seq::<MessageView>::empty());
            assert(drain_rest(s1) == s1);
            assert(drain_rest(s1) + s2 =~= s1 + s2);
            assert(drain_msgs(s1) + drain_msgs(s1 + s2) =~= drain_msgs(s1 + s2));
        } else {
            let flen = 4 + n;
            assert((s1 + s2).len() >= flen);
            assert((s1 + s2).subrange(0, flen) =~= s1.subrange(0, flen));
            assert((s1 + s2).skip(flen) =~= s1.skip(flen) + s2);
            lemma_feed_split(s1.skip(flen), s2);
            match decode_frame(s1.subrange(0, flen)) {
                Ok(m) => {
                    assert(drain_msgs(s1 + s2) == seq![m] + drain_msgs(s1.skip(flen) + s2));
                    assert(seq![m] + (drain_msgs(s1.skip(flen)) + drain_msgs(drain_rest(
                        s1.skip(flen),
                    ) + s2)) =~= (seq![m] + drain_msgs(s1.skip(flen))) + drain_msgs(drain_rest(
                        s1.skip(flen),
                    ) + s2));
                },
                Err(_) => {
                },
            }
        }
    }
}

/// Law: a buffer whose leading frame declares a length above the maximum
/// frame size is discarded whole, and no message comes out of the drain.
pub proof fn lemma_oversized_discards(buf: Seq<u8>)
    requires
        buf.len() >= 4,
        be32(buf) > MAX_MESSAGE_SIZE,
    ensures
        drain_msgs(buf) == Seq::<MessageView>::empty(),
        drain_rest(buf) == Seq::<u8>::empty(),
{
}

} // verus!
