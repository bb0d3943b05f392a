//! Relay engine decision logic: once two connections are paired, the
//! surrounding process repeatedly reads whatever bytes either side has and
//! writes them to the other side. This module decides, for each readiness
//! event, whether the session goes on or ends, and accounts the bytes
//! transferred per direction for diagnostics. The first zero-byte read
//! (peer closed), read error, or write error on either direction ends the
//! whole session; there is no one-way relay on half-close.

use vstd::prelude::*;

verus! {

/// Size of the fixed transfer buffer each direction uses (64 KiB).
pub const TRANSFER_BUFFER_SIZE: usize = 64 * 1024;

/// Which direction of the paired session a read came from.
#[derive(Clone, Copy, PartialEq, Eq, Structural, Debug)]
pub enum Direction {
    /// From the first connection toward the second.
    AToB,
    /// From the second connection toward the first.
    BToA,
}

/// What one read attempt of the proxy loop observed.
#[derive(Clone, Copy, PartialEq, Eq, Structural, Debug)]
pub enum ReadEvent {
    /// A read returned this many bytes; zero means the peer closed.
    Data(usize),
    /// The read failed.
    Failed,
}

/// What the proxy loop must do with a read event.
#[derive(Clone, Copy, PartialEq, Eq, Structural, Debug)]
pub enum RelayAction {
    /// Write this many bytes from the transfer buffer to the other side.
    Forward(usize),
    /// End the whole session.
    Stop,
}

/// The sum capped at the largest representable total.
pub open spec fn sat_add_u64(a: u64, n: nat) -> u64 {
    if a + n > u64::MAX {
        u64::MAX
    } else {
        (a + n) as u64
    }
}

/// Decides one read event: data goes to the other side, while a zero-byte
/// read (the peer closed) or a failed read ends the session.
pub fn decide_read(ev: ReadEvent) -> (r: RelayAction)
    ensures
        r == (match ev {
            ReadEvent::Data(n) => if n > 0 {
                RelayAction::Forward(n)
            } else {
                RelayAction::Stop
            },
            ReadEvent::Failed => RelayAction::Stop,
        }),
{
    match ev {
        ReadEvent::Data(n) => {
            if n > 0 {
                RelayAction::Forward(n)
            } else {
                RelayAction::Stop
            }
        },
        ReadEvent::Failed => RelayAction::Stop,
    }
}

/// What one write attempt of the proxy loop observed.
#[derive(Clone, Copy, PartialEq, Eq, Structural, Debug)]
pub enum WriteResult {
    /// All bytes were written.
    Completed,
    /// The write failed.
    Failed,
}

/// Bytes transferred so far in each direction.
pub struct RelayTotals {
    pub a_to_b: u64,
    pub b_to_a: u64,
}

impl RelayTotals {
    /// Fresh counters, both directions at zero.
    pub fn new() -> (r: RelayTotals)
        ensures
            r.a_to_b == 0,
            r.b_to_a == 0,
    {
        RelayTotals { a_to_b: 0, b_to_a: 0 }
    }

    /// Decides one write outcome: a completed write of `n` bytes is counted
    /// for its direction and the session goes on; a failed write counts
    /// nothing and ends the whole session. Counts saturate at the largest
    /// representable total rather than wrapping.
    pub fn on_write(&mut self, dir: Direction, res: WriteResult, n: usize) -> (go_on: bool)
        ensures
            go_on == (res == WriteResult::Completed),
            final(self).a_to_b == (if res == WriteResult::Completed && dir == Direction::AToB {
                sat_add_u64(old(self).a_to_b, n as nat)
            } else {
                old(self).a_to_b
            }),
            final(self).b_to_a == (if res == WriteResult::Completed && dir == Direction::BToA {
                sat_add_u64(old(self).b_to_a, n as nat)
            } else {
                old(self).b_to_a
            }),
    {
        match res {
            WriteResult::Completed => {
                match dir {
                    Direction::AToB => {
                        self.a_to_b = self.a_to_b.saturating_add(n as u64);
                    },
                    Direction::BToA => {
                        self.b_to_a = self.b_to_a.saturating_add(n as u64);
                    },
                }
                true
            },
            WriteResult::Failed => false,
        }
    }
}

} // verus!
