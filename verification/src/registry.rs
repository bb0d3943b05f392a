//! Pairing registry: the process-wide table that brokers the rendezvous
//! between two connections presenting the same session identifier.
//!
//! The registry maps a session identifier to the single connection currently
//! waiting under it, represented by a ticket: an opaque number the
//! surrounding process uses to find that waiter's delivery channel. The
//! table holds at most one entry per identifier; an entry exists only while
//! its creating connection is waiting for a peer.

use vstd::prelude::*;

verus! {

/// One waiting rendezvous: a session identifier together with the ticket of
/// the connection waiting under it.
pub struct WaitEntry {
    pub id: String,
    pub ticket: u64,
}

/// Turns the entry list into its map model; later entries win, but under the
/// registry's uniqueness invariant every identifier occurs at most once.
pub open spec fn map_of(s: Seq<(Seq<char>, u64)>) -> Map<Seq<char>, u64>
    decreases s.len(),
{
    if s.len() == 0 {
        Map::empty()
    } else {
        map_of(s.drop_last()).insert(s.last().0, s.last().1)
    }
}

/// Registry from session identifier to the waiting connection's ticket.
/// The registry itself mints the tickets, so no two waiting connections
/// ever share one. The surrounding process serializes access (one lock
/// around the registry) and owns the delivery channels the tickets stand
/// for.
pub struct PairingRegistry {
    entries: Vec<WaitEntry>,
    next: u64,
}

/// No two identifiers map to the same ticket: what makes a claimed ticket
/// name one waiting connection unambiguously. Every registry this module
/// produces satisfies it, and every operation keeps it.
pub open spec fn tickets_injective(m: Map<Seq<char>, u64>) -> bool {
    forall|k1: Seq<char>, k2: Seq<char>|
        m.contains_key(k1) && m.contains_key(k2) && k1 != k2 ==> m[k1] != m[k2]
}

impl View for PairingRegistry {
    type V = Map<Seq<char>, u64>;

    closed spec fn view(&self) -> Map<Seq<char>, u64> {
        map_of(self.entries@.map_values(|e: WaitEntry| (e.id@, e.ticket)))
    }
}

proof fn lemma_map_of_contains(s: Seq<(Seq<char>, u64)>, k: Seq<char>)
    ensures
        map_of(s).contains_key(k) <==> exists|i: int| 0 <= i < s.len() && s[i].0 == k,
    decreases s.len(),
{
    if s.len() > 0 {
        lemma_map_of_contains(s.drop_last(), k);
        if s.last().0 == k {
            assert(s[s.len() - 1].0 == k);
        } else if map_of(s).contains_key(k) {
            let i = choose|i: int| 0 <= i < s.drop_last().len() && s.drop_last()[i].0 == k;
            assert(s[i].0 == k);
        } else if exists|i: int| 0 <= i < s.len() && s[i].0 == k {
            let i = choose|i: int| 0 <= i < s.len() && s[i].0 == k;
            assert(s.drop_last()[i].0 == k);
        }
    }
}

proof fn lemma_map_of_index(s: Seq<(Seq<char>, u64)>, i: int)
    requires
        0 <= i < s.len(),
        forall|p: int, q: int| 0 <= p < q < s.len() ==> s[p].0 != s[q].0,
    ensures
        map_of(s).contains_key(s[i].0),
        map_of(s)[s[i].0] == s[i].1,
    decreases s.len(),
{
    lemma_map_of_contains(s, s[i].0);
    if i == s.len() - 1 {
    } else {
        lemma_map_of_index(s.drop_last(), i);
        assert(s.drop_last()[i] == s[i]);
    }
}

proof fn lemma_map_of_remove(s: Seq<(Seq<char>, u64)>, i: int)
    requires
        0 <= i < s.len(),
        forall|p: int, q: int| 0 <= p < q < s.len() ==> s[p].0 != s[q].0,
    ensures
        map_of(s.remove(i)) == map_of(s).remove(s[i].0),
    decreases s.len(),
{
    if i == s.len() - 1 {
        assert(s.remove(i) =~= s.drop_last());
        lemma_map_of_contains(s.drop_last(), s[i].0);
        assert(!map_of(s.drop_last()).contains_key(s[i].0));
        assert(map_of(s.drop_last()).insert(s[i].0, s[i].1).remove(s[i].0) =~= map_of(
            s.drop_last(),
        ));
    } else {
        let t = s.remove(i);
        assert(t.drop_last() =~= s.drop_last().remove(i));
        assert(t.last() == s.last());
        lemma_map_of_remove(s.drop_last(), i);
        assert(map_of(t) == map_of(s.drop_last()).remove(s[i].0).insert(s.last().0, s.last().1));
        assert(s[i].0 != s.last().0);
        assert(map_of(s.drop_last()).remove(s[i].0).insert(s.last().0, s.last().1) =~= map_of(
            s.drop_last(),
        ).insert(s.last().0, s.last().1).remove(s[i].0));
    }
}

proof fn lemma_wf_tickets_injective(reg: &PairingRegistry)
    requires
        reg.wf(),
    ensures
        tickets_injective(reg@),
{
    let s = reg.entry_pairs();
    assert forall|k1: Seq<char>, k2: Seq<char>|
        reg@.contains_key(k1) && reg@.contains_key(k2) && k1 != k2 implies reg@[k1] != reg@[k2] by {
        lemma_map_of_contains(s, k1);
        lemma_map_of_contains(s, k2);
        let i1 = choose|i: int| 0 <= i < s.len() && s[i].0 == k1;
        let i2 = choose|i: int| 0 <= i < s.len() && s[i].0 == k2;
        lemma_map_of_index(s, i1);
        lemma_map_of_index(s, i2);
        assert(s[i1].1 != s[i2].1);
    }
}

impl PairingRegistry {
    /// The entry list as the sequence of (identifier, ticket) pairs.
    pub closed spec fn entry_pairs(&self) -> Seq<(Seq<char>, u64)> {
        self.entries@.map_values(|e: WaitEntry| (e.id@, e.ticket))
    }

    /// Invariant: no two entries share a session identifier or a ticket,
    /// and every stored ticket is below the mint counter (which is how a
    /// freshly minted ticket is known to be new).
    pub closed spec fn wf(&self) -> bool {
        &&& forall|p: int, q: int|
            0 <= p < q < self.entries@.len() ==> self.entries@[p].id@ != self.entries@[q].id@
        &&& forall|p: int, q: int|
            0 <= p < q < self.entries@.len() ==> self.entries@[p].ticket != self.entries@[q].ticket
        &&& forall|p: int| 0 <= p < self.entries@.len() ==> self.entries@[p].ticket < self.next
    }

    /// Whether the mint counter is used up; from then on no new wait can
    /// be registered. Unreachable in practice: it takes one registration
    /// per ticket value to get here.
    pub closed spec fn exhausted(&self) -> bool {
        self.next == u64::MAX
    }

    /// A fresh registry with no waiting connections.
    pub fn new() -> (r: PairingRegistry)
        ensures
            r.wf(),
            r@ == Map::<Seq<char>, u64>::empty(),
            tickets_injective(r@),
            !r.exhausted(),
    {
        PairingRegistry { entries: Vec::new(), next: 0 }
    }

    fn find_index(&self, id: &String) -> (r: Option<usize>)
        ensures
            match r {
                Some(i) => i < self.entries@.len() && self.entries@[i as int].id@ == id@,
                None => forall|i: int| 0 <= i < self.entries@.len() ==> self.entries@[i].id@ != id@,
            },
    {
        let n = self.entries.len();
        let mut i: usize = 0;
        while i < n
            invariant
                n == self.entries@.len(),
                i <= n,
                forall|j: int| 0 <= j < i ==> self.entries@[j].id@ != id@,
            decreases n - i,
        {
            if self.entries[i].id == *id {
                return Some(i);
            }
            i = i + 1;
        }
        None
    }

    /// Whether some connection is currently waiting under this identifier.
    pub fn contains(&self, id: &String) -> (r: bool)
        requires
            self.wf(),
        ensures
            r == self@.contains_key(id@),
    {
        proof {
            lemma_map_of_contains(self.entry_pairs(), id@);
        }
        match self.find_index(id) {
            Some(i) => {
                proof {
                    assert(self.entry_pairs()[i as int].0 == id@);
                }
                true
            },
            None => {
                proof {
                    assert(forall|i: int|
                        0 <= i < self.entry_pairs().len() ==> self.entry_pairs()[i].0 != id@);
                }
                false
            },
        }
    }

    /// Second-arrival path: if a connection is waiting under `id`, remove its
    /// entry and return its ticket, so the caller can hand the incoming
    /// connection over on the waiter's delivery channel. Returns None when
    /// nobody is waiting.
    pub fn try_pair(&mut self, id: &String) -> (r: Option<u64>)
        requires
            old(self).wf(),
        ensures
            final(self).wf(),
            tickets_injective(final(self)@),
            final(self).exhausted() == old(self).exhausted(),
            r == (if old(self)@.contains_key(id@) {
                Some(old(self)@[id@])
            } else {
                None::<u64>
            }),
            final(self)@ == old(self)@.remove(id@),
    {
        proof {
            lemma_map_of_contains(self.entry_pairs(), id@);
        }
        match self.find_index(id) {
            Some(i) => {
                proof {
                    lemma_map_of_index(self.entry_pairs(), i as int);
                    lemma_map_of_remove(self.entry_pairs(), i as int);
                }
                let e = self.entries.remove(i);
                proof {
                    assert(self.entry_pairs() =~= old(self).entry_pairs().remove(i as int));
                }
                proof {
                    lemma_wf_tickets_injective(self);
                }
                Some(e.ticket)
            },
            None => {
                proof {
                    assert(forall|i: int|
                        0 <= i < self.entry_pairs().len() ==> self.entry_pairs()[i].0 != id@);
                    assert(!old(self)@.contains_key(id@));
                    assert(self@ =~= old(self)@.remove(id@));
                    lemma_wf_tickets_injective(self);
                }
                None
            },
        }
    }

    /// First-arrival path: if no connection is waiting under `id`, mint a
    /// fresh ticket (held by no other entry), record it, and return it; the
    /// caller then waits on its delivery channel, bounded by the pairing
    /// timeout. Returns None, changing nothing, when an entry already
    /// exists — or when the mint counter is used up, which no process
    /// lives long enough to see.
    pub fn register_wait(&mut self, id: &String) -> (r: Option<u64>)
        requires
            old(self).wf(),
        ensures
            final(self).wf(),
            tickets_injective(final(self)@),
            match r {
                Some(t) => !old(self)@.contains_key(id@) && !old(self).exhausted() && final(self)@
                    == old(self)@.insert(id@, t) && (forall|k: Seq<char>|
                    old(self)@.contains_key(k) ==> old(self)@[k] != t),
                None => (old(self)@.contains_key(id@) || old(self).exhausted()) && final(self)@
                    == old(self)@,
            },
    {
        proof {
            lemma_map_of_contains(self.entry_pairs(), id@);
        }
        match self.find_index(id) {
            Some(i) => {
                proof {
                    assert(self.entry_pairs()[i as int].0 == id@);
                    lemma_wf_tickets_injective(self);
                }
                None
            },
            None => {
                proof {
                    assert(forall|i: int|
                        0 <= i < self.entry_pairs().len() ==> self.entry_pairs()[i].0 != id@);
                }
                if self.next == u64::MAX {
                    proof {
                        lemma_wf_tickets_injective(self);
                    }
                    return None;
                }
                let ticket = self.next;
                self.next = self.next + 1;
                let id_copy = id.clone();
                self.entries.push(WaitEntry { id: id_copy, ticket });
                proof {
                    assert(self.entry_pairs() =~= old(self).entry_pairs().push((id@, ticket)));
                    assert(self.entry_pairs().drop_last() =~= old(self).entry_pairs());
                    assert(self@ =~= old(self)@.insert(id@, ticket));
                    assert forall|k: Seq<char>| old(self)@.contains_key(k) implies old(self)@[k]
                        != ticket by {
                        lemma_map_of_contains(old(self).entry_pairs(), k);
                        let i = choose|i: int|
                            0 <= i < old(self).entry_pairs().len() && old(self).entry_pairs()[i].0
                                == k;
                        lemma_map_of_index(old(self).entry_pairs(), i);
                    }
                    lemma_wf_tickets_injective(self);
                }
                Some(ticket)
            },
        }
    }

    /// Removes the entry for `id` if one exists; a no-op otherwise. Used when
    /// the pairing wait times out or the waiter's channel is abandoned, so
    /// that a stale entry can never match a later, unrelated connection.
    pub fn cancel_wait(&mut self, id: &String) -> (r: bool)
        requires
            old(self).wf(),
        ensures
            final(self).wf(),
            tickets_injective(final(self)@),
            r == old(self)@.contains_key(id@),
            final(self)@ == old(self)@.remove(id@),
            !final(self)@.contains_key(id@),
    {
        let r = self.try_pair(id);
        r.is_some()
    }

    /// One connection's whole registry step, done under a single lock hold
    /// as the race resolution demands: claim the waiting peer's ticket if
    /// one exists (second arrival), otherwise mint and register a fresh
    /// ticket of the caller's own (first arrival). Exactly one of the two
    /// connections sharing an identifier sees the Paired side.
    pub fn arrive(&mut self, id: &String) -> (r: Arrival)
        requires
            old(self).wf(),
        ensures
            final(self).wf(),
            tickets_injective(final(self)@),
            match r {
                Arrival::Paired(t) => old(self)@.contains_key(id@) && t == old(self)@[id@]
                    && final(self)@ == old(self)@.remove(id@),
                Arrival::Waiting(t) => !old(self)@.contains_key(id@) && !old(self).exhausted()
                    && final(self)@ == old(self)@.insert(id@, t) && (forall|k: Seq<char>|
                    old(self)@.contains_key(k) ==> old(self)@[k] != t),
                Arrival::Refused => !old(self)@.contains_key(id@) && old(self).exhausted()
                    && final(self)@ == old(self)@,
            },
    {
        match self.try_pair(id) {
            Some(t) => Arrival::Paired(t),
            None => {
                proof {
                    assert(self@ =~= old(self)@);
                }
                match self.register_wait(id) {
                    Some(t) => Arrival::Waiting(t),
                    None => Arrival::Refused,
                }
            },
        }
    }
}

/// What one connection's registry step came to.
#[derive(PartialEq, Eq, Structural, Clone, Copy, Debug)]
pub enum Arrival {
    /// A peer was waiting: its ticket, claimed and removed.
    Paired(u64),
    /// Nobody was waiting: the caller's fresh ticket, now registered.
    Waiting(u64),
    /// Nobody was waiting and no fresh ticket could be minted.
    Refused,
}

/// Law: for any session identifier, if connection A registers a wait (no
/// entry existed) and connection B later presents the same identifier while
/// the entry still stands, B is handed exactly A's ticket, the pairing
/// happens exactly once, and the registry holds no residual entry for that
/// identifier afterward.
pub proof fn lemma_pair_after_register(m: Map<Seq<char>, u64>, id: Seq<char>, t: u64)
    requires
        !m.contains_key(id),
    ensures
        m.insert(id, t).contains_key(id),
        m.insert(id, t)[id] == t,
        !m.insert(id, t).remove(id).contains_key(id),
{
}

/// Law: two connections presenting distinct identifiers are never paired
/// with each other, whatever the arrival order or timing. A connection
/// waiting under `id1` holds ticket `t`; since the registry mints every
/// ticket itself, each of its views is ticket-injective (every operation
/// ensures `tickets_injective`), so an arrival presenting a different
/// identifier `id2` can never be handed `t`.
pub proof fn lemma_distinct_never_paired(
    m: Map<Seq<char>, u64>,
    id1: Seq<char>,
    id2: Seq<char>,
    t: u64,
)
    requires
        tickets_injective(m),
        id1 != id2,
        m.contains_key(id1),
        m[id1] == t,
    ensures
        m.contains_key(id2) ==> m[id2] != t,
{
}

/// Law: cancelling a wait (as the pairing timeout does) leaves no entry for
/// the identifier, whatever the registry held before.
pub proof fn lemma_cancel_clears_entry(m: Map<Seq<char>, u64>, id: Seq<char>)
    ensures
        !m.remove(id).contains_key(id),
{
}

} // verus!
