//! The sessions that are connected, by their numbers.

use vstd::prelude::*;

verus! {

/// The sessions that are connected.
#[derive(Debug)]
pub struct SessionTable<S> {
    /// The number of the next session.
    pub next_id: u64,
    pub active: Vec<(u64, S)>,
}

/// A session with the number is connected.
pub open spec fn connected<S>(active: Seq<(u64, S)>, id: u64) -> bool {
    exists|i: int| 0 <= i < active.len() && (#[trigger] active[i]).0 == id
}

/// No two sessions have one number, and all numbers are below `next_id`.
pub open spec fn numbered_apart<S>(active: Seq<(u64, S)>, next_id: u64) -> bool {
    &&& forall|i: int| 0 <= i < active.len() ==> (#[trigger] active[i]).0 < next_id
    &&& forall|i: int, j: int|
        0 <= i < j < active.len() ==> (#[trigger] active[i]).0 != (#[trigger] active[j]).0
}

/// The numbers of sessions.
pub open spec fn session_ids<S>(active: Seq<(u64, S)>) -> Seq<u64> {
    active.map_values(|s: (u64, S)| s.0)
}

impl<S> SessionTable<S> {
    /// No two sessions have one number, and the next one is greater than all.
    pub open spec fn wf(&self) -> bool {
        numbered_apart(self.active@, self.next_id)
    }

    /// A table without sessions. The first number is one.
    pub fn new() -> (res: SessionTable<S>)
        ensures
            res.wf(),
            res.next_id == 1,
            res.active@.len() == 0,
    {
        SessionTable { next_id: 1, active: Vec::new() }
    }

    /// Gives out a number that no session has.
    pub fn allocate(&mut self) -> (res: u64)
        requires
            old(self).wf(),
            old(self).next_id < u64::MAX,
        ensures
            final(self).wf(),
            res == old(self).next_id,
            !connected(old(self).active@, res),
            final(self).next_id == res + 1,
            final(self).active@ == old(self).active@,
    {
        let id: u64 = self.next_id;
        self.next_id = id + 1;
        id
    }

    /// Adds a session under a number that was given out.
    pub fn add_session(&mut self, id: u64, session: S)
        requires
            old(self).wf(),
            id < old(self).next_id,
            !connected(old(self).active@, id),
        ensures
            final(self).wf(),
            final(self).next_id == old(self).next_id,
            final(self).active@ == old(self).active@.push((id, session)),
    {
        self.active.push((id, session));
    }

    /// Takes a session out.
    pub fn remove_session(&mut self, id: u64) -> (res: Option<S>)
        requires
            old(self).wf(),
        ensures
            final(self).wf(),
            final(self).next_id == old(self).next_id,
            match res {
                Some(session) => exists|i: int|
                    0 <= i < old(self).active@.len() && #[trigger] old(self).active@[i] == (id, session)
                        && final(self).active@ == old(self).active@.remove(i),
                None => !connected(old(self).active@, id) && final(self).active@
                    == old(self).active@,
            },
            !connected(final(self).active@, id),
    {
        let ghost start = self.active@;
        let mut i: usize = 0;
        while i < self.active.len() && self.active[i].0 != id
            invariant
                self.active@ == start,
                i <= self.active@.len(),
                forall|j: int| 0 <= j < i ==> (#[trigger] start[j]).0 != id,
            decreases self.active@.len() - i,
        {
            i = i + 1;
        }
        if i == self.active.len() {
            return None;
        }
        let (found, session) = self.active.remove(i);
        proof {
            assert(start[i as int] == (id, session));
            assert forall|j: int| 0 <= j < self.active@.len() implies (#[trigger] self.active@[j]).0
                != id by {
                if j < i {
                    assert(self.active@[j] == start[j]);
                } else {
                    assert(self.active@[j] == start[j + 1]);
                    assert(start[i as int].0 != start[j + 1].0);
                }
            }
        }
        Some(session)
    }

    /// The numbers of the sessions.
    pub fn ids(&self) -> (res: Vec<u64>)
        ensures
            res@ == session_ids(self.active@),
    {
        let mut ids: Vec<u64> = Vec::new();
        for i in 0..self.active.len()
            invariant
                ids@ =~= session_ids(self.active@).take(i as int),
        {
            ids.push(self.active[i].0);
        }
        assert(ids@ =~= session_ids(self.active@));
        ids
    }

    /// Takes all sessions out, in the order in which they came.
    pub fn take_all(&mut self) -> (res: Vec<(u64, S)>)
        requires
            old(self).wf(),
        ensures
            final(self).wf(),
            final(self).next_id == old(self).next_id,
            final(self).active@.len() == 0,
            res@ == old(self).active@,
    {
        let mut all: Vec<(u64, S)> = Vec::new();
        std::mem::swap(&mut all, &mut self.active);
        all
    }
}

/// The state of a connection to a peer.
#[derive(Clone, Copy, Debug, PartialEq, Eq, Structural)]
pub enum PeerState {
    Unspecified,
    New,
    Connecting,
    Connected,
    Disconnected,
    Failed,
    Closed,
}

/// Whether the session of a connection is over. One that is only disconnected may come back.
pub fn ends_session(state: PeerState) -> (res: bool)
    ensures
        res == (state is Failed || state is Closed),
{
    match state {
        PeerState::Failed | PeerState::Closed => true,
        _ => false,
    }
}

/// The numbers are those of the sessions, in their order; a session is connected exactly where its
/// number is among them.
pub proof fn law_ids_are_those_of_the_sessions<S>(active: Seq<(u64, S)>, id: u64)
    ensures
        session_ids(active).len() == active.len(),
        forall|i: int| 0 <= i < active.len() ==> #[trigger] session_ids(active)[i] == active[i].0,
        connected(active, id) <==> session_ids(active).contains(id),
{
    let ids = session_ids(active);
    if connected(active, id) {
        let i = choose|i: int| 0 <= i < active.len() && (#[trigger] active[i]).0 == id;
        assert(ids[i] == id);
    }
    if ids.contains(id) {
        let i = choose|i: int| 0 <= i < ids.len() && ids[i] == id;
        assert(active[i].0 == id);
    }
}

} // verus!
