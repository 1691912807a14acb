//! The node's event loop, as decisions: each event from local discovery, the
//! network or a liveness check is applied to the routing table, which this
//! loop alone writes, and answered with the action the caller carries out.
use vstd::prelude::*;
use crate::distance::{bucket_of, is_nearest};
use crate::routing::{Outcome, RejectReason, RoutingTable, observed};
use crate::query::{Query, ids_of, PeerState};

verus! {

/// Something the event loop reacts to.
pub enum Event {
    /// A peer announced itself on the local network.
    Discovered { id: u64, addr: Vec<u8> },
    /// A peer proved reachable: an inbound connection or a query answer.
    Responded { id: u64, addr: Vec<u8> },
    /// The node is listening on a new address.
    ListenAddr { addr: Vec<u8> },
    /// A peer failed its liveness check.
    ProbeFailed { id: u64 },
    /// The process asked the node to stop.
    Shutdown,
}

/// What the caller does after an event.
#[derive(PartialEq, Eq, Structural, Clone, Copy, Debug)]
pub enum Action {
    /// Nothing beyond logging.
    Idle,
    /// The table took the observation with this outcome.
    Observed(Outcome),
    /// The bucket of `candidate` is full: check whether `stale`, its least
    /// recently seen peer, is alive, and report `ProbeFailed` if not.
    Probe { stale: u64, candidate: u64 },
    /// A failed peer was dropped from the table, if it was there.
    Removed(bool),
    /// The loop has stopped.
    Stop,
}

/// The event loop's state: the routing table, and whether it still runs.
pub struct Node {
    pub table: RoutingTable,
    pub running: bool,
}

/// The action answering an observation of `id` that ended in `o`, on a table
/// whose bucket for `id` was `ids` before.
pub open spec fn observation_action(ids: Seq<u64>, id: u64, o: Outcome) -> Action {
    if o == Outcome::Rejected(RejectReason::BucketFull) && ids.len() > 0 {
        Action::Probe { stale: ids[0], candidate: id }
    } else {
        Action::Observed(o)
    }
}

/// Observing `id` at `addr` turned the table `old` into `new` and was
/// answered with `r`.
pub open spec fn observed_with(old: RoutingTable, new: RoutingTable, id: u64, addr: Seq<u8>, r: Action) -> bool {
    exists|o: Outcome|
        #[trigger] observed(old, new, id, addr, o) && r == observation_action(
            old.ids(bucket_of(old.local, id) as int),
            id,
            o,
        )
}

impl Node {
    /// A running node for the identifier `local`, with buckets of `k` peers.
    pub fn new(local: u64, k: usize) -> (n: Node)
        ensures
            n.running,
            n.table.wf(),
            n.table.local == local,
            n.table.k == k,
            n.table.peer_set() == Set::<u64>::empty(),
    {
        Node { table: RoutingTable::new(local, k), running: true }
    }

    fn observe(&mut self, id: u64, addr: Vec<u8>) -> (r: Action)
        requires
            old(self).table.wf(),
        ensures
            final(self).running == old(self).running,
            observed_with(old(self).table, final(self).table, id, addr@, r),
    {
        let o = self.table.observe(id, addr);
        if o == Outcome::Rejected(RejectReason::BucketFull) {
            match self.table.oldest_in_bucket(id) {
                Some(stale) => Action::Probe { stale, candidate: id },
                None => Action::Observed(o),
            }
        } else {
            Action::Observed(o)
        }
    }

    /// Applies `ev`. A stopped node ignores every event. An observation goes
    /// to the routing table; one that finds its bucket full asks for a
    /// liveness check of the bucket's oldest peer. A failed check drops that
    /// peer. A new listen address changes nothing; shutdown stops the loop.
    pub fn handle(&mut self, ev: Event) -> (r: Action)
        requires
            old(self).table.wf(),
        ensures
            final(self).table.wf(),
            !old(self).running ==> r == Action::Idle && final(self).table == old(self).table
                && !final(self).running,
            old(self).running ==> match ev {
                Event::Discovered { id, addr } => final(self).running && observed_with(
                    old(self).table,
                    final(self).table,
                    id,
                    addr@,
                    r,
                ),
                Event::Responded { id, addr } => final(self).running && observed_with(
                    old(self).table,
                    final(self).table,
                    id,
                    addr@,
                    r,
                ),
                Event::ListenAddr { .. } => r == Action::Idle && final(self).running
                    && final(self).table == old(self).table,
                Event::ProbeFailed { id } => final(self).running && r == Action::Removed(
                    old(self).table.contains(id),
                ) && final(self).table.local == old(self).table.local && final(self).table.k
                    == old(self).table.k && final(self).table.peer_set()
                    == old(self).table.peer_set().remove(id),
                Event::Shutdown => r == Action::Stop && !final(self).running && final(self).table
                    == old(self).table,
            },
    {
        if !self.running {
            return Action::Idle;
        }
        match ev {
            Event::Discovered { id, addr } => self.observe(id, addr),
            Event::Responded { id, addr } => self.observe(id, addr),
            Event::ListenAddr { .. } => Action::Idle,
            Event::ProbeFailed { id } => Action::Removed(self.table.remove(id)),
            Event::Shutdown => {
                self.running = false;
                Action::Stop
            },
        }
    }

    /// A lookup of the peers nearest to `target`, seeded with the `k` held
    /// peers nearest to it, all waiting.
    pub fn start_query(&self, target: u64, alpha: usize, deadline: u64) -> (q: Query)
        requires
            self.table.wf(),
        ensures
            q.wf(),
            q.target == target,
            q.k == self.table.k,
            q.alpha == alpha,
            q.deadline == deadline,
            !q.started && !q.improved && !q.finished,
            exists|seeds: Seq<u64>|
                is_nearest(self.table.peer_set(), target, self.table.k as nat, seeds) && forall|
                    x: u64,
                | #[trigger] ids_of(q.candidates@).contains(x) <==> seeds.contains(x),
            forall|i: int| 0 <= i < q.candidates@.len() ==> #[trigger] q.candidates@[i].state
                == PeerState::Waiting,
    {
        let seeds = self.table.closest(target, self.table.k);
        Query::new(target, &seeds, self.table.k, alpha, deadline)
    }
}

} // verus!
