//! An iterative closest-peers query: a candidate list sorted by distance to
//! the target, contacted in rounds of at most `alpha` peers, ending on a
//! stagnant round, on its deadline, or when nobody is left to contact.
use vstd::prelude::*;
use crate::distance::{xor_distance, distance, is_nearest, nearest, lemma_xor_injective};

verus! {

/// Where a candidate stands in the query.
#[derive(PartialEq, Eq, Structural, Clone, Copy, Debug)]
pub enum PeerState {
    /// Known, not contacted yet.
    Waiting,
    /// Contacted, no answer yet.
    InFlight,
    /// Answered.
    Succeeded,
    /// Timed out or unreachable.
    Failed,
}

/// A peer the query knows of.
#[derive(PartialEq, Eq, Structural, Clone, Copy, Debug)]
pub struct Candidate {
    pub id: u64,
    pub state: PeerState,
}

/// Identifiers of a candidate list, in order.
pub open spec fn ids_of(c: Seq<Candidate>) -> Seq<u64> {
    c.map_values(|x: Candidate| x.id)
}

/// The list is ordered by strictly increasing distance to `target`.
pub open spec fn sorted_by_distance(c: Seq<Candidate>, target: u64) -> bool {
    forall|i: int, j: int|
        0 <= i < j < c.len() ==> xor_distance(target, #[trigger] c[i].id) < xor_distance(
            target,
            #[trigger] c[j].id,
        )
}

/// Identifiers of the candidates that answered.
pub open spec fn succeeded(c: Seq<Candidate>) -> Set<u64> {
    Set::new(
        |id: u64| exists|i: int| 0 <= i < c.len() && #[trigger] c[i].id == id && c[i].state == PeerState::Succeeded,
    )
}

/// `new` lists the candidates of `old` and the identifiers of `added`: every
/// old candidate keeps its state and every new one waits.
pub open spec fn grows_by(old: Seq<Candidate>, new: Seq<Candidate>, added: Set<u64>) -> bool {
    &&& forall|x: u64| #[trigger] ids_of(new).contains(x) <==> (ids_of(old).contains(x) || added.contains(x))
    &&& forall|i: int, j: int|
        0 <= i < new.len() && 0 <= j < old.len() && #[trigger] new[i].id == #[trigger] old[j].id
            ==> new[i].state == old[j].state
    &&& forall|i: int|
        0 <= i < new.len() && !ids_of(old).contains(#[trigger] new[i].id) ==> new[i].state
            == PeerState::Waiting
}

/// In a sorted list each identifier appears once.
pub proof fn lemma_sorted_distinct(c: Seq<Candidate>, target: u64)
    requires
        sorted_by_distance(c, target),
    ensures
        forall|i: int, j: int|
            0 <= i < c.len() && 0 <= j < c.len() && #[trigger] c[i].id == #[trigger] c[j].id
                ==> i == j,
{
    assert forall|i: int, j: int|
        0 <= i < c.len() && 0 <= j < c.len() && #[trigger] c[i].id == #[trigger] c[j].id
            implies i == j by {
        if i < j {
            assert(xor_distance(target, c[i].id) < xor_distance(target, c[j].id));
        } else if j < i {
            assert(xor_distance(target, c[j].id) < xor_distance(target, c[i].id));
        }
    }
}

/// Adds `f` as a waiting candidate at its place by distance, unless it is
/// already listed. Returns whether it was added.
fn insert_candidate(c: &mut Vec<Candidate>, target: u64, f: u64) -> (added: bool)
    requires
        sorted_by_distance(old(c)@, target),
    ensures
        sorted_by_distance(final(c)@, target),
        grows_by(old(c)@, final(c)@, set![f]),
        added == !ids_of(old(c)@).contains(f),
        final(c)@.len() == old(c)@.len() + if added { 1int } else { 0int },
        added && final(c)@.len() > 0 && (old(c)@.len() == 0 || final(c)@[0].id != old(c)@[0].id)
            ==> final(c)@[0].id == f,
        added && (old(c)@.len() == 0 || xor_distance(target, f) < xor_distance(target, old(c)@[0].id))
            ==> final(c)@[0].id == f,
        !added ==> final(c)@ == old(c)@,
        old(c)@.len() > 0 && final(c)@[0].id != old(c)@[0].id ==> xor_distance(
            target,
            final(c)@[0].id,
        ) < xor_distance(target, old(c)@[0].id),
{
    let d = distance(target, f);
    let mut p: usize = 0;
    while p < c.len() && distance(target, c[p].id) < d
        invariant
            p <= c@.len(),
            forall|i: int| 0 <= i < p ==> xor_distance(target, #[trigger] c@[i].id) < d,
        decreases c@.len() - p,
    {
        p = p + 1;
    }
    let ghost o = c@;
    if p < c.len() && c[p].id == f {
        assert(ids_of(o)[p as int] == f);
        proof {
            lemma_sorted_distinct(o, target);
            assert(ids_of(o).contains(f));
            assert forall|i: int| 0 <= i < o.len() implies ids_of(o).contains(#[trigger] o[i].id) by {
                assert(ids_of(o)[i] == o[i].id);
            }
            assert forall|x: u64| #[trigger] ids_of(o).contains(x) <==> (ids_of(o).contains(x)
                || set![f].contains(x)) by {
                if x == f {
                    assert(ids_of(o).contains(f));
                }
            }
        }
        return false;
    }
    proof {
        assert forall|i: int| 0 <= i < o.len() implies #[trigger] o[i].id != f by {
            lemma_xor_injective(target, o[i].id, f);
            if i >= p && i > p as int {
                assert(xor_distance(target, o[p as int].id) < xor_distance(target, o[i].id));
            }
        }
    }
    c.insert(p, Candidate { id: f, state: PeerState::Waiting });
    proof {
        let n = c@;
        assert(n =~= o.insert(p as int, Candidate { id: f, state: PeerState::Waiting }));
        assert forall|i: int| 0 <= i < n.len() implies #[trigger] n[i] == if i < p {
            o[i]
        } else if i == p {
            Candidate { id: f, state: PeerState::Waiting }
        } else {
            o[i - 1]
        } by {}
        assert forall|i: int, j: int| 0 <= i < j < n.len() implies xor_distance(
            target,
            #[trigger] n[i].id,
        ) < xor_distance(target, #[trigger] n[j].id) by {
            if i < p && j > p {
                assert(xor_distance(target, o[i].id) < d);
                lemma_xor_injective(target, o[j - 1].id, f);
            } else if i == p && j > p {
                lemma_xor_injective(target, o[j - 1].id, f);
            }
        }
        assert(!ids_of(o).contains(f));
        assert forall|x: u64| #[trigger] ids_of(n).contains(x) <==> (ids_of(o).contains(x)
            || set![f].contains(x)) by {
            if ids_of(o).contains(x) {
                let j = choose|j: int| 0 <= j < o.len() && ids_of(o)[j] == x;
                if j < p {
                    assert(ids_of(n)[j] == x);
                } else {
                    assert(ids_of(n)[j + 1] == x);
                }
            }
            if x == f {
                assert(ids_of(n)[p as int] == x);
            }
            if ids_of(n).contains(x) && x != f {
                let j = choose|j: int| 0 <= j < n.len() && ids_of(n)[j] == x;
                if j < p {
                    assert(ids_of(o)[j] == x);
                } else {
                    assert(ids_of(o)[j - 1] == x);
                }
            }
        }
        assert forall|i: int, j: int|
            0 <= i < n.len() && 0 <= j < o.len() && #[trigger] n[i].id == #[trigger] o[j].id
                implies n[i].state == o[j].state by {
            let oi = if i < p { i } else { i - 1 };
            assert(i != p);
            assert(n[i] == o[oi]);
            lemma_xor_injective(target, o[oi].id, o[j].id);
            if oi < j {
                assert(xor_distance(target, o[oi].id) < xor_distance(target, o[j].id));
            } else if oi > j {
                assert(xor_distance(target, o[j].id) < xor_distance(target, o[oi].id));
            }
        }
        assert forall|i: int|
            0 <= i < n.len() && !ids_of(o).contains(#[trigger] n[i].id) implies n[i].state
            == PeerState::Waiting by {
            if i != p {
                let oi = if i < p { i } else { i - 1 };
                assert(ids_of(o)[oi] == n[i].id);
            }
        }
        if p > 0 {
            assert(n[0] == o[0]);
        } else if o.len() > 0 {
            assert(n[1] == o[0]);
        }
    }
    true
}

/// Growing a list in two steps grows it by both sets at once.
proof fn lemma_grows_trans(
    a: Seq<Candidate>,
    b: Seq<Candidate>,
    c: Seq<Candidate>,
    s1: Set<u64>,
    s2: Set<u64>,
)
    requires
        grows_by(a, b, s1),
        grows_by(b, c, s2),
    ensures
        grows_by(a, c, s1.union(s2)),
{
    assert forall|i: int, j: int|
        0 <= i < c.len() && 0 <= j < a.len() && #[trigger] c[i].id == #[trigger] a[j].id
            implies c[i].state == a[j].state by {
        assert(ids_of(a)[j] == a[j].id);
        assert(ids_of(b).contains(a[j].id));
        let m = choose|m: int| 0 <= m < b.len() && ids_of(b)[m] == a[j].id;
        assert(b[m].id == a[j].id);
    }
    assert forall|i: int|
        0 <= i < c.len() && !ids_of(a).contains(#[trigger] c[i].id) implies c[i].state
        == PeerState::Waiting by {
        if ids_of(b).contains(c[i].id) {
            let m = choose|m: int| 0 <= m < b.len() && ids_of(b)[m] == c[i].id;
            assert(b[m].id == c[i].id);
        }
    }
}

/// A sorted list grows by nothing into itself.
proof fn lemma_grows_refl(c: Seq<Candidate>, target: u64)
    requires
        sorted_by_distance(c, target),
    ensures
        grows_by(c, c, Set::empty()),
{
    lemma_sorted_distinct(c, target);
    assert forall|i: int| 0 <= i < c.len() implies ids_of(c).contains(#[trigger] c[i].id) by {
        assert(ids_of(c)[i] == c[i].id);
    }
}

/// The waiting candidates of `c` that a round of at most `m` requests
/// contacts: the first `m` of them, in list order.
pub open spec fn picked(c: Seq<Candidate>, m: nat) -> Seq<u64>
    decreases c.len(),
{
    if c.len() == 0 {
        seq![]
    } else {
        let p = picked(c.drop_last(), m);
        if c.last().state == PeerState::Waiting && p.len() < m {
            p.push(c.last().id)
        } else {
            p
        }
    }
}

/// A round contacts at most `m` peers, each of them a candidate of the list.
pub proof fn lemma_picked_bounded(c: Seq<Candidate>, m: nat)
    ensures
        picked(c, m).len() <= m,
        forall|x: u64| #[trigger] picked(c, m).contains(x) ==> ids_of(c).contains(x),
    decreases c.len(),
{
    if c.len() > 0 {
        let d = c.drop_last();
        lemma_picked_bounded(d, m);
        let p = picked(d, m);
        assert forall|x: u64| #[trigger] picked(c, m).contains(x) implies ids_of(c).contains(x) by {
            if p.contains(x) {
                let j = choose|j: int| 0 <= j < d.len() && ids_of(d)[j] == x;
                assert(ids_of(c)[j] == x);
            } else {
                assert(ids_of(c)[c.len() - 1] == x);
            }
        }
    }
}

/// Whether the `i`-th candidate of `c` is among those a round of at most `m`
/// requests contacts.
pub open spec fn chosen(c: Seq<Candidate>, i: int, m: nat) -> bool {
    c[i].state == PeerState::Waiting && picked(c.take(i), m).len() < m
}

/// Whether some candidate awaits an answer.
pub open spec fn has_in_flight(c: Seq<Candidate>) -> bool {
    exists|i: int| 0 <= i < c.len() && #[trigger] c[i].state == PeerState::InFlight
}

/// `c` with the state of `peer` set to `st`.
pub open spec fn mark(c: Seq<Candidate>, peer: u64, st: PeerState) -> Seq<Candidate> {
    c.map_values(|x: Candidate| if x.id == peer { Candidate { id: x.id, state: st } } else { x })
}

/// One lookup of the peers nearest to `target`.
pub struct Query {
    pub target: u64,
    /// Size of the best-known list that rounds draw from, and of the result.
    pub k: usize,
    /// Most requests one round sends.
    pub alpha: usize,
    /// Time, in the caller's clock, past which the query stops.
    pub deadline: u64,
    pub candidates: Vec<Candidate>,
    /// A round has been sent.
    pub started: bool,
    /// The current round found a peer nearer than every known one.
    pub improved: bool,
    pub finished: bool,
}

impl Query {
    /// The candidates are sorted by distance to the target.
    pub open spec fn wf(&self) -> bool {
        sorted_by_distance(self.candidates@, self.target)
    }

    /// Candidates a round may contact: the first `k` of the list.
    pub open spec fn window(&self) -> Seq<Candidate> {
        if self.k < self.candidates@.len() {
            self.candidates@.take(self.k as int)
        } else {
            self.candidates@
        }
    }

    /// A query seeded with the peers of `seeds`, each waiting.
    pub fn new(target: u64, seeds: &Vec<u64>, k: usize, alpha: usize, deadline: u64) -> (q: Query)
        ensures
            q.wf(),
            q.target == target,
            q.k == k,
            q.alpha == alpha,
            q.deadline == deadline,
            !q.started && !q.improved && !q.finished,
            forall|x: u64| #[trigger] ids_of(q.candidates@).contains(x) <==> seeds@.contains(x),
            forall|i: int| 0 <= i < q.candidates@.len() ==> #[trigger] q.candidates@[i].state
                == PeerState::Waiting,
    {
        let mut c: Vec<Candidate> = Vec::new();
        let mut i: usize = 0;
        while i < seeds.len()
            invariant
                i <= seeds@.len(),
                sorted_by_distance(c@, target),
                forall|x: u64| #[trigger] ids_of(c@).contains(x) <==> seeds@.take(i as int).contains(x),
                forall|j: int| 0 <= j < c@.len() ==> #[trigger] c@[j].state == PeerState::Waiting,
            decreases seeds@.len() - i,
        {
            let ghost before = c@;
            insert_candidate(&mut c, target, seeds[i]);
            proof {
                assert(seeds@.take(i + 1) =~= seeds@.take(i as int).push(seeds@[i as int]));
                assert forall|x: u64| #[trigger] ids_of(c@).contains(x) <==> seeds@.take(i + 1).contains(x) by {
                    let pre = seeds@.take(i as int);
                    let post = seeds@.take(i + 1);
                    if pre.contains(x) {
                        let j = choose|j: int| 0 <= j < pre.len() && pre[j] == x;
                        assert(post[j] == x);
                    }
                    if post.contains(x) && x != seeds@[i as int] {
                        let j = choose|j: int| 0 <= j < post.len() && post[j] == x;
                        assert(pre[j] == x);
                    }
                    if x == seeds@[i as int] {
                        assert(seeds@.take(i + 1)[i as int] == x);
                    }
                }
                assert forall|j: int| 0 <= j < c@.len() implies #[trigger] c@[j].state
                    == PeerState::Waiting by {
                    if ids_of(before).contains(c@[j].id) {
                        let m = choose|m: int| 0 <= m < before.len() && ids_of(before)[m] == c@[j].id;
                        assert(before[m].id == c@[j].id);
                    }
                }
            }
            i = i + 1;
        }
        assert(seeds@.take(seeds@.len() as int) =~= seeds@);
        Query { target, k, alpha, deadline, candidates: c, started: false, improved: false, finished: false }
    }

    /// Position of `peer` in the candidate list.
    fn position(&self, peer: u64) -> (r: Option<usize>)
        ensures
            r matches Some(i) ==> i < self.candidates@.len() && self.candidates@[i as int].id == peer,
            r is None ==> !ids_of(self.candidates@).contains(peer),
    {
        let mut i: usize = 0;
        while i < self.candidates.len()
            invariant
                i <= self.candidates@.len(),
                forall|j: int| 0 <= j < i ==> self.candidates@[j].id != peer,
            decreases self.candidates@.len() - i,
        {
            if self.candidates[i].id == peer {
                return Some(i);
            }
            i = i + 1;
        }
        None
    }

    /// Whether some candidate awaits an answer.
    pub fn in_flight(&self) -> (r: bool)
        ensures
            r == has_in_flight(self.candidates@),
    {
        let mut i: usize = 0;
        while i < self.candidates.len()
            invariant
                i <= self.candidates@.len(),
                forall|j: int| 0 <= j < i ==> self.candidates@[j].state != PeerState::InFlight,
            decreases self.candidates@.len() - i,
        {
            if self.candidates[i].state == PeerState::InFlight {
                return true;
            }
            i = i + 1;
        }
        false
    }

    /// Decides the query's next step at time `now` and returns the peers to
    /// contact. Nothing is sent while answers are awaited. The query ends at
    /// its deadline, after a round that found no nearer peer, or when no
    /// waiting peer is left among the first `k` candidates; otherwise the
    /// first `alpha` waiting candidates among them are contacted.
    pub fn next_round(&mut self, now: u64) -> (r: Vec<u64>)
        requires
            old(self).wf(),
        ensures
            final(self).wf(),
            old(self).finished ==> r@.len() == 0 && *final(self) == *old(self),
            !old(self).finished && now >= old(self).deadline ==> r@.len() == 0 && *final(self)
                == (Query { finished: true, ..*old(self) }),
            !old(self).finished && now < old(self).deadline && has_in_flight(old(self).candidates@)
                ==> r@.len() == 0 && *final(self) == *old(self),
            !old(self).finished && now < old(self).deadline && !has_in_flight(
                old(self).candidates@,
            ) && old(self).started && !old(self).improved ==> r@.len() == 0 && *final(self) == (
            Query { finished: true, ..*old(self) }),
            !old(self).finished && now < old(self).deadline && !has_in_flight(
                old(self).candidates@,
            ) && !(old(self).started && !old(self).improved) ==> ({
                &&& r@ == picked(old(self).window(), old(self).alpha as nat)
                &&& final(self).target == old(self).target
                &&& final(self).k == old(self).k
                &&& final(self).alpha == old(self).alpha
                &&& final(self).deadline == old(self).deadline
                &&& final(self).candidates@.len() == old(self).candidates@.len()
                &&& forall|i: int|
                    0 <= i < old(self).candidates@.len() ==> #[trigger] final(self).candidates@[i]
                        == (Candidate {
                        id: old(self).candidates@[i].id,
                        state: if i < old(self).k && chosen(
                            old(self).candidates@,
                            i,
                            old(self).alpha as nat,
                        ) {
                            PeerState::InFlight
                        } else {
                            old(self).candidates@[i].state
                        },
                    })
                &&& r@.len() == 0 ==> final(self).finished && final(self).improved
                    == old(self).improved && final(self).started == old(self).started
                &&& r@.len() > 0 ==> !final(self).finished && final(self).started
                    && !final(self).improved
            }),
    {
        if self.finished {
            return Vec::new();
        }
        if now >= self.deadline {
            self.finished = true;
            return Vec::new();
        }
        if self.in_flight() {
            return Vec::new();
        }
        if self.started && !self.improved {
            self.finished = true;
            return Vec::new();
        }
        let w: usize = if self.k < self.candidates.len() {
            self.k
        } else {
            self.candidates.len()
        };
        let ghost o = self.candidates@;
        let ghost win = self.window();
        let mut picks: Vec<u64> = Vec::new();
        let mut i: usize = 0;
        while i < w
            invariant
                i <= w,
                w <= o.len(),
                win == o.take(w as int),
                self.candidates@.len() == o.len(),
                self.k == old(self).k,
                self.alpha == old(self).alpha,
                self.target == old(self).target,
                self.deadline == old(self).deadline,
                self.started == old(self).started,
                self.improved == old(self).improved,
                self.finished == old(self).finished,
                o == old(self).candidates@,
                sorted_by_distance(o, self.target),
                w == old(self).k || w == o.len(),
                w < o.len() ==> w == old(self).k,
                picks@ == picked(o.take(i as int), self.alpha as nat),
                forall|j: int|
                    0 <= j < o.len() ==> #[trigger] self.candidates@[j] == (Candidate {
                        id: o[j].id,
                        state: if j < i && chosen(o, j, self.alpha as nat) {
                            PeerState::InFlight
                        } else {
                            o[j].state
                        },
                    }),
            decreases w - i,
        {
            let c = self.candidates[i];
            proof {
                assert(o.take(i + 1).drop_last() =~= o.take(i as int));
                assert(o.take(i + 1).last() == o[i as int]);
            }
            if c.state == PeerState::Waiting && picks.len() < self.alpha {
                self.candidates.set(i, Candidate { id: c.id, state: PeerState::InFlight });
                picks.push(c.id);
            }
            i = i + 1;
        }
        proof {
            if w == o.len() {
                assert(o.take(w as int) =~= o);
            }
            assert forall|j: int| 0 <= j < o.len() implies #[trigger] self.candidates@[j]
                == (Candidate {
                id: o[j].id,
                state: if j < self.k && chosen(o, j, self.alpha as nat) {
                    PeerState::InFlight
                } else {
                    o[j].state
                },
            }) by {
                if j >= w && j < self.k {
                    assert(w == o.len());
                }
            }
            assert forall|a: int, b: int| 0 <= a < b < self.candidates@.len() implies xor_distance(
                self.target,
                #[trigger] self.candidates@[a].id,
            ) < xor_distance(self.target, #[trigger] self.candidates@[b].id) by {
                assert(self.candidates@[a].id == o[a].id);
                assert(self.candidates@[b].id == o[b].id);
            }
        }
        if picks.len() == 0 {
            self.finished = true;
        } else {
            self.started = true;
            self.improved = false;
        }
        picks
    }

    /// Sets the state of the candidate at `i` to `st`.
    fn settle(&mut self, i: usize, st: PeerState)
        requires
            old(self).wf(),
            i < old(self).candidates@.len(),
        ensures
            final(self).wf(),
            final(self).candidates@ == mark(old(self).candidates@, old(self).candidates@[i as int].id, st),
            final(self).candidates@.len() == old(self).candidates@.len(),
            *final(self) == (Query { candidates: final(self).candidates, ..*old(self) }),
    {
        let ghost o = self.candidates@;
        let id = self.candidates[i].id;
        self.candidates.set(i, Candidate { id, state: st });
        proof {
            lemma_sorted_distinct(o, self.target);
            assert(self.candidates@ =~= mark(o, id, st));
            assert forall|a: int, b: int| 0 <= a < b < self.candidates@.len() implies xor_distance(
                self.target,
                #[trigger] self.candidates@[a].id,
            ) < xor_distance(self.target, #[trigger] self.candidates@[b].id) by {
                assert(self.candidates@[a].id == o[a].id);
                assert(self.candidates@[b].id == o[b].id);
            }
        }
    }

    /// Whether `peer` is a candidate awaiting an answer.
    pub open spec fn awaits(&self, peer: u64) -> bool {
        exists|i: int|
            0 <= i < self.candidates@.len() && #[trigger] self.candidates@[i].id == peer
                && self.candidates@[i].state == PeerState::InFlight
    }

    proof fn lemma_not_listed(&self, peer: u64)
        requires
            !ids_of(self.candidates@).contains(peer),
        ensures
            !self.awaits(peer),
    {
        assert forall|i: int| 0 <= i < self.candidates@.len() implies #[trigger] self.candidates@[i].id
            != peer by {
            assert(ids_of(self.candidates@)[i] == self.candidates@[i].id);
        }
    }

    /// Records that `peer` answered with the peers `found`. The answer counts
    /// only while the query runs and `peer` awaits one: `peer` then has
    /// succeeded, each peer of `found` not yet known joins the list as
    /// waiting, and the round counts as improved when the nearest candidate
    /// changed. Returns whether the answer counted.
    pub fn on_response(&mut self, peer: u64, found: &Vec<u64>) -> (r: bool)
        requires
            old(self).wf(),
        ensures
            final(self).wf(),
            r == (!old(self).finished && old(self).awaits(peer)),
            !r ==> *final(self) == *old(self),
            r ==> grows_by(
                mark(old(self).candidates@, peer, PeerState::Succeeded),
                final(self).candidates@,
                found@.to_set(),
            ),
            r ==> final(self).candidates@.len() > 0 && *final(self) == (Query {
                candidates: final(self).candidates,
                improved: old(self).improved || final(self).candidates@[0].id
                    != old(self).candidates@[0].id,
                ..*old(self)
            }),
    {
        if self.finished {
            return false;
        }
        let i = match self.position(peer) {
            None => {
                proof {
                    self.lemma_not_listed(peer);
                }
                return false;
            },
            Some(i) => i,
        };
        if self.candidates[i].state != PeerState::InFlight {
            proof {
                lemma_sorted_distinct(self.candidates@, self.target);
            }
            return false;
        }
        let first = self.candidates[0].id;
        self.settle(i, PeerState::Succeeded);
        let ghost base = self.candidates@;
        let ghost old_q = *self;
        proof {
            lemma_grows_refl(base, self.target);
            assert(found@.take(0).to_set() =~= Set::<u64>::empty());
            assert(base[0].id == first);
        }
        let mut j: usize = 0;
        while j < found.len()
            invariant
                j <= found@.len(),
                sorted_by_distance(self.candidates@, self.target),
                grows_by(base, self.candidates@, found@.take(j as int).to_set()),
                self.candidates@.len() >= base.len(),
                base.len() > 0,
                base[0].id == first,
                self.candidates@[0].id != first ==> xor_distance(self.target, self.candidates@[0].id) < xor_distance(self.target, first),
                *self == (Query { candidates: self.candidates, ..old_q }),
            decreases found@.len() - j,
        {
            let ghost before = self.candidates@;
            insert_candidate(&mut self.candidates, self.target, found[j]);
            proof {
                lemma_grows_trans(
                    base,
                    before,
                    self.candidates@,
                    found@.take(j as int).to_set(),
                    set![found@[j as int]],
                );
                let pre = found@.take(j as int);
                let post = found@.take(j + 1);
                assert(post =~= pre.push(found@[j as int]));
                assert forall|x: u64| post.contains(x) <==> (pre.contains(x) || x == found@[j as int]) by {
                    if pre.contains(x) {
                        let m = choose|m: int| 0 <= m < pre.len() && pre[m] == x;
                        assert(post[m] == x);
                    }
                    if x == found@[j as int] {
                        assert(post[j as int] == x);
                    }
                    if post.contains(x) && x != found@[j as int] {
                        let m = choose|m: int| 0 <= m < post.len() && post[m] == x;
                        assert(pre[m] == x);
                    }
                }
                assert(found@.take(j as int).to_set().union(set![found@[j as int]]) =~= found@.take(
                    j + 1,
                ).to_set());
            }
            j = j + 1;
        }
        proof {
            assert(found@.take(found@.len() as int) =~= found@);
        }
        if self.candidates[0].id != first {
            self.improved = true;
        }
        true
    }

    /// Records that `peer` timed out or could not be reached. Counts only
    /// while the query runs and `peer` awaits an answer; it is then failed.
    /// Returns whether it counted.
    pub fn on_failure(&mut self, peer: u64) -> (r: bool)
        requires
            old(self).wf(),
        ensures
            final(self).wf(),
            r == (!old(self).finished && old(self).awaits(peer)),
            !r ==> *final(self) == *old(self),
            r ==> final(self).candidates@ == mark(old(self).candidates@, peer, PeerState::Failed)
                && *final(self) == (Query { candidates: final(self).candidates, ..*old(self) }),
    {
        if self.finished {
            return false;
        }
        match self.position(peer) {
            None => {
                proof {
                    self.lemma_not_listed(peer);
                }
                false
            },
            Some(i) => {
                if self.candidates[i].state != PeerState::InFlight {
                    proof {
                        lemma_sorted_distinct(self.candidates@, self.target);
                    }
                    return false;
                }
                self.settle(i, PeerState::Failed);
                true
            },
        }
    }

    /// Ends the query if `now` is at or past its deadline. Returns whether
    /// the query has ended.
    pub fn expire(&mut self, now: u64) -> (r: bool)
        ensures
            r == final(self).finished,
            *final(self) == (Query {
                finished: old(self).finished || now >= old(self).deadline,
                ..*old(self)
            }),
    {
        if now >= self.deadline {
            self.finished = true;
        }
        self.finished
    }

    /// The peers that answered, the `k` nearest to the target, nearest first.
    pub fn result(&self) -> (r: Vec<u64>)
        ensures
            is_nearest(succeeded(self.candidates@), self.target, self.k as nat, r@),
    {
        let mut pool: Vec<u64> = Vec::new();
        let mut i: usize = 0;
        while i < self.candidates.len()
            invariant
                i <= self.candidates@.len(),
                forall|x: u64| #[trigger] pool@.contains(x) <==> exists|j: int|
                    0 <= j < i && #[trigger] self.candidates@[j].id == x && self.candidates@[j].state
                        == PeerState::Succeeded,
            decreases self.candidates@.len() - i,
        {
            let c = self.candidates[i];
            if c.state == PeerState::Succeeded {
                let ghost before = pool@;
                pool.push(c.id);
                proof {
                    assert forall|x: u64| #[trigger] pool@.contains(x) <==> exists|j: int|
                        0 <= j < i + 1 && #[trigger] self.candidates@[j].id == x
                            && self.candidates@[j].state == PeerState::Succeeded by {
                        if before.contains(x) {
                            let m = choose|m: int| 0 <= m < before.len() && before[m] == x;
                            assert(pool@[m] == x);
                        }
                        if x == c.id {
                            assert(pool@[before.len() as int] == x);
                        }
                        if pool@.contains(x) && x != c.id {
                            let m = choose|m: int| 0 <= m < pool@.len() && pool@[m] == x;
                            assert(before[m] == x);
                        }
                    }
                }
            }
            i = i + 1;
        }
        assert(pool@.to_set() =~= succeeded(self.candidates@));
        nearest(&pool, self.target, self.k)
    }

    /// Whether the query has ended.
    pub fn is_finished(&self) -> (r: bool)
        ensures
            r == self.finished,
    {
        self.finished
    }
}

/// A query that knows no peer contacts nobody, so its first round ends it,
/// and its result is empty.
pub proof fn lemma_empty_query(q: Query, r: Seq<u64>)
    requires
        q.candidates@.len() == 0,
        is_nearest(succeeded(q.candidates@), q.target, q.k as nat, r),
    ensures
        picked(q.window(), q.alpha as nat).len() == 0,
        r.len() == 0,
{
    assert(q.window() =~= Seq::<Candidate>::empty());
    if r.len() > 0 {
        assert(succeeded(q.candidates@).contains(r[0]));
    }
}

/// A query in which no contacted peer ever answered has an empty result.
pub proof fn lemma_silent_query(q: Query, r: Seq<u64>)
    requires
        forall|i: int| 0 <= i < q.candidates@.len() ==> #[trigger] q.candidates@[i].state
            != PeerState::Succeeded,
        is_nearest(succeeded(q.candidates@), q.target, q.k as nat, r),
    ensures
        r.len() == 0,
{
    if r.len() > 0 {
        assert(succeeded(q.candidates@).contains(r[0]));
    }
}

} // verus!
