//! The routing table: one bucket per XOR-distance range from the local
//! identifier, each holding at most `k` peers, oldest first.
use vstd::prelude::*;
use crate::distance::{
    ID_BITS, is_nearest, nearest, bucket_of, xor_distance, distance, bucket_index, lemma_bucket_in_range,
    lemma_xor_injective,
};

verus! {

/// A known peer: its identifier and the addresses it was seen at.
pub struct Entry {
    pub id: u64,
    pub addrs: Vec<Vec<u8>>,
}

/// Why `observe` left the table unchanged.
#[derive(PartialEq, Eq, Structural, Clone, Copy, Debug)]
pub enum RejectReason {
    /// The peer's bucket already holds `k` peers.
    BucketFull,
    /// The identifier is the local node's own.
    LocalIdentity,
}

/// What `observe` did with a peer.
#[derive(PartialEq, Eq, Structural, Clone, Copy, Debug)]
pub enum Outcome {
    Inserted,
    Refreshed,
    Rejected(RejectReason),
}

/// Known peers grouped by the highest set bit of their distance to `local`.
pub struct RoutingTable {
    pub local: u64,
    pub k: usize,
    pub buckets: Vec<Vec<Entry>>,
}

/// The addresses of a peer, as byte sequences.
pub open spec fn addrs_view(addrs: Seq<Vec<u8>>) -> Seq<Seq<u8>> {
    addrs.map_values(|a: Vec<u8>| a@)
}

/// A list of addresses with `a` added unless it is already there.
pub open spec fn merge_addr(addrs: Seq<Seq<u8>>, a: Seq<u8>) -> Seq<Seq<u8>> {
    if addrs.contains(a) {
        addrs
    } else {
        addrs.push(a)
    }
}

fn same_bytes(a: &Vec<u8>, b: &Vec<u8>) -> (r: bool)
    ensures
        r == (a@ == b@),
{
    if a.len() != b.len() {
        return false;
    }
    let mut i: usize = 0;
    while i < a.len()
        invariant
            a@.len() == b@.len(),
            i <= a@.len(),
            forall|j: int| 0 <= j < i ==> a@[j] == b@[j],
        decreases a@.len() - i,
    {
        if a[i] != b[i] {
            return false;
        }
        i = i + 1;
    }
    assert(a@ =~= b@);
    true
}

/// Adds `a` to `addrs` unless an equal address is already listed.
fn merge_address(addrs: &mut Vec<Vec<u8>>, a: Vec<u8>)
    ensures
        addrs_view(final(addrs)@) == merge_addr(addrs_view(old(addrs)@), a@),
{
    let ghost v = addrs_view(addrs@);
    let mut i: usize = 0;
    while i < addrs.len()
        invariant
            v == addrs_view(addrs@),
            i <= addrs@.len(),
            forall|j: int| 0 <= j < i ==> v[j] != a@,
        decreases addrs@.len() - i,
    {
        if same_bytes(&addrs[i], &a) {
            assert(v.contains(a@)) by {
                assert(v[i as int] == a@);
            }
            return;
        }
        i = i + 1;
    }
    assert(!v.contains(a@));
    addrs.push(a);
    assert(addrs_view(addrs@) =~= v.push(a@));
}

/// Any identifier other than `local` has a bucket, at a nonzero distance.
pub proof fn lemma_bucket_valid(local: u64, id: u64)
    requires
        id != local,
    ensures
        xor_distance(local, id) != 0,
        bucket_of(local, id) < ID_BITS,
{
    lemma_xor_injective(local, local, id);
    lemma_bucket_in_range(xor_distance(local, id));
}

/// What `observe(id, addr)` does to the table `old`, turning it into `new`
/// with outcome `r`.
pub open spec fn observed(old: RoutingTable, new: RoutingTable, id: u64, addr: Seq<u8>, r: Outcome) -> bool {
    &&& new.wf()
    &&& new.local == old.local
    &&& new.k == old.k
    &&& id == old.local ==> r == Outcome::Rejected(RejectReason::LocalIdentity) && new == old
    &&& id != old.local ==> ({
        let b = bucket_of(old.local, id) as int;
        let ids = old.ids(b);
        &&& forall|c: int| 0 <= c < ID_BITS && c != b ==> #[trigger] new.buckets@[c] == old.buckets@[c]
        &&& ids.contains(id) ==> r == Outcome::Refreshed && exists|j: int|
            0 <= j < ids.len() && ids[j] == id && new.ids(b) == ids.remove(j).push(id) && new.addrs(
                b,
                ids.len() - 1,
            ) == merge_addr(old.addrs(b, j), addr)
        &&& !ids.contains(id) && ids.len() < old.k ==> r == Outcome::Inserted && new.ids(b)
            == ids.push(id) && new.addrs(b, ids.len() as int) == seq![addr]
        &&& !ids.contains(id) && ids.len() >= old.k ==> r == Outcome::Rejected(
            RejectReason::BucketFull,
        ) && new == old
    })
    &&& old.contains(id) ==> r == Outcome::Refreshed && new.peer_set() == old.peer_set()
    &&& r == Outcome::Inserted || r == Outcome::Refreshed ==> new.contains(id)
    &&& r == Outcome::Inserted ==> new.peer_set() == old.peer_set().insert(id)
    &&& r != Outcome::Inserted ==> new.peer_set() == old.peer_set()
}

impl RoutingTable {
    /// Identifiers held in bucket `b`, oldest first.
    pub open spec fn ids(&self, b: int) -> Seq<u64> {
        self.buckets@[b]@.map_values(|e: Entry| e.id)
    }

    /// Addresses of the `j`-th peer of bucket `b`.
    pub open spec fn addrs(&self, b: int, j: int) -> Seq<Seq<u8>> {
        addrs_view(self.buckets@[b]@[j].addrs@)
    }

    /// Whether the table holds `id`.
    pub open spec fn contains(&self, id: u64) -> bool {
        id != self.local && self.ids(bucket_of(self.local, id) as int).contains(id)
    }

    /// The set of identifiers the table holds.
    pub open spec fn peer_set(&self) -> Set<u64> {
        Set::new(|id: u64| self.contains(id))
    }

    /// Buckets are in place, bounded by `k`, free of duplicates, and each
    /// peer sits in the bucket of its distance to `local`.
    pub open spec fn wf(&self) -> bool {
        &&& self.buckets@.len() == ID_BITS
        &&& forall|b: int| 0 <= b < ID_BITS ==> #[trigger] self.ids(b).len() <= self.k
        &&& forall|b: int| 0 <= b < ID_BITS ==> #[trigger] self.ids(b).no_duplicates()
        &&& forall|b: int, j: int|
            0 <= b < ID_BITS && 0 <= j < self.ids(b).len() ==> #[trigger] self.ids(b)[j]
                != self.local && bucket_of(self.local, self.ids(b)[j]) == b
    }

    /// An empty table for the node `local`, with buckets of capacity `k`.
    pub fn new(local: u64, k: usize) -> (t: RoutingTable)
        ensures
            t.wf(),
            t.local == local,
            t.k == k,
            t.peer_set() == Set::<u64>::empty(),
    {
        let mut buckets: Vec<Vec<Entry>> = Vec::new();
        let mut i: usize = 0;
        while i < ID_BITS
            invariant
                i <= ID_BITS,
                buckets@.len() == i,
                forall|b: int| 0 <= b < i ==> (#[trigger] buckets@[b])@.len() == 0,
            decreases ID_BITS - i,
        {
            buckets.push(Vec::new());
            i = i + 1;
        }
        let t = RoutingTable { local, k, buckets };
        assert forall|id: u64| !t.contains(id) by {
            if id != local {
                lemma_bucket_valid(local, id);
            }
        }
        assert(t.peer_set() =~= Set::<u64>::empty());
        t
    }

    /// Two tables that differ in bucket `b` alone agree on every identifier
    /// of another bucket, and are well formed once bucket `b` is.
    proof fn lemma_other_buckets(&self, old_t: RoutingTable, b: int)
        requires
            old_t.wf(),
            0 <= b < ID_BITS,
            self.local == old_t.local,
            self.k == old_t.k,
            self.buckets@.len() == ID_BITS,
            forall|c: int| 0 <= c < ID_BITS && c != b ==> #[trigger] self.buckets@[c]
                == old_t.buckets@[c],
            self.ids(b).len() <= self.k,
            self.ids(b).no_duplicates(),
            forall|j: int| 0 <= j < self.ids(b).len() ==> #[trigger] self.ids(b)[j]
                != self.local && bucket_of(self.local, self.ids(b)[j]) == b,
        ensures
            self.wf(),
            forall|id: u64| bucket_of(self.local, id) != b ==> self.contains(id)
                == old_t.contains(id),
    {
        assert forall|id: u64| bucket_of(self.local, id) != b implies self.contains(id)
            == old_t.contains(id) by {
            if id != self.local {
                lemma_bucket_valid(self.local, id);
                assert(self.buckets@[bucket_of(self.local, id) as int] == old_t.buckets@[bucket_of(
                    self.local,
                    id,
                ) as int]);
            }
        }
        assert forall|c: int| 0 <= c < ID_BITS implies #[trigger] self.ids(c).len() <= self.k
            && self.ids(c).no_duplicates() by {
            if c != b {
                assert(self.buckets@[c] == old_t.buckets@[c]);
                assert(self.ids(c) == old_t.ids(c));
                assert(old_t.ids(c).len() <= old_t.k);
                assert(old_t.ids(c).no_duplicates());
            }
        }
        assert forall|c: int, j: int|
            0 <= c < ID_BITS && 0 <= j < self.ids(c).len() implies #[trigger] self.ids(c)[j]
            != self.local && bucket_of(self.local, self.ids(c)[j]) == c by {
            if c != b {
                assert(self.buckets@[c] == old_t.buckets@[c]);
                assert(self.ids(c) == old_t.ids(c));
                assert(old_t.ids(c)[j] != old_t.local);
            }
        }
    }

    /// Position of `id` in bucket `b`, if it is there.
    fn find_in_bucket(&self, b: usize, id: u64) -> (r: Option<usize>)
        requires
            b < self.buckets@.len(),
        ensures
            r matches Some(j) ==> j < self.ids(b as int).len() && self.ids(b as int)[j as int] == id,
            r is None ==> !self.ids(b as int).contains(id),
    {
        let bucket = &self.buckets[b];
        let mut j: usize = 0;
        while j < bucket.len()
            invariant
                bucket == &self.buckets@[b as int],
                j <= bucket@.len(),
                forall|i: int| 0 <= i < j ==> self.ids(b as int)[i] != id,
            decreases bucket@.len() - j,
        {
            if bucket[j].id == id {
                return Some(j);
            }
            j = j + 1;
        }
        None
    }

    /// Records that `id` was seen reachable at `addr`. A peer already held
    /// moves to the most-recently-seen end of its bucket and gains `addr`; a
    /// new peer is appended when its bucket has room, and rejected otherwise.
    /// The local identifier is never held.
    pub fn observe(&mut self, id: u64, addr: Vec<u8>) -> (r: Outcome)
        requires
            old(self).wf(),
        ensures
            observed(*old(self), *final(self), id, addr@, r),
    {
        if id == self.local {
            return Outcome::Rejected(RejectReason::LocalIdentity);
        }
        proof {
            lemma_bucket_valid(self.local, id);
        }
        let b = bucket_index(distance(self.local, id));
        let ghost old_t = *self;
        let ghost ids = old_t.ids(b as int);
        match self.find_in_bucket(b, id) {
            Some(j) => {
                let mut e = self.buckets[b].remove(j);
                merge_address(&mut e.addrs, addr);
                self.buckets[b].push(e);
                proof {
                    let nids = ids.remove(j as int).push(id);
                    assert(ids.no_duplicates());
                    assert(self.ids(b as int) =~= nids);
                    assert forall|x: u64| nids.contains(x) <==> ids.contains(x) by {
                        if ids.contains(x) && x != id {
                            let i = choose|i: int| 0 <= i < ids.len() && ids[i] == x;
                            if i < j {
                                assert(nids[i] == x);
                            } else {
                                assert(nids[i - 1] == x);
                            }
                        }
                        if nids.contains(x) && x != id {
                            let i = choose|i: int| 0 <= i < nids.len() && nids[i] == x;
                            if i < j {
                                assert(ids[i] == x);
                            } else {
                                assert(ids[i + 1] == x);
                            }
                        }
                        if x == id {
                            assert(nids[nids.len() - 1] == x);
                        }
                    }
                    assert(nids.no_duplicates()) by {
                        assert forall|p: int, q: int|
                            0 <= p < nids.len() && 0 <= q < nids.len() && p != q implies nids[p]
                            != nids[q] by {
                            let op = if p < nids.len() - 1 && p >= j { p + 1 } else { p };
                            let oq = if q < nids.len() - 1 && q >= j { q + 1 } else { q };
                            if p == nids.len() - 1 {
                                assert(nids[q] == ids[oq] && oq != j);
                                assert(ids[oq] != ids[j as int]);
                            } else if q == nids.len() - 1 {
                                assert(nids[p] == ids[op] && op != j);
                                assert(ids[op] != ids[j as int]);
                            } else {
                                assert(nids[p] == ids[op] && nids[q] == ids[oq]);
                                assert(ids[op] != ids[oq]);
                            }
                        }
                    }
                    assert forall|i: int| 0 <= i < nids.len() implies #[trigger] nids[i]
                        != self.local && bucket_of(self.local, nids[i]) == b by {
                        if i < nids.len() - 1 {
                            let oi = if i >= j { i + 1 } else { i };
                            assert(nids[i] == ids[oi]);
                        }
                    }
                    self.lemma_other_buckets(old_t, b as int);
                    assert(self.addrs(b as int, ids.len() - 1) == merge_addr(
                        old_t.addrs(b as int, j as int),
                        addr@,
                    ));
                    assert(self.peer_set() =~= old_t.peer_set());
                }
                Outcome::Refreshed
            },
            None => {
                if self.buckets[b].len() < self.k {
                    let mut addrs: Vec<Vec<u8>> = Vec::new();
                    addrs.push(addr);
                    self.buckets[b].push(Entry { id, addrs });
                    proof {
                        assert(self.ids(b as int) =~= ids.push(id));
                        assert(self.addrs(b as int, ids.len() as int) =~= seq![addr@]);
                        let nids = ids.push(id);
                        assert forall|i: int| 0 <= i < nids.len() implies #[trigger] nids[i]
                            != self.local && bucket_of(self.local, nids[i]) == b by {
                            if i < ids.len() {
                                assert(nids[i] == ids[i]);
                            }
                        }
                        assert(nids.no_duplicates()) by {
                            assert forall|p: int, q: int|
                                0 <= p < nids.len() && 0 <= q < nids.len() && p != q implies nids[p]
                                != nids[q] by {
                                assert(ids.no_duplicates());
                                if p == ids.len() {
                                    assert(nids[q] == ids[q]);
                                    assert(ids.contains(nids[q]));
                                } else if q == ids.len() {
                                    assert(nids[p] == ids[p]);
                                    assert(ids.contains(nids[p]));
                                } else {
                                    assert(nids[p] == ids[p] && nids[q] == ids[q]);
                                }
                            }
                        }
                        self.lemma_other_buckets(old_t, b as int);
                        assert forall|x: u64| nids.contains(x) <==> (ids.contains(x) || x == id) by {
                            if ids.contains(x) {
                                let i = choose|i: int| 0 <= i < ids.len() && ids[i] == x;
                                assert(nids[i] == x);
                            }
                            if nids.contains(x) && x != id {
                                let i = choose|i: int| 0 <= i < nids.len() && nids[i] == x;
                                assert(ids[i] == x);
                            }
                            if x == id {
                                assert(nids[ids.len() as int] == x);
                            }
                        }
                        assert(self.peer_set() =~= old_t.peer_set().insert(id));
                    }
                    Outcome::Inserted
                } else {
                    Outcome::Rejected(RejectReason::BucketFull)
                }
            },
        }
    }

    /// Drops `id` from the table, as when a peer failed a liveness check.
    /// Returns whether it was held.
    pub fn remove(&mut self, id: u64) -> (r: bool)
        requires
            old(self).wf(),
        ensures
            final(self).wf(),
            final(self).local == old(self).local,
            final(self).k == old(self).k,
            r == old(self).contains(id),
            final(self).peer_set() == old(self).peer_set().remove(id),
            !r ==> *final(self) == *old(self),
            r ==> ({
                let b = bucket_of(old(self).local, id) as int;
                &&& forall|c: int|
                    0 <= c < ID_BITS && c != b ==> #[trigger] final(self).buckets@[c]
                        == old(self).buckets@[c]
                &&& exists|j: int|
                    0 <= j < old(self).ids(b).len() && old(self).ids(b)[j] == id
                        && final(self).buckets@[b]@ == old(self).buckets@[b]@.remove(j)
            }),
    {
        if id == self.local {
            assert(self.peer_set() =~= self.peer_set().remove(id));
            return false;
        }
        proof {
            lemma_bucket_valid(self.local, id);
        }
        let b = bucket_index(distance(self.local, id));
        let ghost old_t = *self;
        let ghost ids = old_t.ids(b as int);
        match self.find_in_bucket(b, id) {
            Some(j) => {
                let _e = self.buckets[b].remove(j);
                proof {
                    let nids = ids.remove(j as int);
                    assert(ids.no_duplicates());
                    assert(self.ids(b as int) =~= nids);
                    assert forall|i: int| 0 <= i < nids.len() implies #[trigger] nids[i]
                        == ids[if i >= j { i + 1 } else { i }] by {}
                    assert(nids.no_duplicates()) by {
                        assert forall|p: int, q: int|
                            0 <= p < nids.len() && 0 <= q < nids.len() && p != q implies nids[p]
                            != nids[q] by {
                            let op = if p >= j { p + 1 } else { p };
                            let oq = if q >= j { q + 1 } else { q };
                            assert(nids[p] == ids[op] && nids[q] == ids[oq]);
                            assert(ids[op] != ids[oq]);
                        }
                    }
                    assert forall|i: int| 0 <= i < nids.len() implies #[trigger] nids[i]
                        != self.local && bucket_of(self.local, nids[i]) == b by {
                        let oi = if i >= j { i + 1 } else { i };
                        assert(nids[i] == ids[oi]);
                    }
                    self.lemma_other_buckets(old_t, b as int);
                    assert forall|x: u64| nids.contains(x) <==> (ids.contains(x) && x != id) by {
                        if ids.contains(x) && x != id {
                            let i = choose|i: int| 0 <= i < ids.len() && ids[i] == x;
                            if i < j {
                                assert(nids[i] == x);
                            } else {
                                assert(i != j);
                                assert(nids[i - 1] == x);
                            }
                        }
                        if nids.contains(x) {
                            let i = choose|i: int| 0 <= i < nids.len() && nids[i] == x;
                            let oi = if i >= j { i + 1 } else { i };
                            assert(ids[oi] == x);
                            assert(oi != j);
                        }
                    }
                    assert(self.peer_set() =~= old_t.peer_set().remove(id));
                }
                true
            },
            None => {
                assert(self.peer_set() =~= self.peer_set().remove(id));
                false
            },
        }
    }

    /// Every identifier the table holds, each once.
    pub fn peers(&self) -> (r: Vec<u64>)
        requires
            self.wf(),
        ensures
            r@.no_duplicates(),
            forall|x: u64| r@.contains(x) <==> self.contains(x),
    {
        let mut r: Vec<u64> = Vec::new();
        let mut b: usize = 0;
        while b < ID_BITS
            invariant
                self.wf(),
                b <= ID_BITS,
                r@.no_duplicates(),
                forall|x: u64| #[trigger]
                    r@.contains(x) <==> (self.contains(x) && bucket_of(self.local, x) < b),
            decreases ID_BITS - b,
        {
            let bucket = &self.buckets[b];
            let ghost ids = self.ids(b as int);
            let ghost start = r@;
            let mut j: usize = 0;
            while j < bucket.len()
                invariant
                    self.wf(),
                    b < ID_BITS,
                    bucket == &self.buckets@[b as int],
                    ids == self.ids(b as int),
                    j <= ids.len(),
                    r@.no_duplicates(),
                    r@ == start + ids.take(j as int),
                    forall|x: u64| #[trigger]
                        start.contains(x) <==> (self.contains(x) && bucket_of(self.local, x) < b),
                decreases ids.len() - j,
            {
                let x = bucket[j].id;
                proof {
                    assert(ids[j as int] == x);
                    assert(bucket_of(self.local, x) == b);
                    assert(!start.contains(x));
                    assert(ids.no_duplicates());
                    assert(!ids.take(j as int).contains(x)) by {
                        if ids.take(j as int).contains(x) {
                            let i = choose|i: int| 0 <= i < j && ids.take(j as int)[i] == x;
                            assert(ids[i] == x);
                        }
                    }
                    assert(!r@.contains(x));
                }
                r.push(x);
                proof {
                    assert(ids.take(j + 1) =~= ids.take(j as int).push(x));
                }
                j = j + 1;
            }
            proof {
                assert(ids.take(j as int) =~= ids);
                assert forall|x: u64| #[trigger]
                    r@.contains(x) <==> (self.contains(x) && bucket_of(self.local, x) < b + 1) by {
                    if ids.contains(x) {
                        let i = choose|i: int| 0 <= i < ids.len() && ids[i] == x;
                        assert(bucket_of(self.local, ids[i]) == b);
                        assert(r@[start.len() + i] == x);
                    }
                    if start.contains(x) {
                        let i = choose|i: int| 0 <= i < start.len() && start[i] == x;
                        assert(r@[i] == x);
                    }
                    if r@.contains(x) {
                        let i = choose|i: int| 0 <= i < r@.len() && r@[i] == x;
                        if i < start.len() {
                            assert(start[i] == x);
                        } else {
                            assert(ids[i - start.len()] == x);
                        }
                    }
                    if self.contains(x) && bucket_of(self.local, x) == b {
                        assert(ids.contains(x));
                    }
                }
            }
            b = b + 1;
        }
        proof {
            assert forall|x: u64| r@.contains(x) <==> self.contains(x) by {
                if x != self.local {
                    lemma_bucket_valid(self.local, x);
                }
            }
        }
        r
    }

    /// The `n` held peers nearest to `target` by XOR distance, nearest first.
    pub fn closest(&self, target: u64, n: usize) -> (r: Vec<u64>)
        requires
            self.wf(),
        ensures
            is_nearest(self.peer_set(), target, n as nat, r@),
    {
        let all = self.peers();
        assert(all@.to_set() =~= self.peer_set());
        nearest(&all, target, n)
    }

    /// Number of peers held in the bucket that `id` falls into.
    pub fn bucket_len(&self, id: u64) -> (r: usize)
        requires
            self.wf(),
            id != self.local,
        ensures
            r == self.ids(bucket_of(self.local, id) as int).len(),
    {
        proof {
            lemma_bucket_valid(self.local, id);
        }
        self.buckets[bucket_index(distance(self.local, id))].len()
    }

    /// The least recently seen peer of the bucket that `id` falls into: the
    /// one to check for liveness before `id` may take its place.
    pub fn oldest_in_bucket(&self, id: u64) -> (r: Option<u64>)
        requires
            self.wf(),
        ensures
            id == self.local ==> r is None,
            id != self.local ==> r == if self.ids(bucket_of(self.local, id) as int).len() > 0 {
                Some(self.ids(bucket_of(self.local, id) as int)[0])
            } else {
                None::<u64>
            },
    {
        if id == self.local {
            return None;
        }
        proof {
            lemma_bucket_valid(self.local, id);
        }
        let bucket = &self.buckets[bucket_index(distance(self.local, id))];
        if bucket.len() > 0 {
            Some(bucket[0].id)
        } else {
            None
        }
    }

    /// Whether the table holds `id`.
    pub fn has_peer(&self, id: u64) -> (r: bool)
        requires
            self.wf(),
        ensures
            r == self.contains(id),
    {
        if id == self.local {
            return false;
        }
        proof {
            lemma_bucket_valid(self.local, id);
        }
        self.find_in_bucket(bucket_index(distance(self.local, id)), id).is_some()
    }
}

/// However a table came about through `new`, `observe` and `remove`, no bucket
/// holds more than `k` peers and no identifier is held twice, in one bucket or
/// across two.
pub proof fn lemma_bounded_and_unique(t: RoutingTable)
    requires
        t.wf(),
    ensures
        forall|b: int| 0 <= b < ID_BITS ==> #[trigger] t.buckets@[b]@.len() <= t.k,
        forall|b1: int, j1: int, b2: int, j2: int|
            0 <= b1 < ID_BITS && 0 <= b2 < ID_BITS && 0 <= j1 < t.buckets@[b1]@.len() && 0 <= j2
                < t.buckets@[b2]@.len() && (b1 != b2 || j1 != j2) ==> #[trigger] t.buckets@[b1]@[j1].id
                != #[trigger] t.buckets@[b2]@[j2].id,
{
    assert forall|b: int| 0 <= b < ID_BITS implies #[trigger] t.buckets@[b]@.len() <= t.k by {
        assert(t.ids(b).len() <= t.k);
    }
    assert forall|b1: int, j1: int, b2: int, j2: int|
        0 <= b1 < ID_BITS && 0 <= b2 < ID_BITS && 0 <= j1 < t.buckets@[b1]@.len() && 0 <= j2
            < t.buckets@[b2]@.len() && (b1 != b2 || j1 != j2) implies #[trigger] t.buckets@[b1]@[j1].id
        != #[trigger] t.buckets@[b2]@[j2].id by {
        assert(t.ids(b1)[j1] == t.buckets@[b1]@[j1].id);
        assert(t.ids(b2)[j2] == t.buckets@[b2]@[j2].id);
        assert(bucket_of(t.local, t.ids(b1)[j1]) == b1);
        assert(bucket_of(t.local, t.ids(b2)[j2]) == b2);
        assert(t.ids(b1).no_duplicates());
    }
}

/// Observing one identifier twice in a row: the second observation leaves
/// the set of held peers as the first left it, so repetition never adds to
/// the table's occupancy.
pub proof fn lemma_observe_twice(
    t0: RoutingTable,
    t1: RoutingTable,
    t2: RoutingTable,
    id: u64,
    a1: Seq<u8>,
    a2: Seq<u8>,
    o1: Outcome,
    o2: Outcome,
)
    requires
        t0.wf(),
        observed(t0, t1, id, a1, o1),
        observed(t1, t2, id, a2, o2),
    ensures
        o2 != Outcome::Inserted,
        t2.peer_set() == t1.peer_set(),
        t1.peer_set().subset_of(t0.peer_set().insert(id)),
{
    if o1 == Outcome::Inserted || o1 == Outcome::Refreshed {
        assert(t1.contains(id));
    }
    assert(t1.peer_set().subset_of(t0.peer_set().insert(id)));
}

} // verus!
