//! Identifiers, XOR distance and the bucket an identifier belongs to.
use vstd::prelude::*;
use vstd::arithmetic::power2::{pow2, lemma2_to64, lemma_pow2_unfold};

verus! {

/// Number of bits in an identifier, and so the number of buckets.
pub const ID_BITS: usize = 64;

/// Distance between two identifiers: their bitwise XOR.
pub open spec fn xor_distance(a: u64, b: u64) -> u64 {
    a ^ b
}

/// Position of the highest set bit of `d` (0 for `d <= 1`).
pub open spec fn log2(d: nat) -> nat
    decreases d,
{
    if d <= 1 {
        0
    } else {
        1 + log2(d / 2)
    }
}

/// Index of the bucket that `id` falls into, seen from `local`.
pub open spec fn bucket_of(local: u64, id: u64) -> nat {
    log2(xor_distance(local, id) as nat)
}

proof fn lemma_log2_below(d: nat, e: nat)
    requires
        1 <= d < pow2(e),
    ensures
        log2(d) < e,
    decreases e,
{
    if e == 0 {
        lemma2_to64();
    } else if d > 1 {
        lemma_pow2_unfold(e);
        lemma_log2_below(d / 2, (e - 1) as nat);
    } else {
        lemma2_to64();
    }
}

/// Every nonzero 64-bit distance has its highest set bit below 64.
pub proof fn lemma_bucket_in_range(d: u64)
    requires
        d != 0,
    ensures
        log2(d as nat) < ID_BITS,
{
    lemma2_to64();
    lemma_log2_below(d as nat, 64);
}

/// XOR distance between two identifiers.
pub fn distance(a: u64, b: u64) -> (r: u64)
    ensures
        r == xor_distance(a, b),
{
    a ^ b
}

/// Index of the highest set bit of a nonzero distance.
pub fn bucket_index(d: u64) -> (r: usize)
    requires
        d != 0,
    ensures
        r == log2(d as nat),
        r < ID_BITS,
{
    proof {
        lemma_bucket_in_range(d);
    }
    let mut x: u64 = d;
    let mut i: usize = 0;
    while x > 1
        invariant
            x >= 1,
            i + log2(x as nat) == log2(d as nat),
            log2(d as nat) < ID_BITS,
        decreases x,
    {
        x = x / 2;
        i = i + 1;
    }
    i
}

/// Distinct identifiers are at distinct distances from any target, and the
/// distance from an identifier to itself is zero.
pub proof fn lemma_xor_injective(t: u64, a: u64, b: u64)
    ensures
        xor_distance(t, a) == xor_distance(t, b) <==> a == b,
        xor_distance(a, a) == 0,
        xor_distance(a, b) == xor_distance(b, a),
        xor_distance(a, b) == 0 <==> a == b,
{
    assert(((t ^ a) == (t ^ b)) <==> (a == b)) by (bit_vector);
    assert((a ^ a) == 0) by (bit_vector);
    assert((a ^ b) == (b ^ a)) by (bit_vector);
    assert(((a ^ b) == 0) <==> (a == b)) by (bit_vector);
}

/// `r` lists the `n` members of `pool` nearest to `target` (all of them when
/// there are fewer), nearest first. Distinct identifiers lie at distinct
/// distances, so this fixes `r` exactly.
pub open spec fn is_nearest(pool: Set<u64>, target: u64, n: nat, r: Seq<u64>) -> bool {
    &&& r.len() <= n
    &&& forall|i: int, j: int|
        0 <= i < j < r.len() ==> xor_distance(target, #[trigger] r[i]) < xor_distance(
            target,
            #[trigger] r[j],
        )
    &&& forall|i: int| 0 <= i < r.len() ==> pool.contains(#[trigger] r[i])
    &&& forall|x: u64|
        #[trigger] pool.contains(x) && !r.contains(x) ==> r.len() == n && forall|i: int|
            0 <= i < r.len() ==> xor_distance(target, #[trigger] r[i]) < xor_distance(target, x)
}

/// Only one sequence lists the `n` members of a pool nearest to a target:
/// what `closest` and a query's result return is fully determined.
pub proof fn lemma_nearest_unique(pool: Set<u64>, target: u64, n: nat, r1: Seq<u64>, r2: Seq<u64>)
    requires
        is_nearest(pool, target, n, r1),
        is_nearest(pool, target, n, r2),
    ensures
        r1 == r2,
{
    lemma_nearest_prefix(pool, target, n, r1, r2);
    lemma_nearest_prefix(pool, target, n, r2, r1);
    lemma_nearest_no_longer(pool, target, n, r1, r2);
    lemma_nearest_no_longer(pool, target, n, r2, r1);
    assert(r1 =~= r2);
}

proof fn lemma_nearest_prefix(pool: Set<u64>, target: u64, n: nat, r1: Seq<u64>, r2: Seq<u64>)
    requires
        is_nearest(pool, target, n, r1),
        is_nearest(pool, target, n, r2),
    ensures
        forall|i: int| 0 <= i < r1.len() && i < r2.len() ==> r1[i] == r2[i],
{
    assert forall|i: int| 0 <= i < r1.len() && i < r2.len() implies r1[i] == r2[i] by {
        lemma_nearest_at(pool, target, n, r1, r2, i);
    }
}

proof fn lemma_nearest_at(pool: Set<u64>, target: u64, n: nat, r1: Seq<u64>, r2: Seq<u64>, i: int)
    requires
        is_nearest(pool, target, n, r1),
        is_nearest(pool, target, n, r2),
        0 <= i < r1.len(),
        i < r2.len(),
    ensures
        r1[i] == r2[i],
    decreases i,
{
    assert forall|j: int| 0 <= j < i implies r1[j] == r2[j] by {
        lemma_nearest_at(pool, target, n, r1, r2, j);
    }
    if r1[i] != r2[i] {
        lemma_xor_injective(target, r1[i], r2[i]);
        let (a, b) = if xor_distance(target, r1[i]) < xor_distance(target, r2[i]) {
            (r1, r2)
        } else {
            (r2, r1)
        };
        // `a[i]` is nearer than `b[i]`, yet `b` leaves it out.
        assert(pool.contains(a[i]));
        if b.contains(a[i]) {
            let j = choose|j: int| 0 <= j < b.len() && b[j] == a[i];
            if j < i {
                assert(a[j] == b[j]);
                assert(xor_distance(target, a[j]) < xor_distance(target, a[i]));
            } else if j > i {
                assert(xor_distance(target, b[i]) < xor_distance(target, b[j]));
            }
        }
        assert(xor_distance(target, b[i]) < xor_distance(target, a[i]));
    }
}

proof fn lemma_nearest_no_longer(pool: Set<u64>, target: u64, n: nat, r1: Seq<u64>, r2: Seq<u64>)
    requires
        is_nearest(pool, target, n, r1),
        is_nearest(pool, target, n, r2),
        forall|i: int| 0 <= i < r1.len() && i < r2.len() ==> r1[i] == r2[i],
    ensures
        r2.len() <= r1.len(),
{
    if r1.len() < r2.len() {
        let m = r1.len() as int;
        let x = r2[m];
        assert(pool.contains(x));
        if r1.contains(x) {
            let j = choose|j: int| 0 <= j < r1.len() && r1[j] == x;
            assert(r2[j] == x);
            assert(xor_distance(target, r2[j]) < xor_distance(target, r2[m]));
        }
    }
}

/// The `n` members of `pool` nearest to `target`, nearest first.
pub fn nearest(pool: &Vec<u64>, target: u64, n: usize) -> (r: Vec<u64>)
    ensures
        is_nearest(pool@.to_set(), target, n as nat, r@),
{
    let mut r: Vec<u64> = Vec::new();
    let ghost mut lastd: int = -1;
    let mut done = false;
    while r.len() < n && !done
        invariant
            r@.len() <= n,
            done ==> forall|i: int|
                0 <= i < pool@.len() ==> xor_distance(target, #[trigger] pool@[i]) <= lastd,
            forall|i: int, j: int|
                0 <= i < j < r@.len() ==> xor_distance(target, #[trigger] r@[i]) < xor_distance(
                    target,
                    #[trigger] r@[j],
                ),
            forall|i: int| 0 <= i < r@.len() ==> pool@.contains(#[trigger] r@[i]),
            r@.len() == 0 ==> lastd == -1,
            r@.len() > 0 ==> lastd == xor_distance(target, r@.last()),
            forall|i: int| 0 <= i < r@.len() ==> xor_distance(target, #[trigger] r@[i]) <= lastd,
            forall|x: u64|
                #[trigger] pool@.contains(x) ==> (r@.contains(x) <==> xor_distance(target, x)
                    <= lastd),
        decreases n - r@.len(), if done { 0int } else { 1int },
    {
        let mut best: u64 = 0;
        let mut found = false;
        let mut j: usize = 0;
        while j < pool.len()
            invariant
                j <= pool@.len(),
                r@.len() == 0 ==> lastd == -1,
                r@.len() > 0 ==> lastd == xor_distance(target, r@.last()),
                found ==> pool@.contains(best) && xor_distance(target, best) > lastd,
                found ==> forall|i: int|
                    0 <= i < j && xor_distance(target, #[trigger] pool@[i]) > lastd
                        ==> xor_distance(target, best) <= xor_distance(target, pool@[i]),
                !found ==> forall|i: int|
                    0 <= i < j ==> xor_distance(target, #[trigger] pool@[i]) <= lastd,
            decreases pool@.len() - j,
        {
            let x = pool[j];
            let d = distance(target, x);
            let above = r.len() == 0 || d > distance(target, r[r.len() - 1]);
            if above && (!found || d < distance(target, best)) {
                best = x;
                found = true;
            }
            j = j + 1;
        }
        if !found {
            done = true;
        } else {
            proof {
            assert forall|x: u64| #[trigger]
                pool@.contains(x) implies (r@.push(best).contains(x) <==> xor_distance(target, x)
                <= xor_distance(target, best)) by {
                lemma_xor_injective(target, x, best);
                let i = choose|i: int| 0 <= i < pool@.len() && pool@[i] == x;
                assert(xor_distance(target, pool@[i]) == xor_distance(target, x));
                if r@.push(best).contains(x) && x != best {
                    let k = choose|k: int| 0 <= k < r@.push(best).len() && r@.push(best)[k] == x;
                    assert(r@[k] == x);
                    assert(r@.contains(x));
                }
                if r@.contains(x) {
                    let k = choose|k: int| 0 <= k < r@.len() && r@[k] == x;
                    assert(r@.push(best)[k] == x);
                }
                if x == best {
                    assert(r@.push(best)[r@.len() as int] == x);
                }
            }
        }
            r.push(best);
            proof {
                lastd = xor_distance(target, best) as int;
            }
        }
    }
    proof {
        assert forall|x: u64| #[trigger]
            pool@.to_set().contains(x) && !r@.contains(x) implies r@.len() == n && forall|i: int|
            0 <= i < r@.len() ==> xor_distance(target, #[trigger] r@[i]) < xor_distance(target, x) by {
            assert(pool@.contains(x));
            if r@.len() < n {
                let i = choose|i: int| 0 <= i < pool@.len() && pool@[i] == x;
                assert(xor_distance(target, pool@[i]) <= lastd);
            }
        }
        assert forall|i: int| 0 <= i < r@.len() implies pool@.to_set().contains(#[trigger] r@[i]) by {
            assert(pool@.contains(r@[i]));
        }
    }
    r
}

} // verus!
