//! Density-based clustering (DBSCAN) over a matrix of pairwise distances.
use crate::geo::{chord_sq, distance_m, geo_dist, time_dist, time_distance, Coord};
use vstd::prelude::*;

verus! {

/// Distance from item `i` to item `j`.
pub open spec fn dist(d: Seq<Vec<u64>>, i: int, j: int) -> u64 {
    d[i]@[j]
}

/// Every row has one entry per item.
pub open spec fn is_square(d: Seq<Vec<u64>>) -> bool {
    forall|i: int| 0 <= i < d.len() ==> (#[trigger] d[i])@.len() == d.len()
}

pub open spec fn is_symmetric(d: Seq<Vec<u64>>) -> bool {
    forall|i: int, j: int| 0 <= i < d.len() && 0 <= j < d.len() ==> #[trigger] dist(d, i, j) == dist(d, j, i)
}

/// Number of entries among the first `k` of `row` that are within `eps`.
pub open spec fn count_within(row: Seq<u64>, eps: u64, k: int) -> nat
    decreases k,
{
    if k <= 0 {
        0
    } else {
        count_within(row, eps, k - 1) + if row[k - 1] <= eps {
            1nat
        } else {
            0nat
        }
    }
}

/// Item `i` has at least `min_neighbors` items within `eps`, itself included.
pub open spec fn is_core(d: Seq<Vec<u64>>, eps: u64, min_neighbors: usize, i: int) -> bool {
    count_within(d[i]@, eps, d.len() as int) >= min_neighbors
}

/// A path of items, each within `eps` of the one before it, where every item
/// but the last is a core item.
#[verifier::opaque]
pub open spec fn is_chain(d: Seq<Vec<u64>>, eps: u64, min_neighbors: usize, p: Seq<int>) -> bool {
    &&& p.len() >= 1
    &&& forall|t: int| 0 <= t < p.len() ==> 0 <= #[trigger] p[t] < d.len()
    &&& forall|t: int|
        0 <= t < p.len() - 1 ==> is_core(d, eps, min_neighbors, #[trigger] p[t]) && dist(
            d,
            p[t],
            p[t + 1],
        ) <= eps
}

/// `m` is reached from `s` by a chain.
pub open spec fn reaches(d: Seq<Vec<u64>>, eps: u64, min_neighbors: usize, s: int, m: int) -> bool {
    exists|p: Seq<int>| #[trigger]
        is_chain(d, eps, min_neighbors, p) && p[0] == s && p.last() == m
}

/// `s` is a core item of cluster `c` from which every member of `c` is reached.
pub open spec fn is_root(
    d: Seq<Vec<u64>>,
    eps: u64,
    min_neighbors: usize,
    labels: Seq<Option<usize>>,
    c: int,
    s: int,
) -> bool {
    &&& 0 <= s < d.len()
    &&& is_core(d, eps, min_neighbors, s)
    &&& labels[s] == Some(c as usize)
    &&& forall|m: int|
        0 <= m < labels.len() && labels[m] == Some(c as usize) ==> #[trigger] reaches(
            d,
            eps,
            min_neighbors,
            s,
            m,
        )
}

pub open spec fn has_root(
    d: Seq<Vec<u64>>,
    eps: u64,
    min_neighbors: usize,
    labels: Seq<Option<usize>>,
    c: int,
) -> bool {
    exists|s: int| #[trigger] is_root(d, eps, min_neighbors, labels, c, s)
}

/// `labels` is a DBSCAN partition of the items into `count` clusters and noise:
/// each item is in exactly one cluster or is noise (`None`); each cluster is
/// reached from one of its core items; core items are never noise; every item
/// within `eps` of a core item is in a cluster; and two core items within
/// `eps` of each other share their cluster.
pub open spec fn is_partition(
    d: Seq<Vec<u64>>,
    eps: u64,
    min_neighbors: usize,
    labels: Seq<Option<usize>>,
    count: nat,
) -> bool {
    &&& labels.len() == d.len()
    &&& forall|i: int| 0 <= i < labels.len() && #[trigger] labels[i] is Some ==> labels[i].unwrap() < count
    &&& forall|c: int| 0 <= c < count ==> #[trigger] has_root(d, eps, min_neighbors, labels, c)
    &&& forall|i: int| 0 <= i < labels.len() && #[trigger] is_core(d, eps, min_neighbors, i) ==> labels[i] is Some
    &&& forall|p: int, q: int|
        0 <= p < labels.len() && 0 <= q < labels.len() && is_core(d, eps, min_neighbors, p) && #[trigger] dist(d, p, q) <= eps
            ==> labels[q] is Some && (is_core(d, eps, min_neighbors, q) ==> labels[q] == labels[p])
}

/// In a partition, any two items of the same cluster are joined through a
/// core item of that cluster: each is reached from it by a chain of items,
/// each within `eps` of the one before, all but the last of them core items.
pub proof fn lemma_same_cluster_connected(
    d: Seq<Vec<u64>>,
    eps: u64,
    min_neighbors: usize,
    labels: Seq<Option<usize>>,
    count: nat,
    a: int,
    b: int,
)
    requires
        is_partition(d, eps, min_neighbors, labels, count),
        0 <= a < labels.len(),
        0 <= b < labels.len(),
        labels[a] is Some,
        labels[a] == labels[b],
    ensures
        exists|s: int|
            0 <= s < d.len() && is_core(d, eps, min_neighbors, s) && labels[s] == labels[a] && #[trigger] reaches(
                d,
                eps,
                min_neighbors,
                s,
                a,
            ) && reaches(d, eps, min_neighbors, s, b),
{
    let c = labels[a].unwrap() as int;
    assert(labels[a] is Some);
    assert(has_root(d, eps, min_neighbors, labels, c));
    let s = choose|s: int| #[trigger] is_root(d, eps, min_neighbors, labels, c, s);
    assert(reaches(d, eps, min_neighbors, s, a));
    assert(reaches(d, eps, min_neighbors, s, b));
}

/// A wider radius never loses a neighbor: the count within `e1` is at most
/// the count within `e2` when `e1 <= e2`.
pub proof fn lemma_count_within_monotone(row: Seq<u64>, e1: u64, e2: u64, k: int)
    requires
        e1 <= e2,
    ensures
        count_within(row, e1, k) <= count_within(row, e2, k),
    decreases k,
{
    if k > 0 {
        lemma_count_within_monotone(row, e1, e2, k - 1);
    }
}

/// An item that is a core item at radius `e1` is one at any larger radius.
pub proof fn lemma_core_monotone(d: Seq<Vec<u64>>, e1: u64, e2: u64, min_neighbors: usize, i: int)
    requires
        e1 <= e2,
        is_core(d, e1, min_neighbors, i),
    ensures
        is_core(d, e2, min_neighbors, i),
{
    lemma_count_within_monotone(d[i]@, e1, e2, d.len() as int);
}

/// Indices `j` with `row[j] <= eps`, in increasing order.
pub fn within(row: &Vec<u64>, eps: u64) -> (r: Vec<usize>)
    ensures
        r@.len() == count_within(row@, eps, row@.len() as int),
        forall|t: int| 0 <= t < r@.len() ==> (#[trigger] r@[t]) < row@.len() && row@[r@[t] as int] <= eps,
        forall|j: int| 0 <= j < row@.len() && row@[j] <= eps ==> exists|t: int| 0 <= t < r@.len() && #[trigger] r@[t] == j,
{
    let mut r: Vec<usize> = Vec::new();
    let mut j: usize = 0;
    while j < row.len()
        invariant
            j <= row@.len(),
            r@.len() == count_within(row@, eps, j as int),
            forall|t: int| 0 <= t < r@.len() ==> (#[trigger] r@[t]) < j && row@[r@[t] as int] <= eps,
            forall|q: int| 0 <= q < j && row@[q] <= eps ==> exists|t: int| 0 <= t < r@.len() && #[trigger] r@[t] == q,
        decreases row@.len() - j,
    {
        let ghost before = r@;
        if row[j] <= eps {
            r.push(j);
            assert(r@[r@.len() - 1] == j);
        }
        assert forall|q: int| 0 <= q < j + 1 && row@[q] <= eps implies exists|t: int|
            0 <= t < r@.len() && #[trigger] r@[t] == q by {
            if q < j {
                let t0 = choose|t: int| 0 <= t < before.len() && #[trigger] before[t] == q;
                assert(r@[t0] == q);
            } else {
                assert(r@[r@.len() - 1] == q);
            }
        }
        j = j + 1;
    }
    r
}

/// Number of items not yet in a cluster.
pub open spec fn unlabeled(l: Seq<Option<usize>>) -> nat
    decreases l.len(),
{
    if l.len() == 0 {
        0
    } else {
        unlabeled(l.drop_last()) + if l.last() is None {
            1nat
        } else {
            0nat
        }
    }
}

proof fn lemma_unlabeled_set(l: Seq<Option<usize>>, i: int, c: usize)
    requires
        0 <= i < l.len(),
        l[i] is None,
    ensures
        unlabeled(l.update(i, Some(c))) + 1 == unlabeled(l),
    decreases l.len(),
{
    if i == l.len() - 1 {
        assert(l.update(i, Some(c)).drop_last() == l.drop_last());
    } else {
        lemma_unlabeled_set(l.drop_last(), i, c);
        assert(l.update(i, Some(c)).drop_last() == l.drop_last().update(i, Some(c)));
    }
}

proof fn lemma_chain_push(d: Seq<Vec<u64>>, eps: u64, min_neighbors: usize, p: Seq<int>, q: int)
    requires
        is_chain(d, eps, min_neighbors, p),
        is_core(d, eps, min_neighbors, p.last()),
        0 <= q < d.len(),
        dist(d, p.last(), q) <= eps,
    ensures
        is_chain(d, eps, min_neighbors, p.push(q)),
        p.push(q)[0] == p[0],
        p.push(q).last() == q,
{
    reveal(is_chain);
    let r = p.push(q);
    assert forall|t: int| 0 <= t < r.len() implies 0 <= #[trigger] r[t] < d.len() by {
        if t < p.len() {
            assert(r[t] == p[t]);
        }
    }
    assert forall|t: int| 0 <= t < r.len() - 1 implies is_core(d, eps, min_neighbors, #[trigger] r[t])
        && dist(d, r[t], r[t + 1]) <= eps by {
        assert(r[t] == p[t]);
        if t < p.len() - 1 {
            assert(r[t + 1] == p[t + 1]);
        }
    }
}

/// Each labelled item has a chain from the seed of its cluster.
pub open spec fn chains_ok(
    d: Seq<Vec<u64>>,
    eps: u64,
    min_neighbors: usize,
    l: Seq<Option<usize>>,
    paths: Seq<Seq<int>>,
    seeds: Seq<int>,
) -> bool {
    &&& paths.len() == l.len()
    &&& forall|c: int|
        0 <= c < seeds.len() ==> 0 <= #[trigger] seeds[c] < d.len() && is_core(
            d,
            eps,
            min_neighbors,
            seeds[c],
        ) && l[seeds[c]] == Some(c as usize)
    &&& forall|m: int|
        0 <= m < l.len() && (#[trigger] l[m]) is Some ==> (l[m].unwrap() as int) < seeds.len()
            && is_chain(d, eps, min_neighbors, paths[m]) && paths[m][0] == seeds[l[m].unwrap() as int]
            && paths[m].last() == m
}

/// Clusters numbered below `k` are complete.
pub open spec fn complete_below(
    d: Seq<Vec<u64>>,
    eps: u64,
    min_neighbors: usize,
    l: Seq<Option<usize>>,
    k: int,
) -> bool {
    forall|p: int, q: int|
        0 <= p < l.len() && 0 <= q < l.len() && is_core(d, eps, min_neighbors, p) && l[p] is Some
            && l[p].unwrap() < k && #[trigger] dist(d, p, q) <= eps ==> l[q] is Some && (is_core(
            d,
            eps,
            min_neighbors,
            q,
        ) ==> l[q] == l[p])
}

/// The queue of cluster `k` holds exactly its members; those before `qi`
/// have been expanded.
pub open spec fn queue_ok(
    d: Seq<Vec<u64>>,
    eps: u64,
    min_neighbors: usize,
    l: Seq<Option<usize>>,
    k: int,
    queue: Seq<usize>,
    qi: int,
) -> bool {
    &&& 0 <= qi <= queue.len()
    &&& forall|t: int|
        0 <= t < queue.len() ==> (#[trigger] queue[t] as int) < l.len() && l[queue[t] as int] == Some(
            k as usize,
        )
    &&& forall|v: int|
        0 <= v < l.len() && (#[trigger] l[v]) == Some(k as usize) ==> exists|t: int|
            0 <= t < queue.len() && #[trigger] queue[t] == v
    &&& forall|t: int, q: int|
        0 <= t < qi && 0 <= q < l.len() && is_core(d, eps, min_neighbors, queue[t] as int)
            && #[trigger] dist(d, #[trigger] queue[t] as int, q) <= eps ==> l[q] is Some
}

pub open spec fn labels_below(l: Seq<Option<usize>>, k: int) -> bool {
    forall|v: int| 0 <= v < l.len() && (#[trigger] l[v]) is Some ==> l[v].unwrap() < k
}

proof fn lemma_grow(
    d: Seq<Vec<u64>>,
    eps: u64,
    min_neighbors: usize,
    l: Seq<Option<usize>>,
    k: usize,
    q: int,
    i: int,
)
    requires
        0 <= q < l.len(),
        l[q] is None,
        i <= l.len(),
        complete_below(d, eps, min_neighbors, l, k as int),
        labels_below(l, k + 1),
        forall|v: int| 0 <= v < i && is_core(d, eps, min_neighbors, v) ==> (#[trigger] l[v]) is Some,
    ensures
        complete_below(d, eps, min_neighbors, l.update(q, Some(k)), k as int),
        labels_below(l.update(q, Some(k)), k + 1),
        forall|v: int|
            0 <= v < i && is_core(d, eps, min_neighbors, v) ==> (#[trigger] l.update(q, Some(k))[v]) is Some,
{
    let l2 = l.update(q, Some(k));
    assert forall|p: int, r: int|
        0 <= p < l2.len() && 0 <= r < l2.len() && is_core(d, eps, min_neighbors, p) && l2[p] is Some
            && l2[p].unwrap() < k && #[trigger] dist(d, p, r) <= eps implies l2[r] is Some && (is_core(
            d,
            eps,
            min_neighbors,
            r,
        ) ==> l2[r] == l2[p]) by {
        assert(p != q);
        assert(l[r] is Some);
        assert(r != q);
    }
    assert forall|v: int| 0 <= v < i && is_core(d, eps, min_neighbors, v) implies (#[trigger] l2[v]) is Some by {
        if v != q {
            assert(l[v] is Some);
            assert(l2[v] == l[v]);
        }
    }
}

/// The state of the expansion of cluster `k`, started from item `i`, with
/// the queue expanded up to `done`.
pub open spec fn bfs_inv(
    d: Seq<Vec<u64>>,
    eps: u64,
    min_neighbors: usize,
    l: Seq<Option<usize>>,
    paths: Seq<Seq<int>>,
    seeds: Seq<int>,
    k: usize,
    i: int,
    queue: Seq<usize>,
    done: int,
) -> bool {
    &&& is_square(d)
    &&& is_symmetric(d)
    &&& l.len() == d.len()
    &&& 0 <= i < d.len()
    &&& k + 1 == seeds.len()
    &&& labels_below(l, k + 1)
    &&& chains_ok(d, eps, min_neighbors, l, paths, seeds)
    &&& complete_below(d, eps, min_neighbors, l, k as int)
    &&& queue_ok(d, eps, min_neighbors, l, k as int, queue, done)
    &&& forall|w: int| 0 <= w < i && is_core(d, eps, min_neighbors, w) ==> (#[trigger] l[w]) is Some
    &&& l[i] is Some
}

/// Puts unlabelled item `q`, within `eps` of core member `v`, into cluster `k`.
fn absorb(
    d: &Vec<Vec<u64>>,
    eps: u64,
    min_neighbors: usize,
    labels: &mut Vec<Option<usize>>,
    queue: &mut Vec<usize>,
    k: usize,
    i: usize,
    done: usize,
    v: usize,
    q: usize,
    Ghost(paths): Ghost<Seq<Seq<int>>>,
    Ghost(seeds): Ghost<Seq<int>>,
) -> (new_paths: Ghost<Seq<Seq<int>>>)
    requires
        bfs_inv(d@, eps, min_neighbors, old(labels)@, paths, seeds, k, i as int, old(queue)@, done as int),
        done < old(queue)@.len(),
        old(queue)@[done as int] == v,
        is_core(d@, eps, min_neighbors, v as int),
        q < d@.len(),
        dist(d@, v as int, q as int) <= eps,
        old(labels)@[q as int] is None,
    ensures
        bfs_inv(d@, eps, min_neighbors, final(labels)@, new_paths@, seeds, k, i as int, final(queue)@, done as int),
        final(labels)@ == old(labels)@.update(q as int, Some(k)),
        final(queue)@ == old(queue)@.push(q),
        unlabeled(final(labels)@) + 1 == unlabeled(old(labels)@),
{
    proof {
        lemma_unlabeled_set(labels@, q as int, k);
        lemma_grow(d@, eps, min_neighbors, labels@, k, q as int, i as int);
        assert(old(labels)@[v as int] == Some(k));
        lemma_absorb_chains(d@, eps, min_neighbors, labels@, paths, seeds, k, v as int, q as int);
        lemma_absorb_queue(d@, eps, min_neighbors, labels@, queue@, k, done as int, q as int);
    }
    let ghost grown = paths.update(q as int, paths[v as int].push(q as int));
    labels.set(q, Some(k));
    queue.push(q);
    proof {
        assert(labels@[i as int] == old(labels)@[i as int]);
    }
    Ghost(grown)
}

proof fn lemma_absorb_chains(
    d: Seq<Vec<u64>>,
    eps: u64,
    min_neighbors: usize,
    l0: Seq<Option<usize>>,
    paths: Seq<Seq<int>>,
    seeds: Seq<int>,
    k: usize,
    v: int,
    q: int,
)
    requires
        chains_ok(d, eps, min_neighbors, l0, paths, seeds),
        l0.len() == d.len(),
        0 <= v < d.len(),
        0 <= q < d.len(),
        l0[v] == Some(k),
        l0[q] is None,
        is_core(d, eps, min_neighbors, v),
        dist(d, v, q) <= eps,
    ensures
        chains_ok(
            d,
            eps,
            min_neighbors,
            l0.update(q, Some(k)),
            paths.update(q, paths[v].push(q)),
            seeds,
        ),
{
    let l1 = l0.update(q, Some(k));
    let grown = paths.update(q, paths[v].push(q));
    lemma_chain_push(d, eps, min_neighbors, paths[v], q);
    assert forall|m: int| 0 <= m < l1.len() && (#[trigger] l1[m]) is Some implies (l1[m].unwrap() as int) < seeds.len()
        && is_chain(d, eps, min_neighbors, grown[m]) && grown[m][0] == seeds[l1[m].unwrap() as int]
        && grown[m].last() == m by {
        if m != q {
            assert(l0[m] is Some);
        }
    }
    assert forall|c: int| 0 <= c < seeds.len() implies 0 <= #[trigger] seeds[c] < d.len() && is_core(
        d, eps, min_neighbors, seeds[c]) && l1[seeds[c]] == Some(c as usize) by {
        assert(l0[seeds[c]] == Some(c as usize));
    }
}

proof fn lemma_absorb_queue(
    d: Seq<Vec<u64>>,
    eps: u64,
    min_neighbors: usize,
    l0: Seq<Option<usize>>,
    q0: Seq<usize>,
    k: usize,
    done: int,
    q: int,
)
    requires
        queue_ok(d, eps, min_neighbors, l0, k as int, q0, done),
        0 <= q < l0.len(),
        q <= usize::MAX,
        l0[q] is None,
    ensures
        queue_ok(d, eps, min_neighbors, l0.update(q, Some(k)), k as int, q0.push(q as usize), done),
{
    let l1 = l0.update(q, Some(k));
    let q1 = q0.push(q as usize);
    assert(q1[q1.len() - 1] == q);
    assert forall|w: int| 0 <= w < l1.len() && (#[trigger] l1[w]) == Some(k) implies exists|t: int|
        0 <= t < q1.len() && #[trigger] q1[t] == w by {
        if w == q {
            assert(q1[q1.len() - 1] == w);
        } else {
            assert(l0[w] == Some(k));
            let t0 = choose|t: int| 0 <= t < q0.len() && #[trigger] q0[t] == w;
            assert(q1[t0] == w);
        }
    }
    assert forall|t: int| 0 <= t < q1.len() implies (#[trigger] q1[t] as int) < l1.len()
        && l1[q1[t] as int] == Some(k) by {
        if t < q0.len() {
            assert(q1[t] == q0[t]);
        }
    }
    assert forall|t: int, r: int| 0 <= t < done && 0 <= r < l1.len() && is_core(d, eps, min_neighbors, q1[t] as int)
        && #[trigger] dist(d, #[trigger] q1[t] as int, r) <= eps implies l1[r] is Some by {
        assert(q1[t] == q0[t]);
        assert(dist(d, q0[t] as int, r) <= eps);
        if r != q {
            assert(l0[r] is Some);
        }
    }
}

/// Expands queue entry `done`: every item within `eps` of it, if it is a
/// core item, joins a cluster.
fn expand(
    d: &Vec<Vec<u64>>,
    eps: u64,
    min_neighbors: usize,
    labels: &mut Vec<Option<usize>>,
    queue: &mut Vec<usize>,
    k: usize,
    i: usize,
    done: usize,
    Ghost(paths): Ghost<Seq<Seq<int>>>,
    Ghost(seeds): Ghost<Seq<int>>,
) -> (new_paths: Ghost<Seq<Seq<int>>>)
    requires
        bfs_inv(d@, eps, min_neighbors, old(labels)@, paths, seeds, k, i as int, old(queue)@, done as int),
        done < old(queue)@.len(),
    ensures
        bfs_inv(d@, eps, min_neighbors, final(labels)@, new_paths@, seeds, k, i as int, final(queue)@, done + 1),
        2 * unlabeled(final(labels)@) + final(queue)@.len() <= 2 * unlabeled(old(labels)@) + old(queue)@.len(),
{
    let n = d.len();
    let v = queue[done];
    let nbv = within(&d[v], eps);
    assert(d@[v as int]@.len() == n);
    let ghost mut ps = paths;
    let ghost m0: int = 2 * unlabeled(labels@) + queue@.len() as int;
    if nbv.len() >= min_neighbors {
        let mut j: usize = 0;
        while j < nbv.len()
            invariant
                n == d@.len(),
                0 <= v < n,
                j <= nbv@.len(),
                is_core(d@, eps, min_neighbors, v as int),
                done < queue@.len(),
                queue@[done as int] == v,
                bfs_inv(d@, eps, min_neighbors, labels@, ps, seeds, k, i as int, queue@, done as int),
                forall|t: int| 0 <= t < nbv@.len() ==> (#[trigger] nbv@[t]) < n && dist(d@, v as int, nbv@[t] as int) <= eps,
                forall|t: int| 0 <= t < j ==> (#[trigger] labels@[nbv@[t] as int]) is Some,
                2 * unlabeled(labels@) + queue@.len() <= m0,
            decreases nbv@.len() - j,
        {
            let q = nbv[j];
            if labels[q].is_none() {
                let ghost l0 = labels@;
                let ghost q0 = queue@;
                let Ghost(grown) = absorb(d, eps, min_neighbors, labels, queue, k, i, done, v, q, Ghost(ps), Ghost(seeds));
                proof {
                    ps = grown;
                    assert(queue@[done as int] == q0[done as int]);
                    assert forall|t: int| 0 <= t < j + 1 implies (#[trigger] labels@[nbv@[t] as int]) is Some by {
                        if t < j && nbv@[t] != q {
                            assert(l0[nbv@[t] as int] is Some);
                        }
                    }
                }
            }
            j = j + 1;
        }
        assert forall|r: int| 0 <= r < n && dist(d@, v as int, r) <= eps implies labels@[r] is Some by {
            assert(d@[v as int]@[r] <= eps);
            let t0 = choose|t: int| 0 <= t < nbv@.len() && #[trigger] nbv@[t] == r;
            assert(labels@[nbv@[t0] as int] is Some);
        }
    } else {
        assert(!is_core(d@, eps, min_neighbors, v as int));
    }
    proof {
        assert forall|t: int, r: int| 0 <= t < done + 1 && 0 <= r < labels@.len() && is_core(d@, eps, min_neighbors, queue@[t] as int)
            && #[trigger] dist(d@, #[trigger] queue@[t] as int, r) <= eps implies labels@[r] is Some by {
            if t == done {
                assert(queue@[t] == v);
            }
        }
    }
    Ghost(ps)
}

/// Once its queue is expanded, cluster `k` is complete.
proof fn lemma_cluster_complete(
    d: Seq<Vec<u64>>,
    eps: u64,
    min_neighbors: usize,
    l: Seq<Option<usize>>,
    paths: Seq<Seq<int>>,
    seeds: Seq<int>,
    k: usize,
    i: int,
    queue: Seq<usize>,
)
    requires
        bfs_inv(d, eps, min_neighbors, l, paths, seeds, k, i, queue, queue.len() as int),
    ensures
        complete_below(d, eps, min_neighbors, l, k + 1),
{
    assert forall|p: int, q: int| 0 <= p < l.len() && 0 <= q < l.len() && is_core(d, eps, min_neighbors, p) && l[p] is Some
        && l[p].unwrap() < k + 1 && #[trigger] dist(d, p, q) <= eps implies l[q] is Some && (is_core(
        d, eps, min_neighbors, q) ==> l[q] == l[p]) by {
        if l[p].unwrap() == k {
            assert(l[p] == Some(k));
            let t0 = choose|t: int| 0 <= t < queue.len() && #[trigger] queue[t] == p;
            assert(dist(d, queue[t0] as int, q) <= eps);
            assert(l[q] is Some);
            if is_core(d, eps, min_neighbors, q) && l[q] != l[p] {
                assert(l[q].unwrap() < k);
                assert(dist(d, q, p) == dist(d, p, q));
                assert(dist(d, q, p) <= eps);
            }
        }
    }
}

/// Labels the items of a square, symmetric distance matrix with clusters,
/// visiting items in their input order; returns the labels and the number
/// of clusters.
#[verifier::rlimit(40)]
fn label_items(d: &Vec<Vec<u64>>, eps: u64, min_neighbors: usize) -> (r: (Vec<Option<usize>>, usize))
    requires
        is_square(d@),
        is_symmetric(d@),
    ensures
        is_partition(d@, eps, min_neighbors, r.0@, r.1 as nat),
{
    let n = d.len();
    let mut labels: Vec<Option<usize>> = Vec::new();
    while labels.len() < n
        invariant
            labels@.len() <= n,
            forall|v: int| 0 <= v < labels@.len() ==> (#[trigger] labels@[v]) is None,
        decreases n - labels@.len(),
    {
        labels.push(None);
    }
    let mut k: usize = 0;
    let ghost mut paths: Seq<Seq<int>> = Seq::new(n as nat, |v: int| seq![v]);
    let ghost mut seeds: Seq<int> = Seq::empty();
    let mut i: usize = 0;
    while i < n
        invariant
            n == d@.len(),
            is_square(d@),
            is_symmetric(d@),
            labels@.len() == n,
            i <= n,
            k == seeds.len(),
            k <= i,
            labels_below(labels@, k as int),
            chains_ok(d@, eps, min_neighbors, labels@, paths, seeds),
            complete_below(d@, eps, min_neighbors, labels@, k as int),
            forall|v: int| 0 <= v < i && is_core(d@, eps, min_neighbors, v) ==> (#[trigger] labels@[v]) is Some,
        decreases n - i,
    {
        if labels[i].is_none() {
            let nb = within(&d[i], eps);
            if nb.len() >= min_neighbors {
                let ghost l0 = labels@;
                labels.set(i, Some(k));
                let mut queue: Vec<usize> = Vec::new();
                queue.push(i);
                let mut qi: usize = 0;
                proof {
                    seeds = seeds.push(i as int);
                    paths = paths.update(i as int, seq![i as int]);
                    reveal(is_chain);
                    assert(is_chain(d@, eps, min_neighbors, paths[i as int]));
                    let l1 = labels@;
                    assert(queue@[0] == i);
                    assert forall|m: int| 0 <= m < l1.len() && (#[trigger] l1[m]) is Some implies (l1[m].unwrap() as int) < seeds.len()
                        && is_chain(d@, eps, min_neighbors, paths[m]) && paths[m][0] == seeds[l1[m].unwrap() as int]
                        && paths[m].last() == m by {
                        if m != i {
                            assert(l0[m] is Some);
                        }
                    }
                    assert forall|c: int| 0 <= c < seeds.len() implies 0 <= #[trigger] seeds[c] < d@.len() && is_core(
                        d@, eps, min_neighbors, seeds[c]) && l1[seeds[c]] == Some(c as usize) by {
                        if c < k {
                            assert(l0[seeds[c]] == Some(c as usize));
                        }
                    }
                    assert forall|w: int| 0 <= w < l1.len() && (#[trigger] l1[w]) == Some(k) implies exists|t: int|
                        0 <= t < queue@.len() && #[trigger] queue@[t] == w by {
                        if w != i {
                            assert(l0[w] is Some);
                        }
                        assert(queue@[0] == w);
                    }
                    lemma_grow(d@, eps, min_neighbors, l0, k, i as int, i as int);
                }
                while qi < queue.len()
                    invariant
                        bfs_inv(d@, eps, min_neighbors, labels@, paths, seeds, k, i as int, queue@, qi as int),
                        k <= i,
                    decreases 2 * unlabeled(labels@) + queue@.len() - qi,
                {
                    let Ghost(grown) = expand(d, eps, min_neighbors, &mut labels, &mut queue, k, i, qi, Ghost(paths), Ghost(seeds));
                    proof {
                        paths = grown;
                    }
                    qi = qi + 1;
                }
                proof {
                    lemma_cluster_complete(d@, eps, min_neighbors, labels@, paths, seeds, k, i as int, queue@);
                }
                k = k + 1;
            }
        }
        i = i + 1;
    }
    proof {
        let l = labels@;
        assert forall|c: int| 0 <= c < k implies #[trigger] has_root(d@, eps, min_neighbors, l, c) by {
            let s = seeds[c];
            assert forall|m: int| 0 <= m < l.len() && l[m] == Some(c as usize) implies #[trigger] reaches(
                d@, eps, min_neighbors, s, m) by {
                assert(l[m] is Some);
                assert(is_chain(d@, eps, min_neighbors, paths[m]));
            }
            assert(is_root(d@, eps, min_neighbors, l, c, s));
        }
    }
    (labels, k)
}

/// Why a clustering run was refused.
#[derive(Clone, Copy, Debug, PartialEq, Eq)]
pub enum ClusterError {
    /// The radius is zero.
    NonPositiveEpsilon,
    /// Some row of the distance matrix does not have one entry per item.
    NotSquare,
    /// The distance from some item to another differs from the way back.
    NotSymmetric,
}

/// The radius and the density threshold of a clustering pass.
#[derive(Clone, Copy, Debug, PartialEq, Eq)]
pub struct ClusterParams {
    pub epsilon: u64,
    pub min_neighbors: usize,
}

impl ClusterParams {
    /// Clustering by place: within 1000 meters, at least 3 photos.
    pub fn spatial() -> (r: ClusterParams)
        ensures
            r.epsilon == 1000,
            r.min_neighbors == 3,
    {
        ClusterParams { epsilon: 1000, min_neighbors: 3 }
    }

    /// Clustering by time: within 600 seconds, at least 10 photos.
    pub fn temporal() -> (r: ClusterParams)
        ensures
            r.epsilon == 600,
            r.min_neighbors == 10,
    {
        ClusterParams { epsilon: 600, min_neighbors: 10 }
    }
}

/// The outcome of a clustering pass: for each item its cluster, or `None`
/// for noise, and the number of clusters.
#[derive(Debug)]
pub struct Partition {
    pub labels: Vec<Option<usize>>,
    pub clusters: usize,
}

fn check_square(d: &Vec<Vec<u64>>) -> (r: bool)
    ensures
        r == is_square(d@),
{
    let mut i: usize = 0;
    while i < d.len()
        invariant
            i <= d@.len(),
            forall|a: int| 0 <= a < i ==> (#[trigger] d@[a])@.len() == d@.len(),
        decreases d@.len() - i,
    {
        if d[i].len() != d.len() {
            return false;
        }
        i = i + 1;
    }
    true
}

fn check_symmetric(d: &Vec<Vec<u64>>) -> (r: bool)
    requires
        is_square(d@),
    ensures
        r == is_symmetric(d@),
{
    let n = d.len();
    let mut i: usize = 0;
    while i < n
        invariant
            n == d@.len(),
            is_square(d@),
            i <= n,
            forall|a: int, b: int| 0 <= a < i && 0 <= b < n ==> #[trigger] dist(d@, a, b) == dist(d@, b, a),
        decreases n - i,
    {
        assert(d@[i as int]@.len() == n);
        let mut j: usize = 0;
        while j < n
            invariant
                n == d@.len(),
                is_square(d@),
                i < n,
                j <= n,
                d@[i as int]@.len() == n,
                forall|a: int, b: int| 0 <= a < i && 0 <= b < n ==> #[trigger] dist(d@, a, b) == dist(d@, b, a),
                forall|b: int| 0 <= b < j ==> #[trigger] dist(d@, i as int, b) == dist(d@, b, i as int),
            decreases n - j,
        {
            assert(d@[j as int]@.len() == n);
            if d[i][j] != d[j][i] {
                assert(dist(d@, i as int, j as int) != dist(d@, j as int, i as int));
                return false;
            }
            j = j + 1;
        }
        i = i + 1;
    }
    true
}

/// Density-based clustering of `n` items given their `n` by `n` matrix of
/// distances. Items are visited in input order; an item with at least
/// `min_neighbors` items within `epsilon` (itself included) seeds a cluster,
/// which then absorbs, breadth first, every item within `epsilon` of its
/// core items. The rest is noise.
pub fn dbscan(d: &Vec<Vec<u64>>, epsilon: u64, min_neighbors: usize) -> (r: Result<Partition, ClusterError>)
    ensures
        epsilon == 0 ==> r == Err::<Partition, ClusterError>(ClusterError::NonPositiveEpsilon),
        epsilon > 0 && !is_square(d@) ==> r == Err::<Partition, ClusterError>(ClusterError::NotSquare),
        epsilon > 0 && is_square(d@) && !is_symmetric(d@) ==> r == Err::<Partition, ClusterError>(
            ClusterError::NotSymmetric,
        ),
        epsilon > 0 && is_square(d@) && is_symmetric(d@) ==> r is Ok,
        r matches Ok(p) ==> is_partition(d@, epsilon, min_neighbors, p.labels@, p.clusters as nat),
{
    if epsilon == 0 {
        return Err(ClusterError::NonPositiveEpsilon);
    }
    if !check_square(d) {
        return Err(ClusterError::NotSquare);
    }
    if !check_symmetric(d) {
        return Err(ClusterError::NotSymmetric);
    }
    let (labels, clusters) = label_items(d, epsilon, min_neighbors);
    Ok(Partition { labels, clusters })
}

/// Square matrix whose entry `(i, j)` is `f(i, j)`.
pub open spec fn is_matrix_of(d: Seq<Vec<u64>>, n: nat, f: spec_fn(int, int) -> nat) -> bool {
    &&& d.len() == n
    &&& forall|i: int| 0 <= i < n ==> (#[trigger] d[i])@.len() == n
    &&& forall|i: int, j: int| 0 <= i < n && 0 <= j < n ==> #[trigger] dist(d, i, j) == f(i, j)
}

/// Pairwise distances in meters between points (see `geo_dist`).
pub fn geo_distances(points: &Vec<Coord>) -> (r: Vec<Vec<u64>>)
    ensures
        is_matrix_of(r@, points@.len(), |i: int, j: int| geo_dist(points@[i], points@[j])),
        is_square(r@),
        is_symmetric(r@),
{
    let n = points.len();
    let mut r: Vec<Vec<u64>> = Vec::new();
    while r.len() < n
        invariant
            r@.len() <= n,
            n == points@.len(),
            forall|i: int| 0 <= i < r@.len() ==> (#[trigger] r@[i])@.len() == n,
            forall|i: int, j: int| 0 <= i < r@.len() && 0 <= j < n ==> #[trigger] dist(r@, i, j) == geo_dist(points@[i], points@[j]),
        decreases n - r@.len(),
    {
        let i = r.len();
        let mut row: Vec<u64> = Vec::new();
        while row.len() < n
            invariant
                row@.len() <= n,
                n == points@.len(),
                i < n,
                forall|j: int| 0 <= j < row@.len() ==> #[trigger] row@[j] == geo_dist(points@[i as int], points@[j]),
            decreases n - row@.len(),
        {
            let j = row.len();
            row.push(distance_m(&points[i], &points[j]));
        }
        let ghost before = r@;
        let ghost rv = row@;
        r.push(row);
        assert forall|a: int, j: int| 0 <= a < r@.len() && 0 <= j < n implies #[trigger] dist(r@, a, j) == geo_dist(points@[a], points@[j]) by {
            if a < before.len() {
                assert(r@[a] == before[a]);
                assert(dist(r@, a, j) == dist(before, a, j));
            } else {
                assert(a == i);
                assert(r@[a]@ == rv);
                assert(dist(r@, a, j) == rv[j]);
                assert(rv[j] == row@[j]);
            }
        }
    }
    assert forall|i: int, j: int| 0 <= i < n && 0 <= j < n implies #[trigger] dist(r@, i, j) == dist(r@, j, i) by {
        let (a, b) = (points@[i], points@[j]);
        assert(chord_sq(a, b) == chord_sq(b, a)) by (nonlinear_arith);
    }
    r
}

/// Pairwise absolute differences in seconds between timestamps.
pub fn time_distances(times: &Vec<i64>) -> (r: Vec<Vec<u64>>)
    ensures
        is_matrix_of(r@, times@.len(), |i: int, j: int| time_dist(times@[i], times@[j])),
        is_square(r@),
        is_symmetric(r@),
{
    let n = times.len();
    let mut r: Vec<Vec<u64>> = Vec::new();
    while r.len() < n
        invariant
            r@.len() <= n,
            n == times@.len(),
            forall|i: int| 0 <= i < r@.len() ==> (#[trigger] r@[i])@.len() == n,
            forall|i: int, j: int| 0 <= i < r@.len() && 0 <= j < n ==> #[trigger] dist(r@, i, j) == time_dist(times@[i], times@[j]),
        decreases n - r@.len(),
    {
        let i = r.len();
        let mut row: Vec<u64> = Vec::new();
        while row.len() < n
            invariant
                row@.len() <= n,
                n == times@.len(),
                i < n,
                forall|j: int| 0 <= j < row@.len() ==> #[trigger] row@[j] == time_dist(times@[i as int], times@[j]),
            decreases n - row@.len(),
        {
            let j = row.len();
            row.push(time_distance(times[i], times[j]));
        }
        let ghost before = r@;
        let ghost rv = row@;
        r.push(row);
        assert forall|a: int, j: int| 0 <= a < r@.len() && 0 <= j < n implies #[trigger] dist(r@, a, j) == time_dist(times@[a], times@[j]) by {
            if a < before.len() {
                assert(r@[a] == before[a]);
                assert(dist(r@, a, j) == dist(before, a, j));
            } else {
                assert(a == i);
                assert(r@[a]@ == rv);
                assert(dist(r@, a, j) == rv[j]);
                assert(rv[j] == row@[j]);
            }
        }
    }
    r
}

} // verus!
