//! Choosing clusters by size.
use vstd::prelude::*;
use crate::cluster::Cluster;

verus! {

pub open spec fn size_at(cs: Seq<Cluster>, i: int) -> nat {
    cs[i].sequences@.len()
}

/// The ranking order of top-N: larger clusters first, and among clusters
/// of equal size the one met first.
pub open spec fn ranks_before(cs: Seq<Cluster>, i: int, j: int) -> bool {
    size_at(cs, i) > size_at(cs, j) || (size_at(cs, i) == size_at(cs, j) && i < j)
}

/// The positions of the clusters with at least `min_size` sequences, in order.
pub fn filter_by_size(clusters: &Vec<Cluster>, min_size: usize) -> (r: Vec<usize>)
    ensures
        forall|k: int| 0 <= k < r@.len() ==> r@[k] < clusters@.len() && size_at(clusters@, r@[k] as int) >= min_size,
        forall|k: int, l: int| 0 <= k < l < r@.len() ==> r@[k] < r@[l],
        forall|i: int|
            0 <= i < clusters@.len() && size_at(clusters@, i) >= min_size ==> exists|k: int|
                0 <= k < r@.len() && r@[k] == i,
{
    let mut r: Vec<usize> = Vec::new();
    let mut i: usize = 0;
    while i < clusters.len()
        invariant
            i <= clusters@.len(),
            forall|k: int| 0 <= k < r@.len() ==> r@[k] < i && size_at(clusters@, r@[k] as int) >= min_size,
            forall|k: int, l: int| 0 <= k < l < r@.len() ==> r@[k] < r@[l],
            forall|j: int|
                0 <= j < i && size_at(clusters@, j) >= min_size ==> exists|k: int|
                    0 <= k < r@.len() && r@[k] == j,
        decreases clusters@.len() - i,
    {
        let ghost old_r = r@;
        if clusters[i].size() >= min_size {
            r.push(i);
            assert(r@[r@.len() - 1] == i);
        }
        proof {
            assert forall|j: int|
                0 <= j < i && size_at(clusters@, j) >= min_size implies exists|k: int|
                    0 <= k < r@.len() && r@[k] == j by {
                let k = choose|k: int| 0 <= k < old_r.len() && old_r[k] == j;
                assert(r@[k] == j);
            }
        }
        i += 1;
    }
    r
}

/// The positions of the `n` largest clusters (all, where there are fewer),
/// largest first, ties in input order.
pub fn top_n(clusters: &Vec<Cluster>, n: usize) -> (r: Vec<usize>)
    ensures
        r@.len() == if n < clusters@.len() {
            n as int
        } else {
            clusters@.len() as int
        },
        forall|k: int| 0 <= k < r@.len() ==> r@[k] < clusters@.len(),
        forall|k: int, l: int|
            0 <= k < l < r@.len() ==> ranks_before(clusters@, r@[k] as int, r@[l] as int),
        forall|i: int, k: int|
            0 <= i < clusters@.len() && 0 <= k < r@.len() && !r@.contains(i as usize)
                ==> ranks_before(clusters@, r@[k] as int, i),
{
    let len = clusters.len();
    // The positions not chosen yet, in increasing order.
    let mut pool: Vec<usize> = Vec::new();
    let mut i: usize = 0;
    while i < len
        invariant
            len == clusters@.len(),
            i <= len,
            pool@.len() == i,
            forall|j: int| 0 <= j < i ==> pool@[j] == j,
        decreases len - i,
    {
        pool.push(i);
        i += 1;
    }
    let want = if n < len {
        n
    } else {
        len
    };
    let mut r: Vec<usize> = Vec::new();
    assert forall|x: usize| x < len implies pool@.contains(x) by {
        assert(pool@[x as int] == x);
    }
    while r.len() < want
        invariant
            len == clusters@.len(),
            want <= len,
            r@.len() <= want,
            pool@.len() + r@.len() == len,
            forall|k: int| 0 <= k < r@.len() ==> r@[k] < len,
            forall|k: int| 0 <= k < pool@.len() ==> pool@[k] < len,
            forall|k: int, l: int| 0 <= k < l < pool@.len() ==> pool@[k] < pool@[l],
            forall|x: usize| x < len ==> (pool@.contains(x) || r@.contains(x)),
            forall|k: int, l: int|
                0 <= k < l < r@.len() ==> ranks_before(clusters@, r@[k] as int, r@[l] as int),
            forall|q: int, k: int|
                0 <= q < pool@.len() && 0 <= k < r@.len() ==> ranks_before(
                    clusters@,
                    r@[k] as int,
                    pool@[q] as int,
                ),
        decreases want - r@.len(),
    {
        let mut bp: usize = 0;
        let mut q: usize = 1;
        while q < pool.len()
            invariant
                len == clusters@.len(),
                0 < pool@.len(),
                forall|k: int| 0 <= k < pool@.len() ==> pool@[k] < len,
                forall|k: int, l: int| 0 <= k < l < pool@.len() ==> pool@[k] < pool@[l],
                bp < q <= pool@.len(),
                forall|x: int|
                    0 <= x < q && x != bp ==> ranks_before(
                        clusters@,
                        pool@[bp as int] as int,
                        pool@[x] as int,
                    ),
            decreases pool@.len() - q,
        {
            if clusters[pool[q]].size() > clusters[pool[bp]].size() {
                bp = q;
            }
            q += 1;
        }
        let best = pool[bp];
        let ghost old_r = r@;
        let ghost old_pool = pool@;
        r.push(best);
        pool.remove(bp);
        proof {
            assert forall|x: usize| x < len implies (pool@.contains(x) || r@.contains(x)) by {
                if old_pool.contains(x) {
                    let k = choose|k: int| 0 <= k < old_pool.len() && old_pool[k] == x;
                    if k < bp {
                        assert(pool@[k] == x);
                    } else if k > bp {
                        assert(pool@[k - 1] == x);
                    } else {
                        assert(r@[r@.len() - 1] == x);
                    }
                } else {
                    let k = choose|k: int| 0 <= k < old_r.len() && old_r[k] == x;
                    assert(r@[k] == x);
                }
            }
            assert forall|qq: int, k: int|
                0 <= qq < pool@.len() && 0 <= k < r@.len() implies ranks_before(
                clusters@,
                r@[k] as int,
                pool@[qq] as int,
            ) by {
                let oq = if qq < bp {
                    qq
                } else {
                    qq + 1
                };
                assert(pool@[qq] == old_pool[oq]);
            }
        }
    }
    proof {
        assert forall|x: int, k: int|
            0 <= x < clusters@.len() && 0 <= k < r@.len() && !r@.contains(x as usize)
                implies ranks_before(clusters@, r@[k] as int, x) by {
            assert(pool@.contains(x as usize));
            let q = choose|q: int| 0 <= q < pool@.len() && pool@[q] == x as usize;
        }
    }
    r
}

} // verus!
