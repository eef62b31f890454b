//! Longest-path closure: repeated max-plus squaring of the adjacency
//! matrix until every longest path length is represented.

use vstd::prelude::*;

verus! {

use crate::graph::is_square;
use crate::graph::mat_of;

/// Every entry of `d` lies in `[lo, hi]`.
pub open spec fn entries_bounded(d: Seq<Seq<int>>, lo: int, hi: int) -> bool {
    forall|i: int, j: int|
        #![trigger d[i][j]]
        0 <= i < d.len() && 0 <= j < d[i].len() ==> lo <= d[i][j] <= hi
}

/// The larger of `d[i][j]` and the best two-leg combination
/// `d[i][k] + d[k][j]` over intermediate nodes `k < n`, where a zero leg
/// means the leg is absent.
pub open spec fn mp_scan(d: Seq<Seq<int>>, i: int, j: int, n: int) -> int
    decreases n,
{
    if n <= 0 {
        d[i][j]
    } else {
        let prev = mp_scan(d, i, j, n - 1);
        let sum = d[i][n - 1] + d[n - 1][j];
        if d[i][n - 1] != 0 && d[n - 1][j] != 0 && sum > prev {
            sum
        } else {
            prev
        }
    }
}

/// One entry of the max-plus square of `d`; diagonal entries stay zero.
pub open spec fn mp_entry(d: Seq<Seq<int>>, i: int, j: int) -> int {
    if i == j {
        0
    } else {
        mp_scan(d, i, j, d.len() as int)
    }
}

/// The max-plus square of `d`.
pub open spec fn mp_square(d: Seq<Seq<int>>) -> Seq<Seq<int>> {
    Seq::new(d.len(), |i: int| Seq::new(d.len(), |j: int| mp_entry(d, i, j)))
}

/// `d` squared `n` times under the max-plus product.
pub open spec fn mp_iter(d: Seq<Seq<int>>, n: nat) -> Seq<Seq<int>>
    decreases n,
{
    if n == 0 {
        d
    } else {
        mp_square(mp_iter(d, (n - 1) as nat))
    }
}

/// How many squarings the closure loop performs: the doubling exponent
/// starts at `pow` and doubles until it reaches `dim`.
pub open spec fn squarings_from(pow: int, dim: int) -> nat
    decreases (if pow < dim { dim - pow } else { 0 }),
{
    if pow >= dim || pow < 1 {
        0
    } else {
        1 + squarings_from(2 * pow, dim)
    }
}

/// A scan over nonnegative entries bounded by `bound` stays within
/// `[0, 2 * bound]`.
pub proof fn lemma_mp_scan_bound(d: Seq<Seq<int>>, i: int, j: int, n: int, bound: int)
    requires
        is_square(d, d.len() as int),
        entries_bounded(d, 0, bound),
        0 <= bound,
        0 <= i < d.len(),
        0 <= j < d.len(),
        0 <= n <= d.len(),
    ensures
        0 <= mp_scan(d, i, j, n) <= 2 * bound,
    decreases n,
{
    if n <= 0 {
    } else {
        lemma_mp_scan_bound(d, i, j, n - 1, bound);
    }
}

/// The max-plus square of a square matrix with entries in `[0, bound]` is a
/// square matrix of the same dimension with entries in `[0, 2 * bound]`.
pub proof fn lemma_mp_square_bound(d: Seq<Seq<int>>, bound: int)
    requires
        is_square(d, d.len() as int),
        entries_bounded(d, 0, bound),
        0 <= bound,
    ensures
        mp_square(d).len() == d.len(),
        is_square(mp_square(d), d.len() as int),
        entries_bounded(mp_square(d), 0, 2 * bound),
{
    assert forall|i: int, j: int|
        #![trigger mp_square(d)[i][j]]
        0 <= i < mp_square(d).len() && 0 <= j < mp_square(d)[i].len() implies 0 <= mp_square(
        d,
    )[i][j] <= 2 * bound by {
        if i != j {
            lemma_mp_scan_bound(d, i, j, d.len() as int, bound);
        }
    }
}

/// Every entry of `d` is nonnegative.
pub open spec fn entries_nonneg(d: Seq<Seq<int>>) -> bool {
    forall|i: int, j: int|
        #![trigger d[i][j]]
        0 <= i < d.len() && 0 <= j < d[i].len() ==> 0 <= d[i][j]
}

/// A scan over nonnegative entries is nonnegative.
pub proof fn lemma_mp_scan_nonneg(d: Seq<Seq<int>>, i: int, j: int, n: int)
    requires
        is_square(d, d.len() as int),
        entries_nonneg(d),
        0 <= i < d.len(),
        0 <= j < d.len(),
        0 <= n <= d.len(),
    ensures
        0 <= mp_scan(d, i, j, n),
    decreases n,
{
    if n <= 0 {
    } else {
        lemma_mp_scan_nonneg(d, i, j, n - 1);
    }
}

/// Repeated max-plus squaring keeps the matrix square, of the same
/// dimension, with nonnegative entries.
pub proof fn lemma_mp_iter_shape(d: Seq<Seq<int>>, n: nat)
    requires
        is_square(d, d.len() as int),
        entries_nonneg(d),
    ensures
        mp_iter(d, n).len() == d.len(),
        is_square(mp_iter(d, n), d.len() as int),
        entries_nonneg(mp_iter(d, n)),
    decreases n,
{
    if n == 0 {
    } else {
        lemma_mp_iter_shape(d, (n - 1) as nat);
        let e = mp_iter(d, (n - 1) as nat);
        assert forall|i: int, j: int|
            #![trigger mp_square(e)[i][j]]
            0 <= i < mp_square(e).len() && 0 <= j < mp_square(e)[i].len() implies 0 <= mp_square(
            e,
        )[i][j] by {
            if i != j {
                lemma_mp_scan_nonneg(e, i, j, e.len() as int);
            }
        }
    }
}

/// One row of the max-plus product of `dist` with itself.
pub fn maxplus_row(dist: &[Vec<usize>], index: usize) -> (row: Vec<usize>)
    requires
        index < dist@.len(),
        forall|p: int| 0 <= p < dist@.len() ==> (#[trigger] dist@[p])@.len() == dist@.len(),
        forall|p: int, q: int|
            #![trigger dist@[p]@[q]]
            0 <= p < dist@.len() && 0 <= q < dist@.len() ==> dist@[p]@[q] <= usize::MAX / 2,
    ensures
        row@.len() == dist@.len(),
        forall|j: int|
            0 <= j < dist@.len() ==> (#[trigger] row@[j]) as int == mp_entry(
                mat_of(dist@),
                index as int,
                j,
            ),
{
    let ghost d = mat_of(dist@);
    proof {
        assert(forall|p: int| 0 <= p < d.len() ==> (#[trigger] d[p]).len() == dist@[p]@.len());
        assert(forall|p: int, q: int|
            #![trigger d[p][q]]
            0 <= p < d.len() && 0 <= q < d[p].len() ==> d[p][q] == dist@[p]@[q] as int);
    }
    let dim = dist.len();
    let mut row: Vec<usize> = Vec::new();
    let mut j: usize = 0;
    while j < dim
        invariant
            d == mat_of(dist@),
            dim == dist@.len(),
            index < dim,
            forall|p: int| 0 <= p < dim ==> (#[trigger] dist@[p])@.len() == dim,
            forall|p: int, q: int|
                #![trigger dist@[p]@[q]]
                0 <= p < dim && 0 <= q < dim ==> dist@[p]@[q] <= usize::MAX / 2,
            forall|p: int| 0 <= p < d.len() ==> (#[trigger] d[p]).len() == dist@[p]@.len(),
            forall|p: int, q: int|
                #![trigger d[p][q]]
                0 <= p < d.len() && 0 <= q < d[p].len() ==> d[p][q] == dist@[p]@[q] as int,
            j <= dim,
            row@.len() == j,
            forall|q: int| 0 <= q < j ==> (#[trigger] row@[q]) as int == mp_entry(
                d,
                index as int,
                q,
            ),
        decreases dim - j,
    {
        if index == j {
            row.push(0);
            proof {
                assert(mp_entry(d, index as int, j as int) == 0);
            }
        } else {
            let mut best = dist[index][j];
            proof {
                assert(best as int == mp_scan(d, index as int, j as int, 0));
            }
            let mut k: usize = 0;
            while k < dim
                invariant
                    d == mat_of(dist@),
                    dim == dist@.len(),
                    index < dim,
                    j < dim,
                    index != j,
                    forall|p: int| 0 <= p < dim ==> (#[trigger] dist@[p])@.len() == dim,
                    forall|p: int, q: int|
                        #![trigger dist@[p]@[q]]
                        0 <= p < dim && 0 <= q < dim ==> dist@[p]@[q] <= usize::MAX / 2,
                    forall|p: int| 0 <= p < d.len() ==> (#[trigger] d[p]).len()
                        == dist@[p]@.len(),
                    forall|p: int, q: int|
                        #![trigger d[p][q]]
                        0 <= p < d.len() && 0 <= q < d[p].len() ==> d[p][q] == dist@[p]@[q] as int,
                    k <= dim,
                    best as int == mp_scan(d, index as int, j as int, k as int),
                decreases dim - k,
            {
                let a = dist[index][k];
                let b = dist[k][j];
                if a != 0 && b != 0 {
                    let sum = a + b;
                    if sum > best {
                        best = sum;
                    }
                }
                k = k + 1;
            }
            row.push(best);
        }
        j = j + 1;
    }
    row
}

/// The max-plus product of `dist` with itself, built one fresh row at a
/// time against the immutable input matrix.
pub fn maxplus(dist: Vec<Vec<usize>>) -> (prod: Vec<Vec<usize>>)
    requires
        forall|p: int| 0 <= p < dist@.len() ==> (#[trigger] dist@[p])@.len() == dist@.len(),
        forall|p: int, q: int|
            #![trigger dist@[p]@[q]]
            0 <= p < dist@.len() && 0 <= q < dist@.len() ==> dist@[p]@[q] <= usize::MAX / 2,
    ensures
        prod@.len() == dist@.len(),
        forall|p: int| 0 <= p < prod@.len() ==> (#[trigger] prod@[p])@.len() == dist@.len(),
        mat_of(prod@) == mp_square(mat_of(dist@)),
{
    let ghost d = mat_of(dist@);
    let dim = dist.len();
    let mut prod: Vec<Vec<usize>> = Vec::new();
    let mut i: usize = 0;
    while i < dim
        invariant
            d == mat_of(dist@),
            dim == dist@.len(),
            forall|p: int| 0 <= p < dim ==> (#[trigger] dist@[p])@.len() == dim,
            forall|p: int, q: int|
                #![trigger dist@[p]@[q]]
                0 <= p < dim && 0 <= q < dim ==> dist@[p]@[q] <= usize::MAX / 2,
            i <= dim,
            prod@.len() == i,
            forall|p: int| 0 <= p < i ==> (#[trigger] prod@[p])@.len() == dim,
            forall|p: int, q: int|
                #![trigger prod@[p]@[q]]
                0 <= p < i && 0 <= q < dim ==> prod@[p]@[q] as int == mp_entry(d, p, q),
        decreases dim - i,
    {
        let row = maxplus_row(dist.as_slice(), i);
        prod.push(row);
        i = i + 1;
    }
    proof {
        assert(mat_of(prod@) =~~= mp_square(d));
    }
    prod
}

} // verus!
