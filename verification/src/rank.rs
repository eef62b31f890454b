//! Rank extraction: converts longest-chain lengths into a unique rank per
//! character, detecting cycles and rank collisions.

use vstd::prelude::*;

verus! {

use crate::graph::mat_of;

/// Why rank extraction failed.
#[derive(Clone, Copy, Debug, PartialEq, Eq, Structural)]
pub enum OrderError {
    /// The longest chain out of `index` reached the alphabet size, which
    /// only a directed cycle makes possible.
    CycleDetected { index: usize },
    /// Row `index` computed a rank already taken by the earlier `prior`:
    /// the evidence does not resolve to a single consistent total order.
    RankCollision { rank: usize, index: usize, prior: usize },
}

/// The largest entry among the first `n` of row `r`.
pub open spec fn row_max_upto(r: Seq<int>, n: int) -> int
    decreases n,
{
    if n <= 1 {
        r[0]
    } else if r[n - 1] > row_max_upto(r, n - 1) {
        r[n - 1]
    } else {
        row_max_upto(r, n - 1)
    }
}

/// The largest entry of row `r`.
pub open spec fn row_max(r: Seq<int>) -> int {
    row_max_upto(r, r.len() as int)
}

/// The running maximum over a row prefix is no smaller than any entry of
/// that prefix.
pub proof fn lemma_row_max_ge(r: Seq<int>, n: int, q: int)
    requires
        0 <= q < n <= r.len(),
    ensures
        row_max_upto(r, n) >= r[q],
    decreases n,
{
    if n <= 1 {
    } else {
        if q < n - 1 {
            lemma_row_max_ge(r, n - 1, q);
        }
    }
}

/// How many slots of a rank table are filled.
pub open spec fn count_filled(t: Seq<Option<usize>>) -> nat
    decreases t.len(),
{
    if t.len() == 0 {
        0
    } else {
        count_filled(t.drop_last()) + (if t.last() is Some {
            1nat
        } else {
            0nat
        })
    }
}

/// The rank table after processing rows `i..` of closure matrix `d`,
/// starting from table `acc`: row `i` gets rank `dim - 1 - row_max(d[i])`,
/// a row max of `dim` or more is a cycle, and an occupied slot is a
/// collision.
pub open spec fn rank_table_from(
    d: Seq<Seq<int>>,
    dim: int,
    i: int,
    acc: Seq<Option<usize>>,
) -> Result<Seq<Option<usize>>, OrderError>
    decreases (if i < dim { dim - i } else { 0 }),
{
    if i < 0 || i >= dim {
        Ok(acc)
    } else {
        let m = row_max(d[i]);
        if m >= dim {
            Err(OrderError::CycleDetected { index: i as usize })
        } else {
            let r = dim - 1 - m;
            if 0 <= r < acc.len() && acc[r] is Some {
                Err(
                    OrderError::RankCollision {
                        rank: r as usize,
                        index: i as usize,
                        prior: acc[r]->0,
                    },
                )
            } else {
                rank_table_from(d, dim, i + 1, acc.update(r, Some(i as usize)))
            }
        }
    }
}

/// The result of rank extraction on closure matrix `d`: for each rank the
/// character index assigned to it, or the first failure encountered.
pub open spec fn spec_ranks(d: Seq<Seq<int>>, dim: int) -> Result<Seq<usize>, OrderError> {
    match rank_table_from(d, dim, 0, Seq::new(dim as nat, |r: int| Option::<usize>::None)) {
        Ok(t) => Ok(Seq::new(dim as nat, |r: int| t[r]->0)),
        Err(e) => Err(e),
    }
}

/// A rank list lifted to its mathematical view.
pub open spec fn ranks_view(r: Result<Vec<usize>, OrderError>) -> Result<Seq<usize>, OrderError> {
    match r {
        Ok(v) => Ok(v@),
        Err(e) => Err(e),
    }
}

/// No table holds more filled slots than it has slots.
proof fn lemma_count_le_len(t: Seq<Option<usize>>)
    ensures
        count_filled(t) <= t.len(),
    decreases t.len(),
{
    if t.len() == 0 {
    } else {
        lemma_count_le_len(t.drop_last());
    }
}

/// A table with no filled slot counts zero.
proof fn lemma_count_empty(t: Seq<Option<usize>>)
    requires
        forall|r: int| 0 <= r < t.len() ==> (#[trigger] t[r]) is None,
    ensures
        count_filled(t) == 0,
    decreases t.len(),
{
    if t.len() == 0 {
    } else {
        lemma_count_empty(t.drop_last());
    }
}

/// Filling an empty slot raises the filled count by one.
proof fn lemma_count_update(t: Seq<Option<usize>>, r: int, v: usize)
    requires
        0 <= r < t.len(),
        t[r] is None,
    ensures
        count_filled(t.update(r, Some(v))) == count_filled(t) + 1,
    decreases t.len(),
{
    let u = t.update(r, Some(v));
    if r == t.len() - 1 {
        assert(u.drop_last() =~= t.drop_last());
        assert(u.last() == Some(v));
    } else {
        assert(u.drop_last() =~= t.drop_last().update(r, Some(v)));
        assert(u.last() == t.last());
        lemma_count_update(t.drop_last(), r, v);
    }
}

/// A table whose filled count equals its length has every slot filled.
proof fn lemma_count_full(t: Seq<Option<usize>>)
    requires
        count_filled(t) == t.len(),
    ensures
        forall|r: int| 0 <= r < t.len() ==> (#[trigger] t[r]) is Some,
    decreases t.len(),
{
    if t.len() == 0 {
    } else {
        lemma_count_le_len(t.drop_last());
        lemma_count_full(t.drop_last());
        assert forall|r: int| 0 <= r < t.len() implies (#[trigger] t[r]) is Some by {
            if r < t.len() - 1 {
                assert(t.drop_last()[r] is Some);
            } else {
                assert(t[r] == t.last());
            }
        }
    }
}

/// Each successful extraction step fills exactly one empty slot with the
/// row it processed, so a completed table is full, in range and distinct.
proof fn lemma_rank_table_from(d: Seq<Seq<int>>, dim: int, i: int, acc: Seq<Option<usize>>)
    requires
        0 <= i <= dim,
        dim <= d.len(),
        dim <= usize::MAX,
        forall|p: int| 0 <= p < d.len() ==> row_max(#[trigger] d[p]) >= 0,
        acc.len() == dim,
        forall|r: int| 0 <= r < dim && (#[trigger] acc[r]) is Some ==> (acc[r]->0 as int) < i,
        forall|r1: int, r2: int|
            #![trigger acc[r1], acc[r2]]
            0 <= r1 < dim && 0 <= r2 < dim && r1 != r2 && acc[r1] is Some && acc[r2] is Some
                ==> acc[r1]->0 != acc[r2]->0,
    ensures
        rank_table_from(d, dim, i, acc) matches Ok(t) ==> {
            &&& t.len() == dim
            &&& count_filled(t) == count_filled(acc) + (dim - i)
            &&& forall|r: int| 0 <= r < dim && (#[trigger] t[r]) is Some ==> (t[r]->0 as int) < dim
            &&& forall|r1: int, r2: int|
                #![trigger t[r1], t[r2]]
                0 <= r1 < dim && 0 <= r2 < dim && r1 != r2 && t[r1] is Some && t[r2] is Some
                    ==> t[r1]->0 != t[r2]->0
            &&& forall|r: int| 0 <= r < dim && (#[trigger] acc[r]) is Some ==> t[r] == acc[r]
            &&& forall|ii: int|
                #![trigger d[ii]]
                i <= ii < dim ==> row_max(d[ii]) < dim && t[dim - 1 - row_max(d[ii])] == Some(
                    ii as usize,
                )
        },
    decreases dim - i,
{
    if i >= dim {
    } else {
        let m = row_max(d[i]);
        if m >= dim {
        } else {
            let r = dim - 1 - m;
            assert(0 <= m) by {
                assert(row_max(d[i]) >= 0);
            }
            assert(0 <= r < dim);
            if acc[r] is Some {
            } else {
                let acc1 = acc.update(r, Some(i as usize));
                lemma_count_update(acc, r, i as usize);
                assert((i as usize) as int == i);
                assert(forall|x: int| 0 <= x < dim && (#[trigger] acc1[x]) is Some ==> (
                acc1[x]->0 as int) < i + 1);
                assert forall|r1: int, r2: int|
                    #![trigger acc1[r1], acc1[r2]]
                    0 <= r1 < dim && 0 <= r2 < dim && r1 != r2 && acc1[r1] is Some
                        && acc1[r2] is Some implies acc1[r1]->0 != acc1[r2]->0 by {
                    if r1 == r {
                        assert((acc1[r2]->0 as int) < i);
                    } else if r2 == r {
                        assert((acc1[r1]->0 as int) < i);
                    }
                }
                lemma_rank_table_from(d, dim, i + 1, acc1);
                match rank_table_from(d, dim, i + 1, acc1) {
                    Ok(t) => {
                        assert(rank_table_from(d, dim, i, acc) == Ok::<
                            Seq<Option<usize>>,
                            OrderError,
                        >(t));
                        assert(acc1[r] is Some);
                        assert(t[r] == acc1[r]);
                        assert(t[dim - 1 - row_max(d[i])] == Some(i as usize));
                        assert forall|x: int| 0 <= x < dim && (#[trigger] acc[x]) is Some implies t[x]
                            == acc[x] by {
                            assert(acc1[x] == acc[x]);
                        }
                    },
                    Err(_) => {},
                }
            }
        }
    }
}

/// A successful extraction assigns every rank exactly one character index,
/// each below the dimension: the rank list is complete, duplicate-free, and
/// places each index at the rank its longest outgoing chain determines.
pub proof fn lemma_spec_ranks_ok(d: Seq<Seq<int>>, dim: int)
    requires
        0 <= dim <= d.len(),
        dim <= usize::MAX,
        forall|i: int| 0 <= i < d.len() ==> row_max(#[trigger] d[i]) >= 0,
    ensures
        spec_ranks(d, dim) matches Ok(s) ==> {
            &&& s.len() == dim
            &&& forall|k: int| 0 <= k < dim ==> (#[trigger] s[k]) < dim
            &&& s.no_duplicates()
            &&& forall|i: int|
                #![trigger d[i]]
                0 <= i < dim ==> row_max(d[i]) < dim && s[dim - 1 - row_max(d[i])] == i as usize
        },
{
    let init = Seq::new(dim as nat, |r: int| Option::<usize>::None);
    lemma_count_empty(init);
    lemma_rank_table_from(d, dim, 0, init);
    match rank_table_from(d, dim, 0, init) {
        Ok(t) => {
            assert(count_filled(t) == dim);
            lemma_count_full(t);
            let s = Seq::new(dim as nat, |r: int| t[r]->0);
            assert forall|k1: int, k2: int| 0 <= k1 < k2 < s.len() implies s[k1] != s[k2] by {
                assert(t[k1] is Some && t[k2] is Some);
            }
        },
        Err(_) => {},
    }
}

/// Orders the character indices by longest outgoing chain: index `i` gets
/// rank `dim - 1 - max(closure[i])`; a chain of length `dim` or more is a
/// cycle, and a repeated rank is a collision.
pub fn sorted_indices(dist: &[Vec<usize>]) -> (res: Result<Vec<usize>, OrderError>)
    requires
        forall|p: int| 0 <= p < dist@.len() ==> (#[trigger] dist@[p])@.len() == dist@.len(),
    ensures
        ranks_view(res) == spec_ranks(mat_of(dist@), dist@.len() as int),
{
    let ghost d = mat_of(dist@);
    proof {
        assert(forall|p: int| 0 <= p < d.len() ==> (#[trigger] d[p]).len() == dist@[p]@.len());
        assert(forall|p: int, q: int|
            #![trigger d[p][q]]
            0 <= p < d.len() && 0 <= q < d[p].len() ==> d[p][q] == dist@[p]@[q] as int);
    }
    let dim = dist.len();
    let mut table: Vec<Option<usize>> = Vec::new();
    let mut r: usize = 0;
    while r < dim
        invariant
            r <= dim,
            table@.len() == r,
            forall|x: int| 0 <= x < r ==> (#[trigger] table@[x]) is None,
        decreases dim - r,
    {
        table.push(None);
        r = r + 1;
    }
    let ghost init = table@;
    proof {
        assert(init =~= Seq::new(dim as nat, |x: int| Option::<usize>::None));
    }
    let mut index: usize = 0;
    while index < dim
        invariant
            d == mat_of(dist@),
            dim == dist@.len(),
            forall|p: int| 0 <= p < dim ==> (#[trigger] dist@[p])@.len() == dim,
            forall|p: int| 0 <= p < d.len() ==> (#[trigger] d[p]).len() == dist@[p]@.len(),
            forall|p: int, q: int|
                #![trigger d[p][q]]
                0 <= p < d.len() && 0 <= q < d[p].len() ==> d[p][q] == dist@[p]@[q] as int,
            init == Seq::new(dim as nat, |x: int| Option::<usize>::None),
            index <= dim,
            table@.len() == dim,
            rank_table_from(d, dim as int, 0, init) == rank_table_from(
                d,
                dim as int,
                index as int,
                table@,
            ),
        decreases dim - index,
    {
        let row = &dist[index];
        let mut max: usize = row[0];
        proof {
            assert(row@ == dist@[index as int]@);
            assert(max as int == row_max_upto(d[index as int], 1));
        }
        let mut q: usize = 1;
        while q < dim
            invariant
                d == mat_of(dist@),
                dim == dist@.len(),
                index < dim,
                row@ == dist@[index as int]@,
                row@.len() == dim,
                forall|p: int| 0 <= p < d.len() ==> (#[trigger] d[p]).len() == dist@[p]@.len(),
                forall|p: int, x: int|
                    #![trigger d[p][x]]
                    0 <= p < d.len() && 0 <= x < d[p].len() ==> d[p][x] == dist@[p]@[x] as int,
                1 <= q <= dim,
                max as int == row_max_upto(d[index as int], q as int),
            decreases dim - q,
        {
            let e = row[q];
            if e > max {
                max = e;
            }
            q = q + 1;
        }
        proof {
            assert(max as int == row_max(d[index as int]));
        }
        if max >= dim {
            proof {
                assert(rank_table_from(d, dim as int, index as int, table@) == Err::<
                    Seq<Option<usize>>,
                    OrderError,
                >(OrderError::CycleDetected { index }));
            }
            return Err(OrderError::CycleDetected { index });
        }
        let rank = dim - max - 1;
        match table[rank] {
            Some(prior) => {
                proof {
                    assert(rank_table_from(d, dim as int, index as int, table@) == Err::<
                        Seq<Option<usize>>,
                        OrderError,
                    >(OrderError::RankCollision { rank, index, prior }));
                }
                return Err(OrderError::RankCollision { rank, index, prior });
            },
            None => {
                let ghost prev = table@;
                table[rank] = Some(index);
                proof {
                    assert(table@ =~= prev.update(rank as int, Some(index)));
                    assert(rank_table_from(d, dim as int, index as int, prev)
                        == rank_table_from(d, dim as int, index as int + 1, table@));
                }
            },
        }
        index = index + 1;
    }
    proof {
        assert(rank_table_from(d, dim as int, dim as int, table@) == Ok::<
            Seq<Option<usize>>,
            OrderError,
        >(table@));
        lemma_count_empty(init);
        lemma_rank_table_from(d, dim as int, 0, init);
        assert(count_filled(table@) == dim);
        lemma_count_full(table@);
    }
    let mut out: Vec<usize> = Vec::new();
    let mut rr: usize = 0;
    while rr < dim
        invariant
            dim == table@.len(),
            forall|x: int| 0 <= x < dim ==> (#[trigger] table@[x]) is Some,
            rr <= dim,
            out@.len() == rr,
            forall|x: int| 0 <= x < rr ==> (#[trigger] out@[x]) == table@[x]->0,
        decreases dim - rr,
    {
        let v = table[rr].unwrap();
        out.push(v);
        rr = rr + 1;
    }
    proof {
        assert(out@ =~= Seq::new(dim as nat, |x: int| table@[x]->0));
    }
    Ok(out)
}

} // verus!
