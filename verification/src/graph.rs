//! Precedence graph construction: one directed edge per adjacent word pair,
//! at the first position where the two indexed words differ.

use vstd::prelude::*;

verus! {

/// The integer entries of a matrix of machine words.
pub open spec fn mat_of(m: Seq<Vec<usize>>) -> Seq<Seq<int>> {
    m.map_values(|r: Vec<usize>| r@.map_values(|x: usize| x as int))
}

/// A square matrix of the given dimension.
pub open spec fn is_square(m: Seq<Seq<int>>, dim: int) -> bool {
    m.len() == dim && forall|i: int| 0 <= i < dim ==> (#[trigger] m[i]).len() == dim
}

/// `k` is the first position where `p` and `s` differ.
pub open spec fn is_first_diff(p: Seq<int>, s: Seq<int>, k: int) -> bool {
    &&& 0 <= k < p.len()
    &&& k < s.len()
    &&& p[k] != s[k]
    &&& forall|m: int| 0 <= m < k ==> p[m] == s[m]
}

/// Some adjacent pair among the first `n` words of `ws` gives direct
/// evidence that character `a` immediately precedes character `b`.
pub open spec fn has_edge_upto(ws: Seq<Seq<int>>, n: int, a: int, b: int) -> bool {
    exists|i: int, k: int|
        #![trigger is_first_diff(ws[i - 1], ws[i], k)]
        1 <= i < n && i < ws.len() && is_first_diff(ws[i - 1], ws[i], k) && ws[i - 1][k] == a
            && ws[i][k] == b
}

/// Some adjacent word pair gives direct evidence that character `a`
/// immediately precedes character `b`.
pub open spec fn has_edge(ws: Seq<Seq<int>>, a: int, b: int) -> bool {
    has_edge_upto(ws, ws.len() as int, a, b)
}

/// A `dim` x `dim` matrix with every entry zero.
fn zero_matrix(dim: usize) -> (m: Vec<Vec<usize>>)
    ensures
        m@.len() == dim,
        forall|a: int| 0 <= a < dim ==> (#[trigger] m@[a])@.len() == dim,
        forall|a: int, b: int| #![trigger m@[a]@[b]] 0 <= a < dim && 0 <= b < dim ==> m@[a]@[b]
            == 0,
{
    let mut m: Vec<Vec<usize>> = Vec::new();
    let mut a: usize = 0;
    while a < dim
        invariant
            a <= dim,
            m@.len() == a,
            forall|x: int| 0 <= x < a ==> (#[trigger] m@[x])@.len() == dim,
            forall|x: int, y: int| #![trigger m@[x]@[y]] 0 <= x < a && 0 <= y < dim ==> m@[x]@[y]
                == 0,
        decreases dim - a,
    {
        let mut row: Vec<usize> = Vec::new();
        let mut b: usize = 0;
        while b < dim
            invariant
                b <= dim,
                row@.len() == b,
                forall|y: int| 0 <= y < b ==> row@[y] == 0,
            decreases dim - b,
        {
            row.push(0);
            b = b + 1;
        }
        m.push(row);
        a = a + 1;
    }
    m
}

/// Builds the adjacency matrix of the precedence graph: entry `[a][b]` is 1
/// exactly when some adjacent word pair witnesses `a` before `b` at its
/// first differing position, and 0 otherwise.
pub fn adjacency(indexed: &[Vec<usize>], dim: usize) -> (adj: Vec<Vec<usize>>)
    requires
        forall|i: int, j: int|
            #![trigger indexed@[i]@[j]]
            0 <= i < indexed@.len() && 0 <= j < indexed@[i]@.len() ==> indexed@[i]@[j] < dim,
    ensures
        adj@.len() == dim,
        forall|a: int| 0 <= a < dim ==> (#[trigger] adj@[a])@.len() == dim,
        forall|a: int, b: int|
            #![trigger adj@[a]@[b]]
            0 <= a < dim && 0 <= b < dim ==> adj@[a]@[b] == (if has_edge(
                mat_of(indexed@),
                a,
                b,
            ) {
                1int
            } else {
                0int
            }),
{
    let ghost ws = mat_of(indexed@);
    let mut adj = zero_matrix(dim);
    let m = indexed.len();
    proof {
        assert(forall|a: int, b: int| !has_edge_upto(ws, 1, a, b));
        assert(forall|p: int| 0 <= p < ws.len() ==> (#[trigger] ws[p]).len()
            == indexed@[p]@.len());
        assert(forall|p: int, q: int|
            #![trigger ws[p][q]]
            0 <= p < ws.len() && 0 <= q < ws[p].len() ==> ws[p][q] == indexed@[p]@[q] as int);
    }
    let mut i: usize = 1;
    while i < m
        invariant
            ws == mat_of(indexed@),
            m == indexed@.len(),
            1 <= i,
            m <= 1 ==> i == 1,
            m > 1 ==> i <= m,
            forall|p: int, j: int|
                #![trigger indexed@[p]@[j]]
                0 <= p < m && 0 <= j < indexed@[p]@.len() ==> indexed@[p]@[j] < dim,
            forall|p: int| 0 <= p < ws.len() ==> (#[trigger] ws[p]).len() == indexed@[p]@.len(),
            forall|p: int, q: int|
                #![trigger ws[p][q]]
                0 <= p < ws.len() && 0 <= q < ws[p].len() ==> ws[p][q] == indexed@[p]@[q] as int,
            adj@.len() == dim,
            forall|a: int| 0 <= a < dim ==> (#[trigger] adj@[a])@.len() == dim,
            forall|a: int, b: int|
                #![trigger adj@[a]@[b]]
                0 <= a < dim && 0 <= b < dim ==> adj@[a]@[b] == (if has_edge_upto(
                    ws,
                    i as int,
                    a,
                    b,
                ) {
                    1int
                } else {
                    0int
                }),
        decreases m - i,
    {
        let pred = &indexed[i - 1];
        let succ = &indexed[i];
        let pl = pred.len();
        let sl = succ.len();
        let lim = if pl < sl {
            pl
        } else {
            sl
        };
        let mut k: usize = 0;
        while k < lim && pred[k] == succ[k]
            invariant
                lim <= pred@.len(),
                lim <= succ@.len(),
                k <= lim,
                forall|mm: int| 0 <= mm < k ==> pred@[mm] == succ@[mm],
            decreases lim - k,
        {
            k = k + 1;
        }
        proof {
            assert(pred@ == indexed@[i - 1]@);
            assert(succ@ == indexed@[i as int]@);
        }
        if k < lim {
            let x = pred[k];
            let y = succ[k];
            proof {
                assert(is_first_diff(ws[i - 1], ws[i as int], k as int)) by {
                    assert(forall|mm: int| 0 <= mm < k ==> ws[i - 1][mm] == ws[i as int][mm]);
                }
            }
            let ghost old_adj = adj@;
            adj[x][y] = 1;
            proof {
                assert(adj@[x as int]@ =~= old_adj[x as int]@.update(y as int, 1));
                assert forall|a: int, b: int|
                    #![trigger adj@[a]@[b]]
                    0 <= a < dim && 0 <= b < dim implies adj@[a]@[b] == (if has_edge_upto(
                    ws,
                    i + 1,
                    a,
                    b,
                ) {
                    1int
                } else {
                    0int
                }) by {
                    if a == x && b == y {
                        assert(has_edge_upto(ws, i + 1, a, b)) by {
                            assert(is_first_diff(ws[i - 1], ws[i as int], k as int));
                            assert(ws[i - 1][k as int] == a && ws[i as int][k as int] == b);
                        }
                        assert(adj@[a]@[b] == 1);
                    } else {
                        assert(adj@[a]@[b] == old_adj[a]@[b]);
                        assert(has_edge_upto(ws, i + 1, a, b) == has_edge_upto(
                            ws,
                            i as int,
                            a,
                            b,
                        )) by {
                            if has_edge_upto(ws, i + 1, a, b) {
                                let (ii, kk): (int, int) = choose|ii: int, kk: int|
                                    #![trigger is_first_diff(ws[ii - 1], ws[ii], kk)]
                                    1 <= ii < i + 1 && ii < ws.len() && is_first_diff(
                                        ws[ii - 1],
                                        ws[ii],
                                        kk,
                                    ) && ws[ii - 1][kk] == a && ws[ii][kk] == b;
                                if ii == i {
                                    assert(kk == k) by {
                                        if kk < k {
                                            assert(ws[i - 1][kk] == ws[i as int][kk]);
                                        } else if kk > k {
                                            assert(ws[i - 1][k as int] != ws[i as int][k as int]);
                                        }
                                    }
                                    assert(false);
                                } else {
                                    assert(has_edge_upto(ws, i as int, a, b));
                                }
                            }
                            if has_edge_upto(ws, i as int, a, b) {
                                let (ii, kk): (int, int) = choose|ii: int, kk: int|
                                    #![trigger is_first_diff(ws[ii - 1], ws[ii], kk)]
                                    1 <= ii < i && ii < ws.len() && is_first_diff(
                                        ws[ii - 1],
                                        ws[ii],
                                        kk,
                                    ) && ws[ii - 1][kk] == a && ws[ii][kk] == b;
                                assert(1 <= ii < i + 1);
                                assert(has_edge_upto(ws, i + 1, a, b));
                            }
                        }
                    }
                }
            }
        } else {
            proof {
                assert forall|a: int, b: int|
                    #![trigger adj@[a]@[b]]
                    0 <= a < dim && 0 <= b < dim implies adj@[a]@[b] == (if has_edge_upto(
                    ws,
                    i + 1,
                    a,
                    b,
                ) {
                    1int
                } else {
                    0int
                }) by {
                    assert(has_edge_upto(ws, i + 1, a, b) == has_edge_upto(ws, i as int, a, b))
                        by {
                        if has_edge_upto(ws, i + 1, a, b) {
                            let (ii, kk): (int, int) = choose|ii: int, kk: int|
                                #![trigger is_first_diff(ws[ii - 1], ws[ii], kk)]
                                1 <= ii < i + 1 && ii < ws.len() && is_first_diff(
                                    ws[ii - 1],
                                    ws[ii],
                                    kk,
                                ) && ws[ii - 1][kk] == a && ws[ii][kk] == b;
                            if ii == i {
                                assert(0 <= kk < lim);
                                assert(ws[i - 1][kk] == ws[i as int][kk]);
                                assert(false);
                            } else {
                                assert(has_edge_upto(ws, i as int, a, b));
                            }
                        }
                        if has_edge_upto(ws, i as int, a, b) {
                            let (ii, kk): (int, int) = choose|ii: int, kk: int|
                                #![trigger is_first_diff(ws[ii - 1], ws[ii], kk)]
                                1 <= ii < i && ii < ws.len() && is_first_diff(
                                    ws[ii - 1],
                                    ws[ii],
                                    kk,
                                ) && ws[ii - 1][kk] == a && ws[ii][kk] == b;
                            assert(1 <= ii < i + 1);
                            assert(has_edge_upto(ws, i + 1, a, b));
                        }
                    }
                }
            }
        }
        i = i + 1;
    }
    proof {
        if m <= 1 {
            assert(forall|a: int, b: int| !has_edge_upto(ws, ws.len() as int, a, b));
            assert(forall|a: int, b: int| !has_edge_upto(ws, i as int, a, b));
        }
    }
    adj
}

} // verus!
