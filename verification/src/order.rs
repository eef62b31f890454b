//! The orchestrator: wires character indexing, precedence graph
//! construction, the max-plus closure and rank extraction, and restores
//! characters from ranks.

use vstd::prelude::*;

verus! {

use crate::indexer::alphabet;
use crate::indexer::first_index_of;
use crate::indexer::index_chars;
use crate::indexer::lemma_distinct_chars_bound;
use crate::indexer::lemma_first_index_unique;
use crate::indexer::restore_chars;
use crate::indexer::words_view;
use crate::graph::adjacency;
use crate::graph::has_edge;
use crate::graph::mat_of;
use crate::closure::maxplus;
use crate::closure::mp_iter;
use crate::closure::mp_square;
use crate::closure::squarings_from;
use crate::rank::lemma_row_max_ge;
use crate::rank::lemma_spec_ranks_ok;
use crate::rank::ranks_view;
use crate::rank::row_max;
use crate::rank::sorted_indices;
use crate::rank::spec_ranks;
use crate::rank::OrderError;

/// Each word of `ws` with every character replaced by its dense index into
/// the alphabet of `ws`.
pub open spec fn spec_indexed(ws: Seq<Seq<char>>) -> Seq<Seq<int>> {
    ws.map_values(|w: Seq<char>| w.map_values(|c: char| first_index_of(alphabet(ws), c)))
}

/// The adjacency matrix of the precedence graph of `ws`.
pub open spec fn spec_adjacency(ws: Seq<Seq<char>>) -> Seq<Seq<int>> {
    Seq::new(
        alphabet(ws).len(),
        |a: int|
            Seq::new(
                alphabet(ws).len(),
                |b: int|
                    if has_edge(spec_indexed(ws), a, b) {
                        1int
                    } else {
                        0int
                    },
            ),
    )
}

/// The longest-path closure of `ws`: the adjacency matrix squared under
/// max-plus until the doubling exponent reaches the alphabet size.
pub open spec fn spec_closure(ws: Seq<Seq<char>>) -> Seq<Seq<int>> {
    mp_iter(spec_adjacency(ws), squarings_from(1, alphabet(ws).len() as int))
}

/// The inferred character order of the word list `ws`, or the first
/// failure of rank extraction.
pub open spec fn spec_lexical_order(ws: Seq<Seq<char>>) -> Result<Seq<char>, OrderError> {
    match spec_ranks(spec_closure(ws), alphabet(ws).len() as int) {
        Ok(idxs) => Ok(idxs.map_values(|x: usize| alphabet(ws)[x as int])),
        Err(e) => Err(e),
    }
}

/// A returned character list lifted to its mathematical view.
pub open spec fn order_view(r: Result<Vec<char>, OrderError>) -> Result<Seq<char>, OrderError> {
    match r {
        Ok(v) => Ok(v@),
        Err(e) => Err(e),
    }
}

/// The adjacency matrix is square of the alphabet's dimension with
/// nonnegative entries.
proof fn lemma_spec_adjacency_shape(ws: Seq<Seq<char>>)
    ensures
        spec_adjacency(ws).len() == alphabet(ws).len(),
        crate::graph::is_square(spec_adjacency(ws), alphabet(ws).len() as int),
        crate::closure::entries_nonneg(spec_adjacency(ws)),
{
}

/// For every valid input (no cycle, no collision) the returned character
/// sequence has exactly one entry per distinct input character, with no
/// duplicates.
pub proof fn lemma_order_complete(ws: Seq<Seq<char>>)
    ensures
        spec_lexical_order(ws) matches Ok(out) ==> {
            &&& out.len() == alphabet(ws).len()
            &&& out.no_duplicates()
        },
{
    let cs = alphabet(ws);
    let dim = cs.len() as int;
    crate::indexer::lemma_alphabet(ws);
    lemma_distinct_chars_bound(cs);
    lemma_spec_adjacency_shape(ws);
    let d = spec_closure(ws);
    crate::closure::lemma_mp_iter_shape(spec_adjacency(ws), squarings_from(1, dim));
    assert forall|p: int| 0 <= p < d.len() implies row_max(#[trigger] d[p]) >= 0 by {
        assert(d[p].len() == dim);
        assert(0 <= d[p][0]);
        lemma_row_max_ge(d[p], d[p].len() as int, 0);
    }
    lemma_spec_ranks_ok(d, dim);
    match spec_ranks(d, dim) {
        Ok(idxs) => {
            let out = idxs.map_values(|x: usize| alphabet(ws)[x as int]);
            assert(out.len() == dim);
            assert forall|k1: int, k2: int| 0 <= k1 < k2 < out.len() implies out[k1] != out[k2] by {
                assert(idxs[k1] != idxs[k2]);
                assert(out[k1] == cs[idxs[k1] as int]);
                assert(out[k2] == cs[idxs[k2] as int]);
            }
        },
        Err(_) => {},
    }
}

/// Running the pipeline twice on the same input yields the same outcome:
/// any two results that meet the contract of `lexical_order` on the same
/// word list are equal.
pub proof fn lemma_order_deterministic(
    ws: Seq<Seq<char>>,
    r1: Result<Vec<char>, OrderError>,
    r2: Result<Vec<char>, OrderError>,
)
    requires
        order_view(r1) == spec_lexical_order(ws),
        order_view(r2) == spec_lexical_order(ws),
    ensures
        order_view(r1) == order_view(r2),
{
}

/// Indexing a word and then restoring it through the reverse mapping
/// recovers the original word exactly.
pub proof fn lemma_round_trip(ws: Seq<Seq<char>>, i: int)
    requires
        0 <= i < ws.len(),
    ensures
        spec_indexed(ws)[i].map_values(|x: int| alphabet(ws)[x]) == ws[i],
{
    crate::indexer::lemma_alphabet(ws);
    let cs = alphabet(ws);
    let w = ws[i];
    let idx = spec_indexed(ws)[i];
    assert(idx == w.map_values(|c: char| first_index_of(cs, c)));
    let restored = idx.map_values(|x: int| cs[x]);
    assert forall|j: int| 0 <= j < w.len() implies restored[j] == w[j] by {
        assert(ws[i][j] == w[j]);
        assert(ws[i].contains(w[j]));
        assert(cs.contains(w[j]));
        crate::indexer::lemma_first_index_of(cs, w[j]);
        assert(idx[j] == first_index_of(cs, w[j]));
    }
    assert(restored =~= w);
}

/// Receives a list of words that are sorted according to an unknown
/// character precedence and returns their characters in the determined
/// order, or the first cycle or rank collision found.
pub fn lexical_order(words: &[String]) -> (res: Result<Vec<char>, OrderError>)
    ensures
        order_view(res) == spec_lexical_order(words_view(words@)),
{
    let ghost wv = words_view(words@);
    let (indexed, chars) = index_chars(words);
    let dim = chars.len();
    proof {
        lemma_distinct_chars_bound(chars@);
        assert(mat_of(indexed@) =~~= spec_indexed(wv)) by {
            assert forall|i: int, j: int|
                0 <= i < wv.len() && 0 <= j < wv[i].len() implies #[trigger] spec_indexed(
                wv,
            )[i][j] == indexed@[i]@[j] as int by {
                assert(wv[i] == words@[i]@);
                assert(spec_indexed(wv)[i] == wv[i].map_values(
                    |c: char| first_index_of(alphabet(wv), c),
                ));
                assert(spec_indexed(wv)[i][j] == first_index_of(alphabet(wv), wv[i][j]));
                lemma_first_index_unique(chars@, indexed@[i]@[j] as int);
            }
            assert(forall|i: int| 0 <= i < wv.len() ==> (#[trigger] wv[i]).len()
                == words@[i]@.len());
            assert(forall|i: int| 0 <= i < indexed@.len() ==> (#[trigger] mat_of(indexed@)[i]).len()
                == indexed@[i]@.len());
            assert(forall|i: int, j: int|
                #![trigger mat_of(indexed@)[i][j]]
                0 <= i < indexed@.len() && 0 <= j < indexed@[i]@.len() ==> mat_of(indexed@)[i][j]
                    == indexed@[i]@[j] as int);
        }
    }
    let mut dist = adjacency(indexed.as_slice(), dim);
    let ghost adj0 = spec_adjacency(wv);
    proof {
        assert(forall|p: int| 0 <= p < dist@.len() ==> (#[trigger] mat_of(dist@)[p]).len()
            == dist@[p]@.len());
        assert(forall|p: int, q: int|
            #![trigger mat_of(dist@)[p][q]]
            0 <= p < dist@.len() && 0 <= q < dist@[p]@.len() ==> mat_of(dist@)[p][q]
                == dist@[p]@[q] as int);
        assert(mat_of(dist@) =~~= adj0);
        assert(mp_iter(adj0, 0) == adj0);
    }
    let ghost mut steps: nat = 0nat;
    let mut pow: usize = 1;
    while pow < dim
        invariant
            wv == words_view(words@),
            chars@ == alphabet(wv),
            dim == chars@.len(),
            dim <= 0x110000,
            adj0 == spec_adjacency(wv),
            1 <= pow,
            dist@.len() == dim,
            forall|p: int| 0 <= p < dim ==> (#[trigger] dist@[p])@.len() == dim,
            forall|p: int, q: int|
                #![trigger dist@[p]@[q]]
                0 <= p < dim && 0 <= q < dim ==> dist@[p]@[q] <= pow,
            mat_of(dist@) == mp_iter(adj0, steps),
            squarings_from(1, dim as int) == steps + squarings_from(pow as int, dim as int),
        decreases 2 * dim - pow,
    {
        let ghost prev = dist@;
        proof {
            assert(forall|p: int| 0 <= p < prev.len() ==> (#[trigger] mat_of(prev)[p]).len()
                == prev[p]@.len());
            assert(forall|p: int, q: int|
                #![trigger mat_of(prev)[p][q]]
                0 <= p < prev.len() && 0 <= q < prev[p]@.len() ==> mat_of(prev)[p][q]
                    == prev[p]@[q] as int);
            assert(forall|p: int, q: int|
                #![trigger dist@[p]@[q]]
                0 <= p < dim && 0 <= q < dim ==> dist@[p]@[q] <= usize::MAX / 2);
        }
        dist = maxplus(dist);
        proof {
            assert(forall|p: int| 0 <= p < dist@.len() ==> (#[trigger] mat_of(dist@)[p]).len()
                == dist@[p]@.len());
            assert(forall|p: int, q: int|
                #![trigger mat_of(dist@)[p][q]]
                0 <= p < dist@.len() && 0 <= q < dist@[p]@.len() ==> mat_of(dist@)[p][q]
                    == dist@[p]@[q] as int);
            crate::closure::lemma_mp_square_bound(mat_of(prev), pow as int);
            assert(mp_iter(adj0, steps + 1) == mp_square(mp_iter(adj0, steps)));
            steps = steps + 1;
            assert(mat_of(dist@) == mp_iter(adj0, steps));
            assert(squarings_from(pow as int, dim as int) == 1 + squarings_from(
                2 * pow as int,
                dim as int,
            ));
            assert forall|p: int, q: int|
                #![trigger dist@[p]@[q]]
                0 <= p < dim && 0 <= q < dim implies dist@[p]@[q] <= 2 * pow by {
                assert(dist@[p]@[q] as int == mat_of(dist@)[p][q]);
                assert(crate::closure::entries_bounded(mat_of(dist@), 0, 2 * pow as int));
            }
        }
        pow = pow * 2;
    }
    proof {
        assert(squarings_from(pow as int, dim as int) == 0);
        assert(mat_of(dist@) == spec_closure(wv));
    }
    let ranked = sorted_indices(dist.as_slice());
    proof {
        assert(ranks_view(ranked) == spec_ranks(spec_closure(wv), dim as int));
    }
    match ranked {
        Err(e) => Err(e),
        Ok(idxs) => {
            proof {
                assert forall|p: int| 0 <= p < spec_closure(wv).len() implies row_max(
                    #[trigger] spec_closure(wv)[p],
                ) >= 0 by {
                    assert(spec_closure(wv)[p] == mat_of(dist@)[p]);
                    assert(mat_of(dist@)[p][0] == dist@[p]@[0] as int);
                    lemma_row_max_ge(spec_closure(wv)[p], spec_closure(wv)[p].len() as int, 0);
                }
                lemma_spec_ranks_ok(spec_closure(wv), dim as int);
                assert(forall|k: int| 0 <= k < idxs@.len() ==> (#[trigger] idxs@[k])
                    < chars@.len());
            }
            let out = restore_chars(idxs.as_slice(), chars.as_slice());
            proof {
                assert(out@ =~= idxs@.map_values(|x: usize| alphabet(wv)[x as int]));
            }
            Ok(out)
        },
    }
}


} // verus!
