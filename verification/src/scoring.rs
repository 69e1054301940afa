//! Item-score aggregation and top-N recommendation extraction.
//!
//! For each selected neighbor session, its first match position is the
//! 1-based distance from the evolving session's end to the nearest shared
//! item; the neighbor's weight is `linear_score` of that position.  Every
//! item of the neighbor session receives weight x idf x similarity.
//! After aggregation the evolving session's most recent item is removed
//! (self-exclusion), and the top N item scores are extracted, ties broken
//! by the smaller item id.  Scores are exact integer numerators over the
//! common denominator 10 x distinct_count x IDF_SCALE.

use vstd::prelude::*;
use crate::types::{Score, ItemScore, SessionScore, ProductAttributes};
use crate::index::VMISkNN;
use crate::idf::IDF_SCALE;
use crate::neighbors::{
    neighbors_spec,
    neighbor_ok,
    distinct_count,
    seen_set,
    is_authoritative,
};
use std::collections::HashSet;

verus! {

broadcast use vstd::std_specs::hash::group_hash_axioms;

/// The relevance-of-recency weight for a 1-based match position, as the
/// numerator of a rational with denominator 10: (10 - p)/10 for p below
/// 100, else zero.
pub open spec fn spec_linear_score_num(p: int) -> int {
    if p < 100 {
        10 - p
    } else {
        0
    }
}

/// The bounded, monotonically decreasing relevance-of-recency weight, as
/// an exact rational with denominator 10.
pub fn linear_score(pos: usize) -> (r: Score)
    ensures
        r.num == spec_linear_score_num(pos as int),
        r.den == 10,
{
    if pos < 100 {
        Score { num: 10 - pos as i128, den: 10 }
    } else {
        Score { num: 0, den: 10 }
    }
}

/// The first match position from reverse position `q` on: the 1-based
/// distance from the session end to the nearest shared item.
pub open spec fn first_match_at(e: Seq<u64>, items: Seq<u64>, q: int) -> int
    decreases e.len() - q,
{
    if q < 0 || q >= e.len() {
        e.len() as int + 1
    } else if items.contains(e[e.len() - 1 - q]) {
        q + 1
    } else {
        first_match_at(e, items, q + 1)
    }
}

pub open spec fn first_match_pos(e: Seq<u64>, items: Seq<u64>) -> int {
    first_match_at(e, items, 0)
}

fn vec_contains(v: &Vec<u64>, x: u64) -> (r: bool)
    ensures
        r == v@.contains(x),
{
    let mut q: usize = 0;
    while q < v.len()
        invariant
            q <= v@.len(),
            forall|p: int| 0 <= p < q ==> v@[p] != x,
        decreases v@.len() - q,
    {
        if v[q] == x {
            return true;
        }
        q = q + 1;
    }
    false
}

/// The 1-based distance from the evolving session's end to the nearest
/// item shared with the neighbor session.
pub fn first_match_position(evolving_session: &Vec<u64>, items: &Vec<u64>) -> (r: usize)
    requires
        exists|q: int|
            0 <= q < evolving_session@.len() && items@.contains(
                #[trigger] evolving_session@[q],
            ),
    ensures
        r as int == first_match_pos(evolving_session@, items@),
        1 <= r <= evolving_session@.len(),
{
    let ghost e = evolving_session@;
    let len = evolving_session.len();
    let mut q: usize = 0;
    proof {
        let f = choose|f: int|
            0 <= f < e.len() && items@.contains(#[trigger] e[f]);
        assert(exists|qq: int|
            0 <= qq < e.len() && items@.contains(#[trigger] e[e.len() - 1 - qq])) by {
            assert(items@.contains(e[e.len() - 1 - (e.len() - 1 - f)]));
        }
    }
    loop
        invariant
            q < len,
            len == e.len(),
            evolving_session@ == e,
            first_match_at(e, items@, 0) == first_match_at(e, items@, q as int),
            exists|qq: int| q <= qq < e.len() && items@.contains(#[trigger] e[e.len() - 1 - qq]),
        decreases len - q,
    {
        if vec_contains(items, evolving_session[len - 1 - q]) {
            return q + 1;
        }
        proof {
            let qq = choose|qq: int|
                q <= qq < e.len() && items@.contains(#[trigger] e[e.len() - 1 - qq]);
            assert(qq != q);
        }
        q = q + 1;
    }
}

/// Adds one contribution to an item's running score; a new item is
/// appended.
pub open spec fn acc_item_step(acc: Seq<(u64, i128)>, it: u64, gain: int) -> Seq<(u64, i128)> {
    if exists|q: int| 0 <= q < acc.len() && acc[q].0 == it {
        let q = choose|q: int| 0 <= q < acc.len() && acc[q].0 == it;
        acc.update(q, (it, (acc[q].1 + gain) as i128))
    } else {
        acc.push((it, gain as i128))
    }
}

/// Folds the first `j` items of a neighbor session into the scores, each
/// with contribution `wsim` x its idf weight.
pub open spec fn acc_items(
    acc: Seq<(u64, i128)>,
    items: Seq<u64>,
    wsim: int,
    idf: Map<u64, u64>,
    j: int,
) -> Seq<(u64, i128)>
    decreases j,
{
    if j <= 0 {
        acc
    } else {
        let prev = acc_items(acc, items, wsim, idf, j - 1);
        acc_item_step(prev, items[j - 1], wsim * idf[items[j - 1]])
    }
}

/// Folds the first `n` selected neighbors into the item scores.
pub open spec fn acc_neighbors(
    index: VMISkNN,
    e: Seq<u64>,
    nbrs: Seq<SessionScore>,
    n: int,
) -> Seq<(u64, i128)>
    decreases n,
{
    if n <= 0 {
        Seq::empty()
    } else {
        let acc = acc_neighbors(index, e, nbrs, n - 1);
        let sc = nbrs[n - 1];
        let items = index.session_items@[sc.id]@;
        let wsim = spec_linear_score_num(first_match_pos(e, items)) * sc.score.num;
        acc_items(acc, items, wsim, index.item_idf@, items.len() as int)
    }
}

/// Removes the entry of the given item, if any (self-exclusion).
pub open spec fn exclude_item(acc: Seq<(u64, i128)>, it: u64) -> Seq<(u64, i128)> {
    if exists|q: int| 0 <= q < acc.len() && acc[q].0 == it {
        let q = choose|q: int| 0 <= q < acc.len() && acc[q].0 == it;
        acc.remove(q)
    } else {
        acc
    }
}

/// The aggregated, self-excluded item scores of an evolving session.
pub open spec fn scores_spec(index: VMISkNN, e: Seq<u64>, k: int, m: int) -> Seq<(u64, i128)> {
    let nbrs = neighbors_spec(index, e, k, m);
    exclude_item(acc_neighbors(index, e, nbrs, nbrs.len() as int), e.last())
}

/// Ranking for the top-N extraction: the larger score first, ties broken
/// deterministically by the smaller item id.
pub open spec fn item_ranks_before(a: (u64, i128), b: (u64, i128)) -> bool {
    a.1 > b.1 || (a.1 == b.1 && a.0 < b.0)
}

/// The index of the best-ranked item score.
pub open spec fn best_item_index(sc: Seq<(u64, i128)>) -> int
    decreases sc.len(),
{
    if sc.len() <= 1 {
        0
    } else {
        let r = best_item_index(sc.drop_last());
        if item_ranks_before(sc.last(), sc[r]) {
            sc.len() - 1
        } else {
            r
        }
    }
}

pub proof fn lemma_best_item_index(sc: Seq<(u64, i128)>)
    requires
        sc.len() >= 1,
    ensures
        0 <= best_item_index(sc) < sc.len(),
        forall|q: int|
            0 <= q < sc.len() ==> !item_ranks_before(#[trigger] sc[q], sc[best_item_index(sc)]),
    decreases sc.len(),
{
    if sc.len() > 1 {
        lemma_best_item_index(sc.drop_last());
        assert(forall|q: int| 0 <= q < sc.len() - 1 ==> sc.drop_last()[q] == sc[q]);
    }
}

/// The N best-ranked item scores, best first.
pub open spec fn top_n_spec(sc: Seq<(u64, i128)>, n: int) -> Seq<(u64, i128)>
    decreases n,
{
    if n <= 0 || sc.len() == 0 {
        Seq::empty()
    } else {
        let b = best_item_index(sc);
        seq![sc[b]] + top_n_spec(sc.remove(b), n - 1)
    }
}

/// The common denominator of every item score of one query.
pub open spec fn score_den(e: Seq<u64>) -> int {
    10 * distinct_count(e, e.len() as int) * IDF_SCALE
}

/// The recommendation list: top N self-excluded item scores, best first,
/// as exact rationals over the query's common denominator.
pub open spec fn predict_spec(index: VMISkNN, e: Seq<u64>, k: int, m: int, n: int) -> Seq<
    ItemScore,
> {
    top_n_spec(scores_spec(index, e, k, m), n).map_values(
        |p: (u64, i128)| ItemScore { id: p.0, score: Score { num: p.1, den: score_den(e) as u64 } },
    )
}

/// The number of distinct items in the evolving session.
pub fn distinct_item_count(evolving_session: &Vec<u64>) -> (r: usize)
    ensures
        r as int == distinct_count(evolving_session@, evolving_session@.len() as int),
        r <= evolving_session@.len(),
{
    let ghost e = evolving_session@;
    let len = evolving_session.len();
    let mut seen: HashSet<u64> = HashSet::new();
    let mut dc: usize = 0;
    let mut p: usize = 0;
    proof {
        assert(seen@ =~= seen_set(e, 0));
    }
    while p < len
        invariant
            p <= len,
            len == e.len(),
            evolving_session@ == e,
            seen@ == seen_set(e, p as int),
            dc == distinct_count(e, p as int),
            dc <= p,
        decreases len - p,
    {
        let item = evolving_session[len - 1 - p];
        let newly = seen.insert(item);
        proof {
            assert(seen@ =~= seen_set(e, p as int + 1)) by {
                assert forall|x: u64| seen_set(e, p as int + 1).contains(x) implies seen@.contains(
                    x,
                ) by {
                    let q = choose|q: int| 0 <= q < p + 1 && #[trigger] e[e.len() - 1 - q] == x;
                    if q < p {
                        assert(seen_set(e, p as int).contains(x));
                    }
                }
                assert forall|x: u64| seen@.contains(x) implies seen_set(e, p as int + 1).contains(
                    x,
                ) by {
                    if seen_set(e, p as int).contains(x) {
                        let q = choose|q: int| 0 <= q < p && #[trigger] e[e.len() - 1 - q] == x;
                        assert(e[e.len() - 1 - q] == x);
                    } else {
                        assert(x == e[e.len() - 1 - p as int]);
                    }
                }
            }
            assert(newly == is_authoritative(e, p as int)) by {
                if newly {
                    assert forall|q: int|
                        0 <= q < p implies #[trigger] e[e.len() - 1 - q] != e[e.len() - 1
                        - p as int] by {
                        if e[e.len() - 1 - q] == e[e.len() - 1 - p as int] {
                            assert(seen_set(e, p as int).contains(item));
                        }
                    }
                } else {
                    let q = choose|q: int| 0 <= q < p && #[trigger] e[e.len() - 1 - q] == item;
                    assert(!is_authoritative(e, p as int));
                }
            }
        }
        if newly {
            dc = dc + 1;
        }
        p = p + 1;
    }
    dc
}

/// No single neighbor contribution to one item exceeds this magnitude.
pub const SCORE_GAIN_BOUND: i128 = 0x100000000000000000;

fn item_ranked_before(a: &(u64, i128), b: &(u64, i128)) -> (r: bool)
    ensures
        r == item_ranks_before(*a, *b),
{
    a.1 > b.1 || (a.1 == b.1 && a.0 < b.0)
}

/// One-shot recommendation: selects up to `k` neighbors among the `m`
/// most recent candidate sessions per item, aggregates idf-weighted item
/// scores over them, removes the evolving session's most recent item, and
/// returns the top `how_many` items, best first.  A pure function of the
/// index and the session prefix.
/// Aggregates the self-excluded item scores of one query.
fn aggregate_scores(index: &VMISkNN, evolving_session: &Vec<u64>, k: usize, m: usize) -> (r: Vec<
    (u64, i128),
>)
    requires
        index.wf(),
        1 <= k,
        1 <= m <= 1048576,
        1 <= evolving_session@.len() <= 100000,
    ensures
        r@ == scores_spec(*index, evolving_session@, k as int, m as int),
        forall|a: int, b: int| 0 <= a < b < r@.len() ==> r@[a].0 != r@[b].0,
        forall|q: int| 0 <= q < r@.len() ==> (#[trigger] r@[q]).0 != evolving_session@.last(),
{
    let ghost e = evolving_session@;
    let len = evolving_session.len();
    let neighbors = index.find_neighbors(evolving_session, k, m);
    let ghost nbrs = neighbors@;
    let ghost gmax: int = SCORE_GAIN_BOUND as int;
    let mut scores: Vec<(u64, i128)> = Vec::new();
    let mut ni: usize = 0;
    proof {
        assert(scores@ =~= acc_neighbors(*index, e, nbrs, 0));
    }
    while ni < neighbors.len()
        invariant
            index.wf(),
            ni <= nbrs.len(),
            nbrs.len() <= m <= 1048576,
            neighbors@ == nbrs,
            evolving_session@ == e,
            len == e.len(),
            1 <= e.len() <= 100000,
            gmax == SCORE_GAIN_BOUND as int,
            forall|q: int|
                0 <= q < nbrs.len() ==> neighbor_ok(*index, e, #[trigger] nbrs[q]),
            scores@ == acc_neighbors(*index, e, nbrs, ni as int),
            forall|a: int, b: int| 0 <= a < b < scores@.len() ==> scores@[a].0 != scores@[b].0,
            forall|q: int|
                0 <= q < scores@.len() ==> -(ni as int * gmax) <= (#[trigger] scores@[q]).1
                    <= ni as int * gmax,
        decreases nbrs.len() - ni,
    {
        let ghost acc_ni = scores@;
        let sc = neighbors[ni];
        proof {
            assert(neighbor_ok(*index, e, sc));
        }
        let items = index.session_items.get(&sc.id).unwrap();
        let ghost iseq = items@;
        proof {
            assert(iseq == index.session_items@[sc.id]@);
        }
        let fmp = first_match_position(evolving_session, items);
        let w: i128 = if fmp < 100 {
            10 - fmp as i128
        } else {
            0
        };
        proof {
            assert(w as int == spec_linear_score_num(fmp as int));
            assert(e.len() * e.len() <= 10000000000int) by (nonlinear_arith)
                requires
                    e.len() <= 100000,
            ;
            assert(-89 <= w <= 10);
            assert(-890000000000int <= (w as int) * (sc.score.num as int) <= 890000000000int)
                by (nonlinear_arith)
                requires
                    -89 <= (w as int) <= 10,
                    1 <= (sc.score.num as int) <= 10000000000int,
            ;
        }
        let wsim: i128 = w * sc.score.num;
        proof {
            assert(-(890000000000int * 0x4000000) <= wsim as int * 0x4000000 <= 890000000000int
                * 0x4000000) by (nonlinear_arith)
                requires
                    -890000000000int <= (wsim as int) <= 890000000000int,
            ;
        }
        let mut j: usize = 0;
        proof {
            assert(acc_items(acc_ni, iseq, wsim as int, index.item_idf@, 0) == acc_ni);
        }
        while j < items.len()
            invariant
                index.wf(),
                j <= iseq.len(),
                items@ == iseq,
                index.session_items@.contains_key(sc.id),
                iseq == index.session_items@[sc.id]@,
                ni < nbrs.len() <= m <= 1048576,
                gmax == SCORE_GAIN_BOUND as int,
                -(890000000000int * 0x4000000) <= wsim as int * 0x4000000 <= 890000000000int
                    * 0x4000000,
                scores@ == acc_items(acc_ni, iseq, wsim as int, index.item_idf@, j as int),
                forall|a: int, b: int| 0 <= a < b < scores@.len() ==> scores@[a].0 != scores@[b].0,
                forall|q: int|
                    0 <= q < scores@.len() ==> -((ni as int + 1) * gmax) <= (
                    #[trigger] scores@[q]).1 <= (ni as int + 1) * gmax,
                forall|q: int, jj: int|
                    0 <= q < scores@.len() && j <= jj < iseq.len() && (#[trigger] scores@[q]).0
                        == #[trigger] iseq[jj] ==> -(ni as int * gmax) <= scores@[q].1 <= ni as int
                        * gmax,
            decreases iseq.len() - j,
        {
            let it = items[j];
            proof {
                assert(index.item_idf@.contains_key(it)) by {
                    assert(index.session_items@[sc.id]@[j as int] == it);
                }
            }
            let idfw = *index.item_idf.get(&it).unwrap();
            proof {
                assert(-gmax <= (wsim as int) * (idfw as int) <= gmax) by (nonlinear_arith)
                    requires
                        0 <= (idfw as int) < 0x4000000,
                        -(890000000000int * 0x4000000) <= (wsim as int) * 0x4000000
                            <= 890000000000int * 0x4000000,
                        gmax == 0x100000000000000000,
                ;
            }
            let gain: i128 = wsim * (idfw as i128);
            proof {
                assert((ni as int + 1) * gmax <= 1048576 * gmax) by (nonlinear_arith)
                    requires
                        0 <= ni as int + 1 <= 1048576,
                        gmax == 0x100000000000000000,
                ;
                assert((ni as int + 1) * gmax == ni as int * gmax + gmax) by (nonlinear_arith);
            }
            let found = find_item_index(&scores, it);
            match found {
                Some(qi) => {
                    proof {
                        let qq = choose|qq: int| 0 <= qq < scores@.len() && scores@[qq].0 == it;
                        if qq != qi as int {
                            if qq < qi as int {
                                assert(scores@[qq].0 != scores@[qi as int].0);
                            } else {
                                assert(scores@[qi as int].0 != scores@[qq].0);
                            }
                        }
                        assert(-(ni as int * gmax) <= scores@[qi as int].1 <= ni as int * gmax) by {
                            assert(scores@[qi as int].0 == iseq[j as int]);
                        }
                    }
                    let ghost pre = scores@;
                    let en = vstd::std_specs::vec::vec_index_mut(&mut scores, qi);
                    en.1 = en.1 + gain;
                    j = j + 1;
                    proof {
                        assert(scores@ =~= pre.update(
                            qi as int,
                            (it, (pre[qi as int].1 + gain) as i128),
                        ));
                        assert forall|q: int, jj: int|
                            0 <= q < scores@.len() && j <= jj < iseq.len() && (
                            #[trigger] scores@[q]).0 == #[trigger] iseq[jj] implies -(ni as int
                            * gmax) <= scores@[q].1 <= ni as int * gmax by {
                            if q == qi as int {
                                assert(iseq[jj] == it);
                                assert(false);
                            }
                        }
                    }
                },
                None => {
                    let ghost pre = scores@;
                    scores.push((it, gain));
                    j = j + 1;
                    proof {
                        assert forall|q: int, jj: int|
                            0 <= q < scores@.len() && j <= jj < iseq.len() && (
                            #[trigger] scores@[q]).0 == #[trigger] iseq[jj] implies -(ni as int
                            * gmax) <= scores@[q].1 <= ni as int * gmax by {
                            if q == pre.len() as int {
                                assert(iseq[jj] == it);
                                assert(false);
                            }
                        }
                    }
                },
            }
        }
        ni = ni + 1;
        proof {
            assert(scores@ == acc_neighbors(*index, e, nbrs, ni as int));
            assert forall|q: int|
                0 <= q < scores@.len() implies -(ni as int * gmax) <= (#[trigger] scores@[q]).1
                <= ni as int * gmax by {
                assert((ni as int) * gmax == (ni as int - 1) * gmax + gmax) by (nonlinear_arith);
            }
        }
    }
    // Self-exclusion: the most recent item never appears in the output.
    let last_item = evolving_session[len - 1];
    let ghost pre_excl = scores@;
    let found_last = find_item_index(&scores, last_item);
    match found_last {
        Some(qi) => {
            proof {
                let qq = choose|qq: int| 0 <= qq < scores@.len() && scores@[qq].0 == last_item;
                if qq != qi as int {
                    if qq < qi as int {
                        assert(scores@[qq].0 != scores@[qi as int].0);
                    } else {
                        assert(scores@[qi as int].0 != scores@[qq].0);
                    }
                }
            }
            scores.remove(qi);
            proof {
                assert(scores@ == exclude_item(pre_excl, e.last()));
                assert forall|q: int|
                    0 <= q < scores@.len() implies (#[trigger] scores@[q]).0 != e.last() by {
                    if q < qi as int {
                        assert(pre_excl[q].0 != pre_excl[qi as int].0);
                    } else {
                        assert(pre_excl[qi as int].0 != pre_excl[q + 1].0);
                    }
                }
            }
        },
        None => {
            proof {
                assert(scores@ == exclude_item(pre_excl, e.last()));
            }
        },
    }
    proof {
        assert(scores@ == scores_spec(*index, e, k as int, m as int));
    }
    scores
}

/// Extracts the `how_many` best-ranked items, best first, converting
/// numerators to scores over the given common denominator.
fn select_top_items(scores: Vec<(u64, i128)>, how_many: usize, den: u64) -> (r: Vec<ItemScore>)
    requires
        forall|a: int, b: int| 0 <= a < b < scores@.len() ==> scores@[a].0 != scores@[b].0,
    ensures
        r@ == top_n_spec(scores@, how_many as int).map_values(
            |p: (u64, i128)| ItemScore { id: p.0, score: Score { num: p.1, den } },
        ),
        r@.len() <= how_many,
        forall|q: int|
            0 <= q < r@.len() ==> exists|p: int|
                0 <= p < scores@.len() && (#[trigger] r@[q]).id == scores@[p].0,
        forall|a: int, b: int| 0 <= a < b < r@.len() ==> r@[a].id != r@[b].id,
{
    let mut scores = scores;
    let ghost sc_full = scores@;
    let ghost conv = |p: (u64, i128)| ItemScore { id: p.0, score: Score { num: p.1, den } };
    let mut out: Vec<ItemScore> = Vec::new();
    let mut taken: usize = 0;
    proof {
        assert(top_n_spec(sc_full, how_many as int).map_values(conv) =~= out@ + top_n_spec(
            scores@,
            how_many as int - taken as int,
        ).map_values(conv));
    }
    while taken < how_many && scores.len() > 0
        invariant
            taken <= how_many,
            out@.len() == taken,
            conv == (|p: (u64, i128)| ItemScore { id: p.0, score: Score { num: p.1, den } }),
            forall|q2: int|
                0 <= q2 < scores@.len() ==> exists|p: int|
                    0 <= p < sc_full.len() && #[trigger] scores@[q2] == sc_full[p],
            forall|q: int|
                0 <= q < out@.len() ==> exists|p: int|
                    0 <= p < sc_full.len() && (#[trigger] out@[q]).id == sc_full[p].0,
            top_n_spec(sc_full, how_many as int).map_values(conv) == out@ + top_n_spec(
                scores@,
                how_many as int - taken as int,
            ).map_values(conv),
            forall|a: int, b: int| 0 <= a < b < scores@.len() ==> scores@[a].0 != scores@[b].0,
            forall|a: int, b: int| 0 <= a < b < out@.len() ==> out@[a].id != out@[b].id,
            forall|q1: int, q2: int|
                0 <= q1 < out@.len() && 0 <= q2 < scores@.len() ==> (#[trigger] out@[q1]).id != (
                #[trigger] scores@[q2]).0,
        decreases how_many - taken,
    {
        let ghost pre = scores@;
        let mut b: usize = 0;
        let mut qi: usize = 1;
        while qi < scores.len()
            invariant
                b < qi <= scores@.len() || (qi == 1 && b == 0 && scores@.len() >= 1),
                b < scores@.len(),
                forall|q: int|
                    0 <= q < qi ==> !item_ranks_before(#[trigger] scores@[q], scores@[b as int]),
            decreases scores@.len() - qi,
        {
            if item_ranked_before(&scores[qi], &scores[b]) {
                b = qi;
            }
            qi = qi + 1;
        }
        proof {
            lemma_best_item_index(pre);
            let bi = best_item_index(pre);
            if b as int != bi {
                assert(!item_ranks_before(pre[bi], pre[b as int]));
                assert(!item_ranks_before(pre[b as int], pre[bi]));
                if bi < b as int {
                    assert(pre[bi].0 != pre[b as int].0);
                } else {
                    assert(pre[b as int].0 != pre[bi].0);
                }
            }
            assert(b as int == best_item_index(pre));
        }
        let en = scores.remove(b);
        out.push(ItemScore { id: en.0, score: Score { num: en.1, den } });
        taken = taken + 1;
        proof {
            let rest = top_n_spec(pre, how_many as int - taken as int + 1);
            assert(rest == seq![en] + top_n_spec(scores@, how_many as int - taken as int));
            assert(rest.map_values(conv) =~= seq![conv(en)] + top_n_spec(
                scores@,
                how_many as int - taken as int,
            ).map_values(conv));
            assert(out@ + top_n_spec(scores@, how_many as int - taken as int).map_values(conv)
                =~= (out@.drop_last() + rest.map_values(conv)));
            assert(out@.drop_last() + rest.map_values(conv) =~= top_n_spec(
                sc_full,
                how_many as int,
            ).map_values(conv));
            assert forall|q2: int|
                0 <= q2 < scores@.len() implies exists|p: int|
                0 <= p < sc_full.len() && #[trigger] scores@[q2] == sc_full[p] by {
                let orig = if q2 < b as int {
                    q2
                } else {
                    q2 + 1
                };
                assert(scores@[q2] == pre[orig]);
            }
            assert(exists|p: int| 0 <= p < sc_full.len() && pre[b as int] == sc_full[p]);
            assert forall|q1: int, q2: int|
                0 <= q1 < out@.len() && 0 <= q2 < scores@.len() implies (#[trigger] out@[q1]).id
                != (#[trigger] scores@[q2]).0 by {
                let orig = if q2 < b as int {
                    q2
                } else {
                    q2 + 1
                };
                assert(scores@[q2] == pre[orig]);
                if q1 == out@.len() - 1 {
                    if (b as int) < orig {
                        assert(pre[b as int].0 != pre[orig].0);
                    } else {
                        assert(pre[orig].0 != pre[b as int].0);
                    }
                }
            }
        }
    }
    proof {
        assert(top_n_spec(scores@, how_many as int - taken as int).map_values(conv) =~= Seq::<
            ItemScore,
        >::empty());
        assert(out@ =~= out@ + Seq::<ItemScore>::empty());
        assert(out@ == top_n_spec(sc_full, how_many as int).map_values(conv));
    }
    out
}

/// One-shot recommendation: selects up to `k` neighbors among the `m`
/// most recent candidate sessions per item, aggregates idf-weighted item
/// scores over them, removes the evolving session's most recent item, and
/// returns the top `how_many` items, best first.  A pure function of the
/// index and the session prefix.  The bounds on `m` and on the session
/// length keep every exact score within 128 bits.
pub fn predict(
    index: &VMISkNN,
    evolving_session: &Vec<u64>,
    k: usize,
    m: usize,
    how_many: usize,
) -> (r: Vec<ItemScore>)
    requires
        index.wf(),
        1 <= k,
        1 <= m <= 1048576,
        1 <= evolving_session@.len() <= 100000,
    ensures
        r@ == predict_spec(*index, evolving_session@, k as int, m as int, how_many as int),
        r@.len() <= how_many,
        forall|q: int| 0 <= q < r@.len() ==> (#[trigger] r@[q]).id != evolving_session@.last(),
        forall|a: int, b: int| 0 <= a < b < r@.len() ==> r@[a].id != r@[b].id,
{
    let ghost e = evolving_session@;
    let scores = aggregate_scores(index, evolving_session, k, m);
    let ghost sc = scores@;
    let dcount = distinct_item_count(evolving_session);
    let den: u64 = 10 * (dcount as u64) * IDF_SCALE;
    proof {
        assert(den as int == score_den(e));
    }
    let r = select_top_items(scores, how_many, den);
    proof {
        let conv1 = |p: (u64, i128)| ItemScore { id: p.0, score: Score { num: p.1, den } };
        let conv2 = |p: (u64, i128)| ItemScore {
            id: p.0,
            score: Score { num: p.1, den: score_den(e) as u64 },
        };
        assert(top_n_spec(sc, how_many as int).map_values(conv1) =~= top_n_spec(
            sc,
            how_many as int,
        ).map_values(conv2));
        assert forall|q: int| 0 <= q < r@.len() implies (#[trigger] r@[q]).id != e.last() by {
            let p = choose|p: int| 0 <= p < sc.len() && r@[q].id == sc[p].0;
        }
    }
    r
}

/// The catalog attributes the index knows for an item, if any.
pub open spec fn attrs_of(index: VMISkNN, it: u64) -> Option<ProductAttributes> {
    if index.attributes@.contains_key(it) {
        Some(index.attributes@[it])
    } else {
        None
    }
}

/// The business rules: items not for sale are always excluded;
/// adult-flagged items are included only if the current item is also
/// adult-flagged; items lacking attribute data are excluded.
pub open spec fn spec_passes_business_rules(
    current: Option<ProductAttributes>,
    reco: Option<ProductAttributes>,
) -> bool {
    match reco {
        None => false,
        Some(ra) => ra.is_for_sale && (!ra.is_adult || match current {
            Some(ca) => ca.is_adult,
            None => false,
        }),
    }
}

/// Decides whether a recommended item passes the business rules, given
/// the current item's attributes.
pub fn passes_business_rules(
    current_item_attribs: Option<&ProductAttributes>,
    reco_item_attribs: Option<&ProductAttributes>,
) -> (r: bool)
    ensures
        r == spec_passes_business_rules(
            match current_item_attribs {
                Some(a) => Some(*a),
                None => None,
            },
            match reco_item_attribs {
                Some(a) => Some(*a),
                None => None,
            },
        ),
{
    match reco_item_attribs {
        None => false,
        Some(ra) => {
            if !ra.is_for_sale {
                false
            } else if !ra.is_adult {
                true
            } else {
                match current_item_attribs {
                    Some(ca) => ca.is_adult,
                    None => false,
                }
            }
        },
    }
}

/// An item is eligible when it passes the business rules against the
/// evolving session's current (most recent) item.
pub open spec fn eligible(index: VMISkNN, current: u64, it: u64) -> bool {
    spec_passes_business_rules(attrs_of(index, current), attrs_of(index, it))
}

/// The item scores that survive the business-rule filter.
pub open spec fn filtered_scores_spec(index: VMISkNN, e: Seq<u64>, k: int, m: int) -> Seq<
    (u64, i128),
> {
    scores_spec(index, e, k, m).filter(|p: (u64, i128)| eligible(index, e.last(), p.0))
}

/// The recommendation list under the business-rule filter: the filter is
/// applied before top-N extraction, so ineligible items never occupy a
/// result slot.
pub open spec fn predict_filtered_spec(index: VMISkNN, e: Seq<u64>, k: int, m: int, n: int) -> Seq<
    ItemScore,
> {
    top_n_spec(filtered_scores_spec(index, e, k, m), n).map_values(
        |p: (u64, i128)| ItemScore { id: p.0, score: Score { num: p.1, den: score_den(e) as u64 } },
    )
}

/// One-shot recommendation with the business-rule filter applied before
/// top-N extraction.
pub fn predict_filtered(
    index: &VMISkNN,
    evolving_session: &Vec<u64>,
    k: usize,
    m: usize,
    how_many: usize,
) -> (r: Vec<ItemScore>)
    requires
        index.wf(),
        1 <= k,
        1 <= m <= 1048576,
        1 <= evolving_session@.len() <= 100000,
    ensures
        r@ == predict_filtered_spec(*index, evolving_session@, k as int, m as int, how_many as int),
        r@.len() <= how_many,
        forall|q: int| 0 <= q < r@.len() ==> (#[trigger] r@[q]).id != evolving_session@.last(),
{
    let ghost e = evolving_session@;
    let scores = aggregate_scores(index, evolving_session, k, m);
    let ghost sc = scores@;
    let current = evolving_session[evolving_session.len() - 1];
    let ghost pred = |p: (u64, i128)| eligible(*index, e.last(), p.0);
    let mut kept: Vec<(u64, i128)> = Vec::new();
    let mut i: usize = 0;
    proof {
        reveal_with_fuel(Seq::filter, 2);
        assert(sc.take(0).filter(pred) =~= Seq::<(u64, i128)>::empty());
    }
    while i < scores.len()
        invariant
            i <= sc.len(),
            scores@ == sc,
            current == e.last(),
            index.attributes@ == index.attributes@,
            pred == (|p: (u64, i128)| eligible(*index, e.last(), p.0)),
            forall|a: int, b: int| 0 <= a < b < sc.len() ==> sc[a].0 != sc[b].0,
            forall|q: int| 0 <= q < sc.len() ==> (#[trigger] sc[q]).0 != e.last(),
            kept@ == sc.take(i as int).filter(pred),
            forall|q: int|
                0 <= q < kept@.len() ==> exists|p: int|
                    0 <= p < i && #[trigger] kept@[q] == sc[p],
            forall|a: int, b: int| 0 <= a < b < kept@.len() ==> kept@[a].0 != kept@[b].0,
            forall|q: int| 0 <= q < kept@.len() ==> (#[trigger] kept@[q]).0 != e.last(),
        decreases sc.len() - i,
    {
        let entry = scores[i];
        let cur_attrs = index.attributes.get(&current);
        let reco_attrs = index.attributes.get(&entry.0);
        let keep = passes_business_rules(cur_attrs, reco_attrs);
        let ghost pre = kept@;
        proof {
            reveal_with_fuel(Seq::filter, 2);
            assert(sc.take(i as int + 1).drop_last() =~= sc.take(i as int));
            assert(sc.take(i as int + 1).last() == entry);
            assert(match cur_attrs {
                Some(a) => Some(*a),
                None => None,
            } == attrs_of(*index, current));
            assert(match reco_attrs {
                Some(a) => Some(*a),
                None => None,
            } == attrs_of(*index, entry.0));
            assert(keep == pred(entry));
        }
        if keep {
            proof {
                assert forall|a: int, b: int|
                    0 <= a < b < pre.push(entry).len() implies pre.push(entry)[a].0 != pre.push(
                    entry,
                )[b].0 by {
                    if b == pre.len() as int {
                        let pa = choose|pa: int| 0 <= pa < i && #[trigger] pre[a] == sc[pa];
                        assert(sc[pa].0 != sc[i as int].0);
                    }
                }
            }
            kept.push(entry);
            proof {
                assert(kept@ =~= sc.take(i as int + 1).filter(pred));
                assert forall|q: int|
                    0 <= q < kept@.len() implies exists|p: int|
                    0 <= p < i + 1 && #[trigger] kept@[q] == sc[p] by {
                    if q < pre.len() {
                        let pa = choose|pa: int| 0 <= pa < i && #[trigger] pre[q] == sc[pa];
                        assert(kept@[q] == sc[pa]);
                    } else {
                        assert(kept@[q] == sc[i as int]);
                    }
                }
            }
        } else {
            proof {
                assert(kept@ =~= sc.take(i as int + 1).filter(pred));
            }
        }
        i = i + 1;
    }
    proof {
        assert(sc.take(sc.len() as int) =~= sc);
    }
    let dcount = distinct_item_count(evolving_session);
    let den: u64 = 10 * (dcount as u64) * IDF_SCALE;
    proof {
        assert(den as int == score_den(e));
    }
    let ghost kseq = kept@;
    let r = select_top_items(kept, how_many, den);
    proof {
        let conv1 = |p: (u64, i128)| ItemScore { id: p.0, score: Score { num: p.1, den } };
        let conv2 = |p: (u64, i128)| ItemScore {
            id: p.0,
            score: Score { num: p.1, den: score_den(e) as u64 },
        };
        assert(top_n_spec(kseq, how_many as int).map_values(conv1) =~= top_n_spec(
            kseq,
            how_many as int,
        ).map_values(conv2));
        assert forall|q: int| 0 <= q < r@.len() implies (#[trigger] r@[q]).id != e.last() by {
            let p = choose|p: int| 0 <= p < kseq.len() && r@[q].id == kseq[p].0;
        }
    }
    r
}

impl VMISkNN {
    /// One-shot recommendation with this index's own K and M and a hard
    /// bound of twenty recommended items.
    pub fn predict(&self, evolving_session: &Vec<u64>) -> (r: Vec<ItemScore>)
        requires
            self.wf(),
            self.m <= 1048576,
            1 <= evolving_session@.len() <= 100000,
        ensures
            r@ == predict_spec(*self, evolving_session@, self.k as int, self.m as int, 20),
            r@.len() <= 20,
            forall|q: int|
                0 <= q < r@.len() ==> (#[trigger] r@[q]).id != evolving_session@.last(),
    {
        predict(self, evolving_session, self.k, self.m, 20)
    }
}

fn find_item_index(sc: &Vec<(u64, i128)>, it: u64) -> (r: Option<usize>)
    ensures
        match r {
            Some(q) => q < sc@.len() && sc@[q as int].0 == it,
            None => forall|q: int| 0 <= q < sc@.len() ==> (#[trigger] sc@[q]).0 != it,
        },
{
    let mut q: usize = 0;
    while q < sc.len()
        invariant
            q <= sc@.len(),
            forall|p: int| 0 <= p < q ==> (#[trigger] sc@[p]).0 != it,
        decreases sc@.len() - q,
    {
        if sc[q].0 == it {
            return Some(q);
        }
        q = q + 1;
    }
    None
}

} // verus!
