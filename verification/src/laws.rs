//! The library's general laws, stated and proved over the specification
//! functions that the executable contracts use.

use vstd::prelude::*;
use crate::types::{ItemScore, Score};
use crate::index::VMISkNN;
use crate::neighbors::{
    WorkingEntry,
    ranks_before,
    ws_best_index,
    lemma_ws_best_index,
    top_k_spec,
    neighbors_spec,
    working_set,
};
use crate::scoring::{
    predict_spec,
    scores_spec,
    top_n_spec,
    best_item_index,
    lemma_best_item_index,
    acc_neighbors,
    acc_items,
    acc_item_step,
};
use crate::engine::{
    fact_in,
    distinct_fact_ids,
    diff_minus,
    facts_as_map,
    apply_retractions,
    apply_insertions,
};

verus! {

broadcast use vstd::seq_lib::group_filter_ensures;

/// Determinism: two results of one-shot prediction on the same index,
/// session, and bounds are identical.
pub proof fn lemma_predict_deterministic(
    index: VMISkNN,
    e: Seq<u64>,
    k: int,
    m: int,
    n: int,
    r1: Seq<ItemScore>,
    r2: Seq<ItemScore>,
)
    requires
        r1 == predict_spec(index, e, k, m, n),
        r2 == predict_spec(index, e, k, m, n),
    ensures
        r1 == r2,
{
}

/// At most K entries leave the top-K reduction.
pub proof fn lemma_top_k_len(ws: Seq<WorkingEntry>, k: int)
    ensures
        top_k_spec(ws, k).len() <= (if k >= 0 {
            k
        } else {
            0
        }),
    decreases k,
{
    if k > 0 && ws.len() > 0 {
        lemma_ws_best_index(ws);
        lemma_top_k_len(ws.remove(ws_best_index(ws)), k - 1);
    }
}

/// At most N entries leave the top-N reduction.
pub proof fn lemma_top_n_len(sc: Seq<(u64, i128)>, n: int)
    ensures
        top_n_spec(sc, n).len() <= (if n >= 0 {
            n
        } else {
            0
        }),
    decreases n,
{
    if n > 0 && sc.len() > 0 {
        lemma_best_item_index(sc);
        lemma_top_n_len(sc.remove(best_item_index(sc)), n - 1);
    }
}

/// Bounds: for every query, the selected-neighbor count is at most K,
/// the recommendation count is at most N, and each item's candidate
/// session list is bounded by M.
pub proof fn lemma_bounds(index: VMISkNN, e: Seq<u64>, k: int, m: int, n: int)
    requires
        index.wf(),
    ensures
        neighbors_spec(index, e, k, m).len() <= (if k >= 0 {
            k
        } else {
            0
        }),
        predict_spec(index, e, k, m, n).len() <= (if n >= 0 {
            n
        } else {
            0
        }),
        forall|i: u64| #[trigger]
            index.item_sessions@.contains_key(i) ==> index.item_sessions@[i]@.len() <= index.m,
{
    lemma_top_k_len(working_set(index, e, m), k);
    lemma_top_n_len(scores_spec(index, e, k, m), n);
}

/// Every entry of the top-K reduction is a working-set entry.
pub proof fn lemma_top_k_members(ws: Seq<WorkingEntry>, k: int, q: int)
    requires
        0 <= q < top_k_spec(ws, k).len(),
    ensures
        ws.contains(top_k_spec(ws, k)[q]),
    decreases k,
{
    lemma_ws_best_index(ws);
    let b = ws_best_index(ws);
    if q == 0 {
        assert(ws.contains(ws[b]));
    } else {
        lemma_top_k_members(ws.remove(b), k - 1, q - 1);
        let x = top_k_spec(ws.remove(b), k - 1)[q - 1];
        let p = choose|p: int| 0 <= p < ws.remove(b).len() && ws.remove(b)[p] == x;
        if p < b {
            assert(ws[p] == x);
        } else {
            assert(ws[p + 1] == x);
        }
    }
}

/// No entry left out of the top-K reduction ranks strictly before an
/// entry that is in it.
pub proof fn lemma_top_k_dominance(ws: Seq<WorkingEntry>, k: int, x: WorkingEntry)
    requires
        ws.contains(x),
        !top_k_spec(ws, k).contains(x),
    ensures
        forall|q: int| 0 <= q < top_k_spec(ws, k).len() ==> !ranks_before(x, top_k_spec(ws, k)[q]),
    decreases k,
{
    if k > 0 && ws.len() > 0 {
        lemma_ws_best_index(ws);
        let b = ws_best_index(ws);
        let r = top_k_spec(ws, k);
        assert(r[0] == ws[b]);
        assert(!ranks_before(x, ws[b])) by {
            let p = choose|p: int| 0 <= p < ws.len() && ws[p] == x;
        }
        assert(x != ws[b]) by {
            if x == ws[b] {
                assert(r.contains(x)) by {
                    assert(r[0] == x);
                }
            }
        }
        let p = choose|p: int| 0 <= p < ws.len() && ws[p] == x;
        assert(ws.remove(b).contains(x)) by {
            if p < b {
                assert(ws.remove(b)[p] == x);
            } else {
                assert(p != b);
                assert(ws.remove(b)[p - 1] == x);
            }
        }
        let tail = top_k_spec(ws.remove(b), k - 1);
        assert(!tail.contains(x)) by {
            if tail.contains(x) {
                let tq = choose|tq: int| 0 <= tq < tail.len() && tail[tq] == x;
                assert(r[tq + 1] == x);
            }
        }
        lemma_top_k_dominance(ws.remove(b), k - 1, x);
        assert forall|q: int| 0 <= q < r.len() implies !ranks_before(x, r[q]) by {
            if q > 0 {
                assert(r[q] == tail[q - 1]);
            }
        }
    }
}

/// Tie-break: of two tracked sessions with equal similarity, the one
/// with the larger maximum timestamp is preferred by the top-K
/// reduction: if the less recent one is selected, so is the more recent.
pub proof fn lemma_tie_break(ws: Seq<WorkingEntry>, k: int, a: WorkingEntry, b: WorkingEntry)
    requires
        ws.contains(a),
        ws.contains(b),
        a.sim == b.sim,
        a.time > b.time,
        top_k_spec(ws, k).contains(b),
    ensures
        top_k_spec(ws, k).contains(a),
{
    if !top_k_spec(ws, k).contains(a) {
        lemma_top_k_dominance(ws, k, a);
        let q = choose|q: int|
            0 <= q < top_k_spec(ws, k).len() && top_k_spec(ws, k)[q] == b;
        assert(!ranks_before(a, b));
        assert(ranks_before(a, b));
    }
}

/// Every entry of the top-N reduction is a scored item.
pub proof fn lemma_top_n_members(sc: Seq<(u64, i128)>, n: int, q: int)
    requires
        0 <= q < top_n_spec(sc, n).len(),
    ensures
        sc.contains(top_n_spec(sc, n)[q]),
    decreases n,
{
    lemma_best_item_index(sc);
    let b = best_item_index(sc);
    if q == 0 {
        assert(sc.contains(sc[b]));
    } else {
        lemma_top_n_members(sc.remove(b), n - 1, q - 1);
        let x = top_n_spec(sc.remove(b), n - 1)[q - 1];
        let p = choose|p: int| 0 <= p < sc.remove(b).len() && sc.remove(b)[p] == x;
        if p < b {
            assert(sc[p] == x);
        } else {
            assert(sc[p + 1] == x);
        }
    }
}

/// One aggregation step keeps item ids distinct.
proof fn lemma_acc_item_step_distinct(acc: Seq<(u64, i128)>, it: u64, gain: int)
    requires
        forall|a: int, b: int| 0 <= a < b < acc.len() ==> acc[a].0 != acc[b].0,
    ensures
        ({
            let r = acc_item_step(acc, it, gain);
            forall|a: int, b: int| 0 <= a < b < r.len() ==> r[a].0 != r[b].0
        }),
{
    let r = acc_item_step(acc, it, gain);
    if exists|q: int| 0 <= q < acc.len() && acc[q].0 == it {
        let q = choose|q: int| 0 <= q < acc.len() && acc[q].0 == it;
        assert forall|a: int, b: int| 0 <= a < b < r.len() implies r[a].0 != r[b].0 by {
            assert(r[a].0 == acc[a].0 && r[b].0 == acc[b].0);
        }
    } else {
        assert forall|a: int, b: int| 0 <= a < b < r.len() implies r[a].0 != r[b].0 by {
            if b == acc.len() as int {
                assert(acc[a].0 != it);
            }
        }
    }
}

proof fn lemma_acc_items_distinct(
    acc: Seq<(u64, i128)>,
    items: Seq<u64>,
    wsim: int,
    idf: Map<u64, u64>,
    j: int,
)
    requires
        forall|a: int, b: int| 0 <= a < b < acc.len() ==> acc[a].0 != acc[b].0,
    ensures
        ({
            let r = acc_items(acc, items, wsim, idf, j);
            forall|a: int, b: int| 0 <= a < b < r.len() ==> r[a].0 != r[b].0
        }),
    decreases j,
{
    if j > 0 {
        lemma_acc_items_distinct(acc, items, wsim, idf, j - 1);
        lemma_acc_item_step_distinct(
            acc_items(acc, items, wsim, idf, j - 1),
            items[j - 1],
            wsim * idf[items[j - 1]],
        );
    }
}

proof fn lemma_acc_neighbors_distinct(index: VMISkNN, e: Seq<u64>, nbrs: Seq<crate::types::SessionScore>, n: int)
    ensures
        ({
            let r = acc_neighbors(index, e, nbrs, n);
            forall|a: int, b: int| 0 <= a < b < r.len() ==> r[a].0 != r[b].0
        }),
    decreases n,
{
    if n > 0 {
        lemma_acc_neighbors_distinct(index, e, nbrs, n - 1);
        let acc = acc_neighbors(index, e, nbrs, n - 1);
        let sc = nbrs[n - 1];
        let items = index.session_items@[sc.id]@;
        lemma_acc_items_distinct(
            acc,
            items,
            crate::scoring::spec_linear_score_num(crate::scoring::first_match_pos(e, items))
                * sc.score.num,
            index.item_idf@,
            items.len() as int,
        );
    }
}

/// Self-exclusion: the evolving session's most recent item never appears
/// in its own recommendation list.
pub proof fn lemma_self_exclusion(index: VMISkNN, e: Seq<u64>, k: int, m: int, n: int, q: int)
    requires
        e.len() >= 1,
        0 <= q < predict_spec(index, e, k, m, n).len(),
    ensures
        predict_spec(index, e, k, m, n)[q].id != e.last(),
{
    let nbrs = neighbors_spec(index, e, k, m);
    let acc = acc_neighbors(index, e, nbrs, nbrs.len() as int);
    lemma_acc_neighbors_distinct(index, e, nbrs, nbrs.len() as int);
    let sc = scores_spec(index, e, k, m);
    assert forall|p: int| 0 <= p < sc.len() implies (#[trigger] sc[p]).0 != e.last() by {
        if exists|w: int| 0 <= w < acc.len() && acc[w].0 == e.last() {
            let w = choose|w: int| 0 <= w < acc.len() && acc[w].0 == e.last();
            assert(sc == acc.remove(w));
            if p < w {
                assert(sc[p] == acc[p]);
                if acc[p].0 == e.last() {
                    assert(acc[p].0 != acc[w].0);
                }
            } else {
                assert(sc[p] == acc[p + 1]);
                if acc[p + 1].0 == e.last() {
                    assert(acc[w].0 != acc[p + 1].0);
                }
            }
        } else {
            assert(sc == acc);
        }
    }
    lemma_top_n_members(sc, n, q);
    let x = top_n_spec(sc, n)[q];
    let p = choose|p: int| 0 <= p < sc.len() && sc[p] == x;
    assert(predict_spec(index, e, k, m, n)[q].id == x.0);
}

/// Retraction correctness: a fact emitted as an insertion was not in the
/// previous recommendation set, and a fact emitted as a retraction was;
/// so no fact is inserted twice without an intervening retraction.
pub proof fn lemma_retraction_correctness(
    old_rec: Seq<ItemScore>,
    new_rec: Seq<ItemScore>,
    q: int,
)
    requires
        0 <= q < diff_minus(new_rec, old_rec).len(),
    ensures
        !fact_in(old_rec, diff_minus(new_rec, old_rec)[q]),
        fact_in(new_rec, diff_minus(new_rec, old_rec)[q]),
{
    let pred = |f: ItemScore| !fact_in(old_rec, f);
    new_rec.lemma_filter_pred(pred, q);
    lemma_filter_members(new_rec, pred, q);
}

/// Each element of a filtered sequence comes from the source sequence.
proof fn lemma_filter_members<A>(s: Seq<A>, pred: spec_fn(A) -> bool, i: int)
    requires
        0 <= i < s.filter(pred).len(),
    ensures
        exists|p: int| 0 <= p < s.len() && s[p] == #[trigger] s.filter(pred)[i],
    decreases s.len(),
{
    reveal_with_fuel(Seq::filter, 2);
    if s.len() > 0 {
        let sub = s.drop_last();
        if pred(s.last()) && i == s.filter(pred).len() - 1 {
            assert(s[s.len() - 1] == s.filter(pred)[i]);
        } else {
            lemma_filter_members(sub, pred, i);
            let p = choose|p: int| 0 <= p < sub.len() && sub[p] == s.filter(pred)[i];
            assert(s[p] == s.filter(pred)[i]);
        }
    }
}

proof fn lemma_facts_as_map_members(facts: Seq<ItemScore>, n: int)
    requires
        0 <= n <= facts.len(),
        distinct_fact_ids(facts),
    ensures
        forall|id: u64| #[trigger]
            facts_as_map(facts, n).contains_key(id) <==> exists|q: int|
                0 <= q < n && facts[q].id == id,
        forall|q: int|
            0 <= q < n ==> facts_as_map(facts, n)[(#[trigger] facts[q]).id] == facts[q].score,
    decreases n,
{
    if n > 0 {
        lemma_facts_as_map_members(facts, n - 1);
        let prev = facts_as_map(facts, n - 1);
        let r = facts_as_map(facts, n);
        assert forall|id: u64| #[trigger] r.contains_key(id) implies exists|q: int|
            0 <= q < n && facts[q].id == id by {
            if id == facts[n - 1].id {
                assert(facts[n - 1].id == id);
            } else {
                assert(prev.contains_key(id));
                let q = choose|q: int| 0 <= q < n - 1 && facts[q].id == id;
                assert(facts[q].id == id);
            }
        }
        assert forall|id: u64| (exists|q: int| 0 <= q < n && facts[q].id == id) implies
            #[trigger] r.contains_key(id) by {
            let q = choose|q: int| 0 <= q < n && facts[q].id == id;
            if q < n - 1 {
                assert(prev.contains_key(id)) by {
                    assert(facts[q].id == id);
                }
            }
        }
        assert forall|q: int| 0 <= q < n implies r[(#[trigger] facts[q]).id]
            == facts[q].score by {
            if q < n - 1 {
                assert(facts[q].id != facts[n - 1].id);
                assert(prev[facts[q].id] == facts[q].score);
            }
        }
    }
}

proof fn lemma_apply_retractions_members(mm: Map<u64, Score>, rs: Seq<ItemScore>, n: int)
    requires
        0 <= n <= rs.len(),
    ensures
        forall|id: u64| #[trigger]
            apply_retractions(mm, rs, n).contains_key(id) <==> (mm.contains_key(id) && !exists|
                q: int,
            | 0 <= q < n && rs[q].id == id),
        forall|id: u64| #[trigger]
            apply_retractions(mm, rs, n).contains_key(id) ==> apply_retractions(mm, rs, n)[id]
                == mm[id],
    decreases n,
{
    if n > 0 {
        lemma_apply_retractions_members(mm, rs, n - 1);
        let prev = apply_retractions(mm, rs, n - 1);
        let r = apply_retractions(mm, rs, n);
        assert forall|id: u64| #[trigger] r.contains_key(id) implies (mm.contains_key(id)
            && !exists|q: int| 0 <= q < n && rs[q].id == id) by {
            assert(prev.contains_key(id));
            if exists|q: int| 0 <= q < n && rs[q].id == id {
                let q = choose|q: int| 0 <= q < n && rs[q].id == id;
                if q < n - 1 {
                    assert(!prev.contains_key(id)) by {
                        assert(rs[q].id == id);
                    }
                } else {
                    assert(id == rs[n - 1].id);
                }
            }
        }
        assert forall|id: u64|
            (mm.contains_key(id) && !exists|q: int| 0 <= q < n && rs[q].id == id) implies
            #[trigger] r.contains_key(id) by {
            assert(rs[n - 1].id != id) by {
                if rs[n - 1].id == id {
                    assert(0 <= n - 1 < n && rs[n - 1].id == id);
                }
            }
            assert(prev.contains_key(id)) by {
                if exists|q: int| 0 <= q < n - 1 && rs[q].id == id {
                    let q = choose|q: int| 0 <= q < n - 1 && rs[q].id == id;
                    assert(0 <= q < n && rs[q].id == id);
                }
            }
        }
        assert forall|id: u64| #[trigger] r.contains_key(id) implies r[id] == mm[id] by {
            assert(prev.contains_key(id));
            assert(prev[id] == mm[id]);
            assert(id != rs[n - 1].id);
        }
    }
}

proof fn lemma_apply_insertions_members(mm: Map<u64, Score>, ins: Seq<ItemScore>, n: int)
    requires
        0 <= n <= ins.len(),
        distinct_fact_ids(ins),
    ensures
        forall|id: u64| #[trigger]
            apply_insertions(mm, ins, n).contains_key(id) <==> (mm.contains_key(id) || exists|
                q: int,
            | 0 <= q < n && ins[q].id == id),
        forall|q: int|
            0 <= q < n ==> apply_insertions(mm, ins, n)[(#[trigger] ins[q]).id] == ins[q].score,
        forall|id: u64|
            (mm.contains_key(id) && !exists|q: int| 0 <= q < n && ins[q].id == id)
                ==> #[trigger] apply_insertions(mm, ins, n)[id] == mm[id],
    decreases n,
{
    if n > 0 {
        lemma_apply_insertions_members(mm, ins, n - 1);
        let prev = apply_insertions(mm, ins, n - 1);
        let r = apply_insertions(mm, ins, n);
        assert forall|id: u64| #[trigger] r.contains_key(id) implies (mm.contains_key(id)
            || exists|q: int| 0 <= q < n && ins[q].id == id) by {
            if id == ins[n - 1].id {
                assert(ins[n - 1].id == id);
            } else {
                assert(prev.contains_key(id));
                if !mm.contains_key(id) {
                    let q = choose|q: int| 0 <= q < n - 1 && ins[q].id == id;
                    assert(ins[q].id == id);
                }
            }
        }
        assert forall|id: u64| (mm.contains_key(id) || exists|q: int|
            0 <= q < n && ins[q].id == id) implies #[trigger] r.contains_key(id) by {
            if id != ins[n - 1].id {
                if mm.contains_key(id) {
                    assert(prev.contains_key(id));
                } else {
                    let q = choose|q: int| 0 <= q < n && ins[q].id == id;
                    assert(q < n - 1);
                    assert(prev.contains_key(id)) by {
                        assert(ins[q].id == id);
                    }
                }
            }
        }
        assert forall|q: int| 0 <= q < n implies r[(#[trigger] ins[q]).id] == ins[q].score by {
            if q < n - 1 {
                assert(ins[q].id != ins[n - 1].id);
                assert(prev[ins[q].id] == ins[q].score);
            }
        }
        assert forall|id: u64|
            (mm.contains_key(id) && !exists|q: int| 0 <= q < n && ins[q].id == id) implies
            #[trigger] r[id] == mm[id] by {
            assert(ins[n - 1].id != id) by {
                if ins[n - 1].id == id {
                    assert(0 <= n - 1 < n && ins[n - 1].id == id);
                }
            }
            assert(!exists|q: int| 0 <= q < n - 1 && ins[q].id == id) by {
                if exists|q: int| 0 <= q < n - 1 && ins[q].id == id {
                    let q = choose|q: int| 0 <= q < n - 1 && ins[q].id == id;
                    assert(0 <= q < n && ins[q].id == id);
                }
            }
            assert(prev[id] == mm[id]);
        }
    }
}

/// Batch/incremental consistency: applying one step's retractions and
/// insertions to a map holding the previous step's facts yields exactly
/// the map of the new one-shot prediction's facts.
pub proof fn lemma_batch_incremental_consistency(
    old_rec: Seq<ItemScore>,
    new_rec: Seq<ItemScore>,
    mm: Map<u64, Score>,
)
    requires
        distinct_fact_ids(old_rec),
        distinct_fact_ids(new_rec),
        mm == facts_as_map(old_rec, old_rec.len() as int),
    ensures
        ({
            let retr = diff_minus(old_rec, new_rec);
            let ins = diff_minus(new_rec, old_rec);
            apply_insertions(
                apply_retractions(mm, retr, retr.len() as int),
                ins,
                ins.len() as int,
            ) == facts_as_map(new_rec, new_rec.len() as int)
        }),
{
    let retr = diff_minus(old_rec, new_rec);
    let ins = diff_minus(new_rec, old_rec);
    let pred_r = |f: ItemScore| !fact_in(new_rec, f);
    let pred_i = |f: ItemScore| !fact_in(old_rec, f);
    let mid = apply_retractions(mm, retr, retr.len() as int);
    let lhs = apply_insertions(mid, ins, ins.len() as int);
    let rhs = facts_as_map(new_rec, new_rec.len() as int);
    lemma_facts_as_map_members(old_rec, old_rec.len() as int);
    lemma_facts_as_map_members(new_rec, new_rec.len() as int);
    lemma_apply_retractions_members(mm, retr, retr.len() as int);
    assert(distinct_fact_ids(ins)) by {
        assert forall|a: int, b: int| 0 <= a < b < ins.len() implies ins[a].id != ins[b].id by {
            lemma_filter_members(new_rec, pred_i, a);
            lemma_filter_members(new_rec, pred_i, b);
            let pa = choose|p: int| 0 <= p < new_rec.len() && new_rec[p] == ins[a];
            let pb = choose|p: int| 0 <= p < new_rec.len() && new_rec[p] == ins[b];
            if pa == pb {
                assert(ins[a] == ins[b]);
                // two distinct filter positions with the same element: the
                // filtered sequence of a distinct-id list cannot repeat
                lemma_filter_distinct_ids(new_rec, pred_i);
            } else if pa < pb {
                assert(new_rec[pa].id != new_rec[pb].id);
            } else {
                assert(new_rec[pb].id != new_rec[pa].id);
            }
        }
    }
    lemma_apply_insertions_members(mid, ins, ins.len() as int);
    assert forall|id: u64| lhs.contains_key(id) <==> rhs.contains_key(id) by {
        lemma_diff_membership(old_rec, new_rec, id);
    }
    assert forall|id: u64| #[trigger]
        lhs.contains_key(id) && rhs.contains_key(id) implies lhs[id] == rhs[id] by {
        lemma_diff_membership(old_rec, new_rec, id);
        let qn = choose|q: int| 0 <= q < new_rec.len() && new_rec[q].id == id;
        let g = new_rec[qn];
        assert(rhs[id] == g.score);
        if fact_in(old_rec, g) {
            // the fact is unchanged: neither retracted nor inserted
            let qo = choose|q: int| 0 <= q < old_rec.len() && old_rec[q] == g;
            assert(mm.contains_key(id) && mm[id] == g.score) by {
                assert(old_rec[qo].id == id);
            }
            assert(!exists|q: int| 0 <= q < retr.len() && retr[q].id == id) by {
                if exists|q: int| 0 <= q < retr.len() && retr[q].id == id {
                    let q = choose|q: int| 0 <= q < retr.len() && retr[q].id == id;
                    old_rec.lemma_filter_pred(pred_r, q);
                    lemma_filter_members(old_rec, pred_r, q);
                    let p = choose|p: int| 0 <= p < old_rec.len() && old_rec[p] == retr[q];
                    if p != qo {
                        if p < qo {
                            assert(old_rec[p].id != old_rec[qo].id);
                        } else {
                            assert(old_rec[qo].id != old_rec[p].id);
                        }
                    }
                    assert(retr[q] == g);
                    assert(fact_in(new_rec, g)) by {
                        assert(new_rec[qn] == g);
                    }
                }
            }
            assert(mid.contains_key(id) && mid[id] == g.score);
            assert(!exists|q: int| 0 <= q < ins.len() && ins[q].id == id) by {
                if exists|q: int| 0 <= q < ins.len() && ins[q].id == id {
                    let q = choose|q: int| 0 <= q < ins.len() && ins[q].id == id;
                    new_rec.lemma_filter_pred(pred_i, q);
                    lemma_filter_members(new_rec, pred_i, q);
                    let p = choose|p: int| 0 <= p < new_rec.len() && new_rec[p] == ins[q];
                    if p != qn {
                        if p < qn {
                            assert(new_rec[p].id != new_rec[qn].id);
                        } else {
                            assert(new_rec[qn].id != new_rec[p].id);
                        }
                    }
                    assert(ins[q] == g);
                    assert(fact_in(old_rec, g)) by {
                        assert(old_rec[qo] == g);
                    }
                }
            }
        } else {
            // a fresh fact: it is among the insertions
            assert(pred_i(g));
            new_rec.lemma_filter_contains(pred_i, qn);
            assert(ins.contains(g));
            let q = choose|q: int| 0 <= q < ins.len() && ins[q] == g;
            assert(lhs[ins[q].id] == ins[q].score);
        }
    }
    assert(lhs =~= rhs);
}

/// A filtered sequence of facts with distinct ids has distinct ids.
proof fn lemma_filter_distinct_ids(s: Seq<ItemScore>, pred: spec_fn(ItemScore) -> bool)
    requires
        distinct_fact_ids(s),
    ensures
        distinct_fact_ids(s.filter(pred)),
    decreases s.len(),
{
    reveal_with_fuel(Seq::filter, 2);
    if s.len() > 0 {
        let sub = s.drop_last();
        lemma_filter_distinct_ids(sub, pred);
        if pred(s.last()) {
            let r = s.filter(pred);
            assert(r == sub.filter(pred).push(s.last()));
            assert forall|a: int, b: int| 0 <= a < b < r.len() implies r[a].id != r[b].id by {
                if b == r.len() - 1 {
                    lemma_filter_members(sub, pred, a);
                    let p = choose|p: int| 0 <= p < sub.len() && sub[p] == r[a];
                    assert(s[p] == r[a]);
                    assert(s[p].id != s[s.len() - 1].id);
                }
            }
        }
    }
}

/// Diff application touches exactly the right ids: after retractions and
/// insertions, an id is present if and only if the new facts hold it.
proof fn lemma_diff_membership(old_rec: Seq<ItemScore>, new_rec: Seq<ItemScore>, id: u64)
    requires
        distinct_fact_ids(old_rec),
        distinct_fact_ids(new_rec),
    ensures
        ({
            let retr = diff_minus(old_rec, new_rec);
            let ins = diff_minus(new_rec, old_rec);
            let mm = facts_as_map(old_rec, old_rec.len() as int);
            let lhs = apply_insertions(
                apply_retractions(mm, retr, retr.len() as int),
                ins,
                ins.len() as int,
            );
            lhs.contains_key(id) <==> (exists|q: int| 0 <= q < new_rec.len() && new_rec[q].id
                == id)
        }),
{
    let retr = diff_minus(old_rec, new_rec);
    let ins = diff_minus(new_rec, old_rec);
    let pred_r = |f: ItemScore| !fact_in(new_rec, f);
    let pred_i = |f: ItemScore| !fact_in(old_rec, f);
    let mm = facts_as_map(old_rec, old_rec.len() as int);
    let mid = apply_retractions(mm, retr, retr.len() as int);
    let lhs = apply_insertions(mid, ins, ins.len() as int);
    lemma_facts_as_map_members(old_rec, old_rec.len() as int);
    lemma_apply_retractions_members(mm, retr, retr.len() as int);
    assert(distinct_fact_ids(ins)) by {
        lemma_filter_distinct_ids(new_rec, pred_i);
    }
    lemma_apply_insertions_members(mid, ins, ins.len() as int);
    if exists|q: int| 0 <= q < new_rec.len() && new_rec[q].id == id {
        let qn = choose|q: int| 0 <= q < new_rec.len() && new_rec[q].id == id;
        let g = new_rec[qn];
        if fact_in(old_rec, g) {
            let qo = choose|q: int| 0 <= q < old_rec.len() && old_rec[q] == g;
            assert(mm.contains_key(id)) by {
                assert(old_rec[qo].id == id);
            }
            assert(!exists|q: int| 0 <= q < retr.len() && retr[q].id == id) by {
                if exists|q: int| 0 <= q < retr.len() && retr[q].id == id {
                    let q = choose|q: int| 0 <= q < retr.len() && retr[q].id == id;
                    old_rec.lemma_filter_pred(pred_r, q);
                    lemma_filter_members(old_rec, pred_r, q);
                    let p = choose|p: int| 0 <= p < old_rec.len() && old_rec[p] == retr[q];
                    if p != qo {
                        if p < qo {
                            assert(old_rec[p].id != old_rec[qo].id);
                        } else {
                            assert(old_rec[qo].id != old_rec[p].id);
                        }
                    }
                    assert(retr[q] == g);
                    assert(fact_in(new_rec, g)) by {
                        assert(new_rec[qn] == g);
                    }
                }
            }
            assert(mid.contains_key(id));
            assert(lhs.contains_key(id));
        } else {
            assert(pred_i(g));
            new_rec.lemma_filter_contains(pred_i, qn);
            assert(ins.contains(g));
            let q = choose|q: int| 0 <= q < ins.len() && ins[q] == g;
            assert(lhs.contains_key(id)) by {
                assert(ins[q].id == id);
            }
        }
    } else {
        if lhs.contains_key(id) {
            if exists|q: int| 0 <= q < ins.len() && ins[q].id == id {
                let q = choose|q: int| 0 <= q < ins.len() && ins[q].id == id;
                lemma_filter_members(new_rec, pred_i, q);
                let p = choose|p: int| 0 <= p < new_rec.len() && new_rec[p] == ins[q];
                assert(new_rec[p].id == id);
            } else {
                assert(mid.contains_key(id));
                assert(mm.contains_key(id));
                let qo = choose|q: int| 0 <= q < old_rec.len() && old_rec[q].id == id;
                let f = old_rec[qo];
                assert(!fact_in(new_rec, f)) by {
                    if fact_in(new_rec, f) {
                        let p = choose|p: int| 0 <= p < new_rec.len() && new_rec[p] == f;
                        assert(new_rec[p].id == id);
                    }
                }
                assert(pred_r(f));
                old_rec.lemma_filter_contains(pred_r, qo);
                assert(retr.contains(f));
                let q = choose|q: int| 0 <= q < retr.len() && retr[q] == f;
                assert(!mid.contains_key(id)) by {
                    assert(retr[q].id == id);
                }
            }
        }
    }
}

} // verus!
