//! Bounded top-K neighbor-session search with decay weighting.
//!
//! The evolving session is walked in reverse; the most recent occurrence
//! of each distinct item is authoritative.  Each authoritative item
//! contributes a decay weight of (session length - reverse position) over
//! the distinct-item count to every tracked candidate session containing
//! it.  The working set of candidates is capped at M: when it is full, a
//! new candidate evicts the tracked session with the least maximum
//! timestamp only if it is strictly more recent; otherwise the rest of
//! that item's candidate list is skipped, since the list is ordered most
//! recent first.  At the end the top K tracked sessions by similarity are
//! returned, ties preferring the larger timestamp and then the smaller
//! session id.  All similarities are exact integer numerators over the
//! common denominator `distinct_count`.
//!
//! Of the two decay normalizations found in practice, this library
//! divides by the evolving session's distinct-item count; for a session
//! without duplicate items that equals dividing by its length.

use vstd::prelude::*;
use vstd::multiset::Multiset;
use vstd::arithmetic::div_mod::lemma_fundamental_div_mod_converse;
use std::collections::HashSet;
use crate::types::{Score, SessionScore};
use crate::index::VMISkNN;
use crate::recency_heap::{heap_keys, heap_new, heap_push, heap_pop};

verus! {

broadcast use vstd::std_specs::hash::group_hash_axioms, vstd::seq_lib::group_to_multiset_ensures;

/// One tracked candidate session: its id, its maximum timestamp, and its
/// accumulated similarity numerator.
#[derive(Clone, Copy, Debug, PartialEq, Eq, Structural)]
pub struct WorkingEntry {
    pub session: u32,
    pub time: u32,
    pub sim: u64,
}

/// The most recent occurrence of the item at reverse position `p` is at
/// `p` itself: no closer-to-the-end position holds the same item.
pub open spec fn is_authoritative(e: Seq<u64>, p: int) -> bool {
    forall|q: int| 0 <= q < p ==> #[trigger] e[e.len() - 1 - q] != e[e.len() - 1 - p]
}

/// The items seen at reverse positions before `p`.
pub open spec fn seen_set(e: Seq<u64>, p: int) -> Set<u64> {
    Set::new(|x: u64| exists|q: int| 0 <= q < p && #[trigger] e[e.len() - 1 - q] == x)
}

/// How many distinct items the first `p` reverse positions hold.
pub open spec fn distinct_count(e: Seq<u64>, p: int) -> int
    decreases p,
{
    if p <= 0 {
        0
    } else {
        distinct_count(e, p - 1) + if is_authoritative(e, p - 1) {
            1int
        } else {
            0int
        }
    }
}

/// Eviction order: `a` leaves before `b` if its timestamp is smaller,
/// ties broken toward the smaller session id.
pub open spec fn evict_before(a: WorkingEntry, b: WorkingEntry) -> bool {
    a.time < b.time || (a.time == b.time && a.session < b.session)
}

/// The index of the entry that eviction removes first.
pub open spec fn ws_min_index(ws: Seq<WorkingEntry>) -> int
    decreases ws.len(),
{
    if ws.len() <= 1 {
        0
    } else {
        let r = ws_min_index(ws.drop_last());
        if evict_before(ws.last(), ws[r]) {
            ws.len() - 1
        } else {
            r
        }
    }
}

pub proof fn lemma_ws_min_index(ws: Seq<WorkingEntry>)
    requires
        ws.len() >= 1,
    ensures
        0 <= ws_min_index(ws) < ws.len(),
        forall|q: int| 0 <= q < ws.len() ==> !evict_before(#[trigger] ws[q], ws[ws_min_index(ws)]),
    decreases ws.len(),
{
    if ws.len() > 1 {
        lemma_ws_min_index(ws.drop_last());
        assert(forall|q: int| 0 <= q < ws.len() - 1 ==> ws.drop_last()[q] == ws[q]);
    }
}

/// The heap key of a tracked entry: both components are order-reversed so
/// that the heap's greatest key is the entry evicted first.
pub open spec fn spec_enc(time: u32, session: u32) -> u64 {
    (((0xFFFFFFFFu64 - time as u64) * 0x100000000) + (0xFFFFFFFFu64 - session as u64)) as u64
}

pub open spec fn enc_entry(en: WorkingEntry) -> u64 {
    spec_enc(en.time, en.session)
}

/// The encoding reverses the eviction order and is injective.
pub proof fn lemma_enc_order(a: WorkingEntry, b: WorkingEntry)
    ensures
        evict_before(a, b) <==> spec_enc(a.time, a.session) > spec_enc(b.time, b.session),
        spec_enc(a.time, a.session) == spec_enc(b.time, b.session) ==> (a.time == b.time
            && a.session == b.session),
{
    let a1 = 0xFFFFFFFFu64 - a.time as u64;
    let b1 = 0xFFFFFFFFu64 - b.time as u64;
    let a2 = 0xFFFFFFFFu64 - a.session as u64;
    let b2 = 0xFFFFFFFFu64 - b.session as u64;
    assert(a1 * 0x100000000 + a2 < 0x10000000000000000);
    assert(b1 * 0x100000000 + b2 < 0x10000000000000000);
    if a1 > b1 {
        assert(a1 * 0x100000000 >= (b1 + 1) * 0x100000000);
    }
    if b1 > a1 {
        assert(b1 * 0x100000000 >= (a1 + 1) * 0x100000000);
    }
}

/// Decoding a heap key recovers the timestamp and session id.
pub proof fn lemma_enc_decode(time: u32, session: u32)
    ensures
        spec_enc(time, session) as int / 0x100000000 == 0xFFFFFFFF - time as int,
        spec_enc(time, session) as int % 0x100000000 == 0xFFFFFFFF - session as int,
{
    let a = 0xFFFFFFFF - time as int;
    let b = 0xFFFFFFFF - session as int;
    lemma_fundamental_div_mod_converse(spec_enc(time, session) as int, 0x100000000, a, b);
}

/// Folds one item's candidate list, from position `j` on, into the
/// working set: tracked candidates accumulate the weight, new candidates
/// are inserted while there is room, and once the set is full a new
/// candidate either evicts the least recent tracked session or, not being
/// more recent than it, ends the list early.
pub open spec fn ws_add_candidates(
    ws: Seq<WorkingEntry>,
    cands: Seq<u32>,
    times: Map<u32, u32>,
    w: u64,
    m: int,
    j: int,
) -> Seq<WorkingEntry>
    decreases cands.len() - j,
{
    if j < 0 || j >= cands.len() {
        ws
    } else {
        let s = cands[j];
        if exists|q: int| 0 <= q < ws.len() && ws[q].session == s {
            let q = choose|q: int| 0 <= q < ws.len() && ws[q].session == s;
            let bumped = WorkingEntry { sim: (ws[q].sim + w) as u64, ..ws[q] };
            ws_add_candidates(ws.update(q, bumped), cands, times, w, m, j + 1)
        } else if ws.len() < m {
            let en = WorkingEntry { session: s, time: times[s], sim: w };
            ws_add_candidates(ws.push(en), cands, times, w, m, j + 1)
        } else {
            let q = ws_min_index(ws);
            if times[s] > ws[q].time {
                let en = WorkingEntry { session: s, time: times[s], sim: w };
                ws_add_candidates(ws.remove(q).push(en), cands, times, w, m, j + 1)
            } else {
                ws
            }
        }
    }
}

/// The working set after the first `p` reverse positions of the evolving
/// session have been processed.
pub open spec fn ws_after(index: VMISkNN, e: Seq<u64>, m: int, p: int) -> Seq<WorkingEntry>
    decreases p,
{
    if p <= 0 {
        Seq::empty()
    } else {
        let ws = ws_after(index, e, m, p - 1);
        let pos = p - 1;
        let it = e[e.len() - 1 - pos];
        if is_authoritative(e, pos) && index.item_sessions@.contains_key(it) {
            ws_add_candidates(
                ws,
                index.item_sessions@[it]@,
                index.session_max_time@,
                (e.len() - pos) as u64,
                m,
                0,
            )
        } else {
            ws
        }
    }
}

/// The final working set of an evolving session.
pub open spec fn working_set(index: VMISkNN, e: Seq<u64>, m: int) -> Seq<WorkingEntry> {
    ws_after(index, e, m, e.len() as int)
}

/// Ranking for the top-K extraction: larger similarity first, ties prefer
/// the larger timestamp, then the smaller session id.
pub open spec fn ranks_before(a: WorkingEntry, b: WorkingEntry) -> bool {
    a.sim > b.sim || (a.sim == b.sim && (a.time > b.time || (a.time == b.time && a.session
        < b.session)))
}

/// The index of the best-ranked entry.
pub open spec fn ws_best_index(ws: Seq<WorkingEntry>) -> int
    decreases ws.len(),
{
    if ws.len() <= 1 {
        0
    } else {
        let r = ws_best_index(ws.drop_last());
        if ranks_before(ws.last(), ws[r]) {
            ws.len() - 1
        } else {
            r
        }
    }
}

pub proof fn lemma_ws_best_index(ws: Seq<WorkingEntry>)
    requires
        ws.len() >= 1,
    ensures
        0 <= ws_best_index(ws) < ws.len(),
        forall|q: int|
            0 <= q < ws.len() ==> !ranks_before(#[trigger] ws[q], ws[ws_best_index(ws)]),
    decreases ws.len(),
{
    if ws.len() > 1 {
        lemma_ws_best_index(ws.drop_last());
        assert(forall|q: int| 0 <= q < ws.len() - 1 ==> ws.drop_last()[q] == ws[q]);
    }
}

/// The K best-ranked entries of the working set, best first.
pub open spec fn top_k_spec(ws: Seq<WorkingEntry>, k: int) -> Seq<WorkingEntry>
    decreases k,
{
    if k <= 0 || ws.len() == 0 {
        Seq::empty()
    } else {
        let b = ws_best_index(ws);
        seq![ws[b]] + top_k_spec(ws.remove(b), k - 1)
    }
}

/// What a selected neighbor looks like to callers.
pub open spec fn entry_to_score(en: WorkingEntry, den: u64) -> SessionScore {
    SessionScore { id: en.session, score: Score { num: en.sim as i128, den } }
}

/// The neighbor list of an evolving session: the top K of the working
/// set, as similarity numerators over the distinct-item count.
pub open spec fn neighbors_spec(index: VMISkNN, e: Seq<u64>, k: int, m: int) -> Seq<SessionScore> {
    top_k_spec(working_set(index, e, m), k).map_values(
        |en: WorkingEntry| entry_to_score(en, distinct_count(e, e.len() as int) as u64),
    )
}

/// What holds of every tracked entry: it names a retained session that
/// shares an item with the evolving session, carries that session's
/// maximum timestamp, and its similarity is a positive bounded numerator.
pub open spec fn entry_ok(index: VMISkNN, e: Seq<u64>, en: WorkingEntry, bound: int) -> bool {
    &&& index.session_items@.contains_key(en.session)
    &&& index.session_max_time@.contains_key(en.session)
    &&& index.session_max_time@[en.session] == en.time
    &&& 1 <= en.sim <= bound
    &&& exists|q: int|
        0 <= q < e.len() && index.session_items@[en.session]@.contains(#[trigger] e[q])
}

/// The working-set invariant: bounded, distinct sessions, entries ok.
pub open spec fn ws_ok(index: VMISkNN, e: Seq<u64>, ws: Seq<WorkingEntry>, m: int, bound: int) -> bool {
    &&& ws.len() <= m
    &&& forall|a: int, b: int| 0 <= a < b < ws.len() ==> ws[a].session != ws[b].session
    &&& forall|q: int| 0 <= q < ws.len() ==> entry_ok(index, e, #[trigger] ws[q], bound)
}

/// What scoring may assume of every selected neighbor.
pub open spec fn neighbor_ok(index: VMISkNN, e: Seq<u64>, sc: SessionScore) -> bool {
    &&& index.session_items@.contains_key(sc.id)
    &&& exists|q: int|
        0 <= q < e.len() && index.session_items@[sc.id]@.contains(#[trigger] e[q])
    &&& 1 <= sc.score.num <= e.len() * e.len()
}

/// The heap mirrors the working set: its keys are exactly the entries'
/// encodings.
pub open spec fn heap_matches(h: dary_heap::OctonaryHeap<u64>, ws: Seq<WorkingEntry>) -> bool {
    heap_keys(h) == ws.map_values(|en: WorkingEntry| enc_entry(en)).to_multiset()
}

fn entry_ranks_before(a: &WorkingEntry, b: &WorkingEntry) -> (r: bool)
    ensures
        r == ranks_before(*a, *b),
{
    a.sim > b.sim || (a.sim == b.sim && (a.time > b.time || (a.time == b.time && a.session
        < b.session)))
}

fn find_session_index(ws: &Vec<WorkingEntry>, s: u32) -> (r: Option<usize>)
    ensures
        match r {
            Some(q) => q < ws@.len() && ws@[q as int].session == s,
            None => forall|q: int| 0 <= q < ws@.len() ==> (#[trigger] ws@[q]).session != s,
        },
{
    let mut q: usize = 0;
    while q < ws.len()
        invariant
            q <= ws@.len(),
            forall|p: int| 0 <= p < q ==> (#[trigger] ws@[p]).session != s,
        decreases ws@.len() - q,
    {
        if ws[q].session == s {
            return Some(q);
        }
        q = q + 1;
    }
    None
}

/// A popped maximum key is the encoding of the eviction-first entry.
proof fn lemma_pop_is_min(ws: Seq<WorkingEntry>, mm: Seq<u64>, top: u64)
    requires
        ws.len() >= 1,
        forall|a: int, b: int| 0 <= a < b < ws.len() ==> ws[a].session != ws[b].session,
        mm == ws.map_values(|en: WorkingEntry| enc_entry(en)),
        mm.to_multiset().count(top) > 0,
        forall|y: u64| #[trigger] mm.to_multiset().count(y) > 0 ==> y <= top,
    ensures
        enc_entry(ws[ws_min_index(ws)]) == top,
{
    assert(mm.contains(top));
    let idx = choose|idx: int| 0 <= idx < mm.len() && mm[idx] == top;
    lemma_ws_min_index(ws);
    let mi = ws_min_index(ws);
    assert(mm.to_multiset().count(mm[mi]) > 0) by {
        assert(mm.contains(mm[mi]));
    }
    assert(enc_entry(ws[mi]) <= top);
    lemma_enc_order(ws[idx], ws[mi]);
    assert(!evict_before(ws[idx], ws[mi]));
    assert(enc_entry(ws[idx]) <= enc_entry(ws[mi]));
}

impl VMISkNN {
    /// Selects up to `k` neighbor sessions for the evolving session,
    /// best first; similarity numerators are over the denominator
    /// `distinct_count`.  An item absent from the index contributes no
    /// candidates, so an unknown item simply yields none.  The session
    /// length bound keeps every similarity numerator within 64 bits.
    pub fn find_neighbors(&self, evolving_session: &Vec<u64>, k: usize, m: usize) -> (r: Vec<
        SessionScore,
    >)
        requires
            self.wf(),
            1 <= k,
            1 <= m,
            evolving_session@.len() <= 100000,
        ensures
            r@ == neighbors_spec(*self, evolving_session@, k as int, m as int),
            r@.len() <= k,
            r@.len() <= m,
            forall|q: int|
                0 <= q < r@.len() ==> neighbor_ok(*self, evolving_session@, #[trigger] r@[q])
                    && r@[q].score.den == distinct_count(
                    evolving_session@,
                    evolving_session@.len() as int,
                ),
    {
        let ghost e = evolving_session@;
        let len = evolving_session.len();
        let ghost times = self.session_max_time@;
        let mut ws: Vec<WorkingEntry> = Vec::new();
        let mut heap = heap_new(m);
        let mut seen: HashSet<u64> = HashSet::new();
        let mut dc: usize = 0;
        let mut p: usize = 0;
        proof {
            assert(seen@ =~= seen_set(e, 0));
            assert(ws@.map_values(|en: WorkingEntry| enc_entry(en)).to_multiset() =~= Multiset::<
                u64,
            >::empty());
        }
        while p < len
            invariant
                self.wf(),
                1 <= m,
                p <= len,
                len == e.len() <= 100000,
                evolving_session@ == e,
                times == self.session_max_time@,
                ws@ == ws_after(*self, e, m as int, p as int),
                ws_ok(*self, e, ws@, m as int, p as int * len as int),
                heap_matches(heap, ws@),
                seen@ == seen_set(e, p as int),
                dc == distinct_count(e, p as int),
                dc <= p,
            decreases len - p,
        {
            let ghost ws_p = ws@;
            let item = evolving_session[len - 1 - p];
            let newly = seen.insert(item);
            proof {
                assert(seen@ =~= seen_set(e, p as int + 1)) by {
                    assert forall|x: u64| seen_set(e, p as int + 1).contains(x) implies seen@.contains(
                        x,
                    ) by {
                        let q = choose|q: int| 0 <= q < p + 1 && #[trigger] e[e.len() - 1 - q] == x;
                        if q < p {
                            assert(seen_set(e, p as int).contains(x));
                        }
                    }
                    assert forall|x: u64| seen@.contains(x) implies seen_set(
                        e,
                        p as int + 1,
                    ).contains(x) by {
                        if seen_set(e, p as int).contains(x) {
                            let q = choose|q: int|
                                0 <= q < p && #[trigger] e[e.len() - 1 - q] == x;
                            assert(e[e.len() - 1 - q] == x);
                        } else {
                            assert(x == e[e.len() - 1 - p as int]);
                        }
                    }
                }
                assert(newly == is_authoritative(e, p as int)) by {
                    if newly {
                        assert forall|q: int|
                            0 <= q < p implies #[trigger] e[e.len() - 1 - q] != e[e.len() - 1
                            - p as int] by {
                            if e[e.len() - 1 - q] == e[e.len() - 1 - p as int] {
                                assert(seen_set(e, p as int).contains(item));
                            }
                        }
                    } else {
                        let q = choose|q: int| 0 <= q < p && #[trigger] e[e.len() - 1 - q] == item;
                        assert(!is_authoritative(e, p as int));
                    }
                }
            }
            if newly {
                dc = dc + 1;
                let lookup = self.item_sessions.get(&item);
                match lookup {
                    Some(cands) => {
                        let w = (len - p) as u64;
                        let ghost cseq = cands@;
                        proof {
                            assert(self.item_sessions@.contains_key(item));
                            assert(cseq == self.item_sessions@[item]@);
                        }
                        let mut j: usize = 0;
                        loop
                            invariant_except_break
                                self.wf(),
                                1 <= m,
                                p < len,
                                len == e.len() <= 100000,
                                evolving_session@ == e,
                                times == self.session_max_time@,
                                j <= cseq.len(),
                                w == len - p,
                                item == e[e.len() - 1 - p as int],
                                self.item_sessions@.contains_key(item),
                                cseq == self.item_sessions@[item]@,
                                cands@ == cseq,
                                ws_add_candidates(ws_p, cseq, times, w, m as int, 0)
                                    == ws_add_candidates(ws@, cseq, times, w, m as int, j as int),
                                ws@.len() <= m,
                                forall|a: int, b: int|
                                    0 <= a < b < ws@.len() ==> ws@[a].session != ws@[b].session,
                                forall|q: int|
                                    0 <= q < ws@.len() ==> entry_ok(
                                        *self,
                                        e,
                                        #[trigger] ws@[q],
                                        p as int * len as int + w,
                                    ),
                                forall|q: int, jj: int|
                                    0 <= q < ws@.len() && j <= jj < cseq.len() && (
                                    #[trigger] ws@[q]).session == #[trigger] cseq[jj] ==> ws@[q].sim
                                        <= p as int * len as int,
                                heap_matches(heap, ws@),
                            ensures
                                ws@ == ws_add_candidates(ws_p, cseq, times, w, m as int, 0),
                                ws@.len() <= m,
                                forall|a: int, b: int|
                                    0 <= a < b < ws@.len() ==> ws@[a].session != ws@[b].session,
                                forall|q: int|
                                    0 <= q < ws@.len() ==> entry_ok(
                                        *self,
                                        e,
                                        #[trigger] ws@[q],
                                        p as int * len as int + w,
                                    ),
                                heap_matches(heap, ws@),
                            decreases cseq.len() - j,
                        {
                            if j >= cands.len() {
                                break ;
                            }
                            let s = cands[j];
                            proof {
                                assert(cseq[j as int] == s);
                                assert(self.session_max_time@.contains_key(s)
                                    && self.session_items@.contains_key(s)
                                    && self.session_items@[s]@.contains(item)) by {
                                    let l = self.item_sessions@[item]@;
                                    assert(l[j as int] == s);
                                }
                            }
                            let found = find_session_index(&ws, s);
                            match found {
                                Some(qi) => {
                                    proof {
                                        let qq = choose|qq: int|
                                            0 <= qq < ws@.len() && ws@[qq].session == s;
                                        if qq != qi as int {
                                            if qq < qi as int {
                                                assert(ws@[qq].session != ws@[qi as int].session);
                                            } else {
                                                assert(ws@[qi as int].session != ws@[qq].session);
                                            }
                                        }
                                        assert(ws@[qi as int].sim <= p as int * len as int) by {
                                            assert(ws@[qi as int].session == cseq[j as int]);
                                        }
                                        assert(p as int * len as int + len as int <= 100000int
                                            * 100000int) by (nonlinear_arith)
                                            requires
                                                (p as int) < (len as int),
                                                (len as int) <= 100000,
                                        ;
                                    }
                                    let ghost pre_bump = ws@;
                                    let enm = vstd::std_specs::vec::vec_index_mut(&mut ws, qi);
                                    enm.sim = enm.sim + w;
                                    j = j + 1;
                                    proof {
                                        assert(ws@ =~= pre_bump.update(
                                            qi as int,
                                            WorkingEntry {
                                                sim: (pre_bump[qi as int].sim + w) as u64,
                                                ..pre_bump[qi as int]
                                            },
                                        ));
                                        assert(ws@.map_values(|en: WorkingEntry| enc_entry(en))
                                            =~= pre_bump.map_values(
                                            |en: WorkingEntry| enc_entry(en),
                                        ));
                                        assert forall|q2: int, jj: int|
                                            0 <= q2 < ws@.len() && j <= jj < cseq.len() && (
                                            #[trigger] ws@[q2]).session == #[trigger] cseq[jj]
                                            implies ws@[q2].sim <= p as int * len as int by {
                                            if q2 == qi as int {
                                                assert(cseq[jj] == s);
                                                assert(false);
                                            }
                                        }
                                    }
                                } ,
                                None => {
                                    let t = *self.session_max_time.get(&s).unwrap();
                                    if ws.len() < m {
                                        let en = WorkingEntry { session: s, time: t, sim: w };
                                        let ghost pre_push = ws@;
                                        ws.push(en);
                                        heap_push(&mut heap, encode_key(t, s));
                                        j = j + 1;
                                        proof {
                                            assert(ws@.map_values(|x: WorkingEntry| enc_entry(x))
                                                =~= pre_push.map_values(
                                                |x: WorkingEntry| enc_entry(x),
                                            ).push(enc_entry(en)));
                                            assert(heap_matches(heap, ws@));
                                            assert forall|q2: int, jj: int|
                                                0 <= q2 < ws@.len() && j <= jj < cseq.len() && (
                                                #[trigger] ws@[q2]).session == #[trigger] cseq[jj]
                                                implies ws@[q2].sim <= p as int * len as int by {
                                                if q2 == pre_push.len() as int {
                                                    assert(cseq[jj] == s);
                                                    assert(false);
                                                }
                                            }
                                            assert(entry_ok(
                                                *self,
                                                e,
                                                en,
                                                p as int * len as int + w,
                                            )) by {
                                                assert(e[e.len() - 1 - p as int] == item);
                                                assert(self.session_items@[s]@.contains(
                                                    e[e.len() - 1 - p as int],
                                                ));
                                            }
                                        }
                                    } else {
                                        let ghost pre_evict = ws@;
                                        let ghost mm = pre_evict.map_values(
                                            |x: WorkingEntry| enc_entry(x),
                                        );
                                        proof {
                                            assert(mm.to_multiset().len() == mm.len());
                                            assert(mm.len() == pre_evict.len());
                                        }
                                        let popped = heap_pop(&mut heap);
                                        proof {
                                            if popped.is_none() {
                                                assert(heap_keys(heap).len() == 0);
                                            }
                                        }
                                        let top = popped.unwrap();
                                        proof {
                                            lemma_pop_is_min(pre_evict, mm, top);
                                            lemma_ws_min_index(pre_evict);
                                            let mi = ws_min_index(pre_evict);
                                            lemma_enc_decode(
                                                pre_evict[mi].time,
                                                pre_evict[mi].session,
                                            );
                                        }
                                        let tmin = 0xFFFFFFFFu32 - ((top / 0x100000000) as u32);
                                        let smin = 0xFFFFFFFFu32 - ((top % 0x100000000) as u32);
                                        proof {
                                            let mi = ws_min_index(pre_evict);
                                            assert(tmin == pre_evict[mi].time);
                                            assert(smin == pre_evict[mi].session);
                                        }
                                        if t > tmin {
                                            let found_min = find_session_index(&ws, smin);
                                            let qi = found_min.unwrap();
                                            proof {
                                                let mi = ws_min_index(pre_evict);
                                                if qi as int != mi {
                                                    if (qi as int) < mi {
                                                        assert(pre_evict[qi as int].session
                                                            != pre_evict[mi].session);
                                                    } else {
                                                        assert(pre_evict[mi].session
                                                            != pre_evict[qi as int].session);
                                                    }
                                                }
                                            }
                                            ws.remove(qi);
                                            let en = WorkingEntry { session: s, time: t, sim: w };
                                            ws.push(en);
                                            heap_push(&mut heap, encode_key(t, s));
                                            j = j + 1;
                                            proof {
                                                let mi = ws_min_index(pre_evict);
                                                assert(pre_evict.remove(mi).map_values(
                                                    |x: WorkingEntry| enc_entry(x),
                                                ) =~= mm.remove(mi));
                                                assert(mm.remove(mi).to_multiset()
                                                    =~= mm.to_multiset().remove(mm[mi]));
                                                assert(ws@ =~= pre_evict.remove(mi).push(en));
                                                assert(ws@.map_values(
                                                    |x: WorkingEntry| enc_entry(x),
                                                ) =~= mm.remove(mi).push(enc_entry(en)));
                                                assert(heap_matches(heap, ws@));
                                                assert forall|a: int, b: int|
                                                    0 <= a < b < ws@.len() implies ws@[a].session
                                                    != ws@[b].session by {
                                                    let rem = pre_evict.remove(mi);
                                                    if b < ws@.len() - 1 {
                                                    } else {
                                                        if rem[a].session == s {
                                                            let orig = if a < mi {
                                                                a
                                                            } else {
                                                                a + 1
                                                            };
                                                            assert(pre_evict[orig].session == s);
                                                            assert(false);
                                                        }
                                                    }
                                                }
                                                assert forall|q2: int, jj: int|
                                                    0 <= q2 < ws@.len() && j <= jj < cseq.len()
                                                    && (#[trigger] ws@[q2]).session
                                                    == #[trigger] cseq[jj] implies ws@[q2].sim
                                                    <= p as int * len as int by {
                                                    if q2 == ws@.len() - 1 {
                                                        assert(cseq[jj] == s);
                                                        assert(false);
                                                    } else {
                                                        let rem = pre_evict.remove(mi);
                                                        let orig = if q2 < mi {
                                                            q2
                                                        } else {
                                                            q2 + 1
                                                        };
                                                        assert(ws@[q2] == pre_evict[orig]);
                                                    }
                                                }
                                                assert(entry_ok(
                                                    *self,
                                                    e,
                                                    en,
                                                    p as int * len as int + w,
                                                )) by {
                                                    assert(e[e.len() - 1 - p as int] == item);
                                                    assert(self.session_items@[s]@.contains(
                                                        e[e.len() - 1 - p as int],
                                                    ));
                                                }
                                            }
                                        } else {
                                            heap_push(&mut heap, top);
                                            proof {
                                                assert(heap_keys(heap) =~= mm.to_multiset());
                                                let mi = ws_min_index(pre_evict);
                                                assert(times[s] <= pre_evict[mi].time);
                                                assert(ws_add_candidates(
                                                    ws@,
                                                    cseq,
                                                    times,
                                                    w,
                                                    m as int,
                                                    j as int,
                                                ) == ws@);
                                            }
                                            break ;
                                        }
                                    }
                                },
                            }
                        }
                        proof {
                            assert(ws@ == ws_after(*self, e, m as int, p as int + 1));
                            assert forall|q: int|
                                0 <= q < ws@.len() implies entry_ok(
                                *self,
                                e,
                                #[trigger] ws@[q],
                                (p as int + 1) * len as int,
                            ) by {
                                assert((p as int + 1) * len as int == p as int * len as int
                                    + len as int) by (nonlinear_arith);
                                assert(entry_ok(*self, e, ws@[q], p as int * len as int + w));
                            }
                        }
                    },
                    None => {
                        proof {
                            assert(ws@ == ws_after(*self, e, m as int, p as int + 1));
                            assert forall|q: int|
                                0 <= q < ws@.len() implies entry_ok(
                                *self,
                                e,
                                #[trigger] ws@[q],
                                (p as int + 1) * len as int,
                            ) by {
                                assert((p as int + 1) * len as int == p as int * len as int
                                    + len as int) by (nonlinear_arith);
                                assert(entry_ok(*self, e, ws@[q], p as int * len as int));
                            }
                        }
                    },
                }
            } else {
                proof {
                    assert(ws@ == ws_after(*self, e, m as int, p as int + 1));
                    assert forall|q: int|
                        0 <= q < ws@.len() implies entry_ok(
                        *self,
                        e,
                        #[trigger] ws@[q],
                        (p as int + 1) * len as int,
                    ) by {
                        assert((p as int + 1) * len as int == p as int * len as int
                            + len as int) by (nonlinear_arith);
                        assert(entry_ok(*self, e, ws@[q], p as int * len as int));
                    }
                }
            }
            p = p + 1;
        }
        // Extract the top K tracked sessions by similarity.
        let den = dc as u64;
        let ghost ws_full = ws@;
        let ghost conv = |en: WorkingEntry| entry_to_score(en, distinct_count(e, e.len() as int) as u64);
        let mut out: Vec<SessionScore> = Vec::new();
        let mut taken: usize = 0;
        proof {
            assert(top_k_spec(ws_full, k as int).map_values(conv) =~= out@ + top_k_spec(
                ws@,
                k as int - taken as int,
            ).map_values(conv));
        }
        while taken < k && ws.len() > 0
            invariant
                taken <= k,
                out@.len() == taken,
                taken + ws@.len() == ws_full.len(),
                ws_full.len() <= m,
                len == e.len() <= 100000,
                den == distinct_count(e, e.len() as int),
                conv == (|en: WorkingEntry| entry_to_score(
                    en,
                    distinct_count(e, e.len() as int) as u64,
                )),
                top_k_spec(ws_full, k as int).map_values(conv) == out@ + top_k_spec(
                    ws@,
                    k as int - taken as int,
                ).map_values(conv),
                forall|a: int, b: int| 0 <= a < b < ws@.len() ==> ws@[a].session != ws@[b].session,
                forall|q: int|
                    0 <= q < ws@.len() ==> entry_ok(
                        *self,
                        e,
                        #[trigger] ws@[q],
                        len as int * len as int,
                    ),
                forall|q: int|
                    0 <= q < out@.len() ==> neighbor_ok(*self, e, #[trigger] out@[q])
                        && out@[q].score.den == distinct_count(e, e.len() as int),
            decreases k - taken,
        {
            let ghost pre = ws@;
            let mut b: usize = 0;
            let mut qi: usize = 1;
            while qi < ws.len()
                invariant
                    b < qi <= ws@.len() || (qi == 1 && b == 0 && ws@.len() >= 1),
                    b < ws@.len(),
                    forall|q: int| 0 <= q < qi ==> !ranks_before(#[trigger] ws@[q], ws@[b as int]),
                decreases ws@.len() - qi,
            {
                if entry_ranks_before(&ws[qi], &ws[b]) {
                    b = qi;
                }
                qi = qi + 1;
            }
            proof {
                lemma_ws_best_index(pre);
                let bi = ws_best_index(pre);
                if b as int != bi {
                    assert(!ranks_before(pre[bi], pre[b as int]));
                    assert(!ranks_before(pre[b as int], pre[bi]));
                    assert(pre[bi].session == pre[b as int].session);
                    if bi < b as int {
                        assert(pre[bi].session != pre[b as int].session);
                    } else {
                        assert(pre[b as int].session != pre[bi].session);
                    }
                }
                assert(b as int == ws_best_index(pre));
            }
            let en = ws.remove(b);
            out.push(SessionScore { id: en.session, score: Score { num: en.sim as i128, den } });
            taken = taken + 1;
            proof {
                let rest = top_k_spec(pre, k as int - taken as int + 1);
                assert(rest == seq![en] + top_k_spec(ws@, k as int - taken as int));
                assert(rest.map_values(conv) =~= seq![conv(en)] + top_k_spec(
                    ws@,
                    k as int - taken as int,
                ).map_values(conv));
                assert(out@ + top_k_spec(ws@, k as int - taken as int).map_values(conv)
                    =~= (out@.drop_last() + rest.map_values(conv)));
                assert(out@.drop_last() + rest.map_values(conv) =~= top_k_spec(
                    ws_full,
                    k as int,
                ).map_values(conv));
                assert(entry_ok(*self, e, en, len as int * len as int)) by {
                    assert(pre[b as int] == en);
                }
                assert(neighbor_ok(*self, e, out@.last())) by {
                    assert(len as int * len as int <= e.len() * e.len());
                }
            }
        }
        proof {
            if taken < k {
                assert(ws@.len() == 0);
                assert(top_k_spec(ws@, k as int - taken as int) =~= Seq::<WorkingEntry>::empty());
            } else {
                assert(top_k_spec(ws@, k as int - taken as int) =~= Seq::<WorkingEntry>::empty());
            }
            assert(top_k_spec(ws@, k as int - taken as int).map_values(conv) =~= Seq::<
                SessionScore,
            >::empty());
            assert(out@ =~= out@ + Seq::<SessionScore>::empty());
            assert(out@ == top_k_spec(ws_full, k as int).map_values(conv));
            assert(out@ == neighbors_spec(*self, e, k as int, m as int));
        }
        out
    }
}

/// The heap key of a tracked session, as executable arithmetic.
fn encode_key(time: u32, session: u32) -> (r: u64)
    ensures
        r == spec_enc(time, session),
{
    (0xFFFFFFFFu64 - time as u64) * 0x100000000 + (0xFFFFFFFFu64 - session as u64)
}

} // verus!
