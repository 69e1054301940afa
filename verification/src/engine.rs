//! Incremental maintenance of per-session recommendation sets.
//!
//! Recommendations are facts (session, item, score) with signed
//! multiplicity.  On each appended interaction the full pipeline is
//! re-evaluated for that session only, at a new logical step, and the
//! engine emits the delta against the previous step: facts present before
//! and absent now as retractions, facts absent before and present now as
//! insertions; unchanged facts are not re-emitted.  Each emitted fact
//! appears exactly once per step, a fact is only inserted when it is not
//! currently present, and other sessions' state is untouched.  Steps are
//! strictly ordered: the returned step number increases by one per append.

use vstd::prelude::*;
use std::collections::HashMap;
use crate::types::{Score, ItemScore, SessionItemWithOrder};
use crate::index::{VMISkNN, spec_index_model};
use crate::scoring::{predict, predict_spec};

verus! {

broadcast use vstd::std_specs::hash::group_hash_axioms, vstd::seq_lib::group_filter_ensures;

/// A fact is present in a fact list.
pub open spec fn fact_in(facts: Seq<ItemScore>, f: ItemScore) -> bool {
    exists|q: int| 0 <= q < facts.len() && facts[q] == f
}

/// No two facts of a list name the same item.
pub open spec fn distinct_fact_ids(facts: Seq<ItemScore>) -> bool {
    forall|a: int, b: int| 0 <= a < b < facts.len() ==> facts[a].id != facts[b].id
}

/// The facts of `a` that are absent from `b`, in the order of `a`.
pub open spec fn diff_minus(a: Seq<ItemScore>, b: Seq<ItemScore>) -> Seq<ItemScore> {
    a.filter(|f: ItemScore| !fact_in(b, f))
}

fn contains_fact(v: &Vec<ItemScore>, f: ItemScore) -> (r: bool)
    ensures
        r == fact_in(v@, f),
{
    let mut q: usize = 0;
    while q < v.len()
        invariant
            q <= v@.len(),
            forall|p: int| 0 <= p < q ==> v@[p] != f,
        decreases v@.len() - q,
    {
        if v[q] == f {
            return true;
        }
        q = q + 1;
    }
    false
}

/// The facts of `a` absent from `b`: one side of a symmetric difference.
fn facts_minus(a: &Vec<ItemScore>, b: &Vec<ItemScore>) -> (r: Vec<ItemScore>)
    requires
        distinct_fact_ids(a@),
    ensures
        r@ == diff_minus(a@, b@),
        distinct_fact_ids(r@),
        forall|q: int|
            0 <= q < r@.len() ==> fact_in(a@, #[trigger] r@[q]) && !fact_in(b@, r@[q]),
{
    let ghost pred = |f: ItemScore| !fact_in(b@, f);
    let mut out: Vec<ItemScore> = Vec::new();
    let mut i: usize = 0;
    proof {
        reveal_with_fuel(Seq::filter, 2);
        assert(a@.take(0).filter(pred) =~= Seq::<ItemScore>::empty());
    }
    while i < a.len()
        invariant
            i <= a@.len(),
            distinct_fact_ids(a@),
            pred == (|f: ItemScore| !fact_in(b@, f)),
            out@ == a@.take(i as int).filter(pred),
            forall|q: int|
                0 <= q < out@.len() ==> fact_in(a@.take(i as int), #[trigger] out@[q]) && !fact_in(
                    b@,
                    out@[q],
                ),
            distinct_fact_ids(out@),
        decreases a@.len() - i,
    {
        let f = a[i];
        let present = contains_fact(b, f);
        let ghost pre = out@;
        proof {
            assert(a@.take(i as int + 1).drop_last() =~= a@.take(i as int));
            assert(a@.take(i as int + 1).last() == a@[i as int]);
            assert(pred(f) == !fact_in(b@, f));
        }
        if !present {
            proof {
                assert forall|q: int| 0 <= q < out@.len() implies (#[trigger] out@[q]).id
                    != f.id by {
                    let p = choose|p: int| 0 <= p < i && a@.take(i as int)[p] == out@[q];
                    assert(a@[p] == out@[q]);
                }
            }
            out.push(f);
            proof {
                reveal_with_fuel(Seq::filter, 2);
                let s1 = a@.take(i as int + 1);
                assert(s1.len() == i + 1);
                assert(s1.filter(pred) == if pred(s1.last()) {
                    s1.drop_last().filter(pred).push(s1.last())
                } else {
                    s1.drop_last().filter(pred)
                });
                assert(s1.drop_last().filter(pred) == a@.take(i as int).filter(pred));
                assert(pred(s1.last()));
                assert(out@ =~= pre.push(f));
                assert(out@ =~= a@.take(i as int + 1).filter(pred));
                assert forall|q: int|
                    0 <= q < out@.len() implies fact_in(
                    a@.take(i as int + 1),
                    #[trigger] out@[q],
                ) && !fact_in(b@, out@[q]) by {
                    if q < pre.len() {
                        let p = choose|p: int| 0 <= p < i && a@.take(i as int)[p] == out@[q];
                        assert(a@.take(i as int + 1)[p] == out@[q]);
                    } else {
                        assert(a@.take(i as int + 1)[i as int] == f);
                    }
                }
            }
        } else {
            proof {
                reveal_with_fuel(Seq::filter, 2);
                let s1 = a@.take(i as int + 1);
                assert(s1.len() == i + 1);
                assert(s1.filter(pred) == if pred(s1.last()) {
                    s1.drop_last().filter(pred).push(s1.last())
                } else {
                    s1.drop_last().filter(pred)
                });
                assert(s1.drop_last().filter(pred) == a@.take(i as int).filter(pred));
                assert(!pred(s1.last()));
                assert(out@ =~= a@.take(i as int + 1).filter(pred));
                assert forall|q: int|
                    0 <= q < out@.len() implies fact_in(
                    a@.take(i as int + 1),
                    #[trigger] out@[q],
                ) && !fact_in(b@, out@[q]) by {
                    let p = choose|p: int| 0 <= p < i && a@.take(i as int)[p] == out@[q];
                    assert(a@.take(i as int + 1)[p] == out@[q]);
                }
            }
        }
        i = i + 1;
    }
    proof {
        assert(a@.take(a@.len() as int) =~= a@);
    }
    out
}

/// The incremental maintenance engine: the immutable index, the evolving
/// sessions it has seen, and the current recommendation set of each, kept
/// equal to a fresh one-shot prediction at every step.
pub struct Engine {
    pub index: VMISkNN,
    pub how_many: usize,
    pub sessions: HashMap<u32, Vec<u64>>,
    pub recs: HashMap<u32, Vec<ItemScore>>,
    pub step: u32,
}

impl Engine {
    /// The recommendation facts currently maintained for a session.
    pub open spec fn rec_of(self, s: u32) -> Seq<ItemScore> {
        if self.recs@.contains_key(s) {
            self.recs@[s]@
        } else {
            Seq::empty()
        }
    }

    /// The engine invariant: for every session seen so far, the
    /// maintained recommendation set equals a one-shot prediction on the
    /// session's full prefix.
    pub open spec fn wf(self) -> bool {
        &&& self.index.wf()
        &&& self.index.m <= 1048576
        &&& forall|s: u32|
            self.sessions@.contains_key(s) <==> #[trigger] self.recs@.contains_key(s)
        &&& forall|s: u32| #[trigger]
            self.sessions@.contains_key(s) ==> 1 <= self.sessions@[s]@.len() <= 100000
        &&& forall|s: u32| #[trigger]
            self.recs@.contains_key(s) ==> self.recs@[s]@ == predict_spec(
                self.index,
                self.sessions@[s]@,
                self.index.k as int,
                self.index.m as int,
                self.how_many as int,
            ) && distinct_fact_ids(self.recs@[s]@)
    }

    /// Builds an engine over a fresh index of the historical corpus.
    pub fn new(
        k: usize,
        m: usize,
        how_many: usize,
        interactions: Vec<SessionItemWithOrder>,
    ) -> (r: Engine)
        requires
            1 <= k,
            1 <= m <= 1048576,
        ensures
            r.wf(),
            r.index.k == k,
            r.index.m == m,
            r.how_many == how_many,
            r.index.models(spec_index_model(interactions@, usize::MAX as int, m as int)),
            r.sessions@ == Map::<u32, Vec<u64>>::empty(),
            r.recs@ == Map::<u32, Vec<ItemScore>>::empty(),
            r.step == 0,
    {
        Engine {
            index: VMISkNN::new(k, m, interactions),
            how_many,
            sessions: HashMap::new(),
            recs: HashMap::new(),
            step: 0,
        }
    }

    /// Appends one interaction to a session and re-derives only that
    /// session's recommendations, emitting the delta against the previous
    /// step: `(logical step, retractions, insertions)`.  Every retracted
    /// fact was present and is no longer derived; every inserted fact was
    /// absent; facts derived before and after are not re-emitted.  The
    /// caller keeps sessions under the length bound that keeps scores
    /// exact, and the step counter below its width.
    pub fn append(&mut self, session_id: u32, item_id: u64) -> (r: (u32, Vec<ItemScore>, Vec<
        ItemScore,
    >))
        requires
            old(self).wf(),
            old(self).sessions@.contains_key(session_id) ==> old(self).sessions@[session_id]@.len() < 100000,
            old(self).step < u32::MAX,
        ensures
            final(self).wf(),
            final(self).index == old(self).index,
            final(self).how_many == old(self).how_many,
            final(self).step == old(self).step + 1,
            r.0 == final(self).step,
            final(self).sessions@.contains_key(session_id),
            final(self).sessions@[session_id]@ == (if old(self).sessions@.contains_key(session_id) {
                old(self).sessions@[session_id]@.push(item_id)
            } else {
                seq![item_id]
            }),
            forall|s: u32|
                s != session_id ==> (final(self).sessions@.contains_key(s) <==> old(self).sessions@.contains_key(s)),
            forall|s: u32|
                s != session_id && #[trigger] old(self).sessions@.contains_key(s) ==> final(self).sessions@[s] == old(self).sessions@[s] && final(self).recs@[s] == old(self).recs@[s],
            final(self).rec_of(session_id) == predict_spec(
                old(self).index,
                final(self).sessions@[session_id]@,
                old(self).index.k as int,
                old(self).index.m as int,
                old(self).how_many as int,
            ),
            r.1@ == diff_minus(old(self).rec_of(session_id), final(self).rec_of(session_id)),
            r.2@ == diff_minus(final(self).rec_of(session_id), old(self).rec_of(session_id)),
            forall|q: int|
                0 <= q < r.1@.len() ==> fact_in(old(self).rec_of(session_id), #[trigger] r.1@[q])
                    && !fact_in(final(self).rec_of(session_id), r.1@[q]),
            forall|q: int|
                0 <= q < r.2@.len() ==> fact_in(final(self).rec_of(session_id), #[trigger] r.2@[q])
                    && !fact_in(old(self).rec_of(session_id), r.2@[q]),
            distinct_fact_ids(r.1@),
            distinct_fact_ids(r.2@),
    {
        let removed = self.sessions.remove(&session_id);
        let mut items = match removed {
            Some(v) => v,
            None => Vec::new(),
        };
        items.push(item_id);
        let new_rec = predict(&self.index, &items, self.index.k, self.index.m, self.how_many);
        let removed_rec = self.recs.remove(&session_id);
        let old_rec = match removed_rec {
            Some(v) => v,
            None => Vec::new(),
        };
        proof {
            assert(old_rec@ == old(self).rec_of(session_id));
            if !old(self).recs@.contains_key(session_id) {
                assert(old_rec@ =~= Seq::<ItemScore>::empty());
            }
            assert(distinct_fact_ids(old_rec@));
        }
        let retractions = facts_minus(&old_rec, &new_rec);
        let insertions = facts_minus(&new_rec, &old_rec);
        self.sessions.insert(session_id, items);
        self.recs.insert(session_id, new_rec);
        self.step = self.step + 1;
        (self.step, retractions, insertions)
    }
}

/// Builds the incremental pipeline: an engine over a fresh index of the
/// historical corpus, using K neighbors among the M most recent candidate
/// sessions per item and `how_many` recommendations per step.
pub fn vmis(
    k: usize,
    m: usize,
    how_many: usize,
    interactions: Vec<SessionItemWithOrder>,
) -> (r: Engine)
    requires
        1 <= k,
        1 <= m <= 1048576,
    ensures
        r.wf(),
        r.index.k == k,
        r.index.m == m,
        r.how_many == how_many,
        r.index.models(spec_index_model(interactions@, usize::MAX as int, m as int)),
        r.sessions@ == Map::<u32, Vec<u64>>::empty(),
        r.recs@ == Map::<u32, Vec<ItemScore>>::empty(),
        r.step == 0,
{
    Engine::new(k, m, how_many, interactions)
}

/// Applies one step's retractions and insertions to the caller's live
/// session-to-item-to-score map, as the incremental interface hands them
/// out: retracted items leave the session's map, inserted facts enter it.
pub fn update_recommendations(
    recommendations: &mut HashMap<u32, HashMap<u64, Score>>,
    session_id: u32,
    retractions: &Vec<ItemScore>,
    insertions: &Vec<ItemScore>,
)
    ensures
        final(recommendations)@.contains_key(session_id),
        final(recommendations)@[session_id]@ == apply_insertions(
            apply_retractions(
                (if old(recommendations)@.contains_key(session_id) {
                    old(recommendations)@[session_id]@
                } else {
                    Map::empty()
                }),
                retractions@,
                retractions@.len() as int,
            ),
            insertions@,
            insertions@.len() as int,
        ),
        forall|s: u32|
            s != session_id ==> (final(recommendations)@.contains_key(s) <==> old(recommendations)@.contains_key(s)),
        forall|s: u32|
            s != session_id && #[trigger] old(recommendations)@.contains_key(s) ==> final(recommendations)@[s] == old(recommendations)@[s],
{
    let removed = recommendations.remove(&session_id);
    let mut inner = match removed {
        Some(v) => v,
        None => HashMap::new(),
    };
    proof {
        if !old(recommendations)@.contains_key(session_id) {
            assert(inner@ =~= Map::<u64, Score>::empty());
        }
    }
    let mut q: usize = 0;
    while q < retractions.len()
        invariant
            q <= retractions@.len(),
            inner@ == apply_retractions(
                (if old(recommendations)@.contains_key(session_id) {
                    old(recommendations)@[session_id]@
                } else {
                    Map::empty()
                }),
                retractions@,
                q as int,
            ),
        decreases retractions@.len() - q,
    {
        inner.remove(&retractions[q].id);
        q = q + 1;
    }
    let mut p: usize = 0;
    while p < insertions.len()
        invariant
            p <= insertions@.len(),
            inner@ == apply_insertions(
                apply_retractions(
                    (if old(recommendations)@.contains_key(session_id) {
                        old(recommendations)@[session_id]@
                    } else {
                        Map::empty()
                    }),
                    retractions@,
                    retractions@.len() as int,
                ),
                insertions@,
                p as int,
            ),
        decreases insertions@.len() - p,
    {
        inner.insert(insertions[p].id, insertions[p].score);
        p = p + 1;
    }
    recommendations.insert(session_id, inner);
}

/// The item-to-score map after removing the first `n` retracted items.
pub open spec fn apply_retractions(mm: Map<u64, Score>, rs: Seq<ItemScore>, n: int) -> Map<
    u64,
    Score,
>
    decreases n,
{
    if n <= 0 {
        mm
    } else {
        apply_retractions(mm, rs, n - 1).remove(rs[n - 1].id)
    }
}

/// The item-to-score map after adding the first `n` inserted facts.
pub open spec fn apply_insertions(mm: Map<u64, Score>, ins: Seq<ItemScore>, n: int) -> Map<
    u64,
    Score,
>
    decreases n,
{
    if n <= 0 {
        mm
    } else {
        apply_insertions(mm, ins, n - 1).insert(ins[n - 1].id, ins[n - 1].score)
    }
}

/// The item-to-score map a fact list denotes.
pub open spec fn facts_as_map(facts: Seq<ItemScore>, n: int) -> Map<u64, Score>
    decreases n,
{
    if n <= 0 {
        Map::empty()
    } else {
        facts_as_map(facts, n - 1).insert(facts[n - 1].id, facts[n - 1].score)
    }
}

} // verus!
