//! The immutable historical index.
//!
//! Built once from a batch of interaction facts: facts are grouped by
//! session, items are deduplicated per session (set semantics, kept
//! sorted), each session's maximum order is recorded, sessions longer
//! than a configured cutoff are excluded, and for each item the index
//! keeps the at most M most recent sessions containing it (ties in
//! recency keep input order) together with its fixed-point idf weight.
//! After building, the index is never mutated: queries only read it.

use vstd::prelude::*;
use std::collections::HashMap;
use crate::types::{SessionItemWithOrder, ProductAttributes};
use crate::idf::spec_idf_weight;
use crate::seq_util::{
    sorted_strict,
    distinct_seq,
    insert_sorted_distinct,
    lemma_insert_sorted_distinct,
    vec_insert_sorted_distinct,
};

verus! {

broadcast use vstd::std_specs::hash::group_hash_axioms;

/// One historical session while the corpus is being grouped: its id, its
/// distinct items in ascending order, and its maximum interaction order.
pub struct SessionBuild {
    pub id: u32,
    pub items: Vec<u64>,
    pub max_time: u32,
}

/// The mathematical shadow of a grouped session.
pub type SessionModel = (u32, Seq<u64>, u32);

/// The shadows of a vector of grouped sessions.
pub open spec fn build_model(v: Seq<SessionBuild>) -> Seq<SessionModel> {
    v.map_values(|sb: SessionBuild| (sb.id, sb.items@, sb.max_time))
}

/// Folds one interaction fact into the grouped sessions: a new session is
/// appended, an existing one gets the item (deduplicated, sorted) and a
/// possibly larger maximum order.
pub open spec fn gather_step(acc: Seq<SessionModel>, row: (u32, u64, u32)) -> Seq<SessionModel> {
    if exists|i: int| 0 <= i < acc.len() && acc[i].0 == row.0 {
        let i = choose|i: int| 0 <= i < acc.len() && acc[i].0 == row.0;
        let t = if row.2 > acc[i].2 {
            row.2
        } else {
            acc[i].2
        };
        acc.update(i, (row.0, insert_sorted_distinct(acc[i].1, row.1), t))
    } else {
        acc.push((row.0, seq![row.1], row.2))
    }
}

/// The grouped sessions after the first `n` interaction facts, in order
/// of each session's first appearance.
pub open spec fn gather(rows: Seq<(u32, u64, u32)>, n: int) -> Seq<SessionModel>
    decreases n,
{
    if n <= 0 {
        Seq::empty()
    } else {
        gather_step(gather(rows, n - 1), rows[n - 1])
    }
}

/// Grouping keeps session ids distinct and item lists strictly ascending,
/// nonempty, and no longer than the number of facts folded in.
pub open spec fn gather_inv(acc: Seq<SessionModel>, n: int) -> bool {
    &&& forall|i: int, j: int| 0 <= i < j < acc.len() ==> acc[i].0 != acc[j].0
    &&& forall|i: int|
        0 <= i < acc.len() ==> sorted_strict(#[trigger] acc[i].1) && 1 <= acc[i].1.len() <= n
    &&& acc.len() <= n
}

proof fn lemma_gather_step_inv(acc: Seq<SessionModel>, row: (u32, u64, u32), n: int)
    requires
        gather_inv(acc, n),
    ensures
        gather_inv(gather_step(acc, row), n + 1),
{
    let r = gather_step(acc, row);
    if exists|i: int| 0 <= i < acc.len() && acc[i].0 == row.0 {
        let i = choose|i: int| 0 <= i < acc.len() && acc[i].0 == row.0;
        lemma_insert_sorted_distinct(acc[i].1, row.1);
        assert(forall|j: int| 0 <= j < r.len() && j != i ==> r[j] == acc[j]);
    }
}

proof fn lemma_gather_inv(rows: Seq<(u32, u64, u32)>, n: int)
    requires
        0 <= n,
    ensures
        gather_inv(gather(rows, n), n),
    decreases n,
{
    if n > 0 {
        lemma_gather_inv(rows, n - 1);
        lemma_gather_step_inv(gather(rows, n - 1), rows[n - 1], n - 1);
        let acc = gather(rows, n);
        assert(gather_inv(acc, n));
    }
}

/// What grouping means, beyond its fold: a session stands in the grouped
/// list exactly when one of its facts was seen; its item list holds
/// exactly its facts' items; and its maximum order is the order of one of
/// its facts, at least as large as every other.
/// What a grouped session means with respect to the first `n` facts: it
/// was seen, its items are exactly its facts' items, and its maximum
/// order is one of its facts' orders, at least as large as every other.
#[verifier::opaque]
pub open spec fn grouped_entry_ok(rows: Seq<(u32, u64, u32)>, n: int, en: SessionModel) -> bool {
    &&& exists|q: int| 0 <= q < n && (#[trigger] rows[q]).0 == en.0
    &&& forall|y: u64|
        en.1.contains(y) <==> exists|q: int|
            0 <= q < n && (#[trigger] rows[q]).0 == en.0 && rows[q].1 == y
    &&& exists|q: int| 0 <= q < n && (#[trigger] rows[q]).0 == en.0 && rows[q].2 == en.2
    &&& forall|q: int| 0 <= q < n && (#[trigger] rows[q]).0 == en.0 ==> rows[q].2 <= en.2
}

/// A grouped session untouched by the next fact still means the same.
proof fn lemma_grouped_entry_extend(rows: Seq<(u32, u64, u32)>, n: int, en: SessionModel)
    requires
        1 <= n <= rows.len(),
        grouped_entry_ok(rows, n - 1, en),
        rows[n - 1].0 != en.0,
    ensures
        grouped_entry_ok(rows, n, en),
{
    reveal(grouped_entry_ok);
    let q0 = choose|q: int| 0 <= q < n - 1 && (#[trigger] rows[q]).0 == en.0;
    assert(0 <= q0 < n && rows[q0].0 == en.0);
    assert forall|y: u64| en.1.contains(y) implies exists|q: int|
        0 <= q < n && (#[trigger] rows[q]).0 == en.0 && rows[q].1 == y by {
        let q = choose|q: int|
            0 <= q < n - 1 && (#[trigger] rows[q]).0 == en.0 && rows[q].1 == y;
        assert(0 <= q < n && rows[q].0 == en.0 && rows[q].1 == y);
    }
    assert forall|y: u64|
        (exists|q: int| 0 <= q < n && (#[trigger] rows[q]).0 == en.0 && rows[q].1 == y) implies
        en.1.contains(y) by {
        let q = choose|q: int| 0 <= q < n && (#[trigger] rows[q]).0 == en.0 && rows[q].1 == y;
        assert(q != n - 1);
    }
    let qt = choose|q: int| 0 <= q < n - 1 && (#[trigger] rows[q]).0 == en.0 && rows[q].2 == en.2;
    assert(0 <= qt < n && rows[qt].0 == en.0 && rows[qt].2 == en.2);
}

/// The grouped session that absorbs the next fact means the same with
/// that fact folded in.
proof fn lemma_grouped_entry_update(rows: Seq<(u32, u64, u32)>, n: int, en: SessionModel)
    requires
        1 <= n <= rows.len(),
        grouped_entry_ok(rows, n - 1, en),
        rows[n - 1].0 == en.0,
        sorted_strict(en.1),
    ensures
        grouped_entry_ok(
            rows,
            n,
            (
                en.0,
                insert_sorted_distinct(en.1, rows[n - 1].1),
                if rows[n - 1].2 > en.2 {
                    rows[n - 1].2
                } else {
                    en.2
                },
            ),
        ),
{
    reveal(grouped_entry_ok);
    let row = rows[n - 1];
    lemma_insert_sorted_distinct(en.1, row.1);
    let items = insert_sorted_distinct(en.1, row.1);
    let t2 = if row.2 > en.2 {
        row.2
    } else {
        en.2
    };
    assert(0 <= n - 1 < n && rows[n - 1].0 == en.0);
    assert forall|y: u64| items.contains(y) implies exists|q: int|
        0 <= q < n && (#[trigger] rows[q]).0 == en.0 && rows[q].1 == y by {
        if en.1.contains(y) {
            let q = choose|q: int|
                0 <= q < n - 1 && (#[trigger] rows[q]).0 == en.0 && rows[q].1 == y;
            assert(0 <= q < n && rows[q].0 == en.0 && rows[q].1 == y);
        } else {
            assert(y == row.1);
            assert(0 <= n - 1 < n && rows[n - 1].0 == en.0 && rows[n - 1].1 == y);
        }
    }
    assert forall|y: u64|
        (exists|q: int| 0 <= q < n && (#[trigger] rows[q]).0 == en.0 && rows[q].1 == y) implies
        items.contains(y) by {
        let q = choose|q: int| 0 <= q < n && (#[trigger] rows[q]).0 == en.0 && rows[q].1 == y;
        if q < n - 1 {
            assert(en.1.contains(y));
        }
    }
    if row.2 > en.2 {
        assert(0 <= n - 1 < n && rows[n - 1].0 == en.0 && rows[n - 1].2 == t2);
    } else {
        let qt = choose|q: int|
            0 <= q < n - 1 && (#[trigger] rows[q]).0 == en.0 && rows[q].2 == en.2;
        assert(0 <= qt < n && rows[qt].0 == en.0 && rows[qt].2 == t2);
    }
}

/// What grouping means, beyond its fold: every seen session is grouped,
/// and every grouped session means exactly its facts.
pub proof fn lemma_gather_semantics(rows: Seq<(u32, u64, u32)>, n: int)
    requires
        0 <= n <= rows.len(),
    ensures
        ({
            let g = gather(rows, n);
            &&& forall|q: int|
                0 <= q < n ==> exists|i: int| 0 <= i < g.len() && g[i].0 == (
                #[trigger] rows[q]).0
            &&& forall|i: int|
                0 <= i < g.len() ==> grouped_entry_ok(rows, n, #[trigger] g[i])
        }),
    decreases n,
{
    if n > 0 {
        lemma_gather_semantics(rows, n - 1);
        lemma_gather_inv(rows, n - 1);
        let pre = gather(rows, n - 1);
        let g = gather(rows, n);
        let row = rows[n - 1];
        if exists|i: int| 0 <= i < pre.len() && pre[i].0 == row.0 {
            let i = choose|i: int| 0 <= i < pre.len() && pre[i].0 == row.0;
            assert(g == pre.update(i, (row.0, insert_sorted_distinct(pre[i].1, row.1), if row.2
                > pre[i].2 {
                row.2
            } else {
                pre[i].2
            })));
            assert forall|q: int| 0 <= q < n implies exists|j: int|
                0 <= j < g.len() && g[j].0 == (#[trigger] rows[q]).0 by {
                if q < n - 1 {
                    let j = choose|j: int| 0 <= j < pre.len() && pre[j].0 == rows[q].0;
                    assert(g[j].0 == rows[q].0);
                } else {
                    assert(g[i].0 == rows[q].0);
                }
            }
            assert forall|j: int|
                0 <= j < g.len() implies grouped_entry_ok(rows, n, #[trigger] g[j]) by {
                if j != i {
                    assert(g[j] == pre[j]);
                    assert(pre[j].0 != row.0) by {
                        if j < i {
                            assert(pre[j].0 != pre[i].0);
                        } else {
                            assert(pre[i].0 != pre[j].0);
                        }
                    }
                    lemma_grouped_entry_extend(rows, n, pre[j]);
                } else {
                    lemma_grouped_entry_update(rows, n, pre[i]);
                }
            }
        } else {
            assert(g == pre.push((row.0, seq![row.1], row.2)));
            let i = pre.len() as int;
            assert forall|q: int| 0 <= q < n implies exists|j: int|
                0 <= j < g.len() && g[j].0 == (#[trigger] rows[q]).0 by {
                if q < n - 1 {
                    let j = choose|j: int| 0 <= j < pre.len() && pre[j].0 == rows[q].0;
                    assert(g[j].0 == rows[q].0);
                } else {
                    assert(g[i].0 == rows[q].0);
                }
            }
            assert forall|j: int|
                0 <= j < g.len() implies grouped_entry_ok(rows, n, #[trigger] g[j]) by {
                if j < i {
                    assert(g[j] == pre[j]);
                    assert(pre[j].0 != row.0) by {
                        if pre[j].0 == row.0 {
                            assert(exists|w: int| 0 <= w < pre.len() && pre[w].0 == row.0) by {
                                assert(pre[j].0 == row.0);
                            }
                        }
                    }
                    lemma_grouped_entry_extend(rows, n, pre[j]);
                } else {
                    lemma_grouped_entry_fresh(rows, n, pre);
                }
            }
        }
    }
}

/// A session seen for the first time means exactly its one fact.
proof fn lemma_grouped_entry_fresh(
    rows: Seq<(u32, u64, u32)>,
    n: int,
    pre: Seq<SessionModel>,
)
    requires
        1 <= n <= rows.len(),
        pre == gather(rows, n - 1),
        !exists|i: int| 0 <= i < pre.len() && pre[i].0 == rows[n - 1].0,
        forall|q: int|
            0 <= q < n - 1 ==> exists|i: int| 0 <= i < pre.len() && pre[i].0 == (
            #[trigger] rows[q]).0,
    ensures
        grouped_entry_ok(rows, n, (rows[n - 1].0, seq![rows[n - 1].1], rows[n - 1].2)),
{
    reveal(grouped_entry_ok);
    let row = rows[n - 1];
    let en = (row.0, seq![row.1], row.2);
    assert(0 <= n - 1 < n && rows[n - 1].0 == en.0);
    assert(forall|q: int| 0 <= q < n - 1 ==> (#[trigger] rows[q]).0 != row.0) by {
        assert forall|q: int| 0 <= q < n - 1 implies (#[trigger] rows[q]).0 != row.0 by {
            if rows[q].0 == row.0 {
                let i = choose|i: int| 0 <= i < pre.len() && pre[i].0 == rows[q].0;
            }
        }
    }
    assert forall|y: u64| en.1.contains(y) implies exists|q: int|
        0 <= q < n && (#[trigger] rows[q]).0 == en.0 && rows[q].1 == y by {
        assert(y == row.1);
        assert(0 <= n - 1 < n && rows[n - 1].0 == en.0 && rows[n - 1].1 == y);
    }
    assert forall|y: u64|
        (exists|q: int| 0 <= q < n && (#[trigger] rows[q]).0 == en.0 && rows[q].1 == y) implies
        en.1.contains(y) by {
        let q = choose|q: int| 0 <= q < n && (#[trigger] rows[q]).0 == en.0 && rows[q].1 == y;
        assert(q == n - 1);
        assert(en.1[0] == y);
    }
    assert(0 <= n - 1 < n && rows[n - 1].0 == en.0 && rows[n - 1].2 == en.2);
}

/// Groups interaction facts by session: distinct sorted items and maximum
/// order per session, sessions in order of first appearance.
pub(crate) fn group_interactions(rows: &Vec<SessionItemWithOrder>) -> (r: Vec<SessionBuild>)
    ensures
        build_model(r@) == gather(rows@, rows@.len() as int),
        gather_inv(build_model(r@), rows@.len() as int),
{
    let mut builds: Vec<SessionBuild> = Vec::new();
    let mut lookup: HashMap<u32, usize> = HashMap::new();
    let mut n: usize = 0;
    assert(build_model(builds@) =~= gather(rows@, 0));
    while n < rows.len()
        invariant
            n <= rows@.len(),
            build_model(builds@) == gather(rows@, n as int),
            gather_inv(build_model(builds@), n as int),
            builds@.len() == build_model(builds@).len(),
            forall|s: u32| #[trigger]
                lookup@.contains_key(s) <==> exists|i: int|
                    0 <= i < builds@.len() && builds@[i].id == s,
            forall|s: u32| #[trigger]
                lookup@.contains_key(s) ==> lookup@[s] < builds@.len() && builds@[lookup@[s] as int].id
                    == s,
        decreases rows@.len() - n,
    {
        let row = rows[n];
        let (s, it, o) = row;
        let ghost old_builds = builds@;
        let ghost pre = build_model(builds@);
        proof {
            lemma_gather_step_inv(pre, (s, it, o), n as int);
        }
        let opt = lookup.get(&s);
        match opt {
            Some(i_ref) => {
                let i = *i_ref;
                assert(builds@[i as int].id == s);
                assert(exists|j: int| 0 <= j < pre.len() && pre[j].0 == s) by {
                    assert(pre[i as int].0 == s);
                }
                proof {
                    let j = choose|j: int| 0 <= j < pre.len() && pre[j].0 == s;
                    if j != i as int {
                        if j < i as int {
                            assert(pre[j].0 != pre[i as int].0);
                        } else {
                            assert(pre[i as int].0 != pre[j].0);
                        }
                    }
                    assert(j == i as int);
                }
                assert(builds@[i as int].items@.len() <= n);
                let sb = vstd::std_specs::vec::vec_index_mut(&mut builds, i);
                vec_insert_sorted_distinct(&mut sb.items, it);
                if o > sb.max_time {
                    sb.max_time = o;
                }
                proof {
                    assert(build_model(builds@) =~= gather_step(pre, (s, it, o)));
                    assert(forall|q: int|
                        0 <= q < builds@.len() ==> #[trigger] builds@[q].id == old_builds[q].id);
                    assert forall|s2: u32| #[trigger]
                        lookup@.contains_key(s2) implies exists|q: int|
                        0 <= q < builds@.len() && builds@[q].id == s2 by {
                        let q = lookup@[s2] as int;
                        assert(old_builds[q].id == s2);
                        assert(builds@[q].id == s2);
                    }
                    assert forall|s2: u32|
                        (exists|q: int| 0 <= q < builds@.len() && builds@[q].id == s2)
                        implies #[trigger] lookup@.contains_key(s2) by {
                        let q = choose|q: int| 0 <= q < builds@.len() && builds@[q].id == s2;
                        assert(old_builds[q].id == s2);
                    }
                }
            },
            None => {
                assert(forall|i: int| 0 <= i < builds@.len() ==> builds@[i].id != s);
                lookup.insert(s, builds.len());
                let mut items: Vec<u64> = Vec::new();
                items.push(it);
                assert(items@ =~= seq![it]);
                builds.push(SessionBuild { id: s, items, max_time: o });
                proof {
                    assert(build_model(builds@) =~= gather_step(pre, (s, it, o)));
                    assert(builds@[old_builds.len() as int].id == s);
                    assert forall|s2: u32| #[trigger]
                        lookup@.contains_key(s2) implies exists|q: int|
                        0 <= q < builds@.len() && builds@[q].id == s2 by {
                        if s2 == s {
                            assert(builds@[old_builds.len() as int].id == s2);
                        } else {
                            let q = lookup@[s2] as int;
                            assert(builds@[q].id == s2);
                        }
                    }
                    assert forall|s2: u32|
                        (exists|q: int| 0 <= q < builds@.len() && builds@[q].id == s2)
                        implies #[trigger] lookup@.contains_key(s2) by {
                        let q = choose|q: int| 0 <= q < builds@.len() && builds@[q].id == s2;
                        if q < old_builds.len() {
                            assert(old_builds[q].id == s2);
                        }
                    }
                }
            },
        }
        n = n + 1;
        assert(build_model(builds@) == gather(rows@, n as int));
    }
    builds
}

/// The mathematical content of a built index: the retained sessions with
/// their items and maximum orders, the bounded most-recent-first session
/// list per item, how many retained sessions contain each item, the items
/// in order of first appearance, and the retained-session total.
pub struct IndexModel {
    pub sessions: Map<u32, Seq<u64>>,
    pub times: Map<u32, u32>,
    pub lists: Map<u64, Seq<u32>>,
    pub counts: Map<u64, int>,
    pub item_order: Seq<u64>,
    pub total: int,
}

pub open spec fn empty_model() -> IndexModel {
    IndexModel {
        sessions: Map::empty(),
        times: Map::empty(),
        lists: Map::empty(),
        counts: Map::empty(),
        item_order: Seq::empty(),
        total: 0,
    }
}

/// Inserts a session into a most-recent-first candidate list: strictly
/// more recent sessions go first; at equal recency, sessions already in
/// the list keep their place (stable input order).
pub open spec fn insert_recent(l: Seq<u32>, sid: u32, stime: u32, times: Map<u32, u32>) -> Seq<u32>
    decreases l.len(),
{
    if l.len() == 0 {
        seq![sid]
    } else if stime > times[l[0]] {
        seq![sid] + l
    } else {
        seq![l[0]] + insert_recent(l.drop_first(), sid, stime, times)
    }
}

/// Insertion into a candidate list that keeps only the `m` most recent
/// sessions.
pub open spec fn bounded_insert(l: Seq<u32>, sid: u32, stime: u32, times: Map<u32, u32>, m: int) -> Seq<
    u32,
> {
    let l2 = insert_recent(l, sid, stime, times);
    if l2.len() > m {
        l2.take(m)
    } else {
        l2
    }
}

/// `insert_recent` adds exactly the new session and keeps the list
/// distinct and ordered by recency.
pub proof fn lemma_insert_recent(l: Seq<u32>, sid: u32, stime: u32, times: Map<u32, u32>)
    requires
        forall|a: int, b: int| 0 <= a < b < l.len() ==> times[l[a]] >= times[l[b]],
        distinct_seq(l),
        !l.contains(sid),
        times.contains_key(sid),
        times[sid] == stime,
    ensures
        ({
            let r = insert_recent(l, sid, stime, times);
            &&& r.len() == l.len() + 1
            &&& forall|y: u32| r.contains(y) <==> (l.contains(y) || y == sid)
            &&& distinct_seq(r)
            &&& forall|a: int, b: int| 0 <= a < b < r.len() ==> times[r[a]] >= times[r[b]]
        }),
    decreases l.len(),
{
    let r = insert_recent(l, sid, stime, times);
    if l.len() == 0 {
        assert(r =~= seq![sid]);
        assert forall|y: u32| r.contains(y) implies (l.contains(y) || y == sid) by {
            let i = choose|i: int| 0 <= i < r.len() && r[i] == y;
        }
        assert(r.contains(sid)) by {
            assert(r[0] == sid);
        }
    } else if stime > times[l[0]] {
        assert(r =~= seq![sid] + l);
        assert forall|y: u32| r.contains(y) implies (l.contains(y) || y == sid) by {
            let i = choose|i: int| 0 <= i < r.len() && r[i] == y;
            if i > 0 {
                assert(l[i - 1] == y);
            }
        }
        assert forall|y: u32| (l.contains(y) || y == sid) implies r.contains(y) by {
            if l.contains(y) {
                let i = choose|i: int| 0 <= i < l.len() && l[i] == y;
                assert(r[i + 1] == y);
            } else {
                assert(r[0] == sid);
            }
        }
        assert forall|a: int, b: int| 0 <= a < b < r.len() implies times[r[a]] >= times[r[b]] by {
            if a == 0 {
                if b == 1 {
                    assert(times[r[b]] == times[l[0]]);
                } else {
                    assert(times[l[0]] >= times[l[b - 1]]);
                }
            }
        }
        assert forall|a: int, b: int| 0 <= a < b < r.len() implies r[a] != r[b] by {
            if a == 0 {
                assert(!l.contains(sid));
                assert(l[b - 1] != sid) by {
                    if l[b - 1] == sid {
                        assert(l.contains(sid));
                    }
                }
            }
        }
    } else {
        let tail = l.drop_first();
        assert(!tail.contains(sid)) by {
            if tail.contains(sid) {
                let i = choose|i: int| 0 <= i < tail.len() && tail[i] == sid;
                assert(l[i + 1] == sid);
            }
        }
        lemma_insert_recent(tail, sid, stime, times);
        let rt = insert_recent(tail, sid, stime, times);
        assert(r =~= seq![l[0]] + rt);
        assert forall|y: u32| r.contains(y) implies (l.contains(y) || y == sid) by {
            let i = choose|i: int| 0 <= i < r.len() && r[i] == y;
            if i == 0 {
                assert(l[0] == y);
            } else {
                assert(rt.contains(y)) by {
                    assert(rt[i - 1] == y);
                }
                if tail.contains(y) {
                    let j = choose|j: int| 0 <= j < tail.len() && tail[j] == y;
                    assert(l[j + 1] == y);
                }
            }
        }
        assert forall|y: u32| (l.contains(y) || y == sid) implies r.contains(y) by {
            if l.contains(y) {
                let i = choose|i: int| 0 <= i < l.len() && l[i] == y;
                if i == 0 {
                    assert(r[0] == y);
                } else {
                    assert(tail.contains(y)) by {
                        assert(tail[i - 1] == y);
                    }
                    assert(rt.contains(y));
                    let j = choose|j: int| 0 <= j < rt.len() && rt[j] == y;
                    assert(r[j + 1] == y);
                }
            } else {
                assert(rt.contains(sid));
                let j = choose|j: int| 0 <= j < rt.len() && rt[j] == sid;
                assert(r[j + 1] == sid);
            }
        }
        assert forall|a: int, b: int| 0 <= a < b < r.len() implies times[r[a]] >= times[r[b]] by {
            if a == 0 {
                assert(rt.contains(r[b])) by {
                    assert(rt[b - 1] == r[b]);
                }
                if tail.contains(r[b]) {
                    let q = choose|q: int| 0 <= q < tail.len() && tail[q] == r[b];
                    assert(times[l[0]] >= times[l[q + 1]]);
                } else {
                    assert(r[b] == sid);
                }
            } else {
                assert(times[rt[a - 1]] >= times[rt[b - 1]]);
            }
        }
        assert forall|a: int, b: int| 0 <= a < b < r.len() implies r[a] != r[b] by {
            if a == 0 {
                assert(rt.contains(r[b])) by {
                    assert(rt[b - 1] == r[b]);
                }
                if tail.contains(r[b]) {
                    let q = choose|q: int| 0 <= q < tail.len() && tail[q] == r[b];
                    assert(l[0] != l[q + 1]);
                } else {
                    assert(r[b] == sid);
                    assert(!l.contains(sid));
                    assert(l[0] != sid) by {
                        if l[0] == sid {
                            assert(l.contains(sid));
                        }
                    }
                }
            } else {
                assert(rt[a - 1] != rt[b - 1]);
            }
        }
    }
}

/// Splitting `insert_recent` at a scanned prefix of sessions at least as
/// recent as the inserted one.
pub proof fn lemma_insert_recent_skip(
    l: Seq<u32>,
    sid: u32,
    stime: u32,
    times: Map<u32, u32>,
    i: int,
)
    requires
        0 <= i <= l.len(),
        forall|j: int| 0 <= j < i ==> stime <= times[l[j]],
    ensures
        insert_recent(l, sid, stime, times) == l.take(i) + insert_recent(
            l.skip(i),
            sid,
            stime,
            times,
        ),
    decreases i,
{
    if i == 0 {
        assert(l.skip(0) =~= l);
        assert(l.take(0) + insert_recent(l, sid, stime, times) =~= insert_recent(
            l,
            sid,
            stime,
            times,
        ));
    } else {
        assert(l.len() > 0 && stime <= times[l[0]]);
        let tail = l.drop_first();
        lemma_insert_recent_skip(tail, sid, stime, times, i - 1);
        assert(tail.skip(i - 1) =~= l.skip(i));
        assert(seq![l[0]] + (tail.take(i - 1) + insert_recent(l.skip(i), sid, stime, times))
            =~= l.take(i) + insert_recent(l.skip(i), sid, stime, times));
    }
}

/// Inserts a session into a most-recent-first candidate vector, dropping
/// the least recent session if the bound `m` is exceeded.
fn vec_insert_recent(
    l: &mut Vec<u32>,
    sid: u32,
    stime: u32,
    times: &HashMap<u32, u32>,
    m: usize,
)
    requires
        forall|j: int| 0 <= j < old(l)@.len() ==> times@.contains_key(#[trigger] old(l)@[j]),
        old(l)@.len() <= m,
    ensures
        final(l)@ == bounded_insert(old(l)@, sid, stime, times@, m as int),
{
    let ghost s = l@;
    let mut pos: usize = 0;
    loop
        invariant_except_break
            pos <= s.len(),
            l@ == s,
            forall|j: int| 0 <= j < s.len() ==> times@.contains_key(#[trigger] s[j]),
            forall|j: int| 0 <= j < pos ==> stime <= times@[s[j]],
            s.len() <= m,
        ensures
            pos <= s.len(),
            l@ == s,
            forall|j: int| 0 <= j < pos ==> stime <= times@[s[j]],
            pos < s.len() ==> stime > times@[s[pos as int]],
        decreases s.len() - pos,
    {
        if pos >= l.len() {
            break ;
        }
        let entry = l[pos];
        assert(times@.contains_key(entry));
        let t = *times.get(&entry).unwrap();
        if stime > t {
            break ;
        }
        pos = pos + 1;
    }
    proof {
        lemma_insert_recent_skip(s, sid, stime, times@, pos as int);
        let tail = s.skip(pos as int);
        if pos < s.len() {
            assert(stime > times@[tail[0]]) by {
                assert(tail[0] == s[pos as int]);
            }
            assert(insert_recent(tail, sid, stime, times@) =~= seq![sid] + tail);
        } else {
            assert(tail =~= Seq::<u32>::empty());
        }
    }
    l.insert(pos, sid);
    proof {
        assert(l@ =~= s.take(pos as int) + insert_recent(s.skip(pos as int), sid, stime, times@));
    }
    if l.len() > m {
        let ghost l2 = l@;
        l.truncate(m);
        proof {
            assert(l@ =~= l2.take(m as int));
        }
    }
}

/// Folds one item of a retained session into the per-item candidate
/// lists, counts and first-appearance order.
pub open spec fn accum_items_step(
    acc: IndexModel,
    sid: u32,
    stime: u32,
    it: u64,
    m: int,
) -> IndexModel {
    let l = if acc.lists.contains_key(it) {
        acc.lists[it]
    } else {
        Seq::empty()
    };
    let c = if acc.counts.contains_key(it) {
        acc.counts[it]
    } else {
        0
    };
    let ord = if acc.counts.contains_key(it) {
        acc.item_order
    } else {
        acc.item_order.push(it)
    };
    IndexModel {
        lists: acc.lists.insert(it, bounded_insert(l, sid, stime, acc.times, m)),
        counts: acc.counts.insert(it, c + 1),
        item_order: ord,
        ..acc
    }
}

/// Folds the first `j` items of one retained session into the model.
pub open spec fn accum_items(
    acc: IndexModel,
    sid: u32,
    stime: u32,
    items: Seq<u64>,
    m: int,
    j: int,
) -> IndexModel
    decreases j,
{
    if j <= 0 {
        acc
    } else {
        accum_items_step(accum_items(acc, sid, stime, items, m, j - 1), sid, stime, items[j - 1], m)
    }
}

/// Folds one grouped session into the model; sessions longer than the
/// cutoff are excluded from indexing.
pub open spec fn accum_session(acc: IndexModel, e: SessionModel, cutoff: int, m: int) -> IndexModel {
    if e.1.len() > cutoff {
        acc
    } else {
        let acc1 = IndexModel {
            sessions: acc.sessions.insert(e.0, e.1),
            times: acc.times.insert(e.0, e.2),
            total: acc.total + 1,
            ..acc
        };
        accum_items(acc1, e.0, e.2, e.1, m, e.1.len() as int)
    }
}

/// The model after the first `n` grouped sessions.
pub open spec fn accum_all(builds: Seq<SessionModel>, cutoff: int, m: int, n: int) -> IndexModel
    decreases n,
{
    if n <= 0 {
        empty_model()
    } else {
        accum_session(accum_all(builds, cutoff, m, n - 1), builds[n - 1], cutoff, m)
    }
}

/// The full mathematical content of the index built from `rows`.
pub open spec fn spec_index_model(rows: Seq<(u32, u64, u32)>, cutoff: int, m: int) -> IndexModel {
    let g = gather(rows, rows.len() as int);
    accum_all(g, cutoff, m, g.len() as int)
}

/// The per-item candidate list conditions: bounded by `m`, distinct,
/// most-recent-first, and every listed session is retained and contains
/// the item.
pub open spec fn list_ok(acc: IndexModel, i: u64, m: int) -> bool {
    let l = acc.lists[i];
    &&& 1 <= l.len() <= m
    &&& distinct_seq(l)
    &&& forall|a: int, b: int| 0 <= a < b < l.len() ==> acc.times[l[a]] >= acc.times[l[b]]
    &&& forall|q: int|
        0 <= q < l.len() ==> acc.sessions.contains_key(#[trigger] l[q]) && acc.sessions[l[q]].contains(
            i,
        ) && acc.times.contains_key(l[q])
}

/// The inductive well-formedness of the model.
pub open spec fn model_inv(acc: IndexModel, m: int) -> bool {
    &&& forall|s: u32| acc.sessions.contains_key(s) <==> #[trigger] acc.times.contains_key(s)
    &&& acc.total >= 0
    &&& forall|s: u32| #[trigger]
        acc.sessions.contains_key(s) ==> sorted_strict(acc.sessions[s]) && acc.sessions[s].len()
            >= 1
    &&& forall|i: u64| #[trigger] acc.lists.contains_key(i) ==> list_ok(acc, i, m)
    &&& forall|i: u64| acc.lists.contains_key(i) <==> #[trigger] acc.counts.contains_key(i)
    &&& forall|i: u64| #[trigger] acc.counts.contains_key(i) ==> 1 <= acc.counts[i] <= acc.total
    &&& distinct_seq(acc.item_order)
    &&& forall|i: u64| acc.item_order.contains(i) <==> #[trigger] acc.counts.contains_key(i)
}

/// Every item of every retained session has a candidate list.
pub open spec fn items_covered(acc: IndexModel) -> bool {
    forall|s: u32| #[trigger]
        acc.sessions.contains_key(s) ==> forall|q: int|
            0 <= q < acc.sessions[s].len() ==> acc.lists.contains_key(
                #[trigger] acc.sessions[s][q],
            )
}

/// Bounded insertion keeps a candidate list well formed.
proof fn lemma_bounded_insert(l: Seq<u32>, sid: u32, stime: u32, times: Map<u32, u32>, m: int)
    requires
        forall|a: int, b: int| 0 <= a < b < l.len() ==> times[l[a]] >= times[l[b]],
        distinct_seq(l),
        !l.contains(sid),
        times.contains_key(sid),
        times[sid] == stime,
        m >= 1,
        l.len() <= m,
    ensures
        ({
            let r = bounded_insert(l, sid, stime, times, m);
            &&& 1 <= r.len() <= m
            &&& distinct_seq(r)
            &&& forall|a: int, b: int| 0 <= a < b < r.len() ==> times[r[a]] >= times[r[b]]
            &&& forall|y: u32| r.contains(y) ==> (l.contains(y) || y == sid)
        }),
{
    lemma_insert_recent(l, sid, stime, times);
    let l2 = insert_recent(l, sid, stime, times);
    let r = bounded_insert(l, sid, stime, times, m);
    if l2.len() > m {
        assert(r == l2.take(m));
        assert forall|y: u32| r.contains(y) implies (l.contains(y) || y == sid) by {
            let i = choose|i: int| 0 <= i < r.len() && r[i] == y;
            assert(l2[i] == y);
            assert(l2.contains(y));
        }
    } else {
        assert forall|y: u32| r.contains(y) implies (l.contains(y) || y == sid) by {
            assert(l2.contains(y));
        }
    }
}

/// One item step preserves the model invariant and changes only that
/// item's list, count and (possibly) the item order.
proof fn lemma_accum_items_step_inv(acc: IndexModel, sid: u32, stime: u32, it: u64, m: int)
    requires
        model_inv(acc, m),
        m >= 1,
        acc.total >= 1,
        acc.sessions.contains_key(sid),
        acc.sessions[sid].contains(it),
        acc.times.contains_key(sid),
        acc.times[sid] == stime,
        !(acc.lists.contains_key(it) && acc.lists[it].contains(sid)),
        acc.counts.contains_key(it) ==> acc.counts[it] <= acc.total - 1,
    ensures
        ({
            let r = accum_items_step(acc, sid, stime, it, m);
            &&& model_inv(r, m)
            &&& r.sessions == acc.sessions
            &&& r.times == acc.times
            &&& r.total == acc.total
            &&& r.lists.contains_key(it)
            &&& forall|i: u64| #[trigger] acc.lists.contains_key(i) ==> r.lists.contains_key(i)
            &&& forall|i: u64|
                i != it ==> (r.lists.contains_key(i) <==> #[trigger] acc.lists.contains_key(i))
            &&& forall|i: u64|
                i != it && #[trigger] acc.lists.contains_key(i) ==> r.lists[i] == acc.lists[i]
            &&& forall|i: u64|
                i != it ==> (r.counts.contains_key(i) <==> #[trigger] acc.counts.contains_key(i))
            &&& forall|i: u64|
                i != it && #[trigger] acc.counts.contains_key(i) ==> r.counts[i] == acc.counts[i]
        }),
{
    let r = accum_items_step(acc, sid, stime, it, m);
    let l = if acc.lists.contains_key(it) {
        acc.lists[it]
    } else {
        Seq::empty()
    };
    lemma_bounded_insert(l, sid, stime, acc.times, m);
    let nl = bounded_insert(l, sid, stime, acc.times, m);
    assert(list_ok(r, it, m)) by {
        assert forall|q: int|
            0 <= q < nl.len() implies r.sessions.contains_key(#[trigger] nl[q])
            && r.sessions[nl[q]].contains(it) && r.times.contains_key(nl[q]) by {
            assert(nl.contains(nl[q]));
            if l.contains(nl[q]) {
                assert(list_ok(acc, it, m));
            } else {
                assert(nl[q] == sid);
            }
        }
    }
    assert forall|i: u64| #[trigger] r.lists.contains_key(i) implies list_ok(r, i, m) by {
        if i != it {
            assert(list_ok(acc, i, m));
            assert(r.lists[i] == acc.lists[i]);
        }
    }
    if !acc.counts.contains_key(it) {
        let ord = acc.item_order;
        assert(!ord.contains(it));
        assert forall|i: u64| r.item_order.contains(i) implies #[trigger] r.counts.contains_key(
            i,
        ) by {
            let q = choose|q: int| 0 <= q < r.item_order.len() && r.item_order[q] == i;
            if q < ord.len() {
                assert(ord.contains(i)) by {
                    assert(ord[q] == i);
                }
            }
        }
        assert forall|i: u64| #[trigger]
            r.counts.contains_key(i) implies r.item_order.contains(i) by {
            if i == it {
                assert(r.item_order[ord.len() as int] == it);
            } else {
                assert(ord.contains(i));
                let q = choose|q: int| 0 <= q < ord.len() && ord[q] == i;
                assert(r.item_order[q] == i);
            }
        }
        assert(distinct_seq(r.item_order)) by {
            assert forall|a: int, b: int|
                0 <= a < b < r.item_order.len() implies r.item_order[a] != r.item_order[b] by {
                if b == ord.len() as int {
                    assert(r.item_order[b] == it);
                    assert(!ord.contains(it));
                    if r.item_order[a] == it {
                        assert(ord[a] == it);
                        assert(ord.contains(it));
                    }
                }
            }
        }
    }
}

/// Folding the items of one new retained session preserves the model
/// invariant; afterwards every folded item has a candidate list.
proof fn lemma_accum_items_inv(
    acc: IndexModel,
    sid: u32,
    stime: u32,
    items: Seq<u64>,
    m: int,
    j: int,
)
    requires
        model_inv(acc, m),
        m >= 1,
        acc.total >= 1,
        0 <= j <= items.len(),
        distinct_seq(items),
        acc.sessions.contains_key(sid),
        acc.sessions[sid] == items,
        acc.times.contains_key(sid),
        acc.times[sid] == stime,
        forall|q: int|
            0 <= q < items.len() ==> !(acc.lists.contains_key(#[trigger] items[q])
                && acc.lists[items[q]].contains(sid)),
        forall|q: int|
            0 <= q < items.len() ==> (acc.counts.contains_key(#[trigger] items[q])
                ==> acc.counts[items[q]] <= acc.total - 1),
    ensures
        ({
            let r = accum_items(acc, sid, stime, items, m, j);
            &&& model_inv(r, m)
            &&& r.sessions == acc.sessions
            &&& r.times == acc.times
            &&& r.total == acc.total
            &&& forall|i: u64| #[trigger] acc.lists.contains_key(i) ==> r.lists.contains_key(i)
            &&& forall|q: int| 0 <= q < j ==> r.lists.contains_key(#[trigger] items[q])
            &&& forall|q: int|
                j <= q < items.len() ==> !(r.lists.contains_key(#[trigger] items[q])
                    && r.lists[items[q]].contains(sid))
            &&& forall|q: int|
                j <= q < items.len() ==> (r.counts.contains_key(#[trigger] items[q])
                    ==> r.counts[items[q]] <= r.total - 1)
        }),
    decreases j,
{
    if j > 0 {
        lemma_accum_items_inv(acc, sid, stime, items, m, j - 1);
        let prev = accum_items(acc, sid, stime, items, m, j - 1);
        let it = items[j - 1];
        assert(acc.sessions[sid].contains(it)) by {
            assert(items[j - 1] == it);
        }
        lemma_accum_items_step_inv(prev, sid, stime, it, m);
        let r = accum_items(acc, sid, stime, items, m, j);
        assert forall|q: int| 0 <= q < j implies r.lists.contains_key(#[trigger] items[q]) by {
            if q < j - 1 {
                assert(prev.lists.contains_key(items[q]));
            }
        }
        assert forall|q: int|
            j <= q < items.len() implies !(r.lists.contains_key(#[trigger] items[q])
            && r.lists[items[q]].contains(sid)) by {
            assert(items[q] != it);
        }
        assert forall|q: int|
            j <= q < items.len() && r.counts.contains_key(#[trigger] items[q])
            implies r.counts[items[q]] <= r.total - 1 by {
            assert(items[q] != it);
        }
    }
}

/// Folding one grouped session preserves the model invariant and item
/// coverage; the session set grows by at most that session.
proof fn lemma_accum_session_inv(acc: IndexModel, e: SessionModel, cutoff: int, m: int)
    requires
        model_inv(acc, m),
        items_covered(acc),
        m >= 1,
        sorted_strict(e.1),
        e.1.len() >= 1,
        !acc.sessions.contains_key(e.0),
    ensures
        ({
            let r = accum_session(acc, e, cutoff, m);
            &&& model_inv(r, m)
            &&& items_covered(r)
            &&& acc.total <= r.total <= acc.total + 1
            &&& forall|s: u32| #[trigger]
                r.sessions.contains_key(s) ==> (acc.sessions.contains_key(s) || s == e.0)
        }),
{
    if e.1.len() <= cutoff {
        let acc1 = IndexModel {
            sessions: acc.sessions.insert(e.0, e.1),
            times: acc.times.insert(e.0, e.2),
            total: acc.total + 1,
            ..acc
        };
        assert(model_inv(acc1, m)) by {
            assert forall|i: u64| #[trigger] acc1.lists.contains_key(i) implies list_ok(
                acc1,
                i,
                m,
            ) by {
                assert(list_ok(acc, i, m));
                let l = acc.lists[i];
                assert forall|q: int| 0 <= q < l.len() implies acc1.times[#[trigger] l[q]]
                    == acc.times[l[q]] by {
                    assert(acc.sessions.contains_key(l[q]));
                    assert(l[q] != e.0);
                }
            }
        }
        assert forall|q: int|
            0 <= q < e.1.len() implies !(acc1.lists.contains_key(#[trigger] e.1[q])
            && acc1.lists[e.1[q]].contains(e.0)) by {
            if acc1.lists.contains_key(e.1[q]) && acc1.lists[e.1[q]].contains(e.0) {
                assert(list_ok(acc, e.1[q], m));
                let l = acc.lists[e.1[q]];
                let w = choose|w: int| 0 <= w < l.len() && l[w] == e.0;
                assert(acc.sessions.contains_key(e.0));
            }
        }
        lemma_accum_items_inv(acc1, e.0, e.2, e.1, m, e.1.len() as int);
        let r = accum_session(acc, e, cutoff, m);
        assert(items_covered(r)) by {
            assert forall|s: u32| #[trigger] r.sessions.contains_key(s) implies forall|q: int|
                0 <= q < r.sessions[s].len() ==> r.lists.contains_key(
                    #[trigger] r.sessions[s][q],
                ) by {
                if s == e.0 {
                    assert(r.sessions[s] == e.1);
                } else {
                    assert(acc.sessions.contains_key(s));
                    assert(r.sessions[s] == acc.sessions[s]);
                    assert forall|q: int|
                        0 <= q < r.sessions[s].len() implies r.lists.contains_key(
                        #[trigger] r.sessions[s][q],
                    ) by {
                        assert(acc.lists.contains_key(acc.sessions[s][q]));
                    }
                }
            }
        }
    }
}

/// The model of any grouped-session prefix is well formed; its sessions
/// all come from that prefix, and the total is bounded by its length.
proof fn lemma_accum_all_inv(builds: Seq<SessionModel>, cutoff: int, m: int, n: int)
    requires
        0 <= n <= builds.len(),
        m >= 1,
        forall|i: int, j: int| 0 <= i < j < builds.len() ==> builds[i].0 != builds[j].0,
        forall|i: int|
            0 <= i < builds.len() ==> sorted_strict(#[trigger] builds[i].1) && builds[i].1.len()
                >= 1,
    ensures
        ({
            let r = accum_all(builds, cutoff, m, n);
            &&& model_inv(r, m)
            &&& items_covered(r)
            &&& r.total <= n
            &&& forall|s: u32| #[trigger]
                r.sessions.contains_key(s) ==> exists|q: int| 0 <= q < n && builds[q].0 == s
        }),
    decreases n,
{
    if n > 0 {
        lemma_accum_all_inv(builds, cutoff, m, n - 1);
        let prev = accum_all(builds, cutoff, m, n - 1);
        assert(!prev.sessions.contains_key(builds[n - 1].0)) by {
            if prev.sessions.contains_key(builds[n - 1].0) {
                let q = choose|q: int| 0 <= q < n - 1 && #[trigger] builds[q].0 == builds[n - 1].0;
            }
        }
        lemma_accum_session_inv(prev, builds[n - 1], cutoff, m);
        let r = accum_all(builds, cutoff, m, n);
        assert forall|s: u32| #[trigger] r.sessions.contains_key(s) implies exists|q: int|
            0 <= q < n && builds[q].0 == s by {
            if prev.sessions.contains_key(s) {
                let q = choose|q: int| 0 <= q < n - 1 && builds[q].0 == s;
                assert(0 <= q < n && builds[q].0 == s);
            } else {
                assert(builds[n - 1].0 == s);
            }
        }
    }
}

/// The correspondence between the maps under construction and a model.
pub open spec fn maps_model(
    si: Map<u32, Vec<u64>>,
    st: Map<u32, u32>,
    il: Map<u64, Vec<u32>>,
    cm: Map<u64, u64>,
    ord: Seq<u64>,
    total: u64,
    mdl: IndexModel,
) -> bool {
    &&& forall|s: u32| si.contains_key(s) <==> #[trigger] mdl.sessions.contains_key(s)
    &&& forall|s: u32| #[trigger] mdl.sessions.contains_key(s) ==> si[s]@ == mdl.sessions[s]
    &&& st == mdl.times
    &&& forall|i: u64| il.contains_key(i) <==> #[trigger] mdl.lists.contains_key(i)
    &&& forall|i: u64| #[trigger] mdl.lists.contains_key(i) ==> il[i]@ == mdl.lists[i]
    &&& forall|i: u64| cm.contains_key(i) <==> #[trigger] mdl.counts.contains_key(i)
    &&& forall|i: u64| #[trigger] mdl.counts.contains_key(i) ==> cm[i] as int == mdl.counts[i]
    &&& ord == mdl.item_order
    &&& total as int == mdl.total
}

/// The recency-bounded historical index: per session its sorted distinct
/// items and maximum interaction order; per item its at most M most
/// recent sessions and its fixed-point idf weight; plus optional catalog
/// attributes for the business-rule filter.
pub struct VMISkNN {
    pub k: usize,
    pub m: usize,
    pub total_sessions: u64,
    pub session_items: HashMap<u32, Vec<u64>>,
    pub session_max_time: HashMap<u32, u32>,
    pub item_sessions: HashMap<u64, Vec<u32>>,
    pub item_idf: HashMap<u64, u64>,
    pub attributes: HashMap<u64, ProductAttributes>,
}

impl VMISkNN {
    /// What every query may assume of a built index.
    pub open spec fn wf(self) -> bool {
        &&& 1 <= self.k
        &&& 1 <= self.m
        &&& forall|s: u32|
            self.session_max_time@.contains_key(s) <==> #[trigger] self.session_items@.contains_key(
                s,
            )
        &&& forall|s: u32| #[trigger]
            self.session_items@.contains_key(s) ==> sorted_strict(self.session_items@[s]@)
                && self.session_items@[s]@.len() >= 1 && (forall|q: int|
                0 <= q < self.session_items@[s]@.len() ==> self.item_idf@.contains_key(
                    #[trigger] self.session_items@[s]@[q],
                ))
        &&& forall|i: u64| #[trigger]
            self.item_sessions@.contains_key(i) ==> {
                let l = self.item_sessions@[i]@;
                &&& 1 <= l.len() <= self.m
                &&& distinct_seq(l)
                &&& forall|a: int, b: int|
                    0 <= a < b < l.len() ==> self.session_max_time@[l[a]]
                        >= self.session_max_time@[l[b]]
                &&& forall|q: int|
                    0 <= q < l.len() ==> self.session_items@.contains_key(#[trigger] l[q])
                        && self.session_items@[l[q]]@.contains(i)
                        && self.session_max_time@.contains_key(l[q])
            }
        &&& forall|i: u64|
            self.item_sessions@.contains_key(i) <==> #[trigger] self.item_idf@.contains_key(i)
        &&& forall|i: u64| #[trigger]
            self.item_idf@.contains_key(i) ==> self.item_idf@[i] < 0x4000000
    }

    /// The index holds exactly the content of the given model.
    pub open spec fn models(self, mdl: IndexModel) -> bool {
        &&& forall|s: u32|
            self.session_items@.contains_key(s) <==> #[trigger] mdl.sessions.contains_key(s)
        &&& forall|s: u32| #[trigger]
            mdl.sessions.contains_key(s) ==> self.session_items@[s]@ == mdl.sessions[s]
        &&& self.session_max_time@ == mdl.times
        &&& forall|i: u64|
            self.item_sessions@.contains_key(i) <==> #[trigger] mdl.lists.contains_key(i)
        &&& forall|i: u64| #[trigger]
            mdl.lists.contains_key(i) ==> self.item_sessions@[i]@ == mdl.lists[i]
        &&& forall|i: u64|
            self.item_idf@.contains_key(i) <==> #[trigger] mdl.counts.contains_key(i)
        &&& forall|i: u64| #[trigger]
            mdl.counts.contains_key(i) ==> self.item_idf@[i] as int == spec_idf_weight(
                mdl.total,
                mdl.counts[i],
            )
        &&& self.total_sessions as int == mdl.total
    }

    /// Builds the index, excluding sessions with more than
    /// `max_session_length` distinct items.
    pub fn new_with_cutoff(
        k: usize,
        m: usize,
        max_session_length: usize,
        interactions: Vec<SessionItemWithOrder>,
    ) -> (r: VMISkNN)
        requires
            1 <= k,
            1 <= m,
        ensures
            r.wf(),
            r.k == k,
            r.m == m,
            r.models(spec_index_model(interactions@, max_session_length as int, m as int)),
            r.attributes@ == Map::<u64, ProductAttributes>::empty(),
    {
        let cutoff = max_session_length;
        let mut builds = group_interactions(&interactions);
        let ghost bm = build_model(builds@);
        proof {
            lemma_gather_inv(interactions@, interactions@.len() as int);
        }
        let mut si: HashMap<u32, Vec<u64>> = HashMap::new();
        let mut st: HashMap<u32, u32> = HashMap::new();
        let mut il: HashMap<u64, Vec<u32>> = HashMap::new();
        let mut cm: HashMap<u64, u64> = HashMap::new();
        let mut ord: Vec<u64> = Vec::new();
        let mut total: u64 = 0;
        let mut bi: usize = 0;
        proof {
            assert(st@ =~= empty_model().times);
        }
        while bi < builds.len()
            invariant
                1 <= m,
                bi <= bm.len(),
                builds@.len() == bm.len(),
                forall|q: int|
                    bi <= q < bm.len() ==> (#[trigger] builds@[q]).id == bm[q].0 && builds@[q].items@
                        == bm[q].1 && builds@[q].max_time == bm[q].2,
                forall|i: int, j: int| 0 <= i < j < bm.len() ==> bm[i].0 != bm[j].0,
                forall|i: int|
                    0 <= i < bm.len() ==> sorted_strict(#[trigger] bm[i].1) && bm[i].1.len() >= 1,
                maps_model(si@, st@, il@, cm@, ord@, total, accum_all(bm, cutoff as int, m as int, bi as int)),
            decreases bm.len() - bi,
        {
            let ghost pre = accum_all(bm, cutoff as int, m as int, bi as int);
            proof {
                lemma_accum_all_inv(bm, cutoff as int, m as int, bi as int);
                assert(!pre.sessions.contains_key(bm[bi as int].0)) by {
                    if pre.sessions.contains_key(bm[bi as int].0) {
                        let q = choose|q: int|
                            0 <= q < bi && #[trigger] bm[q].0 == bm[bi as int].0;
                    }
                }
            }
            let cur_len = builds[bi].items.len();
            if cur_len <= cutoff {
                let sb = vstd::std_specs::vec::vec_index_mut(&mut builds, bi);
                let mut items: Vec<u64> = Vec::new();
                core::mem::swap(&mut items, &mut sb.items);
                let id = sb.id;
                let mt = sb.max_time;
                assert(items@ == bm[bi as int].1);
                assert(id == bm[bi as int].0);
                assert(mt == bm[bi as int].2);
                let ghost acc1 = IndexModel {
                    sessions: pre.sessions.insert(id, items@),
                    times: pre.times.insert(id, mt),
                    total: pre.total + 1,
                    ..pre
                };
                proof {
                    assert(model_inv(acc1, m as int)) by {
                        assert forall|i: u64| #[trigger]
                            acc1.lists.contains_key(i) implies list_ok(acc1, i, m as int) by {
                            assert(list_ok(pre, i, m as int));
                            let l = pre.lists[i];
                            assert forall|q: int|
                                0 <= q < l.len() implies acc1.times[#[trigger] l[q]]
                                == pre.times[l[q]] by {
                                assert(pre.sessions.contains_key(l[q]));
                                assert(l[q] != id);
                            }
                        }
                    }
                    assert forall|q: int|
                        0 <= q < items@.len() implies !(acc1.lists.contains_key(
                        #[trigger] items@[q],
                    ) && acc1.lists[items@[q]].contains(id)) by {
                        if acc1.lists.contains_key(items@[q]) && acc1.lists[items@[q]].contains(
                            id,
                        ) {
                            assert(list_ok(pre, items@[q], m as int));
                            let l = pre.lists[items@[q]];
                            let w = choose|w: int| 0 <= w < l.len() && l[w] == id;
                            assert(pre.sessions.contains_key(id));
                        }
                    }
                }
                st.insert(id, mt);
                total = total + 1;
                si.insert(id, items);
                let items_ref = si.get(&id).unwrap();
                let mut j: usize = 0;
                assert(accum_items(acc1, id, mt, items_ref@, m as int, 0) == acc1);
                while j < items_ref.len()
                    invariant
                        bi < bm.len(),
                        j <= items_ref@.len(),
                        items_ref@ == bm[bi as int].1,
                        id == bm[bi as int].0,
                        mt == bm[bi as int].2,
                        model_inv(acc1, m as int),
                        acc1.total >= 1,
                        distinct_seq(items_ref@),
                        acc1.sessions.contains_key(id),
                        acc1.sessions[id] == items_ref@,
                        acc1.times.contains_key(id),
                        acc1.times[id] == mt,
                        forall|q: int|
                            0 <= q < items_ref@.len() ==> !(acc1.lists.contains_key(
                                #[trigger] items_ref@[q],
                            ) && acc1.lists[items_ref@[q]].contains(id)),
                        forall|q: int|
                            0 <= q < items_ref@.len() ==> (acc1.counts.contains_key(
                                #[trigger] items_ref@[q],
                            ) ==> acc1.counts[items_ref@[q]] <= acc1.total - 1),
                        1 <= m,
                        maps_model(
                            si@,
                            st@,
                            il@,
                            cm@,
                            ord@,
                            total,
                            accum_items(acc1, id, mt, items_ref@, m as int, j as int),
                        ),
                    decreases items_ref@.len() - j,
                {
                    let ghost cur = accum_items(acc1, id, mt, items_ref@, m as int, j as int);
                    proof {
                        lemma_accum_items_inv(acc1, id, mt, items_ref@, m as int, j as int);
                        assert(acc1.sessions[id].contains(items_ref@[j as int])) by {
                            assert(items_ref@[j as int] == acc1.sessions[id][j as int]);
                        }
                        lemma_accum_items_step_inv(cur, id, mt, items_ref@[j as int], m as int);
                        assert(cur.times == acc1.times);
                    }
                    let it = items_ref[j];
                    let removed = il.remove(&it);
                    let mut l = match removed {
                        Some(l) => l,
                        None => Vec::new(),
                    };
                    proof {
                        if cur.lists.contains_key(it) {
                            assert(l@ == cur.lists[it]);
                            assert(list_ok(cur, it, m as int));
                        } else {
                            assert(l@ =~= Seq::<u32>::empty());
                        }
                    }
                    vec_insert_recent(&mut l, id, mt, &st, m);
                    il.insert(it, l);
                    let removed_count = cm.remove(&it);
                    let c = match removed_count {
                        Some(c) => c,
                        None => {
                            ord.push(it);
                            0
                        },
                    };
                    cm.insert(it, c + 1);
                    j = j + 1;
                    proof {
                        let next = accum_items(acc1, id, mt, items_ref@, m as int, j as int);
                        assert(next == accum_items_step(cur, id, mt, it, m as int));
                        assert(il@[it]@ == next.lists[it]);
                        assert forall|i2: u64|
                            il@.contains_key(i2) <==> #[trigger] next.lists.contains_key(i2) by {
                            if i2 != it {
                                assert(il@.contains_key(i2) <==> cur.lists.contains_key(i2));
                            }
                        }
                        assert forall|i2: u64| #[trigger]
                            next.lists.contains_key(i2) implies il@[i2]@ == next.lists[i2] by {
                            if i2 != it {
                                assert(cur.lists.contains_key(i2));
                            }
                        }
                        assert(cm@[it] as int == next.counts[it]);
                        assert forall|i2: u64|
                            cm@.contains_key(i2) <==> #[trigger] next.counts.contains_key(
                            i2,
                        ) by {
                            if i2 != it {
                                assert(cm@.contains_key(i2) <==> cur.counts.contains_key(i2));
                            }
                        }
                        assert forall|i2: u64| #[trigger]
                            next.counts.contains_key(i2) implies cm@[i2] as int
                            == next.counts[i2] by {
                            if i2 != it {
                                assert(cur.counts.contains_key(i2));
                            }
                        }
                    }
                }
                proof {
                    assert(accum_items(acc1, id, mt, items_ref@, m as int, items_ref@.len() as int)
                        == accum_session(pre, bm[bi as int], cutoff as int, m as int));
                    assert(accum_all(bm, cutoff as int, m as int, bi as int + 1)
                        == accum_session(pre, bm[bi as int], cutoff as int, m as int));
                }
            } else {
                proof {
                    assert(accum_all(bm, cutoff as int, m as int, bi as int + 1) == pre);
                }
            }
            bi = bi + 1;
        }
        let ghost mdl = accum_all(bm, cutoff as int, m as int, bm.len() as int);
        proof {
            lemma_accum_all_inv(bm, cutoff as int, m as int, bm.len() as int);
            assert(mdl == spec_index_model(interactions@, max_session_length as int, m as int));
        }
        let mut item_idf: HashMap<u64, u64> = HashMap::new();
        let mut oi: usize = 0;
        while oi < ord.len()
            invariant
                oi <= ord@.len(),
                ord@ == mdl.item_order,
                model_inv(mdl, m as int),
                forall|i: u64| cm@.contains_key(i) <==> #[trigger] mdl.counts.contains_key(i),
                forall|i: u64| #[trigger]
                    mdl.counts.contains_key(i) ==> cm@[i] as int == mdl.counts[i],
                total as int == mdl.total,
                forall|q: int|
                    0 <= q < oi ==> item_idf@.contains_key(#[trigger] ord@[q])
                        && item_idf@[ord@[q]] as int == spec_idf_weight(
                        mdl.total,
                        mdl.counts[ord@[q]],
                    ) && item_idf@[ord@[q]] < 0x4000000,
                forall|i: u64| #[trigger]
                    item_idf@.contains_key(i) ==> exists|q: int| 0 <= q < oi && ord@[q] == i,
            decreases ord@.len() - oi,
        {
            let it = ord[oi];
            proof {
                assert(mdl.item_order.contains(it)) by {
                    assert(mdl.item_order[oi as int] == it);
                }
                assert(mdl.counts.contains_key(it));
            }
            let c = *cm.get(&it).unwrap();
            let w = crate::idf::idf_weight(total, c);
            item_idf.insert(it, w);
            oi = oi + 1;
            proof {
                assert forall|i: u64| #[trigger] item_idf@.contains_key(i) implies exists|q: int|
                    0 <= q < oi && ord@[q] == i by {
                    if i == it {
                        assert(ord@[oi - 1] == i);
                    }
                }
            }
        }
        let r = VMISkNN {
            k,
            m,
            total_sessions: total,
            session_items: si,
            session_max_time: st,
            item_sessions: il,
            item_idf,
            attributes: HashMap::new(),
        };
        proof {
            assert forall|i: u64|
                r.item_idf@.contains_key(i) <==> #[trigger] mdl.counts.contains_key(i) by {
                if r.item_idf@.contains_key(i) {
                    let q = choose|q: int| 0 <= q < ord@.len() && ord@[q] == i;
                    assert(mdl.item_order.contains(i)) by {
                        assert(mdl.item_order[q] == i);
                    }
                }
                if mdl.counts.contains_key(i) {
                    assert(mdl.item_order.contains(i));
                    let q = choose|q: int| 0 <= q < mdl.item_order.len() && mdl.item_order[q] == i;
                    assert(item_idf@.contains_key(ord@[q]));
                }
            }
            assert(r.models(mdl));
            assert forall|i: u64|
                r.item_sessions@.contains_key(i) <==> #[trigger] r.item_idf@.contains_key(i) by {
                assert(r.item_sessions@.contains_key(i) <==> mdl.lists.contains_key(i));
                assert(mdl.lists.contains_key(i) <==> mdl.counts.contains_key(i));
                assert(r.item_idf@.contains_key(i) <==> mdl.counts.contains_key(i));
            }
            assert(r.wf()) by {
                assert forall|s: u32| #[trigger]
                    r.session_items@.contains_key(s) implies sorted_strict(r.session_items@[s]@)
                    && r.session_items@[s]@.len() >= 1 && (forall|q: int|
                    0 <= q < r.session_items@[s]@.len() ==> r.item_idf@.contains_key(
                        #[trigger] r.session_items@[s]@[q],
                    )) by {
                    assert(mdl.sessions.contains_key(s));
                    assert(r.session_items@[s]@ == mdl.sessions[s]);
                    assert(items_covered(mdl));
                    assert forall|q: int|
                        0 <= q < r.session_items@[s]@.len() implies r.item_idf@.contains_key(
                        #[trigger] r.session_items@[s]@[q],
                    ) by {
                        assert(mdl.lists.contains_key(mdl.sessions[s][q]));
                        assert(mdl.counts.contains_key(mdl.sessions[s][q]));
                    }
                }
                assert forall|i: u64| #[trigger]
                    r.item_sessions@.contains_key(i) implies {
                    let l = r.item_sessions@[i]@;
                    &&& 1 <= l.len() <= r.m
                    &&& distinct_seq(l)
                    &&& forall|a: int, b: int|
                        0 <= a < b < l.len() ==> r.session_max_time@[l[a]]
                            >= r.session_max_time@[l[b]]
                    &&& forall|q: int|
                        0 <= q < l.len() ==> r.session_items@.contains_key(#[trigger] l[q])
                            && r.session_items@[l[q]]@.contains(i)
                            && r.session_max_time@.contains_key(l[q])
                } by {
                    assert(mdl.lists.contains_key(i));
                    assert(list_ok(mdl, i, m as int));
                    assert(r.item_sessions@[i]@ == mdl.lists[i]);
                    let l = r.item_sessions@[i]@;
                    assert forall|q: int|
                        0 <= q < l.len() implies r.session_items@.contains_key(#[trigger] l[q])
                        && r.session_items@[l[q]]@.contains(i) && r.session_max_time@.contains_key(
                        l[q],
                    ) by {
                        assert(mdl.sessions.contains_key(l[q]));
                        assert(mdl.sessions[l[q]].contains(i));
                        assert(r.session_items@[l[q]]@ == mdl.sessions[l[q]]);
                    }
                }
            }
        }
        r
    }

    /// The item-to-attributes fold of a catalog listing: later entries
    /// win.
    pub open spec fn attrs_map(attrs: Seq<(u64, ProductAttributes)>, n: int) -> Map<
        u64,
        ProductAttributes,
    >
        decreases n,
    {
        if n <= 0 {
            Map::empty()
        } else {
            VMISkNN::attrs_map(attrs, n - 1).insert(attrs[n - 1].0, attrs[n - 1].1)
        }
    }

    /// Attaches catalog attributes for the business-rule filter; the rest
    /// of the index is untouched.
    pub fn with_attributes(self, attrs: Vec<(u64, ProductAttributes)>) -> (r: VMISkNN)
        ensures
            r.wf() == self.wf(),
            r.k == self.k,
            r.m == self.m,
            r.total_sessions == self.total_sessions,
            r.session_items == self.session_items,
            r.session_max_time == self.session_max_time,
            r.item_sessions == self.item_sessions,
            r.item_idf == self.item_idf,
            r.attributes@ == self.attributes@.union_prefer_right(
                VMISkNN::attrs_map(attrs@, attrs@.len() as int),
            ),
    {
        let mut r = self;
        let mut i: usize = 0;
        while i < attrs.len()
            invariant
                i <= attrs@.len(),
                r.k == self.k,
                r.m == self.m,
                r.total_sessions == self.total_sessions,
                r.session_items == self.session_items,
                r.session_max_time == self.session_max_time,
                r.item_sessions == self.item_sessions,
                r.item_idf == self.item_idf,
                r.attributes@ == self.attributes@.union_prefer_right(
                    VMISkNN::attrs_map(attrs@, i as int),
                ),
            decreases attrs@.len() - i,
        {
            let (it, a) = attrs[i];
            r.attributes.insert(it, a);
            i = i + 1;
            proof {
                assert(r.attributes@ =~= self.attributes@.union_prefer_right(
                    VMISkNN::attrs_map(attrs@, i as int),
                ));
            }
        }
        r
    }

    /// The sorted distinct items of a retained historical session.
    pub fn items_for_session(&self, session: &u32) -> (r: &Vec<u64>)
        requires
            self.session_items@.contains_key(*session),
        ensures
            r@ == self.session_items@[*session]@,
    {
        self.session_items.get(session).unwrap()
    }

    /// The fixed-point idf weight of an item, at scale `IDF_SCALE`.
    pub fn idf(&self, item: &u64) -> (r: u64)
        requires
            self.item_idf@.contains_key(*item),
        ensures
            r == self.item_idf@[*item],
    {
        *self.item_idf.get(item).unwrap()
    }

    /// The catalog attributes of an item, if the index has them.
    pub fn find_attributes(&self, item_id: &u64) -> (r: Option<&ProductAttributes>)
        ensures
            match r {
                Some(a) => self.attributes@.contains_key(*item_id) && *a
                    == self.attributes@[*item_id],
                None => !self.attributes@.contains_key(*item_id),
            },
    {
        self.attributes.get(item_id)
    }

    /// Builds the index with no session-length cutoff.
    pub fn new(k: usize, m: usize, interactions: Vec<SessionItemWithOrder>) -> (r: VMISkNN)
        requires
            1 <= k,
            1 <= m,
        ensures
            r.wf(),
            r.k == k,
            r.m == m,
            r.models(spec_index_model(interactions@, usize::MAX as int, m as int)),
            r.attributes@ == Map::<u64, ProductAttributes>::empty(),
    {
        VMISkNN::new_with_cutoff(k, m, usize::MAX, interactions)
    }
}

} // verus!
