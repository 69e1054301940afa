//! Ingestion of parsed interaction rows: hash partitioning and grouping.
//!
//! Rows arrive as plain `(session_id, item_id, order)` triples, already
//! parsed from the tab-separated input by the surrounding application.
//! Every fact of a session belongs to exactly one partition, decided by a
//! 64-bit FNV-1a hash of the session id's little-endian bytes modulo the
//! partition count; rows of other partitions are dropped.  Historical
//! rows stay flat; evolving rows are grouped per session and ordered by
//! their interaction order, ties keeping input order.

use vstd::prelude::*;
use std::collections::HashMap;
use crate::types::SessionItemWithOrder;
use crate::seq_util::distinct_seq;

verus! {

broadcast use vstd::std_specs::hash::group_hash_axioms;

/// The FNV-1a 64-bit offset basis.
pub const FNV_OFFSET: u64 = 0xcbf29ce484222325;

/// The FNV-1a 64-bit prime.
pub const FNV_PRIME: u64 = 0x100000001b3;

/// One FNV-1a round: fold one byte into the running hash.
pub open spec fn fnv1a_step(h: u64, b: u8) -> u64 {
    ((((h ^ (b as u64)) as nat) * (FNV_PRIME as nat)) % 0x10000000000000000nat) as u64
}

/// The FNV-1a 64-bit hash of a session id's four little-endian bytes.
pub open spec fn spec_fnv1a_u32(x: u32) -> u64 {
    let h0 = fnv1a_step(FNV_OFFSET, (x & 0xFF) as u8);
    let h1 = fnv1a_step(h0, ((x >> 8) & 0xFF) as u8);
    let h2 = fnv1a_step(h1, ((x >> 16) & 0xFF) as u8);
    fnv1a_step(h2, ((x >> 24) & 0xFF) as u8)
}

/// FNV-1a, 64 bit, over the little-endian bytes of a session id.
pub fn fnv1a_u32(x: u32) -> (r: u64)
    ensures
        r == spec_fnv1a_u32(x),
{
    let mut h: u64 = FNV_OFFSET;
    h = (h ^ ((x & 0xFF) as u64)).wrapping_mul(FNV_PRIME);
    h = (h ^ (((x >> 8) & 0xFF) as u64)).wrapping_mul(FNV_PRIME);
    h = (h ^ (((x >> 16) & 0xFF) as u64)).wrapping_mul(FNV_PRIME);
    h = (h ^ (((x >> 24) & 0xFF) as u64)).wrapping_mul(FNV_PRIME);
    proof {
        assert((x & 0xFF) as u64 == ((x & 0xFF) as u8) as u64) by (bit_vector);
        assert(((x >> 8) & 0xFF) as u64 == (((x >> 8) & 0xFF) as u8) as u64) by (bit_vector);
        assert(((x >> 16) & 0xFF) as u64 == (((x >> 16) & 0xFF) as u8) as u64) by (bit_vector);
        assert(((x >> 24) & 0xFF) as u64 == (((x >> 24) & 0xFF) as u8) as u64) by (bit_vector);
    }
    h
}

/// The partition a session's facts belong to.
pub open spec fn spec_hash_partition(s: u32, num_partitions: int) -> int {
    spec_fnv1a_u32(s) as int % num_partitions
}

/// Assigns every fact of a session to exactly one partition.
pub fn hash_partition(identifier: &u32, num_partitions: usize) -> (r: usize)
    requires
        num_partitions >= 1,
    ensures
        r as int == spec_hash_partition(*identifier, num_partitions as int),
        r < num_partitions,
{
    (fnv1a_u32(*identifier) % (num_partitions as u64)) as usize
}

/// Whether a row belongs to the given partition.
pub open spec fn row_in_partition(row: (u32, u64, u32), partition: int, num_partitions: int) -> bool {
    spec_hash_partition(row.0, num_partitions) == partition
}

/// A filter keeping everything keeps the sequence.
proof fn lemma_filter_all<A>(s: Seq<A>, pred: spec_fn(A) -> bool)
    requires
        forall|x: A| #[trigger] pred(x),
    ensures
        s.filter(pred) == s,
    decreases s.len(),
{
    reveal_with_fuel(Seq::filter, 2);
    if s.len() > 0 {
        lemma_filter_all(s.drop_last(), pred);
        assert(s.filter(pred) =~= s);
    } else {
        assert(s.filter(pred) =~= s);
    }
}

/// Keeps the interaction facts of one partition, in input order.
pub fn read_historical_sessions_partitioned(
    rows: &Vec<SessionItemWithOrder>,
    partition: usize,
    num_partitions: usize,
) -> (r: Vec<SessionItemWithOrder>)
    requires
        num_partitions >= 1,
    ensures
        r@ == rows@.filter(
            |row: (u32, u64, u32)| row_in_partition(row, partition as int, num_partitions as int),
        ),
{
    let ghost pred = |row: (u32, u64, u32)|
        row_in_partition(row, partition as int, num_partitions as int);
    let mut out: Vec<SessionItemWithOrder> = Vec::new();
    let mut i: usize = 0;
    proof {
        reveal_with_fuel(Seq::filter, 2);
        assert(rows@.take(0).filter(pred) =~= Seq::<SessionItemWithOrder>::empty());
    }
    while i < rows.len()
        invariant
            i <= rows@.len(),
            pred == (|row: (u32, u64, u32)| row_in_partition(
                row,
                partition as int,
                num_partitions as int,
            )),
            num_partitions >= 1,
            out@ == rows@.take(i as int).filter(pred),
        decreases rows@.len() - i,
    {
        let row = rows[i];
        let part = hash_partition(&row.0, num_partitions);
        proof {
            reveal_with_fuel(Seq::filter, 2);
            assert(rows@.take(i as int + 1).drop_last() =~= rows@.take(i as int));
            assert(rows@.take(i as int + 1).last() == row);
            assert(pred(row) == (part == partition));
        }
        if part == partition {
            out.push(row);
            proof {
                assert(out@ =~= rows@.take(i as int + 1).filter(pred));
            }
        } else {
            proof {
                assert(out@ =~= rows@.take(i as int + 1).filter(pred));
            }
        }
        i = i + 1;
    }
    proof {
        assert(rows@.take(rows@.len() as int) =~= rows@);
    }
    out
}

/// All interaction facts, as the single partition of an unpartitioned
/// load.
pub fn read_historical_sessions(rows: &Vec<SessionItemWithOrder>) -> (r: Vec<
    SessionItemWithOrder,
>)
    ensures
        r@ == rows@,
{
    let r = read_historical_sessions_partitioned(rows, 0, 1);
    proof {
        let pred = |row: (u32, u64, u32)| row_in_partition(row, 0, 1);
        assert forall|row: (u32, u64, u32)| #[trigger] pred(row) by {
            assert(spec_fnv1a_u32(row.0) as int % 1 == 0);
        }
        lemma_filter_all(rows@, pred);
    }
    r
}

/// One evolving session while rows are being grouped: its id and its
/// items with their orders, ascending by order, ties in input order.
pub struct EvolvingBuild {
    pub id: u32,
    pub items: Vec<(u64, u32)>,
}

/// The mathematical shadows of the grouped evolving sessions.
pub open spec fn ev_model(v: Seq<EvolvingBuild>) -> Seq<(u32, Seq<(u64, u32)>)> {
    v.map_values(|eb: EvolvingBuild| (eb.id, eb.items@))
}

/// Inserts an interaction into a session's item list, keeping orders
/// ascending; at equal orders the earlier-input interaction stays first.
pub open spec fn ev_insert(l: Seq<(u64, u32)>, item: u64, ord: u32) -> Seq<(u64, u32)>
    decreases l.len(),
{
    if l.len() == 0 {
        seq![(item, ord)]
    } else if ord < l[0].1 {
        seq![(item, ord)] + l
    } else {
        seq![l[0]] + ev_insert(l.drop_first(), item, ord)
    }
}

/// Folds one row into the grouped evolving sessions, dropping rows of
/// other partitions.
pub open spec fn ev_gather_step(
    acc: Seq<(u32, Seq<(u64, u32)>)>,
    row: (u32, u64, u32),
    partition: int,
    num_partitions: int,
) -> Seq<(u32, Seq<(u64, u32)>)> {
    if !row_in_partition(row, partition, num_partitions) {
        acc
    } else if exists|i: int| 0 <= i < acc.len() && acc[i].0 == row.0 {
        let i = choose|i: int| 0 <= i < acc.len() && acc[i].0 == row.0;
        acc.update(i, (row.0, ev_insert(acc[i].1, row.1, row.2)))
    } else {
        acc.push((row.0, seq![(row.1, row.2)]))
    }
}

/// The grouped evolving sessions after the first `n` rows.
pub open spec fn ev_gather(
    rows: Seq<(u32, u64, u32)>,
    partition: int,
    num_partitions: int,
    n: int,
) -> Seq<(u32, Seq<(u64, u32)>)>
    decreases n,
{
    if n <= 0 {
        Seq::empty()
    } else {
        ev_gather_step(ev_gather(rows, partition, num_partitions, n - 1), rows[n - 1], partition, num_partitions)
    }
}

/// The items of a grouped session, in interaction order.
pub open spec fn ev_items(l: Seq<(u64, u32)>) -> Seq<u64> {
    l.map_values(|p: (u64, u32)| p.0)
}

pub open spec fn ev_gather_inv(acc: Seq<(u32, Seq<(u64, u32)>)>) -> bool {
    &&& forall|i: int, j: int| 0 <= i < j < acc.len() ==> acc[i].0 != acc[j].0
    &&& forall|i: int|
        0 <= i < acc.len() ==> 1 <= (#[trigger] acc[i].1).len() && (forall|a: int, b: int|
            0 <= a < b < acc[i].1.len() ==> acc[i].1[a].1 <= acc[i].1[b].1)
}

proof fn lemma_ev_insert(l: Seq<(u64, u32)>, item: u64, ord: u32)
    requires
        forall|a: int, b: int| 0 <= a < b < l.len() ==> l[a].1 <= l[b].1,
    ensures
        ({
            let r = ev_insert(l, item, ord);
            &&& r.len() == l.len() + 1
            &&& forall|a: int, b: int| 0 <= a < b < r.len() ==> r[a].1 <= r[b].1
        }),
    decreases l.len(),
{
    let r = ev_insert(l, item, ord);
    if l.len() == 0 {
        assert(r =~= seq![(item, ord)]);
    } else if ord < l[0].1 {
        assert(r =~= seq![(item, ord)] + l);
    } else {
        let tail = l.drop_first();
        lemma_ev_insert(tail, item, ord);
        let rt = ev_insert(tail, item, ord);
        assert(r =~= seq![l[0]] + rt);
        assert forall|a: int, b: int| 0 <= a < b < r.len() implies r[a].1 <= r[b].1 by {
            if a == 0 {
                // every element of rt is a tail element or the new pair
                lemma_ev_insert_members(tail, item, ord, b - 1);
            }
        }
    }
}

/// Each element of an insertion result is a list element or the new pair,
/// so the head's order stays minimal.
proof fn lemma_ev_insert_members(l: Seq<(u64, u32)>, item: u64, ord: u32, i: int)
    requires
        0 <= i < ev_insert(l, item, ord).len(),
    ensures
        l.contains(ev_insert(l, item, ord)[i]) || ev_insert(l, item, ord)[i] == (item, ord),
    decreases l.len(),
{
    let r = ev_insert(l, item, ord);
    if l.len() == 0 {
    } else if ord < l[0].1 {
        if i > 0 {
            assert(l[i - 1] == r[i]);
        }
    } else {
        let tail = l.drop_first();
        if i == 0 {
            assert(l[0] == r[0]);
        } else {
            lemma_ev_insert_members(tail, item, ord, i - 1);
            if tail.contains(r[i]) {
                let q = choose|q: int| 0 <= q < tail.len() && tail[q] == r[i];
                assert(l[q + 1] == r[i]);
            }
        }
    }
}

proof fn lemma_ev_gather_inv(
    rows: Seq<(u32, u64, u32)>,
    partition: int,
    num_partitions: int,
    n: int,
)
    requires
        0 <= n,
    ensures
        ev_gather_inv(ev_gather(rows, partition, num_partitions, n)),
    decreases n,
{
    if n > 0 {
        lemma_ev_gather_inv(rows, partition, num_partitions, n - 1);
        let acc = ev_gather(rows, partition, num_partitions, n - 1);
        let row = rows[n - 1];
        let r = ev_gather(rows, partition, num_partitions, n);
        if row_in_partition(row, partition, num_partitions) {
            if exists|i: int| 0 <= i < acc.len() && acc[i].0 == row.0 {
                let i = choose|i: int| 0 <= i < acc.len() && acc[i].0 == row.0;
                lemma_ev_insert(acc[i].1, row.1, row.2);
                assert(forall|j: int| 0 <= j < r.len() && j != i ==> r[j] == acc[j]);
            }
        }
    }
}

/// Inserts an interaction into an order-ascending item vector, keeping
/// equal orders in input order.
fn vec_ev_insert(l: &mut Vec<(u64, u32)>, item: u64, ord: u32)
    ensures
        final(l)@ == ev_insert(old(l)@, item, ord),
{
    let ghost s = l@;
    let mut pos: usize = 0;
    while pos < l.len() && l[pos].1 <= ord
        invariant
            pos <= s.len(),
            l@ == s,
            forall|j: int| 0 <= j < pos ==> s[j].1 <= ord,
        decreases s.len() - pos,
    {
        pos = pos + 1;
    }
    proof {
        lemma_ev_insert_skip(s, item, ord, pos as int);
        let tail = s.skip(pos as int);
        if pos < s.len() {
            assert(ord < tail[0].1) by {
                assert(tail[0] == s[pos as int]);
            }
            assert(ev_insert(tail, item, ord) =~= seq![(item, ord)] + tail);
        } else {
            assert(tail =~= Seq::<(u64, u32)>::empty());
        }
    }
    l.insert(pos, (item, ord));
    proof {
        assert(l@ =~= s.take(pos as int) + ev_insert(s.skip(pos as int), item, ord));
    }
}

proof fn lemma_ev_insert_skip(l: Seq<(u64, u32)>, item: u64, ord: u32, i: int)
    requires
        0 <= i <= l.len(),
        forall|j: int| 0 <= j < i ==> l[j].1 <= ord,
    ensures
        ev_insert(l, item, ord) == l.take(i) + ev_insert(l.skip(i), item, ord),
    decreases i,
{
    if i == 0 {
        assert(l.skip(0) =~= l);
        assert(l.take(0) + ev_insert(l, item, ord) =~= ev_insert(l, item, ord));
    } else {
        assert(l.len() > 0 && l[0].1 <= ord);
        let tail = l.drop_first();
        lemma_ev_insert_skip(tail, item, ord, i - 1);
        assert(tail.skip(i - 1) =~= l.skip(i));
        assert(seq![l[0]] + (tail.take(i - 1) + ev_insert(l.skip(i), item, ord)) =~= l.take(i)
            + ev_insert(l.skip(i), item, ord));
    }
}

fn find_group_index(groups: &Vec<EvolvingBuild>, s: u32) -> (r: Option<usize>)
    ensures
        match r {
            Some(q) => q < groups@.len() && groups@[q as int].id == s,
            None => forall|q: int| 0 <= q < groups@.len() ==> (#[trigger] groups@[q]).id != s,
        },
{
    let mut q: usize = 0;
    while q < groups.len()
        invariant
            q <= groups@.len(),
            forall|p: int| 0 <= p < q ==> (#[trigger] groups@[p]).id != s,
        decreases groups@.len() - q,
    {
        if groups[q].id == s {
            return Some(q);
        }
        q = q + 1;
    }
    None
}

/// Groups one partition's evolving-session rows by session, items in
/// interaction order (ties keep input order).
pub fn read_evolving_sessions_partitioned(
    rows: &Vec<SessionItemWithOrder>,
    partition: usize,
    num_partitions: usize,
) -> (r: HashMap<u32, Vec<u64>>)
    requires
        num_partitions >= 1,
    ensures
        ({
            let g = ev_gather(rows@, partition as int, num_partitions as int, rows@.len() as int);
            &&& forall|s: u32| #[trigger]
                r@.contains_key(s) <==> exists|i: int| 0 <= i < g.len() && g[i].0 == s
            &&& forall|i: int|
                0 <= i < g.len() ==> r@.contains_key(#[trigger] g[i].0) && r@[g[i].0]@ == ev_items(
                    g[i].1,
                )
        }),
{
    let ghost part = partition as int;
    let ghost np = num_partitions as int;
    let mut groups: Vec<EvolvingBuild> = Vec::new();
    let mut n: usize = 0;
    proof {
        assert(ev_model(groups@) =~= ev_gather(rows@, part, np, 0));
    }
    while n < rows.len()
        invariant
            n <= rows@.len(),
            num_partitions >= 1,
            part == partition as int,
            np == num_partitions as int,
            ev_model(groups@) == ev_gather(rows@, part, np, n as int),
            ev_gather_inv(ev_model(groups@)),
        decreases rows@.len() - n,
    {
        let row = rows[n];
        let (s, it, o) = row;
        let ghost pre = ev_model(groups@);
        proof {
            lemma_ev_gather_inv(rows@, part, np, n as int + 1);
            lemma_ev_gather_inv(rows@, part, np, n as int);
        }
        let rpart = hash_partition(&s, num_partitions);
        if rpart == partition {
            let found = find_group_index(&groups, s);
            match found {
                Some(i) => {
                    proof {
                        assert(exists|j: int| 0 <= j < pre.len() && pre[j].0 == s) by {
                            assert(pre[i as int].0 == s);
                        }
                        let j = choose|j: int| 0 <= j < pre.len() && pre[j].0 == s;
                        if j != i as int {
                            if j < i as int {
                                assert(pre[j].0 != pre[i as int].0);
                            } else {
                                assert(pre[i as int].0 != pre[j].0);
                            }
                        }
                        assert(j == i as int);
                    }
                    let eb = vstd::std_specs::vec::vec_index_mut(&mut groups, i);
                    vec_ev_insert(&mut eb.items, it, o);
                    proof {
                        assert(ev_model(groups@) =~= ev_gather_step(pre, row, part, np));
                    }
                },
                None => {
                    let mut items: Vec<(u64, u32)> = Vec::new();
                    items.push((it, o));
                    assert(items@ =~= seq![(it, o)]);
                    groups.push(EvolvingBuild { id: s, items });
                    proof {
                        assert(ev_model(groups@) =~= ev_gather_step(pre, row, part, np));
                    }
                },
            }
        } else {
            proof {
                assert(ev_model(groups@) == ev_gather_step(pre, row, part, np));
            }
        }
        n = n + 1;
    }
    let ghost g = ev_gather(rows@, part, np, rows@.len() as int);
    let mut out: HashMap<u32, Vec<u64>> = HashMap::new();
    let mut gi: usize = 0;
    while gi < groups.len()
        invariant
            gi <= groups@.len(),
            ev_model(groups@) == g,
            ev_gather_inv(g),
            groups@.len() == g.len(),
            forall|s: u32| #[trigger]
                out@.contains_key(s) <==> exists|i: int| 0 <= i < gi && g[i].0 == s,
            forall|i: int|
                0 <= i < gi ==> out@.contains_key(#[trigger] g[i].0) && out@[g[i].0]@ == ev_items(
                    g[i].1,
                ),
        decreases groups@.len() - gi,
    {
        let eb = &groups[gi];
        let mut items: Vec<u64> = Vec::new();
        let mut j: usize = 0;
        while j < eb.items.len()
            invariant
                j <= eb.items@.len(),
                items@ == ev_items(eb.items@.take(j as int)),
            decreases eb.items@.len() - j,
        {
            items.push(eb.items[j].0);
            proof {
                assert(items@ =~= ev_items(eb.items@.take(j as int + 1)));
            }
            j = j + 1;
        }
        proof {
            assert(eb.items@.take(eb.items@.len() as int) =~= eb.items@);
            assert(g[gi as int].0 == eb.id && g[gi as int].1 == eb.items@);
        }
        out.insert(eb.id, items);
        gi = gi + 1;
        proof {
            assert forall|s: u32| #[trigger] out@.contains_key(s) implies exists|i: int|
                0 <= i < gi && g[i].0 == s by {
                if s != g[gi - 1].0 {
                    let i = choose|i: int| 0 <= i < gi - 1 && g[i].0 == s;
                    assert(0 <= i < gi && g[i].0 == s);
                } else {
                    assert(g[gi - 1].0 == s);
                }
            }
            assert forall|i: int|
                0 <= i < gi implies out@.contains_key(#[trigger] g[i].0) && out@[g[i].0]@
                == ev_items(g[i].1) by {
                if i < gi - 1 {
                    assert(g[i].0 != g[gi - 1].0);
                }
            }
        }
    }
    out
}

/// Groups all evolving-session rows, as the single partition of an
/// unpartitioned load.
pub fn read_evolving_sessions(rows: &Vec<SessionItemWithOrder>) -> (r: HashMap<u32, Vec<u64>>)
    ensures
        ({
            let g = ev_gather(rows@, 0, 1, rows@.len() as int);
            &&& forall|s: u32| #[trigger]
                r@.contains_key(s) <==> exists|i: int| 0 <= i < g.len() && g[i].0 == s
            &&& forall|i: int|
                0 <= i < g.len() ==> r@.contains_key(#[trigger] g[i].0) && r@[g[i].0]@ == ev_items(
                    g[i].1,
                )
        }),
{
    read_evolving_sessions_partitioned(rows, 0, 1)
}

} // verus!
