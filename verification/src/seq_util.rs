//! Ordered-insertion helpers shared by the index builder.

use vstd::prelude::*;

verus! {

/// Strictly ascending: sorted and free of duplicates.
pub open spec fn sorted_strict(s: Seq<u64>) -> bool {
    forall|i: int, j: int| 0 <= i < j < s.len() ==> s[i] < s[j]
}

/// No element occurs twice.
pub open spec fn distinct_seq<T>(s: Seq<T>) -> bool {
    forall|i: int, j: int| 0 <= i < j < s.len() ==> s[i] != s[j]
}

/// Insertion into a strictly ascending sequence, keeping it strictly
/// ascending: an element already present is not inserted again.
pub open spec fn insert_sorted_distinct(s: Seq<u64>, x: u64) -> Seq<u64>
    decreases s.len(),
{
    if s.len() == 0 {
        seq![x]
    } else if x < s[0] {
        seq![x] + s
    } else if x == s[0] {
        s
    } else {
        seq![s[0]] + insert_sorted_distinct(s.drop_first(), x)
    }
}

/// What `insert_sorted_distinct` guarantees: order is kept, the element is
/// present, and nothing else changes.
pub proof fn lemma_insert_sorted_distinct(s: Seq<u64>, x: u64)
    requires
        sorted_strict(s),
    ensures
        sorted_strict(insert_sorted_distinct(s, x)),
        forall|y: u64| insert_sorted_distinct(s, x).contains(y) <==> (s.contains(y) || y == x),
        s.len() <= insert_sorted_distinct(s, x).len() <= s.len() + 1,
        insert_sorted_distinct(s, x).len() == s.len() <==> s.contains(x),
    decreases s.len(),
{
    let r = insert_sorted_distinct(s, x);
    if s.len() == 0 {
        assert(r =~= seq![x]);
        assert forall|y: u64| r.contains(y) <==> (s.contains(y) || y == x) by {
            if r.contains(y) {
                assert(r[0] == x);
            }
            if y == x {
                assert(r[0] == x);
            }
        }
    } else if x < s[0] {
        assert(r =~= seq![x] + s);
        assert forall|y: u64| r.contains(y) implies (s.contains(y) || y == x) by {
            let i = choose|i: int| 0 <= i < r.len() && r[i] == y;
            if i > 0 {
                assert(s[i - 1] == y);
            }
        }
        assert forall|y: u64| (s.contains(y) || y == x) implies r.contains(y) by {
            if s.contains(y) {
                let i = choose|i: int| 0 <= i < s.len() && s[i] == y;
                assert(r[i + 1] == y);
            } else {
                assert(r[0] == x);
            }
        }
        assert(!s.contains(x)) by {
            if s.contains(x) {
                let i = choose|i: int| 0 <= i < s.len() && s[i] == x;
                assert(s[0] <= s[i]);
            }
        }
    } else if x == s[0] {
        assert(s.contains(x)) by {
            assert(s[0] == x);
        }
    } else {
        let tail = s.drop_first();
        lemma_insert_sorted_distinct(tail, x);
        let rt = insert_sorted_distinct(tail, x);
        assert(r =~= seq![s[0]] + rt);
        assert forall|y: u64| r.contains(y) implies (s.contains(y) || y == x) by {
            let i = choose|i: int| 0 <= i < r.len() && r[i] == y;
            if i == 0 {
                assert(s[0] == y);
            } else {
                assert(rt.contains(y)) by {
                    assert(rt[i - 1] == y);
                }
                if tail.contains(y) {
                    let j = choose|j: int| 0 <= j < tail.len() && tail[j] == y;
                    assert(s[j + 1] == y);
                }
            }
        }
        assert forall|y: u64| (s.contains(y) || y == x) implies r.contains(y) by {
            if s.contains(y) {
                let i = choose|i: int| 0 <= i < s.len() && s[i] == y;
                if i == 0 {
                    assert(r[0] == y);
                } else {
                    assert(tail.contains(y)) by {
                        assert(tail[i - 1] == y);
                    }
                    assert(rt.contains(y));
                    let j = choose|j: int| 0 <= j < rt.len() && rt[j] == y;
                    assert(r[j + 1] == y);
                }
            } else {
                assert(rt.contains(x));
                let j = choose|j: int| 0 <= j < rt.len() && rt[j] == x;
                assert(r[j + 1] == x);
            }
        }
        // order: s[0] is below x and below every tail element, and rt only
        // holds tail elements and x
        assert forall|i: int, j: int| 0 <= i < j < r.len() implies r[i] < r[j] by {
            if i == 0 {
                assert(r[j] == rt[j - 1]);
                assert(rt.contains(rt[j - 1]));
                if tail.contains(rt[j - 1]) {
                    let q = choose|q: int| 0 <= q < tail.len() && tail[q] == rt[j - 1];
                    assert(s[0] < s[q + 1]);
                }
            } else {
                assert(r[i] == rt[i - 1] && r[j] == rt[j - 1]);
            }
        }
        assert(s.contains(x) <==> tail.contains(x)) by {
            if s.contains(x) {
                let i = choose|i: int| 0 <= i < s.len() && s[i] == x;
                assert(i != 0);
                assert(tail[i - 1] == x);
            }
            if tail.contains(x) {
                let i = choose|i: int| 0 <= i < tail.len() && tail[i] == x;
                assert(s[i + 1] == x);
            }
        }
    }
}

/// Splitting `insert_sorted_distinct` at a scanned prefix whose elements
/// are all below the inserted element.
pub proof fn lemma_insert_sorted_skip(s: Seq<u64>, x: u64, i: int)
    requires
        0 <= i <= s.len(),
        forall|j: int| 0 <= j < i ==> s[j] < x,
    ensures
        insert_sorted_distinct(s, x) == s.take(i) + insert_sorted_distinct(s.skip(i), x),
    decreases i,
{
    if i == 0 {
        assert(s.take(0) + insert_sorted_distinct(s.skip(0), x) =~= insert_sorted_distinct(
            s.skip(0),
            x,
        ));
        assert(s.skip(0) =~= s);
    } else {
        assert(s.len() > 0 && s[0] < x);
        let tail = s.drop_first();
        lemma_insert_sorted_skip(tail, x, i - 1);
        assert(tail.skip(i - 1) =~= s.skip(i));
        assert(seq![s[0]] + (tail.take(i - 1) + insert_sorted_distinct(s.skip(i), x)) =~= s.take(i)
            + insert_sorted_distinct(s.skip(i), x));
    }
}

/// Inserts `x` into a strictly ascending vector, keeping it strictly
/// ascending; if `x` is already present the vector is unchanged.
pub fn vec_insert_sorted_distinct(v: &mut Vec<u64>, x: u64)
    requires
        sorted_strict(old(v)@),
        old(v)@.len() < usize::MAX,
    ensures
        final(v)@ == insert_sorted_distinct(old(v)@, x),
        sorted_strict(final(v)@),
{
    proof {
        lemma_insert_sorted_distinct(old(v)@, x);
    }
    let ghost s = v@;
    let mut pos: usize = 0;
    while pos < v.len() && v[pos] < x
        invariant
            0 <= pos <= v@.len(),
            v@ == s,
            forall|j: int| 0 <= j < pos ==> s[j] < x,
        decreases v@.len() - pos,
    {
        pos = pos + 1;
    }
    proof {
        lemma_insert_sorted_skip(s, x, pos as int);
    }
    if pos < v.len() && v[pos] == x {
        proof {
            assert(s.skip(pos as int)[0] == x);
            assert(s.take(pos as int) + s.skip(pos as int) =~= s);
        }
    } else {
        v.insert(pos, x);
        proof {
            let tail = s.skip(pos as int);
            if pos < s.len() {
                assert(x < tail[0]);
                assert(insert_sorted_distinct(tail, x) =~= seq![x] + tail);
            } else {
                assert(tail =~= Seq::<u64>::empty());
            }
            assert(v@ =~= s.take(pos as int) + insert_sorted_distinct(tail, x));
        }
    }
}

} // verus!
