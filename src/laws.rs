//! Laws relating insertion, deletion and iteration. The iteration contract
//! says what keys come out and that they come out strictly increasing; these
//! lemmas turn the set-level contracts of `insert` and `delete` into
//! statements about the sequences iteration yields.
use vstd::prelude::*;

use crate::node::strictly_sorted;

verus! {

/// The keys of a tree built by inserting `vals` one after another into an
/// empty tree.
pub open spec fn keys_after_inserts(vals: Seq<i64>) -> Set<i64>
    decreases vals.len(),
{
    if vals.len() == 0 {
        Set::empty()
    } else {
        keys_after_inserts(vals.drop_last()).insert(vals.last())
    }
}

/// A value is among the keys after a run of insertions exactly when it was
/// inserted.
pub proof fn lemma_keys_after_inserts(vals: Seq<i64>)
    ensures
        forall|x: i64| #[trigger] keys_after_inserts(vals).contains(x) == vals.contains(x),
    decreases vals.len(),
{
    if vals.len() > 0 {
        lemma_keys_after_inserts(vals.drop_last());
        assert forall|x: i64| #[trigger] keys_after_inserts(vals).contains(x) == vals.contains(x) by {
            assert(keys_after_inserts(vals) == keys_after_inserts(vals.drop_last()).insert(vals.last()));
            assert(keys_after_inserts(vals.drop_last()).contains(x) == vals.drop_last().contains(x));
            if x == vals.last() {
                assert(vals[vals.len() - 1] == x);
            }
            if vals.contains(x) && x != vals.last() {
                let j = choose|j: int| 0 <= j < vals.len() && vals[j] == x;
                assert(vals.drop_last()[j] == x);
            }
            if vals.drop_last().contains(x) {
                let j = choose|j: int| 0 <= j < vals.len() - 1 && vals.drop_last()[j] == x;
                assert(vals[j] == x);
            }
        }
    }
}

/// Two strictly increasing sequences that hold the same values are equal.
pub proof fn lemma_sorted_unique(a: Seq<i64>, b: Seq<i64>)
    requires
        strictly_sorted(a),
        strictly_sorted(b),
        forall|x: i64| a.contains(x) == b.contains(x),
    ensures
        a == b,
    decreases a.len(),
{
    if a.len() == 0 {
        if b.len() > 0 {
            assert(b.contains(b[0]));
        }
        assert(a =~= b);
    } else {
        assert(a.contains(a[0]));
        assert(b.len() > 0);
        assert(b.contains(b[0]));
        let k = choose|k: int| 0 <= k < b.len() && b[k] == a[0];
        let m = choose|m: int| 0 <= m < a.len() && a[m] == b[0];
        assert(a[0] <= a[m]);
        assert(b[0] <= b[k]);
        assert(a[0] == b[0]);
        let a1 = a.drop_first();
        let b1 = b.drop_first();
        assert forall|x: i64| a1.contains(x) == b1.contains(x) by {
            if a1.contains(x) {
                let j = choose|j: int| 0 <= j < a1.len() && a1[j] == x;
                assert(a[j + 1] == x);
                assert(a.contains(x));
                let q = choose|q: int| 0 <= q < b.len() && b[q] == x;
                assert(a[0] < a[j + 1]);
                assert(q != 0);
                assert(b1[q - 1] == x);
            }
            if b1.contains(x) {
                let j = choose|j: int| 0 <= j < b1.len() && b1[j] == x;
                assert(b[j + 1] == x);
                assert(b.contains(x));
                let q = choose|q: int| 0 <= q < a.len() && a[q] == x;
                assert(b[0] < b[j + 1]);
                assert(q != 0);
                assert(a1[q - 1] == x);
            }
        }
        lemma_sorted_unique(a1, b1);
        assert(a =~= b) by {
            assert forall|j: int| 0 <= j < a.len() implies a[j] == b[j] by {
                if j > 0 {
                    assert(a[j] == a1[j - 1]);
                    assert(b[j] == b1[j - 1]);
                }
            }
        }
    }
}

/// Inserting distinct values in any order and iterating gives each of them
/// once, in strictly increasing order: the sequence `out` that iteration
/// yields has exactly the inserted values and as many as were inserted.
pub proof fn lemma_sorted_round_trip(vals: Seq<i64>, out: Seq<i64>)
    requires
        vals.no_duplicates(),
        strictly_sorted(out),
        forall|x: i64| out.contains(x) == keys_after_inserts(vals).contains(x),
    ensures
        out.len() == vals.len(),
        forall|x: i64| out.contains(x) == vals.contains(x),
{
    lemma_keys_after_inserts(vals);
    assert(out.no_duplicates()) by {
        assert forall|p: int, q: int| 0 <= p < out.len() && 0 <= q < out.len() && p != q implies out[p] != out[q] by {
            if p < q {
                assert(out[p] < out[q]);
            } else {
                assert(out[q] < out[p]);
            }
        }
    }
    assert(out.to_set() =~= vals.to_set()) by {
        assert forall|x: i64| out.to_set().contains(x) == vals.to_set().contains(x) by {}
    }
    out.unique_seq_to_set();
    vals.unique_seq_to_set();
}

/// Inserting a value a second time leaves the keys, and so the iteration
/// sequence, as inserting it once did.
pub proof fn lemma_insert_idempotent(keys: Set<i64>, v: i64, once: Seq<i64>, twice: Seq<i64>)
    requires
        strictly_sorted(once),
        strictly_sorted(twice),
        forall|x: i64| once.contains(x) == keys.insert(v).contains(x),
        forall|x: i64| twice.contains(x) == keys.insert(v).insert(v).contains(x),
    ensures
        keys.insert(v).insert(v) == keys.insert(v),
        twice == once,
{
    assert(keys.insert(v).insert(v) =~= keys.insert(v));
    lemma_sorted_unique(twice, once);
}

/// Deleting a present value from keys iterated as `before` leaves keys
/// iterated as `after`: `before` with that one value taken out, so one
/// shorter, with the others in the same order.
pub proof fn lemma_delete_removes_one(keys: Set<i64>, v: i64, before: Seq<i64>, after: Seq<i64>)
    requires
        keys.contains(v),
        strictly_sorted(before),
        strictly_sorted(after),
        forall|x: i64| before.contains(x) == keys.contains(x),
        forall|x: i64| after.contains(x) == keys.remove(v).contains(x),
    ensures
        after.len() + 1 == before.len(),
        exists|i: int| 0 <= i < before.len() && before[i] == v && after == before.remove(i),
{
    assert(before.contains(v));
    let i = choose|i: int| 0 <= i < before.len() && before[i] == v;
    let r = before.remove(i);
    assert(strictly_sorted(r)) by {
        assert forall|p: int, q: int| 0 <= p < q < r.len() implies r[p] < r[q] by {
            if q < i {
            } else if p < i {
                assert(r[q] == before[q + 1]);
            } else {
                assert(r[p] == before[p + 1]);
                assert(r[q] == before[q + 1]);
            }
        }
    }
    assert forall|x: i64| r.contains(x) == after.contains(x) by {
        if r.contains(x) {
            let j = choose|j: int| 0 <= j < r.len() && r[j] == x;
            if j < i {
                assert(before[j] == x);
                assert(before[j] < before[i]);
            } else {
                assert(before[j + 1] == x);
                assert(before[i] < before[j + 1]);
            }
            assert(before.contains(x));
        }
        if after.contains(x) {
            assert(keys.contains(x) && x != v);
            assert(before.contains(x));
            let j = choose|j: int| 0 <= j < before.len() && before[j] == x;
            if j < i {
                assert(r[j] == x);
            } else {
                assert(j != i);
                assert(r[j - 1] == x);
            }
        }
    }
    lemma_sorted_unique(after, r);
}

/// Deleting an absent value leaves the keys, and so the iteration sequence,
/// unchanged.
pub proof fn lemma_delete_absent(keys: Set<i64>, v: i64, before: Seq<i64>, after: Seq<i64>)
    requires
        !keys.contains(v),
        strictly_sorted(before),
        strictly_sorted(after),
        forall|x: i64| before.contains(x) == keys.contains(x),
        forall|x: i64| after.contains(x) == keys.remove(v).contains(x),
    ensures
        keys.remove(v) == keys,
        after == before,
{
    assert(keys.remove(v) =~= keys);
    lemma_sorted_unique(after, before);
}

/// What is left after the first `k` steps of a walk shrinks step by step.
proof fn lemma_drain_shrinks(rs: Seq<Set<i64>>, out: Seq<i64>, p: int, q: int)
    requires
        rs.len() == out.len() + 1,
        forall|k: int| 0 <= k < out.len() ==> #[trigger] rs[k + 1] == rs[k].remove(out[k]),
        0 <= p <= q < rs.len(),
    ensures
        forall|x: i64| rs[q].contains(x) ==> rs[p].contains(x),
        p < q ==> !rs[q].contains(out[p]),
    decreases q - p,
{
    if p < q {
        lemma_drain_shrinks(rs, out, p + 1, q);
        assert(rs[p + 1] == rs[p].remove(out[p]));
    }
}

/// Taking out the smallest remaining key, step after step, as `next` of
/// the tree's iterator does, hands the keys out in strictly increasing
/// order; with what is left they are exactly the keys at the start.
pub proof fn lemma_drain_sorted(rs: Seq<Set<i64>>, out: Seq<i64>)
    requires
        rs.len() == out.len() + 1,
        forall|k: int| 0 <= k < out.len() ==> #[trigger] rs[k].contains(out[k]),
        forall|k: int, x: i64| 0 <= k < out.len() && #[trigger] rs[k].contains(x) ==> out[k] <= x,
        forall|k: int| 0 <= k < out.len() ==> #[trigger] rs[k + 1] == rs[k].remove(out[k]),
    ensures
        strictly_sorted(out),
        forall|x: i64| rs[0].contains(x) == (out.contains(x) || rs[out.len() as int].contains(x)),
{
    assert forall|p: int, q: int| 0 <= p < q < out.len() implies out[p] < out[q] by {
        lemma_drain_shrinks(rs, out, p, q);
        assert(rs[q].contains(out[q]));
        assert(rs[p].contains(out[q]));
    }
    let n = out.len() as int;
    assert forall|x: i64| rs[0].contains(x) == (out.contains(x) || rs[n].contains(x)) by {
        lemma_drain_shrinks(rs, out, 0, n);
        if out.contains(x) {
            let k = choose|k: int| 0 <= k < out.len() && out[k] == x;
            lemma_drain_shrinks(rs, out, 0, k);
        }
        if rs[0].contains(x) && !out.contains(x) {
            assert forall|k: int| 0 <= k <= n implies rs[k].contains(x) by {
                lemma_drain_keeps(rs, out, x, k);
            }
        }
    }
}

/// A key that is never handed out stays among the keys left.
proof fn lemma_drain_keeps(rs: Seq<Set<i64>>, out: Seq<i64>, x: i64, k: int)
    requires
        rs.len() == out.len() + 1,
        forall|j: int| 0 <= j < out.len() ==> #[trigger] rs[j + 1] == rs[j].remove(out[j]),
        rs[0].contains(x),
        !out.contains(x),
        0 <= k < rs.len(),
    ensures
        rs[k].contains(x),
    decreases k,
{
    if k > 0 {
        lemma_drain_keeps(rs, out, x, k - 1);
        let j = k - 1;
        assert(rs[j + 1] == rs[j].remove(out[j]));
        assert(out[k - 1] != x);
    }
}

} // verus!
