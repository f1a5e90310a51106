//! Laws of the tree as an abstract set. The tree's operations promise,
//! through their contracts, that the set view evolves by `Set::insert`
//! and `Set::remove`; the lemmas here state what follows for whole
//! histories of operations and for the iteration order.

use vstd::prelude::*;
use crate::tree::Tree;
use crate::order::{lemma_wf_ascending, lemma_in_order_membership, lemma_ascending_unique};

verus! {

/// One mutation of the container: inserting or deleting a value.
pub enum Op {
    Insert(i64),
    Delete(i64),
}

/// The set obtained by applying one operation.
pub open spec fn apply_op(s: Set<i64>, op: Op) -> Set<i64> {
    match op {
        Op::Insert(v) => s.insert(v),
        Op::Delete(v) => s.remove(v),
    }
}

/// The set obtained by applying a whole run of operations in order.
pub open spec fn apply_ops(s: Set<i64>, ops: Seq<Op>) -> Set<i64>
    decreases ops.len(),
{
    if ops.len() == 0 {
        s
    } else {
        apply_ops(apply_op(s, ops[0]), ops.drop_first())
    }
}

/// A run of operations can be peeled from the back: applying `ops` is
/// applying all but the last, then the last.
proof fn lemma_apply_ops_last(s: Set<i64>, ops: Seq<Op>)
    requires
        ops.len() > 0,
    ensures
        apply_ops(s, ops) == apply_op(apply_ops(s, ops.drop_last()), ops.last()),
    decreases ops.len(),
{
    if ops.len() == 1 {
        assert(ops.drop_first().len() == 0);
        assert(ops.drop_last().len() == 0);
        assert(ops.last() == ops[0]);
        assert(apply_ops(apply_op(s, ops[0]), ops.drop_first()) == apply_op(s, ops[0]));
        assert(apply_ops(s, ops) == apply_op(s, ops[0]));
        assert(apply_ops(s, ops.drop_last()) == s);
    } else {
        let dl = ops.drop_last();
        let df = ops.drop_first();
        lemma_apply_ops_last(apply_op(s, ops[0]), df);
        assert(df.last() == ops.last());
        assert(df.drop_last() =~= dl.drop_first());
        assert(dl[0] == ops[0]);
        assert(dl.len() > 0);
        assert(apply_ops(s, ops) == apply_ops(apply_op(s, ops[0]), df));
        assert(apply_ops(apply_op(s, ops[0]), df) == apply_op(
            apply_ops(apply_op(s, ops[0]), df.drop_last()),
            df.last(),
        ));
        assert(apply_ops(apply_op(s, ops[0]), df.drop_last()) == apply_ops(
            apply_op(s, dl[0]),
            dl.drop_first(),
        ));
        assert(apply_ops(s, dl) == apply_ops(apply_op(s, dl[0]), dl.drop_first()));
    }
}

/// Membership correctness over a whole history: starting from the
/// empty container, a value is contained after a run of operations
/// exactly when it was inserted at some point and not deleted again
/// afterwards.
pub proof fn lemma_membership_after_ops(ops: Seq<Op>, v: i64)
    ensures
        apply_ops(Set::empty(), ops).contains(v) <==> exists|i: int|
            0 <= i < ops.len() && ops[i] == Op::Insert(v) && (forall|j: int|
                i < j < ops.len() ==> ops[j] != Op::Delete(v)),
    decreases ops.len(),
{
    if ops.len() == 0 {
    } else {
        let front = ops.drop_last();
        let n = ops.len() - 1;
        lemma_membership_after_ops(front, v);
        lemma_apply_ops_last(Set::empty(), ops);
        let fs = apply_ops(Set::empty(), front);
        let full = apply_ops(Set::empty(), ops);
        assert(forall|i: int| 0 <= i < n ==> front[i] == ops[i]);
        if ops.last() == Op::Insert(v) {
            assert(full.contains(v));
            assert(ops[n] == Op::Insert(v) && (forall|j: int| n < j < ops.len() ==> ops[j]
                != Op::Delete(v)));
        } else if ops.last() == Op::Delete(v) {
            assert(!full.contains(v));
            assert forall|i: int|
                0 <= i < ops.len() && ops[i] == Op::Insert(v) implies !(forall|j: int|
                i < j < ops.len() ==> ops[j] != Op::Delete(v)) by {
                assert(i < n < ops.len() && ops[n] == Op::Delete(v));
            }
        } else {
            assert(full.contains(v) == fs.contains(v));
            if fs.contains(v) {
                let i = choose|i: int|
                    0 <= i < front.len() && front[i] == Op::Insert(v) && (forall|j: int|
                        i < j < front.len() ==> front[j] != Op::Delete(v));
                assert(ops[i] == Op::Insert(v));
                assert forall|j: int| i < j < ops.len() implies ops[j] != Op::Delete(v) by {
                    if j < n {
                        assert(front[j] != Op::Delete(v));
                    }
                }
            }
            if full.contains(v) == false {
                assert forall|i: int|
                    0 <= i < ops.len() && ops[i] == Op::Insert(v) implies !(forall|j: int|
                    i < j < ops.len() ==> ops[j] != Op::Delete(v)) by {
                    if i < n {
                        if forall|j: int| i < j < ops.len() ==> ops[j] != Op::Delete(v) {
                            assert forall|j: int| i < j < front.len() implies front[j]
                                != Op::Delete(v) by {
                                assert(ops[j] != Op::Delete(v));
                            }
                            assert(fs.contains(v));
                            assert(false);
                        }
                    } else {
                        assert(ops[i] == ops.last());
                        assert(false);
                    }
                }
            }
        }
    }
}

/// Delete-then-absent: a set never contains a value just removed from
/// it. Together with `Tree::delete`'s contract — the new view is the
/// old view with the value removed — a successful `delete(v)` makes
/// `contains(v)` false.
pub proof fn lemma_delete_then_absent(s: Set<i64>, v: i64)
    ensures
        !s.remove(v).contains(v),
{
}

/// Idempotent insertion: inserting a value twice yields the same set
/// of contained values as inserting it once. Together with
/// `Tree::insert`'s contract, a repeated insert leaves membership
/// unchanged (the stored representative is the latest one inserted).
pub proof fn lemma_insert_idempotent(s: Set<i64>, v: i64)
    ensures
        s.insert(v).insert(v) == s.insert(v),
{
    assert(s.insert(v).insert(v) =~= s.insert(v));
}

/// Differential equivalence: two well-formed trees that hold the same
/// set of values — for instance a tree and any reference ordered set
/// fed the same inserts and deletes — produce identical ascending
/// sequences when iterated.
pub proof fn lemma_in_order_unique(t1: Tree, t2: Tree)
    requires
        t1.wf(),
        t2.wf(),
        t1@ == t2@,
    ensures
        t1.in_order() == t2.in_order(),
{
    lemma_wf_ascending(t1.root);
    lemma_wf_ascending(t2.root);
    lemma_in_order_membership(t1.root);
    lemma_in_order_membership(t2.root);
    assert forall|v: i64| t1.in_order().contains(v) <==> t2.in_order().contains(v) by {
        assert(t1@.contains(v) == crate::tree::has_opt(t1.root, v));
        assert(t2@.contains(v) == crate::tree::has_opt(t2.root, v));
    }
    lemma_ascending_unique(t1.in_order(), t2.in_order());
}

} // verus!
