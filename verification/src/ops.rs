//! An abstract model of the container's operations.
//!
//! Each mutating operation of `LinkedList` states in its contract how it
//! changes the abstract sequence of values; `apply_op` collects those same
//! changes into one step function, so that laws about whole sequences of
//! operations can be stated and proved once, over the model.

use vstd::prelude::*;

verus! {

/// One mutating operation of the container, at the level of the abstract
/// sequence of values it holds.
pub enum ListOp<T> {
    InsertHead(T),
    InsertTail(T),
    InsertAt(int, T),
    DeleteHead,
    DeleteTail,
    DeleteAt(int),
}

/// How one operation changes the abstract sequence: exactly what the
/// contracts of `insert_at_head`, `insert_at_tail`, `insert_at_ith`,
/// `delete_head`, `delete_tail` and `delete_ith` ensure of the view.
/// An out-of-range positional operation leaves the sequence unchanged
/// (the container treats it as a caller error and excludes it), and a
/// delete on an empty list is a no-op, as the deletes ensure.
pub open spec fn apply_op<T>(s: Seq<T>, op: ListOp<T>) -> Seq<T> {
    match op {
        ListOp::InsertHead(v) => seq![v] + s,
        ListOp::InsertTail(v) => s.push(v),
        ListOp::InsertAt(i, v) => if 0 <= i <= s.len() {
            s.insert(i, v)
        } else {
            s
        },
        ListOp::DeleteHead => if s.len() == 0 {
            s
        } else {
            s.drop_first()
        },
        ListOp::DeleteTail => if s.len() == 0 {
            s
        } else {
            s.drop_last()
        },
        ListOp::DeleteAt(i) => if s.len() == 0 {
            s
        } else if 0 <= i < s.len() {
            s.remove(i)
        } else if i == s.len() {
            s.drop_last()
        } else {
            s
        },
    }
}

/// Whether the operation does work on `s`: inserts always do (an in-range
/// position given), deletes only when there is a value to return.
pub open spec fn op_succeeds<T>(s: Seq<T>, op: ListOp<T>) -> bool {
    match op {
        ListOp::InsertHead(_) => true,
        ListOp::InsertTail(_) => true,
        ListOp::InsertAt(i, _) => 0 <= i <= s.len(),
        ListOp::DeleteHead => s.len() > 0,
        ListOp::DeleteTail => s.len() > 0,
        ListOp::DeleteAt(i) => s.len() > 0 && 0 <= i <= s.len(),
    }
}

/// Whether the operation is an insertion.
pub open spec fn is_insert<T>(op: ListOp<T>) -> bool {
    match op {
        ListOp::InsertHead(_) => true,
        ListOp::InsertTail(_) => true,
        ListOp::InsertAt(_, _) => true,
        _ => false,
    }
}

/// The sequence after a whole run of operations, applied left to right.
pub open spec fn apply_ops<T>(s: Seq<T>, ops: Seq<ListOp<T>>) -> Seq<T>
    decreases ops.len(),
{
    if ops.len() == 0 {
        s
    } else {
        apply_ops(apply_op(s, ops[0]), ops.drop_first())
    }
}

/// How many inserts of the run succeed, counted left to right from `s`.
pub open spec fn successful_inserts<T>(s: Seq<T>, ops: Seq<ListOp<T>>) -> int
    decreases ops.len(),
{
    if ops.len() == 0 {
        0
    } else {
        (if is_insert(ops[0]) && op_succeeds(s, ops[0]) {
            1int
        } else {
            0int
        }) + successful_inserts(apply_op(s, ops[0]), ops.drop_first())
    }
}

/// How many deletes of the run succeed, counted left to right from `s`.
pub open spec fn successful_deletes<T>(s: Seq<T>, ops: Seq<ListOp<T>>) -> int
    decreases ops.len(),
{
    if ops.len() == 0 {
        0
    } else {
        (if !is_insert(ops[0]) && op_succeeds(s, ops[0]) {
            1int
        } else {
            0int
        }) + successful_deletes(apply_op(s, ops[0]), ops.drop_first())
    }
}

/// After any run of insert and delete operations, the length equals the
/// starting length plus the successful inserts minus the successful
/// deletes; a delete succeeds only on a non-empty list, so the length never
/// falls below zero.
pub proof fn lemma_length_bookkeeping<T>(s: Seq<T>, ops: Seq<ListOp<T>>)
    ensures
        apply_ops(s, ops).len() == s.len() + successful_inserts(s, ops) - successful_deletes(
            s,
            ops,
        ),
        successful_deletes(s, ops) <= s.len() + successful_inserts(s, ops),
    decreases ops.len(),
{
    if ops.len() > 0 {
        let s1 = apply_op(s, ops[0]);
        assert(op_succeeds(s, ops[0]) ==> s1.len() == s.len() + (if is_insert(ops[0]) {
            1int
        } else {
            -1int
        }));
        assert(!op_succeeds(s, ops[0]) ==> s1 == s);
        lemma_length_bookkeeping(s1, ops.drop_first());
    }
}

/// Inserting a value at the head and immediately deleting the head restores
/// the prior list exactly, length and values alike: the delete undoes the
/// prepend that `insert_at_head` ensures.
pub proof fn lemma_insert_head_then_delete_head<T>(s: Seq<T>, v: T)
    ensures
        apply_ops(s, seq![ListOp::InsertHead(v), ListOp::DeleteHead]) == s,
        (seq![v] + s).drop_first() == s,
{
    let ops = seq![ListOp::<T>::InsertHead(v), ListOp::<T>::DeleteHead];
    assert(ops[0] == ListOp::<T>::InsertHead(v));
    let s1 = apply_op(s, ops[0]);
    assert(s1.len() == s.len() + 1);
    assert(s1.drop_first() =~= s);
    let rest = ops.drop_first();
    assert(rest.len() == 1 && rest[0] == ListOp::<T>::DeleteHead);
    let s2 = apply_op(s1, rest[0]);
    assert(s2 == s);
    assert(apply_ops(s, ops) == apply_ops(s1, rest));
    assert(apply_ops(s1, rest) == apply_ops(s2, rest.drop_first()));
    assert(rest.drop_first().len() == 0);
}

/// Inserting a value at the tail and immediately deleting the tail restores
/// the prior list exactly: the delete undoes the append that
/// `insert_at_tail` ensures.
pub proof fn lemma_insert_tail_then_delete_tail<T>(s: Seq<T>, v: T)
    ensures
        apply_ops(s, seq![ListOp::InsertTail(v), ListOp::DeleteTail]) == s,
        s.push(v).drop_last() == s,
{
    let ops = seq![ListOp::<T>::InsertTail(v), ListOp::<T>::DeleteTail];
    assert(ops[0] == ListOp::<T>::InsertTail(v));
    let s1 = apply_op(s, ops[0]);
    assert(s1.len() == s.len() + 1);
    assert(s1.drop_last() =~= s);
    let rest = ops.drop_first();
    assert(rest.len() == 1 && rest[0] == ListOp::<T>::DeleteTail);
    let s2 = apply_op(s1, rest[0]);
    assert(s2 == s);
    assert(apply_ops(s, ops) == apply_ops(s1, rest));
    assert(apply_ops(s1, rest) == apply_ops(s2, rest.drop_first()));
    assert(rest.drop_first().len() == 0);
}

} // verus!
