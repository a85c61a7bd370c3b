//! The mutation operations that the engine appends to the durable log, and
//! the mathematical model of their effect on a key's value.

use vstd::prelude::*;

verus! {

/// A mutation of a single key. Only these two variants are ever written to
/// the durable log; they are the unit of durability and replay.
pub enum Operation {
    Insert { key: Vec<u8>, val: Vec<u8> },
    Delete { key: Vec<u8> },
}

/// The mathematical form of an [`Operation`].
pub enum OperationModel {
    Insert { key: Seq<u8>, val: Seq<u8> },
    Delete { key: Seq<u8> },
}

impl View for Operation {
    type V = OperationModel;

    open spec fn view(&self) -> OperationModel {
        match self {
            Operation::Insert { key, val } => OperationModel::Insert { key: key@, val: val@ },
            Operation::Delete { key } => OperationModel::Delete { key: key@ },
        }
    }
}

impl Operation {
    /// The key this operation mutates.
    pub fn key(&self) -> (r: &Vec<u8>)
        ensures
            r@ == self@.subject(),
    {
        match self {
            Operation::Insert { key, val: _ } => key,
            Operation::Delete { key } => key,
        }
    }
}

impl OperationModel {
    /// The key this operation mutates.
    pub open spec fn subject(self) -> Seq<u8> {
        match self {
            OperationModel::Insert { key, val } => key,
            OperationModel::Delete { key } => key,
        }
    }

    /// The effect of the operation on the current value of its key:
    /// an insert sets the value, a delete clears it to absent.
    pub open spec fn apply(self, cur: Option<Seq<u8>>) -> Option<Seq<u8>> {
        match self {
            OperationModel::Insert { key, val } => Some(val),
            OperationModel::Delete { key } => None,
        }
    }

    /// Whether the operation's fields are small enough for its binary
    /// encoding (which carries 64-bit lengths) to be lossless.
    pub open spec fn fits(self) -> bool {
        match self {
            OperationModel::Insert { key, val } => key.len() < 0x1_0000_0000_0000_0000 && val.len() < 0x1_0000_0000_0000_0000,
            OperationModel::Delete { key } => key.len() < 0x1_0000_0000_0000_0000,
        }
    }
}

/// A key's value after the operations in `ops` are applied to `base` in order.
pub open spec fn apply_ops(base: Option<Seq<u8>>, ops: Seq<OperationModel>) -> Option<Seq<u8>>
    decreases ops.len(),
{
    if ops.len() == 0 {
        base
    } else {
        apply_ops(ops[0].apply(base), ops.skip(1))
    }
}

/// The mathematical value of an optional byte vector.
pub open spec fn opt_view(o: Option<Vec<u8>>) -> Option<Seq<u8>> {
    match o {
        Some(v) => Some(v@),
        None => None,
    }
}

/// Apply a key's pending run, oldest first, to its base value.
pub fn apply_run(base: Option<Vec<u8>>, ops: &Vec<Operation>) -> (r: Option<Vec<u8>>)
    ensures
        opt_view(r) == apply_ops(opt_view(base), ops@.map_values(|op: Operation| op@)),
{
    let n = ops.len();
    if n == 0 {
        proof {
            assert(ops@.map_values(|op: Operation| op@).len() == 0);
        }
        return base;
    }
    proof {
        assert(ops@.map_values(|op: Operation| op@).last() == ops@[n - 1]@);
        lemma_apply_ops_last_wins(opt_view(base), ops@.map_values(|op: Operation| op@));
    }
    match &ops[n - 1] {
        Operation::Insert { key: _, val } => Some(crate::keys::clone_bytes(val)),
        Operation::Delete { key: _ } => None,
    }
}

/// When at least one operation is pending, the last one alone decides the
/// key's value: an insert leaves the inserted value, a delete leaves absence.
pub proof fn lemma_apply_ops_last_wins(base: Option<Seq<u8>>, ops: Seq<OperationModel>)
    requires
        ops.len() > 0,
    ensures
        apply_ops(base, ops) == ops.last().apply(None),
    decreases ops.len(),
{
    if ops.len() == 1 {
        assert(ops.skip(1).len() == 0);
        match ops[0] {
            OperationModel::Insert { key, val } => {},
            OperationModel::Delete { key } => {},
        }
    } else {
        lemma_apply_ops_last_wins(ops[0].apply(base), ops.skip(1));
        assert(ops.skip(1).last() == ops.last());
    }
}

/// Appending one operation to a pending run applies it after the others.
pub proof fn lemma_apply_ops_push(base: Option<Seq<u8>>, ops: Seq<OperationModel>, op: OperationModel)
    ensures
        apply_ops(base, ops.push(op)) == op.apply(apply_ops(base, ops)),
    decreases ops.len(),
{
    let pushed = ops.push(op);
    assert(apply_ops(base, pushed) == apply_ops(pushed[0].apply(base), pushed.skip(1)));
    if ops.len() == 0 {
        assert(pushed[0] == op);
        assert(pushed.skip(1) =~= Seq::<OperationModel>::empty());
        assert(apply_ops(op.apply(base), pushed.skip(1)) == op.apply(base));
    } else {
        assert(pushed[0] == ops[0]);
        assert(pushed.skip(1) =~= ops.skip(1).push(op));
        lemma_apply_ops_push(ops[0].apply(base), ops.skip(1), op);
    }
}

} // verus!
