//! Core vocabulary of the store: column identifiers, transaction operations,
//! the error type, and the mathematical model of applying a transaction to a
//! column/key -> value map.

use vstd::prelude::*;

verus! {

/// Identifier of a logical dataset (column) inside a backend. Keys are unique
/// within a (backend, column) pair; columns do not share a key namespace.
#[derive(Clone, Copy, PartialEq, Eq, Structural, Debug)]
pub enum DBCol {
    /// Full block bodies, keyed by block hash.
    Block,
    /// Block headers, keyed by block hash.
    BlockHeader,
    /// Auxiliary per-block bookkeeping records.
    BlockInfo,
    /// Miscellaneous small records (tips, version markers, and the like).
    BlockMisc,
}

/// Errors surfaced by the store composites.
#[derive(Clone, Copy, PartialEq, Eq, Structural, Debug)]
pub enum StoreError {
    /// A write was attempted against a frozen (read-only) store tier. This is
    /// kept distinct from any backend failure so callers can tell "this tier
    /// is immutable" apart from "the backend failed".
    ReadOnly,
}

/// One operation of a transaction.
pub enum DBOp {
    /// Set `key` in `col` to `value`, inserting or overwriting.
    Put { col: DBCol, key: Vec<u8>, value: Vec<u8> },
    /// Delete `key` from `col`; absent keys are left untouched.
    Delete { col: DBCol, key: Vec<u8> },
    /// Delete every entry of `col`.
    DeleteAll { col: DBCol },
}

/// An ordered batch of operations, applied atomically by a single `write`
/// call. Built incrementally by the caller and consumed by the write.
pub struct DBTransaction {
    pub ops: Vec<DBOp>,
}

/// The contents of one backend, as a mathematical map from (column, key) to
/// the stored value bytes.
pub type StoreModel = Map<(DBCol, Seq<u8>), Seq<u8>>;

/// The effect of a single operation on store contents.
pub open spec fn apply_op(m: StoreModel, op: DBOp) -> StoreModel {
    match op {
        DBOp::Put { col, key, value } => m.insert((col, key@), value@),
        DBOp::Delete { col, key } => m.remove((col, key@)),
        DBOp::DeleteAll { col } => m.restrict(Set::new(|ck: (DBCol, Seq<u8>)| ck.0 != col)),
    }
}

/// The effect of a sequence of operations, applied in order.
pub open spec fn apply_ops(m: StoreModel, ops: Seq<DBOp>) -> StoreModel
    decreases ops.len(),
{
    if ops.len() == 0 {
        m
    } else {
        apply_op(apply_ops(m, ops.drop_last()), ops.last())
    }
}

impl DBTransaction {
    /// An empty transaction.
    pub fn new() -> (r: DBTransaction)
        ensures
            r.ops@ =~= Seq::<DBOp>::empty(),
    {
        DBTransaction { ops: Vec::new() }
    }

    /// Append a set operation.
    pub fn set(&mut self, col: DBCol, key: Vec<u8>, value: Vec<u8>)
        ensures
            final(self).ops@ == old(self).ops@.push(DBOp::Put { col, key, value }),
    {
        self.ops.push(DBOp::Put { col, key, value });
    }

    /// Append a delete operation.
    pub fn delete(&mut self, col: DBCol, key: Vec<u8>)
        ensures
            final(self).ops@ == old(self).ops@.push(DBOp::Delete { col, key }),
    {
        self.ops.push(DBOp::Delete { col, key });
    }

    /// Append an operation that deletes every entry of `col`.
    pub fn delete_all(&mut self, col: DBCol)
        ensures
            final(self).ops@ == old(self).ops@.push(DBOp::DeleteAll { col }),
    {
        self.ops.push(DBOp::DeleteAll { col });
    }
}

} // verus!
