//! Frozen Store: a read-only view over a single backend that is assumed to be
//! fully populated and never mutated again. All reads and iteration forward
//! unchanged; mutation is governed by an explicit, per-deployment policy:
//!
//! - `Strict` (the canonical policy, and the one `new` picks): every write
//!   fails with the distinct read-only error and the wrapped backend is left
//!   untouched, whatever the transaction holds.
//! - `Permissive`: delete operations are silently filtered out of the
//!   transaction and only the remaining insert operations are forwarded.
//!
//! A deployment chooses one policy at construction and keeps it; the two are
//! never mixed within one store value.

use vstd::prelude::*;
use crate::db::{DBCol, DBOp, DBTransaction, StoreError, StoreModel, apply_ops};
use crate::backend::{
    Backend, StoreStatistics, opt_bytes_view, opt_slice_view, pairs_view,
};

verus! {

/// How a frozen store treats mutation attempts.
#[derive(Clone, Copy, PartialEq, Eq, Structural, Debug)]
pub enum FrozenPolicy {
    /// Reject every transaction outright with the read-only error.
    Strict,
    /// Filter out delete operations and forward the remaining inserts.
    Permissive,
}

/// The frozen composite. It has no restrictions on columns: it can serve all
/// of them.
pub struct FrozenDB {
    pub frozen: Backend,
    pub policy: FrozenPolicy,
}

/// The insert operations of a transaction, in order: what a permissive frozen
/// store forwards.
pub open spec fn filter_mutations(ops: Seq<DBOp>) -> Seq<DBOp>
    decreases ops.len(),
{
    if ops.len() == 0 {
        Seq::empty()
    } else {
        filter_mutations(ops.drop_last()) + match ops.last() {
            DBOp::Put { col, key, value } => seq![ops.last()],
            _ => Seq::empty(),
        }
    }
}

impl FrozenDB {
    /// Well-formed: the wrapped backend is.
    pub open spec fn wf(self) -> bool {
        self.frozen.wf()
    }

    /// What one `write` call does, as a function of the pre-state and the
    /// transaction: the result it returns and the contents the wrapped
    /// backend holds afterwards.
    pub open spec fn write_outcome(self, ops: Seq<DBOp>) -> (Result<(), StoreError>, StoreModel) {
        match self.policy {
            FrozenPolicy::Strict => (Err(StoreError::ReadOnly), self.frozen.contents()),
            FrozenPolicy::Permissive => (
                Ok(()),
                apply_ops(self.frozen.contents(), filter_mutations(ops)),
            ),
        }
    }

    /// Wrap an already-populated backend under the canonical strict policy.
    pub fn new(frozen: Backend) -> (r: FrozenDB)
        ensures
            r.frozen == frozen,
            r.policy == FrozenPolicy::Strict,
    {
        FrozenDB { frozen, policy: FrozenPolicy::Strict }
    }

    /// Wrap a backend under an explicitly chosen policy.
    pub fn with_policy(frozen: Backend, policy: FrozenPolicy) -> (r: FrozenDB)
        ensures
            r.frozen == frozen,
            r.policy == policy,
    {
        FrozenDB { frozen, policy }
    }

    /// Returns raw bytes for the given key: pure forwarding.
    pub fn get_raw_bytes(&self, col: DBCol, key: &[u8]) -> (r: Option<Vec<u8>>)
        requires
            self.wf(),
        ensures
            opt_bytes_view(r) == self.frozen.lookup(col, key@),
    {
        self.frozen.get_raw_bytes(col, key)
    }

    /// Returns the value with any reference-count envelope stripped: pure
    /// forwarding.
    pub fn get_with_rc_stripped(&self, col: DBCol, key: &[u8]) -> (r: Option<Vec<u8>>)
        requires
            self.wf(),
        ensures
            opt_bytes_view(r) == self.frozen.lookup(col, key@),
    {
        self.frozen.get_with_rc_stripped(col, key)
    }

    /// Iterates over all values of a column: pure forwarding.
    pub fn iter(&self, col: DBCol) -> (r: Vec<(Vec<u8>, Vec<u8>)>)
        ensures
            pairs_view(r@) == self.frozen.col_entries(col),
    {
        self.frozen.iter(col)
    }

    /// Iterates over the values of a column whose key has the given prefix.
    pub fn iter_prefix(&self, col: DBCol, key_prefix: &[u8]) -> (r: Vec<(Vec<u8>, Vec<u8>)>)
        ensures
            pairs_view(r@) == self.frozen.col_entries_prefix(col, key_prefix@),
    {
        self.frozen.iter_prefix(col, key_prefix)
    }

    /// Iterates bypassing reference-count decoding.
    pub fn iter_raw_bytes(&self, col: DBCol) -> (r: Vec<(Vec<u8>, Vec<u8>)>)
        ensures
            pairs_view(r@) == self.frozen.col_entries(col),
    {
        self.frozen.iter_raw_bytes(col)
    }

    /// Iterates over the keys in [lower_bound, upper_bound).
    pub fn iter_range(
        &self,
        col: DBCol,
        lower_bound: Option<&[u8]>,
        upper_bound: Option<&[u8]>,
    ) -> (r: Vec<(Vec<u8>, Vec<u8>)>)
        ensures
            pairs_view(r@) == self.frozen.col_entries_range(
                col,
                opt_slice_view(lower_bound),
                opt_slice_view(upper_bound),
            ),
    {
        self.frozen.iter_range(col, lower_bound, upper_bound)
    }

    /// Apply (or reject) a transaction under this store's policy. Under
    /// `Strict` the call returns the read-only error and the wrapped backend
    /// is untouched, byte for byte. Under `Permissive` the delete operations
    /// are filtered out and only the remaining inserts are applied.
    pub fn write(&mut self, transaction: DBTransaction) -> (r: Result<(), StoreError>)
        requires
            old(self).wf(),
        ensures
            final(self).wf(),
            final(self).policy == old(self).policy,
            r == old(self).write_outcome(transaction.ops@).0,
            final(self).frozen.contents() == old(self).write_outcome(transaction.ops@).1,
            old(self).policy == FrozenPolicy::Strict ==> *final(self) == *old(self),
    {
        match self.policy {
            FrozenPolicy::Strict => Err(StoreError::ReadOnly),
            FrozenPolicy::Permissive => {
                let mut ops = transaction.ops;
                let ghost all: Seq<DBOp> = ops@;
                let mut kept = DBTransaction::new();
                let n = ops.len();
                let mut k: usize = 0;
                proof {
                    assert(all.take(0) =~= Seq::<DBOp>::empty());
                }
                while ops.len() > 0
                    invariant
                        all.len() == n,
                        k + ops@.len() == n,
                        ops@ == all.skip(k as int),
                        kept.ops@ == filter_mutations(all.take(k as int)),
                    decreases ops@.len(),
                {
                    let op = ops.remove(0);
                    proof {
                        assert(all.skip(k as int)[0] == all[k as int]);
                        assert(all.skip(k as int).remove(0) =~= all.skip(k as int + 1));
                        assert(all.take(k as int + 1).drop_last() =~= all.take(k as int));
                        assert(all.take(k as int + 1).last() == all[k as int]);
                    }
                    let ghost kept0 = kept.ops@;
                    match op {
                        DBOp::Put { col, key, value } => {
                            kept.set(col, key, value);
                            proof {
                                assert(kept.ops@ =~= kept0 + seq![all[k as int]]);
                            }
                        },
                        _ => {
                            proof {
                                assert(kept0 + Seq::<DBOp>::empty() =~= kept0);
                            }
                        },
                    }
                    k = k + 1;
                }
                proof {
                    assert(all.take(n as int) =~= all);
                }
                self.frozen.write(kept);
                Ok(())
            },
        }
    }

    /// Compact the wrapped backend: forwarded unchanged.
    pub fn compact(&self) {
        self.frozen.compact()
    }

    /// Flush the wrapped backend: forwarded unchanged.
    pub fn flush(&self) {
        self.frozen.flush()
    }

    /// Statistics of the wrapped backend: forwarded unchanged.
    pub fn get_store_statistics(&self) -> (r: Option<StoreStatistics>)
        ensures
            r matches Some(st) && st.entries == self.frozen.entries@.len(),
    {
        self.frozen.get_store_statistics()
    }

    /// Checkpoint the wrapped backend (or selected columns): forwarded
    /// unchanged; a checkpoint is an externally-triggered snapshot, not a
    /// write of new data.
    pub fn create_checkpoint(&self, columns_to_keep: Option<&Vec<DBCol>>) -> (r: Backend)
        requires
            self.wf(),
        ensures
            r.wf(),
            r.contents() == self.frozen.checkpoint_model(
                match columns_to_keep {
                    Some(cols) => Some(cols@),
                    None => None,
                },
            ),
    {
        self.frozen.create_checkpoint(columns_to_keep)
    }
}

/// Under the strict policy every write fails with the read-only error and
/// leaves the wrapped backend's contents unchanged, whatever the transaction
/// holds.
pub proof fn lemma_strict_write_rejected(s: FrozenDB, ops: Seq<DBOp>)
    requires
        s.policy == FrozenPolicy::Strict,
    ensures
        s.write_outcome(ops).0 == Err::<(), StoreError>(StoreError::ReadOnly),
        s.write_outcome(ops).1 == s.frozen.contents(),
{
}

/// Repeating an identical failed write against a strict frozen store gives
/// the identical error both times and no state change: by `write`'s contract
/// the store is untouched after the failure, so the repeat call starts from
/// the same state (`after` below) and its outcome equals the first.
pub proof fn lemma_failed_write_idempotent(s: FrozenDB, after: FrozenDB, ops: Seq<DBOp>)
    requires
        s.policy == FrozenPolicy::Strict,
        after == s,
    ensures
        s.write_outcome(ops).0 == Err::<(), StoreError>(StoreError::ReadOnly),
        s.write_outcome(ops).1 == s.frozen.contents(),
        after.write_outcome(ops) == s.write_outcome(ops),
{
}

/// A transaction of one delete and one insert, under either policy: strict
/// fails entirely with zero effect; permissive applies only the insert. The
/// two outcomes never mix.
pub proof fn lemma_delete_and_insert_policy(s: FrozenDB, del: DBOp, ins: DBOp)
    requires
        del matches DBOp::Delete { .. },
        ins matches DBOp::Put { .. },
    ensures
        s.policy == FrozenPolicy::Strict ==> s.write_outcome(seq![del, ins]) == (
        Err::<(), StoreError>(StoreError::ReadOnly), s.frozen.contents()),
        s.policy == FrozenPolicy::Permissive ==> s.write_outcome(seq![del, ins]) == (
        Ok::<(), StoreError>(()), apply_ops(s.frozen.contents(), seq![ins])),
{
    reveal_with_fuel(filter_mutations, 3);
    let tx = seq![del, ins];
    assert(filter_mutations(Seq::<DBOp>::empty()) =~= Seq::<DBOp>::empty());
    assert(tx.drop_last() =~= seq![del]);
    assert(seq![del].drop_last() =~= Seq::<DBOp>::empty());
    assert(seq![del].last() == del);
    assert(filter_mutations(seq![del]) =~= Seq::<DBOp>::empty() + Seq::<DBOp>::empty());
    assert(filter_mutations(seq![del]) =~= Seq::<DBOp>::empty());
    assert(tx.last() == ins);
    assert(filter_mutations(tx) =~= filter_mutations(seq![del]) + seq![ins]);
    assert(filter_mutations(tx) =~= seq![ins]);
}

} // verus!
