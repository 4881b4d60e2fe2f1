//! Backup-Fallback Store: one read/write primary backend augmented, per
//! column, by an ordered list of read-only backup backends that are consulted
//! only when a point lookup misses the primary. Writes and every bulk or
//! administrative operation go to the primary alone; backups are never
//! mutated and never appear in iteration results.

use vstd::prelude::*;
use crate::db::{DBCol, DBTransaction, StoreError, apply_ops};
use crate::backend::{
    Backend, StoreStatistics, opt_bytes_view, opt_slice_view, pairs_view,
};

verus! {

/// One backup registration handed to construction: a column together with the
/// (already opened, read-only) backend serving it. Opening a backend from a
/// filesystem path is the caller's concern; a failure to open is fatal there,
/// before a composite ever exists.
pub struct ColumnBackupConfig {
    pub column: DBCol,
    pub db: Backend,
}

/// One registry entry: the ordered backups of a column, in registration
/// order, and the count of reads served from them (the per-column
/// observability counter; it grows only on a backup hit).
pub struct ColumnBackups {
    pub column: DBCol,
    pub dbs: Vec<Backend>,
    pub reads: u64,
}

/// No column owns two registry entries.
pub open spec fn distinct_columns(s: Seq<ColumnBackups>) -> bool {
    forall|i: int, j: int| 0 <= i < j < s.len() ==> s[i].column != s[j].column
}

/// The backups that a configuration list registers for `col`, in order.
pub open spec fn configs_for(cfgs: Seq<ColumnBackupConfig>, col: DBCol) -> Seq<Backend>
    decreases cfgs.len(),
{
    if cfgs.len() == 0 {
        Seq::empty()
    } else {
        configs_for(cfgs.drop_last(), col) + if cfgs.last().column == col {
            seq![cfgs.last().db]
        } else {
            Seq::empty()
        }
    }
}

/// A column no configuration names gets no backups.
pub proof fn lemma_configs_for_absent(cfgs: Seq<ColumnBackupConfig>, col: DBCol)
    requires
        forall|j: int| 0 <= j < cfgs.len() ==> (#[trigger] cfgs[j]).column != col,
    ensures
        configs_for(cfgs, col) =~= Seq::<Backend>::empty(),
    decreases cfgs.len(),
{
    if cfgs.len() > 0 {
        lemma_configs_for_absent(cfgs.drop_last(), col);
    }
}

/// The value the first backup holding `key` returns, scanning in order.
pub open spec fn first_hit(dbs: Seq<Backend>, col: DBCol, key: Seq<u8>) -> Option<Seq<u8>>
    decreases dbs.len(),
{
    if dbs.len() == 0 {
        None
    } else if dbs[0].lookup(col, key) is Some {
        dbs[0].lookup(col, key)
    } else {
        first_hit(dbs.skip(1), col, key)
    }
}

/// Fallback precedence is registration order: the first backup holding the
/// key answers, whatever later backups hold.
pub proof fn lemma_first_backup_wins(dbs: Seq<Backend>, col: DBCol, key: Seq<u8>, i: int)
    requires
        0 <= i < dbs.len(),
        dbs[i].lookup(col, key) is Some,
        forall|j: int| 0 <= j < i ==> dbs[j].lookup(col, key) is None,
    ensures
        first_hit(dbs, col, key) == dbs[i].lookup(col, key),
    decreases i,
{
    if i == 0 {
    } else {
        assert(dbs[0].lookup(col, key) is None);
        assert forall|j: int| 0 <= j < i - 1 implies dbs.skip(1)[j].lookup(col, key)
            is None by {
            assert(dbs.skip(1)[j] == dbs[j + 1]);
        }
        assert(dbs.skip(1)[i - 1] == dbs[i]);
        lemma_first_backup_wins(dbs.skip(1), col, key, i - 1);
    }
}

/// A scan that misses every backup yields nothing.
pub proof fn lemma_all_backups_miss(dbs: Seq<Backend>, col: DBCol, key: Seq<u8>)
    requires
        forall|j: int| 0 <= j < dbs.len() ==> dbs[j].lookup(col, key) is None,
    ensures
        first_hit(dbs, col, key) is None,
    decreases dbs.len(),
{
    if dbs.len() > 0 {
        assert forall|j: int| 0 <= j < dbs.skip(1).len() implies dbs.skip(1)[j].lookup(col, key)
            is None by {
            assert(dbs.skip(1)[j] == dbs[j + 1]);
        }
        lemma_all_backups_miss(dbs.skip(1), col, key);
    }
}

/// Index of the registry entry of `col` in `regs`, if one exists.
fn find_column(regs: &Vec<ColumnBackups>, col: DBCol) -> (r: Option<usize>)
    ensures
        match r {
            Some(i) => 0 <= i < regs@.len() && regs@[i as int].column == col,
            None => forall|j: int| 0 <= j < regs@.len() ==> regs@[j].column != col,
        },
{
    let mut i: usize = 0;
    while i < regs.len()
        invariant
            i <= regs@.len(),
            forall|j: int| 0 <= j < i ==> regs@[j].column != col,
        decreases regs@.len() - i,
    {
        if regs[i].column == col {
            return Some(i);
        }
        i = i + 1;
    }
    None
}

/// The composite: a primary backend plus the backup registry.
pub struct DBWithBackups {
    pub main: Backend,
    pub backups: Vec<ColumnBackups>,
}

impl DBWithBackups {
    /// Some registry entry serves `col`.
    pub open spec fn registry_has(self, col: DBCol) -> bool {
        exists|i: int| 0 <= i < self.backups@.len() && self.backups@[i].column == col
    }

    /// The index of the registry entry of `col` (meaningful when present).
    pub open spec fn registry_index(self, col: DBCol) -> int {
        choose|i: int| 0 <= i < self.backups@.len() && self.backups@[i].column == col
    }

    /// The ordered backups registered for `col`; empty when none are.
    pub open spec fn backups_for(self, col: DBCol) -> Seq<Backend> {
        if self.registry_has(col) {
            self.backups@[self.registry_index(col)].dbs@
        } else {
            Seq::empty()
        }
    }

    /// The backup-read counter of `col`; zero when no backups are registered.
    pub open spec fn backup_read_count(self, col: DBCol) -> u64 {
        if self.registry_has(col) {
            self.backups@[self.registry_index(col)].reads
        } else {
            0
        }
    }

    /// Well-formed: primary and every backup well-formed, one registry entry
    /// per column.
    pub open spec fn wf(self) -> bool {
        &&& self.main.wf()
        &&& distinct_columns(self.backups@)
        &&& forall|i: int, j: int|
            0 <= i < self.backups@.len() && 0 <= j < self.backups@[i].dbs@.len() ==> (
            #[trigger] self.backups@[i].dbs@[j]).wf()
    }

    /// The answer a point lookup must give: the primary's value when it has
    /// one, else the first registered backup's, else absence.
    pub open spec fn lookup(self, col: DBCol, key: Seq<u8>) -> Option<Seq<u8>> {
        if self.main.lookup(col, key) is Some {
            self.main.lookup(col, key)
        } else {
            first_hit(self.backups_for(col), col, key)
        }
    }

    /// An entry whose column is `col` sits at the unique registry index of
    /// `col`.
    pub proof fn lemma_registry_at(self, col: DBCol, i: int)
        requires
            distinct_columns(self.backups@),
            0 <= i < self.backups@.len(),
            self.backups@[i].column == col,
        ensures
            self.registry_has(col),
            self.registry_index(col) == i,
    {
        assert(self.registry_has(col));
        let j = self.registry_index(col);
        assert(0 <= j < self.backups@.len() && self.backups@[j].column == col);
        if i < j {
            assert(self.backups@[i].column != self.backups@[j].column);
        } else if j < i {
            assert(self.backups@[j].column != self.backups@[i].column);
        }
    }

    /// The chained-fallback point lookup. The primary is authoritative: a
    /// primary hit returns at once and touches no backup. On a primary miss
    /// the backups registered for `col` are scanned in registration order;
    /// the first hit is returned and the column's backup-read counter grows
    /// by exactly one. A total miss returns absence. No call changes any
    /// stored data; only the counter of `col` may move, and only on a backup
    /// hit.
    pub fn get_raw_bytes(&mut self, col: DBCol, key: &[u8]) -> (r: Option<Vec<u8>>)
        requires
            old(self).wf(),
            old(self).backup_read_count(col) < u64::MAX,
        ensures
            final(self).wf(),
            opt_bytes_view(r) == old(self).lookup(col, key@),
            final(self).main == old(self).main,
            final(self).backups@.len() == old(self).backups@.len(),
            forall|i: int|
                0 <= i < old(self).backups@.len() ==> (#[trigger] final(self).backups@[i]).column
                    == old(self).backups@[i].column && final(self).backups@[i].dbs == old(
                    self,
                ).backups@[i].dbs,
            (old(self).lookup(col, key@) is Some && old(self).main.lookup(col, key@) is None)
                ==> final(self).backup_read_count(col) == old(self).backup_read_count(col) + 1
                && (forall|c: DBCol|
                c != col ==> final(self).backup_read_count(c) == old(self).backup_read_count(c)),
            !(old(self).lookup(col, key@) is Some && old(self).main.lookup(col, key@) is None)
                ==> *final(self) == *old(self),
    {
        if let Some(main_result) = self.main.get_raw_bytes(col, key) {
            return Some(main_result);
        }
        match self.find_registry(col) {
            None => {
                proof {
                    if old(self).registry_has(col) {
                        let i = old(self).registry_index(col);
                        assert(0 <= i < self.backups@.len() && self.backups@[i].column == col);
                    }
                    assert(!old(self).registry_has(col));
                    assert(old(self).backups_for(col) =~= Seq::<Backend>::empty());
                }
                None
            },
            Some(idx) => {
                proof {
                    old(self).lemma_registry_at(col, idx as int);
                }
                let ghost dbs = self.backups@[idx as int].dbs@;
                let n = self.backups[idx].dbs.len();
                let mut j: usize = 0;
                proof {
                    assert(dbs.skip(0) =~= dbs);
                }
                while j < n
                    invariant
                        *self == *old(self),
                        old(self).wf(),
                        old(self).backup_read_count(col) < u64::MAX,
                        old(self).main.lookup(col, key@) is None,
                        0 <= idx < self.backups@.len(),
                        self.backups@[idx as int].column == col,
                        old(self).registry_has(col) && old(self).registry_index(col) == idx,
                        dbs == self.backups@[idx as int].dbs@,
                        n == dbs.len(),
                        j <= n,
                        first_hit(dbs, col, key@) == first_hit(dbs.skip(j as int), col, key@),
                    decreases n - j,
                {
                    proof {
                        assert(self.backups@[idx as int].dbs@[j as int].wf());
                        assert(dbs.skip(j as int)[0] == dbs[j as int]);
                    }
                    let backup_result = self.backups[idx].dbs[j].get_raw_bytes(col, key);
                    if let Some(v) = backup_result {
                        let mut entry = self.backups.remove(idx);
                        entry.reads = entry.reads + 1;
                        self.backups.insert(idx, entry);
                        proof {
                            assert(self.backups@ =~= old(self).backups@.update(
                                idx as int,
                                self.backups@[idx as int],
                            ));
                            self.lemma_registry_at(col, idx as int);
                            assert forall|c: DBCol| c != col implies final(self)
                                .backup_read_count(c) == old(self).backup_read_count(c) by {
                                if old(self).registry_has(c) {
                                    let i = old(self).registry_index(c);
                                    assert(old(self).backups@[i].column == c);
                                    assert(i != idx);
                                    assert(self.backups@[i].column == c);
                                    self.lemma_registry_at(c, i);
                                } else {
                                    if self.registry_has(c) {
                                        let i = self.registry_index(c);
                                        assert(self.backups@[i].column == c);
                                        assert(old(self).backups@[i].column == c);
                                    }
                                }
                            }
                        }
                        return Some(v);
                    }
                    proof {
                        assert(dbs.skip(j as int).skip(1) =~= dbs.skip(j as int + 1));
                    }
                    j = j + 1;
                }
                proof {
                    assert(dbs.skip(n as int).len() == 0);
                }
                None
            },
        }
    }

    /// Index of the registry entry of `col`, if one exists.
    fn find_registry(&self, col: DBCol) -> (r: Option<usize>)
        ensures
            match r {
                Some(i) => 0 <= i < self.backups@.len() && self.backups@[i as int].column == col,
                None => forall|j: int|
                    0 <= j < self.backups@.len() ==> self.backups@[j].column != col,
            },
    {
        let mut i: usize = 0;
        while i < self.backups.len()
            invariant
                i <= self.backups@.len(),
                forall|j: int| 0 <= j < i ==> self.backups@[j].column != col,
            decreases self.backups@.len() - i,
        {
            if self.backups[i].column == col {
                return Some(i);
            }
            i = i + 1;
        }
        None
    }

    /// Build the composite: the primary, plus the registry grouped from the
    /// configuration list. Every counter starts at zero.
    pub fn new(main: Backend, backup_configs: Vec<ColumnBackupConfig>) -> (r: DBWithBackups)
        requires
            main.wf(),
            forall|j: int|
                0 <= j < backup_configs@.len() ==> (#[trigger] backup_configs@[j]).db.wf(),
        ensures
            r.wf(),
            r.main == main,
            forall|c: DBCol| #[trigger] r.backups_for(c) == configs_for(backup_configs@, c),
            forall|c: DBCol| #[trigger] r.backup_read_count(c) == 0,
    {
        let ghost cfgs = backup_configs@;
        let r = DBWithBackups { main, backups: Self::open_backups(backup_configs) };
        proof {
            assert forall|c: DBCol| #[trigger] r.backups_for(c) == configs_for(cfgs, c) by {
                if r.registry_has(c) {
                    let i = r.registry_index(c);
                    assert(0 <= i < r.backups@.len() && r.backups@[i].column == c);
                    assert(r.backups@[i].dbs@ == configs_for(cfgs, c));
                } else {
                    assert forall|j: int| 0 <= j < cfgs.len() implies (#[trigger] cfgs[j]).column
                        != c by {
                        if cfgs[j].column == c {
                            let i = choose|i: int|
                                0 <= i < r.backups@.len() && r.backups@[i].column
                                    == cfgs[j].column;
                            assert(r.backups@[i].column == c);
                        }
                    }
                    lemma_configs_for_absent(cfgs, c);
                }
            }
        }
        r
    }

    /// Group a configuration list into the registry: one entry per distinct
    /// column, its backups in registration order, its counter zero.
    pub fn open_backups(backup_configs: Vec<ColumnBackupConfig>) -> (r: Vec<ColumnBackups>)
        requires
            forall|j: int|
                0 <= j < backup_configs@.len() ==> (#[trigger] backup_configs@[j]).db.wf(),
        ensures
            distinct_columns(r@),
            forall|i: int|
                0 <= i < r@.len() ==> (#[trigger] r@[i]).reads == 0 && r@[i].dbs@ == configs_for(
                    backup_configs@,
                    r@[i].column,
                ),
            forall|i: int, j: int|
                0 <= i < r@.len() && 0 <= j < r@[i].dbs@.len() ==> (
                #[trigger] r@[i].dbs@[j]).wf(),
            forall|j: int|
                0 <= j < backup_configs@.len() ==> exists|i: int|
                    0 <= i < r@.len() && r@[i].column == (#[trigger] backup_configs@[j]).column,
    {
        let ghost all = backup_configs@;
        let mut cfgs = backup_configs;
        let n = cfgs.len();
        let mut r: Vec<ColumnBackups> = Vec::new();
        let mut k: usize = 0;
        while cfgs.len() > 0
            invariant
                all.len() == n,
                k + cfgs@.len() == n,
                cfgs@ == all.skip(k as int),
                forall|j: int| 0 <= j < all.len() ==> (#[trigger] all[j]).db.wf(),
                distinct_columns(r@),
                forall|i: int|
                    0 <= i < r@.len() ==> (#[trigger] r@[i]).reads == 0 && r@[i].dbs@
                        == configs_for(all.take(k as int), r@[i].column),
                forall|i: int, j: int|
                    0 <= i < r@.len() && 0 <= j < r@[i].dbs@.len() ==> (
                    #[trigger] r@[i].dbs@[j]).wf(),
                forall|j: int|
                    0 <= j < k ==> exists|i: int|
                        0 <= i < r@.len() && r@[i].column == (#[trigger] all[j]).column,
            decreases cfgs@.len(),
        {
            let cfg = cfgs.remove(0);
            proof {
                assert(all.skip(k as int)[0] == all[k as int]);
                assert(all.skip(k as int).remove(0) =~= all.skip(k as int + 1));
                assert(all.take(k as int + 1).drop_last() =~= all.take(k as int));
                assert(all.take(k as int + 1).last() == all[k as int]);
            }
            let found = find_column(&r, cfg.column);
            let ghost r0 = r@;
            match found {
                Some(i) => {
                    let mut entry = r.remove(i);
                    entry.dbs.push(cfg.db);
                    r.insert(i, entry);
                    proof {
                        assert(r@ =~= r0.update(i as int, r@[i as int]));
                        assert forall|j: int| 0 <= j < k + 1 implies exists|i2: int|
                            0 <= i2 < r@.len() && r@[i2].column == (
                        #[trigger] all[j]).column by {
                            if j < k {
                                let i0 = choose|i0: int|
                                    0 <= i0 < r0.len() && r0[i0].column == all[j].column;
                                assert(r@[i0].column == all[j].column);
                            } else {
                                assert(r@[i as int].column == all[k as int].column);
                            }
                        }
                        assert forall|m: int| 0 <= m < r@.len() implies (#[trigger] r@[m]).reads
                            == 0 && r@[m].dbs@ == configs_for(
                            all.take(k as int + 1),
                            r@[m].column,
                        ) by {
                            if m == i {
                                assert(r@[m].dbs@ =~= r0[m].dbs@.push(all[k as int].db));
                                assert(configs_for(all.take(k as int + 1), r@[m].column)
                                    =~= configs_for(all.take(k as int), r@[m].column).push(
                                    all[k as int].db,
                                ));
                            } else {
                                assert(r@[m] == r0[m]);
                                assert(r0[m].column != cfg.column);
                                assert(configs_for(all.take(k as int + 1), r@[m].column)
                                    =~= configs_for(all.take(k as int), r@[m].column));
                            }
                        }
                    }
                },
                None => {
                    let mut dbs_one: Vec<Backend> = Vec::new();
                    dbs_one.push(cfg.db);
                    r.push(ColumnBackups { column: cfg.column, dbs: dbs_one, reads: 0 });
                    proof {
                        assert forall|j: int| 0 <= j < all.take(k as int).len() implies (
                        #[trigger] all.take(k as int)[j]).column != cfg.column by {
                            if all.take(k as int)[j].column == cfg.column {
                                let i0 = choose|i0: int|
                                    0 <= i0 < r0.len() && r0[i0].column == all[j].column;
                                assert(r0[i0].column == cfg.column);
                            }
                        }
                        lemma_configs_for_absent(all.take(k as int), cfg.column);
                        assert forall|m: int| 0 <= m < r@.len() implies (#[trigger] r@[m]).reads
                            == 0 && r@[m].dbs@ == configs_for(
                            all.take(k as int + 1),
                            r@[m].column,
                        ) by {
                            if m == r@.len() - 1 {
                                assert(r@[m].dbs@ =~= seq![all[k as int].db]);
                                assert(configs_for(all.take(k as int + 1), cfg.column)
                                    =~= Seq::<Backend>::empty() + seq![all[k as int].db]);
                                assert(configs_for(all.take(k as int + 1), cfg.column)
                                    =~= seq![all[k as int].db]);
                            } else {
                                assert(r@[m] == r0[m]);
                                assert(r0[m].column != cfg.column);
                                assert(configs_for(all.take(k as int + 1), r@[m].column)
                                    =~= configs_for(all.take(k as int), r@[m].column));
                            }
                        }
                        assert forall|j: int| 0 <= j < k + 1 implies exists|i2: int|
                            0 <= i2 < r@.len() && r@[i2].column == (
                        #[trigger] all[j]).column by {
                            if j < k {
                                let i0 = choose|i0: int|
                                    0 <= i0 < r0.len() && r0[i0].column == all[j].column;
                                assert(r@[i0].column == all[j].column);
                            } else {
                                assert(r@[r@.len() - 1].column == all[k as int].column);
                            }
                        }
                    }
                },
            }
            k = k + 1;
        }
        proof {
            assert(all.take(n as int) =~= all);
        }
        r
    }

    /// Full iteration reflects the primary alone; backups never appear in
    /// bulk results.
    pub fn iter(&self, col: DBCol) -> (r: Vec<(Vec<u8>, Vec<u8>)>)
        ensures
            pairs_view(r@) == self.main.col_entries(col),
    {
        self.main.iter(col)
    }

    /// Prefix iteration over the primary alone.
    pub fn iter_prefix(&self, col: DBCol, key_prefix: &[u8]) -> (r: Vec<(Vec<u8>, Vec<u8>)>)
        ensures
            pairs_view(r@) == self.main.col_entries_prefix(col, key_prefix@),
    {
        self.main.iter_prefix(col, key_prefix)
    }

    /// Range iteration over the primary alone.
    pub fn iter_range(
        &self,
        col: DBCol,
        lower_bound: Option<&[u8]>,
        upper_bound: Option<&[u8]>,
    ) -> (r: Vec<(Vec<u8>, Vec<u8>)>)
        ensures
            pairs_view(r@) == self.main.col_entries_range(
                col,
                opt_slice_view(lower_bound),
                opt_slice_view(upper_bound),
            ),
    {
        self.main.iter_range(col, lower_bound, upper_bound)
    }

    /// Raw iteration over the primary alone.
    pub fn iter_raw_bytes(&self, col: DBCol) -> (r: Vec<(Vec<u8>, Vec<u8>)>)
        ensures
            pairs_view(r@) == self.main.col_entries(col),
    {
        self.main.iter_raw_bytes(col)
    }

    /// Writes go to the primary only; no backup is ever mutated and no
    /// counter moves.
    pub fn write(&mut self, transaction: DBTransaction) -> (r: Result<(), StoreError>)
        requires
            old(self).wf(),
        ensures
            final(self).wf(),
            r is Ok,
            final(self).main.contents() == apply_ops(
                old(self).main.contents(),
                transaction.ops@,
            ),
            final(self).backups == old(self).backups,
    {
        self.main.write(transaction);
        Ok(())
    }

    /// Flush the primary.
    pub fn flush(&self) {
        self.main.flush()
    }

    /// Compact the primary.
    pub fn compact(&self) {
        self.main.compact()
    }

    /// Statistics of the primary.
    pub fn get_store_statistics(&self) -> (r: Option<StoreStatistics>)
        ensures
            r matches Some(st) && st.entries == self.main.entries@.len(),
    {
        self.main.get_store_statistics()
    }

    /// Checkpoint the primary (or selected columns of it) alone.
    pub fn create_checkpoint(&self, columns_to_keep: Option<&Vec<DBCol>>) -> (r: Backend)
        requires
            self.wf(),
        ensures
            r.wf(),
            r.contents() == self.main.checkpoint_model(
                match columns_to_keep {
                    Some(cols) => Some(cols@),
                    None => None,
                },
            ),
    {
        self.main.create_checkpoint(columns_to_keep)
    }
}

/// For a column with no registered backups, a composite lookup gives exactly
/// what the primary alone gives.
pub proof fn lemma_no_backups_reads_primary(s: DBWithBackups, col: DBCol, key: Seq<u8>)
    requires
        s.backups_for(col) == Seq::<Backend>::empty(),
    ensures
        s.lookup(col, key) == s.main.lookup(col, key),
{
}

/// On a primary miss, the composite answers with the first registered backup
/// that holds the key, in registration order, whatever later backups hold;
/// and when no tier holds the key, the composite reports absence.
pub proof fn lemma_fallback_order(s: DBWithBackups, col: DBCol, key: Seq<u8>, i: int)
    requires
        s.main.lookup(col, key) is None,
        0 <= i < s.backups_for(col).len(),
        s.backups_for(col)[i].lookup(col, key) is Some,
        forall|j: int| 0 <= j < i ==> s.backups_for(col)[j].lookup(col, key) is None,
    ensures
        s.lookup(col, key) == s.backups_for(col)[i].lookup(col, key),
{
    lemma_first_backup_wins(s.backups_for(col), col, key, i);
}

/// When neither the primary nor any registered backup holds the key, the
/// composite lookup is absent.
pub proof fn lemma_total_miss(s: DBWithBackups, col: DBCol, key: Seq<u8>)
    requires
        s.main.lookup(col, key) is None,
        forall|j: int|
            0 <= j < s.backups_for(col).len() ==> s.backups_for(col)[j].lookup(col, key)
                is None,
    ensures
        s.lookup(col, key) is None,
{
    lemma_all_backups_miss(s.backups_for(col), col, key);
}

} // verus!
