//! An in-memory backend: the reference implementation of the storage surface
//! that the composites in this crate route over. It models a single storage
//! engine instance as a flat list of (column, key) -> value records with a
//! uniqueness invariant, and gives every operation an exact contract over the
//! mathematical map of its contents. Iteration materializes the matching
//! pairs, in this backend's storage order; an engine's cursors and value
//! lifetimes are resource concerns of the engine, not of this model.

use vstd::prelude::*;
use vstd::slice::slice_to_vec;
use crate::db::{DBCol, DBOp, DBTransaction, StoreModel, apply_op, apply_ops};

verus! {

/// One stored record of a backend.
pub struct DBEntry {
    pub col: DBCol,
    pub key: Vec<u8>,
    pub value: Vec<u8>,
}

/// The (column, key) identity of an entry.
pub open spec fn entry_ck(e: DBEntry) -> (DBCol, Seq<u8>) {
    (e.col, e.key@)
}

/// No two entries share a (column, key) identity.
pub open spec fn distinct_keys(s: Seq<DBEntry>) -> bool {
    forall|i: int, j: int|
        0 <= i < j < s.len() ==> entry_ck(s[i]) != entry_ck(s[j])
}

/// The contents of an entry list, as a map from (column, key) to value bytes.
pub open spec fn contents_of(s: Seq<DBEntry>) -> StoreModel
    decreases s.len(),
{
    if s.len() == 0 {
        Map::empty()
    } else {
        contents_of(s.drop_last()).insert(entry_ck(s.last()), s.last().value@)
    }
}

/// A (column, key) pair is in the contents exactly when some entry carries it.
pub proof fn lemma_contents_domain(s: Seq<DBEntry>)
    ensures
        forall|ck: (DBCol, Seq<u8>)|
            contents_of(s).contains_key(ck) <==> (exists|i: int|
                0 <= i < s.len() && entry_ck(s[i]) == ck),
    decreases s.len(),
{
    if s.len() == 0 {
    } else {
        lemma_contents_domain(s.drop_last());
        assert forall|ck: (DBCol, Seq<u8>)| contents_of(s).contains_key(ck) implies (exists|i: int|
            0 <= i < s.len() && entry_ck(s[i]) == ck) by {
            if ck == entry_ck(s.last()) {
                assert(entry_ck(s[s.len() - 1]) == ck);
            } else {
                assert(contents_of(s.drop_last()).contains_key(ck));
                let i = choose|i: int|
                    0 <= i < s.drop_last().len() && entry_ck(s.drop_last()[i]) == ck;
                assert(s.drop_last()[i] == s[i]);
                assert(entry_ck(s[i]) == ck);
            }
        }
        assert forall|ck: (DBCol, Seq<u8>)| (exists|i: int|
            0 <= i < s.len() && entry_ck(s[i]) == ck) implies contents_of(s).contains_key(ck) by {
            let i = choose|i: int| 0 <= i < s.len() && entry_ck(s[i]) == ck;
            if i < s.len() - 1 {
                assert(s.drop_last()[i] == s[i]);
                assert(exists|j: int|
                    0 <= j < s.drop_last().len() && entry_ck(s.drop_last()[j]) == ck);
                assert(contents_of(s.drop_last()).contains_key(ck));
            } else {
                assert(ck == entry_ck(s.last()));
            }
        }
    }
}

/// Under the uniqueness invariant, the contents map sends each entry's
/// identity to that entry's value.
pub proof fn lemma_contents_at(s: Seq<DBEntry>, i: int)
    requires
        distinct_keys(s),
        0 <= i < s.len(),
    ensures
        contents_of(s).contains_key(entry_ck(s[i])),
        contents_of(s)[entry_ck(s[i])] == s[i].value@,
    decreases s.len(),
{
    if i == s.len() - 1 {
    } else {
        lemma_contents_at(s.drop_last(), i);
        assert(entry_ck(s[i]) != entry_ck(s.last()));
    }
}

/// Removing the entry at index `i` removes exactly its identity from the
/// contents, keeps uniqueness, and leaves no entry with that identity behind.
pub proof fn lemma_contents_remove(s: Seq<DBEntry>, i: int)
    requires
        distinct_keys(s),
        0 <= i < s.len(),
    ensures
        contents_of(s.remove(i)) == contents_of(s).remove(entry_ck(s[i])),
        distinct_keys(s.remove(i)),
        forall|j: int|
            0 <= j < s.remove(i).len() ==> entry_ck(s.remove(i)[j]) != entry_ck(s[i]),
    decreases s.len(),
{
    let ck = entry_ck(s[i]);
    assert forall|j: int| 0 <= j < s.remove(i).len() implies entry_ck(s.remove(i)[j]) != ck by {
        if j < i {
            assert(s.remove(i)[j] == s[j]);
        } else {
            assert(s.remove(i)[j] == s[j + 1]);
        }
    }
    assert forall|a: int, b: int| 0 <= a < b < s.remove(i).len() implies entry_ck(
        s.remove(i)[a],
    ) != entry_ck(s.remove(i)[b]) by {
        let a0 = if a < i { a } else { a + 1 };
        let b0 = if b < i { b } else { b + 1 };
        assert(s.remove(i)[a] == s[a0]);
        assert(s.remove(i)[b] == s[b0]);
    }
    if i == s.len() - 1 {
        assert(s.remove(i) =~= s.drop_last());
        lemma_contents_domain(s.drop_last());
        assert(!contents_of(s.drop_last()).contains_key(ck));
        assert(contents_of(s.drop_last()).insert(ck, s[i].value@).remove(ck) =~= contents_of(
            s.drop_last(),
        ));
    } else {
        lemma_contents_remove(s.drop_last(), i);
        assert(s.remove(i).drop_last() =~= s.drop_last().remove(i));
        assert(s.remove(i).last() == s.last());
        let ck_last = entry_ck(s.last());
        assert(ck != ck_last);
        // contents_of(s.remove(i))
        //   == contents_of(s.drop_last()).remove(ck).insert(ck_last, last value)
        //   == contents_of(s.drop_last()).insert(ck_last, last value).remove(ck)
        assert(contents_of(s.drop_last()).remove(ck).insert(ck_last, s.last().value@)
            =~= contents_of(s.drop_last()).insert(ck_last, s.last().value@).remove(ck));
    }
}

/// A single backend instance: the model of one storage engine.
pub struct Backend {
    pub entries: Vec<DBEntry>,
}

/// The view of an `Option<Vec<u8>>` read result.
pub open spec fn opt_bytes_view(r: Option<Vec<u8>>) -> Option<Seq<u8>> {
    match r {
        Some(v) => Some(v@),
        None => None,
    }
}

/// Byte-wise equality of two slices.
pub fn bytes_eq(a: &[u8], b: &[u8]) -> (r: bool)
    ensures
        r == (a@ == b@),
{
    if a.len() != b.len() {
        return false;
    }
    let mut i: usize = 0;
    while i < a.len()
        invariant
            a@.len() == b@.len(),
            i <= a@.len(),
            forall|j: int| 0 <= j < i ==> a@[j] == b@[j],
        decreases a@.len() - i,
    {
        if a[i] != b[i] {
            return false;
        }
        i = i + 1;
    }
    proof {
        assert(a@ =~= b@);
    }
    true
}

impl Backend {
    /// Well-formed: no (column, key) pair is stored twice.
    pub open spec fn wf(self) -> bool {
        distinct_keys(self.entries@)
    }

    /// The contents of this backend as a mathematical map.
    pub open spec fn contents(self) -> StoreModel {
        contents_of(self.entries@)
    }

    /// The value stored under (col, key), if any.
    pub open spec fn lookup(self, col: DBCol, key: Seq<u8>) -> Option<Seq<u8>> {
        if self.contents().contains_key((col, key)) {
            Some(self.contents()[(col, key)])
        } else {
            None
        }
    }

    /// An empty backend.
    pub fn new() -> (r: Backend)
        ensures
            r.wf(),
            r.contents() == Map::<(DBCol, Seq<u8>), Seq<u8>>::empty(),
    {
        Backend { entries: Vec::new() }
    }

    /// Index of the entry holding (col, key), if one exists.
    fn find_entry(&self, col: DBCol, key: &[u8]) -> (r: Option<usize>)
        ensures
            match r {
                Some(i) => 0 <= i < self.entries@.len() && entry_ck(self.entries@[i as int])
                    == (col, key@),
                None => forall|j: int|
                    0 <= j < self.entries@.len() ==> entry_ck(self.entries@[j]) != (col, key@),
            },
    {
        let mut i: usize = 0;
        while i < self.entries.len()
            invariant
                i <= self.entries@.len(),
                forall|j: int| 0 <= j < i ==> entry_ck(self.entries@[j]) != (col, key@),
            decreases self.entries@.len() - i,
        {
            let e = &self.entries[i];
            if e.col == col && bytes_eq(e.key.as_slice(), key) {
                return Some(i);
            }
            i = i + 1;
        }
        None
    }

    /// Returns the stored value verbatim, or absence. The model backend never
    /// fails, so the backend-level read-error case of a real engine does not
    /// arise here.
    pub fn get_raw_bytes(&self, col: DBCol, key: &[u8]) -> (r: Option<Vec<u8>>)
        requires
            self.wf(),
        ensures
            opt_bytes_view(r) == self.lookup(col, key@),
    {
        match self.find_entry(col, key) {
            Some(i) => {
                proof {
                    lemma_contents_at(self.entries@, i as int);
                }
                Some(slice_to_vec(self.entries[i].value.as_slice()))
            },
            None => {
                proof {
                    lemma_contents_domain(self.entries@);
                }
                None
            },
        }
    }

    /// Like `get_raw_bytes`, with any reference-count envelope removed. This
    /// model backend stores values without an envelope, so the stripped form
    /// equals the raw form.
    pub fn get_with_rc_stripped(&self, col: DBCol, key: &[u8]) -> (r: Option<Vec<u8>>)
        requires
            self.wf(),
        ensures
            opt_bytes_view(r) == self.lookup(col, key@),
    {
        self.get_raw_bytes(col, key)
    }

    /// Insert or overwrite the value stored under (col, key).
    fn put_entry(&mut self, col: DBCol, key: Vec<u8>, value: Vec<u8>)
        requires
            old(self).wf(),
        ensures
            final(self).wf(),
            final(self).contents() == old(self).contents().insert((col, key@), value@),
    {
        let ghost s0 = self.entries@;
        match self.find_entry(col, key.as_slice()) {
            Some(i) => {
                proof {
                    lemma_contents_remove(s0, i as int);
                }
                self.entries.remove(i);
                let ghost s1 = self.entries@;
                self.entries.push(DBEntry { col, key, value });
                proof {
                    assert(self.entries@.drop_last() =~= s1);
                    assert(contents_of(s0).remove((col, self.entries@.last().key@)).insert(
                        (col, self.entries@.last().key@),
                        value@,
                    ) =~= contents_of(s0).insert((col, self.entries@.last().key@), value@));
                }
            },
            None => {
                self.entries.push(DBEntry { col, key, value });
                proof {
                    assert(self.entries@.drop_last() =~= s0);
                }
            },
        }
    }

    /// Remove the value stored under (col, key); absent keys are untouched.
    fn delete_entry(&mut self, col: DBCol, key: &[u8])
        requires
            old(self).wf(),
        ensures
            final(self).wf(),
            final(self).contents() == old(self).contents().remove((col, key@)),
    {
        match self.find_entry(col, key) {
            Some(i) => {
                proof {
                    lemma_contents_remove(self.entries@, i as int);
                }
                self.entries.remove(i);
            },
            None => {
                proof {
                    lemma_contents_domain(self.entries@);
                    assert(self.contents().remove((col, key@)) =~= self.contents());
                }
            },
        }
    }

    /// Remove every entry of `col`.
    fn delete_all_entries(&mut self, col: DBCol)
        requires
            old(self).wf(),
        ensures
            final(self).wf(),
            final(self).contents() == old(self).contents().restrict(
                Set::new(|ck: (DBCol, Seq<u8>)| ck.0 != col),
            ),
    {
        let ghost s = self.entries@;
        let ghost keep = Set::new(|ck: (DBCol, Seq<u8>)| ck.0 != col);
        let n = self.entries.len();
        proof {
            assert(s.len() == n);
        }
        let mut kept: Vec<DBEntry> = Vec::new();
        let mut i: usize = 0;
        proof {
            assert(s.take(0) =~= Seq::<DBEntry>::empty());
            assert(contents_of(kept@) =~= contents_of(s.take(0)).restrict(keep));
        }
        while self.entries.len() > 0
            invariant
                distinct_keys(s),
                s.len() <= usize::MAX,
                i + self.entries@.len() == s.len(),
                self.entries@ == s.skip(i as int),
                distinct_keys(kept@),
                contents_of(kept@) == contents_of(s.take(i as int)).restrict(keep),
                keep == Set::new(|ck: (DBCol, Seq<u8>)| ck.0 != col),
                forall|j: int|
                    0 <= j < kept@.len() ==> exists|m: int|
                        0 <= m < i && #[trigger] kept@[j] == s[m],
            decreases self.entries@.len(),
        {
            let e = self.entries.remove(0);
            proof {
                assert(s.skip(i as int)[0] == s[i as int]);
                assert(s.skip(i as int).remove(0) =~= s.skip(i as int + 1));
                assert(s.take(i as int + 1).drop_last() =~= s.take(i as int));
                assert(s.take(i as int + 1).last() == s[i as int]);
            }
            let ghost kept0 = kept@;
            let ghost ck = entry_ck(s[i as int]);
            if !(e.col == col) {
                proof {
                    assert forall|j: int| 0 <= j < kept0.len() implies entry_ck(kept0[j])
                        != ck by {
                        let m = choose|m: int| 0 <= m < i && kept0[j] == s[m];
                        assert(entry_ck(s[m]) != entry_ck(s[i as int]));
                    }
                }
                kept.push(e);
                proof {
                    assert(kept@.drop_last() =~= kept0);
                    assert(contents_of(s.take(i as int)).insert(ck, e.value@).restrict(keep)
                        =~= contents_of(s.take(i as int)).restrict(keep).insert(ck, e.value@));
                }
            } else {
                proof {
                    assert(contents_of(s.take(i as int)).insert(ck, e.value@).restrict(keep)
                        =~= contents_of(s.take(i as int)).restrict(keep));
                }
            }
            i = i + 1;
        }
        self.entries = kept;
        proof {
            assert(s.take(s.len() as int) =~= s);
        }
    }

    /// Atomically apply every operation of `transaction`, in order. The model
    /// backend is single-threaded state, so atomicity is immediate; the
    /// contract pins the result to the mathematical application of the ops.
    pub fn write(&mut self, transaction: DBTransaction)
        requires
            old(self).wf(),
        ensures
            final(self).wf(),
            final(self).contents() == apply_ops(old(self).contents(), transaction.ops@),
    {
        let mut ops = transaction.ops;
        let ghost all: Seq<DBOp> = ops@;
        let ghost orig: StoreModel = self.contents();
        let n = ops.len();
        let mut applied: usize = 0;
        proof {
            assert(all.take(0) =~= Seq::<DBOp>::empty());
        }
        while ops.len() > 0
            invariant
                self.wf(),
                all.len() == n,
                applied + ops@.len() == n,
                ops@ == all.skip(applied as int),
                self.contents() == apply_ops(orig, all.take(applied as int)),
            decreases ops@.len(),
        {
            let op = ops.remove(0);
            proof {
                assert(all.skip(applied as int)[0] == all[applied as int]);
                assert(all.skip(applied as int).remove(0) =~= all.skip(applied as int + 1));
                assert(all.take(applied as int + 1).drop_last() =~= all.take(applied as int));
                assert(all.take(applied as int + 1).last() == all[applied as int]);
            }
            match op {
                DBOp::Put { col, key, value } => self.put_entry(col, key, value),
                DBOp::Delete { col, key } => self.delete_entry(col, key.as_slice()),
                DBOp::DeleteAll { col } => self.delete_all_entries(col),
            }
            applied = applied + 1;
        }
        proof {
            assert(all.take(n as int) =~= all);
        }
    }

    /// Flush any buffered state. The model backend buffers nothing.
    pub fn flush(&self) {
    }

    /// Compact the stored data. The model backend keeps no compactable state.
    pub fn compact(&self) {
    }

    /// Best-effort usage statistics; the model backend always reports the
    /// number of stored entries.
    pub fn get_store_statistics(&self) -> (r: Option<StoreStatistics>)
        ensures
            r matches Some(st) && st.entries == self.entries@.len(),
    {
        Some(StoreStatistics { entries: self.entries.len() })
    }

    /// All (key, value) pairs of `col`, in this backend's storage order.
    pub open spec fn col_entries(self, col: DBCol) -> Seq<(Seq<u8>, Seq<u8>)> {
        matching_entries_of(self.entries@, col, |k: Seq<u8>| true)
    }

    /// The pairs of `col` whose key starts with `prefix`, in storage order.
    pub open spec fn col_entries_prefix(self, col: DBCol, prefix: Seq<u8>) -> Seq<
        (Seq<u8>, Seq<u8>),
    > {
        matching_entries_of(self.entries@, col, |k: Seq<u8>| is_prefix_of(prefix, k))
    }

    /// The pairs of `col` whose key lies in [lo, hi), in storage order.
    pub open spec fn col_entries_range(
        self,
        col: DBCol,
        lo: Option<Seq<u8>>,
        hi: Option<Seq<u8>>,
    ) -> Seq<(Seq<u8>, Seq<u8>)> {
        matching_entries_of(self.entries@, col, |k: Seq<u8>| within_bounds(k, lo, hi))
    }

    /// Produce every (key, value) pair of `col`.
    pub fn iter(&self, col: DBCol) -> (r: Vec<(Vec<u8>, Vec<u8>)>)
        ensures
            pairs_view(r@) == self.col_entries(col),
    {
        let ghost p: spec_fn(Seq<u8>) -> bool = |k: Seq<u8>| true;
        let mut out: Vec<(Vec<u8>, Vec<u8>)> = Vec::new();
        let mut i: usize = 0;
        proof {
            assert(self.entries@.take(0) =~= Seq::<DBEntry>::empty());
        }
        while i < self.entries.len()
            invariant
                i <= self.entries@.len(),
                p == (|k: Seq<u8>| true),
                pairs_view(out@) == matching_entries_of(self.entries@.take(i as int), col, p),
            decreases self.entries@.len() - i,
        {
            let e = &self.entries[i];
            proof {
                assert(self.entries@.take(i as int + 1).drop_last() =~= self.entries@.take(
                    i as int,
                ));
                assert(self.entries@.take(i as int + 1).last() == self.entries@[i as int]);
            }
            let ghost prev = matching_entries_of(self.entries@.take(i as int), col, p);
            if e.col == col {
                let ghost out0 = out@;
                out.push((slice_to_vec(e.key.as_slice()), slice_to_vec(e.value.as_slice())));
                proof {
                    assert(out@.drop_last() =~= out0);
                    assert(prev + seq![(e.key@, e.value@)] =~= prev.push((e.key@, e.value@)));
                }
            } else {
                proof {
                    assert(prev + Seq::<(Seq<u8>, Seq<u8>)>::empty() =~= prev);
                }
            }
            i = i + 1;
        }
        proof {
            assert(self.entries@.take(self.entries@.len() as int) =~= self.entries@);
        }
        out
    }

    /// Like `iter`, bypassing any reference-count decoding. The model backend
    /// stores no reference-count envelope, so this equals `iter`.
    pub fn iter_raw_bytes(&self, col: DBCol) -> (r: Vec<(Vec<u8>, Vec<u8>)>)
        ensures
            pairs_view(r@) == self.col_entries(col),
    {
        self.iter(col)
    }

    /// Produce the pairs of `col` whose key starts with `key_prefix`.
    pub fn iter_prefix(&self, col: DBCol, key_prefix: &[u8]) -> (r: Vec<(Vec<u8>, Vec<u8>)>)
        ensures
            pairs_view(r@) == self.col_entries_prefix(col, key_prefix@),
    {
        let ghost p: spec_fn(Seq<u8>) -> bool = |k: Seq<u8>| is_prefix_of(key_prefix@, k);
        let mut out: Vec<(Vec<u8>, Vec<u8>)> = Vec::new();
        let mut i: usize = 0;
        proof {
            assert(self.entries@.take(0) =~= Seq::<DBEntry>::empty());
        }
        while i < self.entries.len()
            invariant
                i <= self.entries@.len(),
                p == (|k: Seq<u8>| is_prefix_of(key_prefix@, k)),
                pairs_view(out@) == matching_entries_of(self.entries@.take(i as int), col, p),
            decreases self.entries@.len() - i,
        {
            let e = &self.entries[i];
            proof {
                assert(self.entries@.take(i as int + 1).drop_last() =~= self.entries@.take(
                    i as int,
                ));
                assert(self.entries@.take(i as int + 1).last() == self.entries@[i as int]);
            }
            let ghost prev = matching_entries_of(self.entries@.take(i as int), col, p);
            if e.col == col && has_prefix(e.key.as_slice(), key_prefix) {
                let ghost out0 = out@;
                out.push((slice_to_vec(e.key.as_slice()), slice_to_vec(e.value.as_slice())));
                proof {
                    assert(out@.drop_last() =~= out0);
                    assert(prev + seq![(e.key@, e.value@)] =~= prev.push((e.key@, e.value@)));
                }
            } else {
                proof {
                    assert(prev + Seq::<(Seq<u8>, Seq<u8>)>::empty() =~= prev);
                }
            }
            i = i + 1;
        }
        proof {
            assert(self.entries@.take(self.entries@.len() as int) =~= self.entries@);
        }
        out
    }

    /// Produce the pairs of `col` whose key lies in the half-open interval
    /// [lower_bound, upper_bound); either bound may be open.
    pub fn iter_range(
        &self,
        col: DBCol,
        lower_bound: Option<&[u8]>,
        upper_bound: Option<&[u8]>,
    ) -> (r: Vec<(Vec<u8>, Vec<u8>)>)
        ensures
            pairs_view(r@) == self.col_entries_range(
                col,
                opt_slice_view(lower_bound),
                opt_slice_view(upper_bound),
            ),
    {
        let ghost lo = opt_slice_view(lower_bound);
        let ghost hi = opt_slice_view(upper_bound);
        let ghost p: spec_fn(Seq<u8>) -> bool = |k: Seq<u8>| within_bounds(k, lo, hi);
        let mut out: Vec<(Vec<u8>, Vec<u8>)> = Vec::new();
        let mut i: usize = 0;
        proof {
            assert(self.entries@.take(0) =~= Seq::<DBEntry>::empty());
        }
        while i < self.entries.len()
            invariant
                i <= self.entries@.len(),
                lo == opt_slice_view(lower_bound),
                hi == opt_slice_view(upper_bound),
                p == (|k: Seq<u8>| within_bounds(k, lo, hi)),
                pairs_view(out@) == matching_entries_of(self.entries@.take(i as int), col, p),
            decreases self.entries@.len() - i,
        {
            let e = &self.entries[i];
            proof {
                assert(self.entries@.take(i as int + 1).drop_last() =~= self.entries@.take(
                    i as int,
                ));
                assert(self.entries@.take(i as int + 1).last() == self.entries@[i as int]);
            }
            let ghost prev = matching_entries_of(self.entries@.take(i as int), col, p);
            if e.col == col && in_range(e.key.as_slice(), lower_bound, upper_bound) {
                let ghost out0 = out@;
                out.push((slice_to_vec(e.key.as_slice()), slice_to_vec(e.value.as_slice())));
                proof {
                    assert(out@.drop_last() =~= out0);
                    assert(prev + seq![(e.key@, e.value@)] =~= prev.push((e.key@, e.value@)));
                }
            } else {
                proof {
                    assert(prev + Seq::<(Seq<u8>, Seq<u8>)>::empty() =~= prev);
                }
            }
            i = i + 1;
        }
        proof {
            assert(self.entries@.take(self.entries@.len() as int) =~= self.entries@);
        }
        out
    }

    /// The contents a checkpoint of this backend holds: everything, or only
    /// the selected columns.
    pub open spec fn checkpoint_model(self, columns: Option<Seq<DBCol>>) -> StoreModel {
        match columns {
            None => self.contents(),
            Some(cols) => self.contents().restrict(
                Set::new(|ck: (DBCol, Seq<u8>)| cols.contains(ck.0)),
            ),
        }
    }

    /// Durably snapshot this backend, or only the selected columns of it. The
    /// model of durability is the produced backend value itself.
    pub fn create_checkpoint(&self, columns_to_keep: Option<&Vec<DBCol>>) -> (r: Backend)
        requires
            self.wf(),
        ensures
            r.wf(),
            r.contents() == self.checkpoint_model(
                match columns_to_keep {
                    Some(cols) => Some(cols@),
                    None => None,
                },
            ),
    {
        let ghost s = self.entries@;
        let ghost keep: Set<(DBCol, Seq<u8>)> = match columns_to_keep {
            Some(cols) => Set::new(|ck: (DBCol, Seq<u8>)| cols@.contains(ck.0)),
            None => Set::new(|ck: (DBCol, Seq<u8>)| true),
        };
        let mut kept: Vec<DBEntry> = Vec::new();
        let mut i: usize = 0;
        proof {
            assert(s.take(0) =~= Seq::<DBEntry>::empty());
            assert(contents_of(kept@) =~= contents_of(s.take(0)).restrict(keep));
        }
        while i < self.entries.len()
            invariant
                distinct_keys(s),
                self.entries@ == s,
                i <= s.len(),
                keep == (match columns_to_keep {
                    Some(cols) => Set::new(|ck: (DBCol, Seq<u8>)| cols@.contains(ck.0)),
                    None => Set::new(|ck: (DBCol, Seq<u8>)| true),
                }),
                distinct_keys(kept@),
                contents_of(kept@) == contents_of(s.take(i as int)).restrict(keep),
                forall|j: int|
                    0 <= j < kept@.len() ==> exists|m: int|
                        0 <= m < i && entry_ck(#[trigger] kept@[j]) == entry_ck(s[m]),
            decreases s.len() - i,
        {
            let e = &self.entries[i];
            proof {
                assert(s.take(i as int + 1).drop_last() =~= s.take(i as int));
                assert(s.take(i as int + 1).last() == s[i as int]);
            }
            let keep_it = match columns_to_keep {
                Some(cols) => col_in(cols, e.col),
                None => true,
            };
            let ghost ck = entry_ck(s[i as int]);
            if keep_it {
                proof {
                    assert(keep.contains(ck));
                    assert forall|j: int| 0 <= j < kept@.len() implies entry_ck(kept@[j])
                        != ck by {
                        let m = choose|m: int| 0 <= m < i && entry_ck(kept@[j]) == entry_ck(s[m]);
                        assert(entry_ck(s[m]) != entry_ck(s[i as int]));
                    }
                }
                let ghost kept0 = kept@;
                kept.push(
                    DBEntry {
                        col: e.col,
                        key: slice_to_vec(e.key.as_slice()),
                        value: slice_to_vec(e.value.as_slice()),
                    },
                );
                proof {
                    assert(kept@.drop_last() =~= kept0);
                    assert(entry_ck(kept@.last()) == ck);
                    assert(contents_of(s.take(i as int)).insert(ck, e.value@).restrict(keep)
                        =~= contents_of(s.take(i as int)).restrict(keep).insert(ck, e.value@));
                }
            } else {
                proof {
                    assert(!keep.contains(ck));
                    assert(contents_of(s.take(i as int)).insert(ck, e.value@).restrict(keep)
                        =~= contents_of(s.take(i as int)).restrict(keep));
                }
            }
            i = i + 1;
        }
        proof {
            assert(s.take(s.len() as int) =~= s);
            if columns_to_keep is None {
                assert(contents_of(s).restrict(keep) =~= contents_of(s));
            }
        }
        Backend { entries: kept }
    }
}

/// `col` occurs in `cols`.
pub fn col_in(cols: &Vec<DBCol>, col: DBCol) -> (r: bool)
    ensures
        r == cols@.contains(col),
{
    let mut i: usize = 0;
    while i < cols.len()
        invariant
            i <= cols@.len(),
            forall|j: int| 0 <= j < i ==> cols@[j] != col,
        decreases cols@.len() - i,
    {
        if cols[i] == col {
            return true;
        }
        i = i + 1;
    }
    false
}

/// Best-effort usage statistics of one backend.
#[derive(Clone, Copy, PartialEq, Eq, Structural, Debug)]
pub struct StoreStatistics {
    /// Number of records stored, over all columns.
    pub entries: usize,
}

/// `prefix` is a byte prefix of `key`.
pub open spec fn is_prefix_of(prefix: Seq<u8>, key: Seq<u8>) -> bool {
    prefix.len() <= key.len() && key.take(prefix.len() as int) == prefix
}

/// Strict lexicographic order on byte strings.
pub open spec fn lex_lt(a: Seq<u8>, b: Seq<u8>) -> bool
    decreases a.len(),
{
    if b.len() == 0 {
        false
    } else if a.len() == 0 {
        true
    } else if a[0] < b[0] {
        true
    } else if a[0] > b[0] {
        false
    } else {
        lex_lt(a.skip(1), b.skip(1))
    }
}

/// `key` lies in the half-open interval [lo, hi); a `None` bound is open.
pub open spec fn within_bounds(key: Seq<u8>, lo: Option<Seq<u8>>, hi: Option<Seq<u8>>) -> bool {
    (match lo {
        Some(l) => !lex_lt(key, l),
        None => true,
    }) && (match hi {
        Some(h) => lex_lt(key, h),
        None => true,
    })
}

/// View of an optional byte-slice bound.
pub open spec fn opt_slice_view(o: Option<&[u8]>) -> Option<Seq<u8>> {
    match o {
        Some(s) => Some(s@),
        None => None,
    }
}

/// The (key, value) pairs of `col` whose key satisfies `p`, in stored order.
pub open spec fn matching_entries_of(
    s: Seq<DBEntry>,
    col: DBCol,
    p: spec_fn(Seq<u8>) -> bool,
) -> Seq<(Seq<u8>, Seq<u8>)>
    decreases s.len(),
{
    if s.len() == 0 {
        Seq::empty()
    } else {
        matching_entries_of(s.drop_last(), col, p) + if s.last().col == col && p(s.last().key@) {
            seq![(s.last().key@, s.last().value@)]
        } else {
            Seq::empty()
        }
    }
}

/// View of a produced iteration result, pair by pair.
pub open spec fn pairs_view(s: Seq<(Vec<u8>, Vec<u8>)>) -> Seq<(Seq<u8>, Seq<u8>)>
    decreases s.len(),
{
    if s.len() == 0 {
        Seq::empty()
    } else {
        pairs_view(s.drop_last()).push((s.last().0@, s.last().1@))
    }
}

/// `pairs_view` is the pointwise view of its argument.
pub proof fn lemma_pairs_view_index(v: Seq<(Vec<u8>, Vec<u8>)>)
    ensures
        pairs_view(v).len() == v.len(),
        forall|i: int| 0 <= i < v.len() ==> #[trigger] pairs_view(v)[i] == (v[i].0@, v[i].1@),
    decreases v.len(),
{
    if v.len() > 0 {
        lemma_pairs_view_index(v.drop_last());
    }
}

/// Byte-wise prefix test.
pub fn has_prefix(key: &[u8], prefix: &[u8]) -> (r: bool)
    ensures
        r == is_prefix_of(prefix@, key@),
{
    if prefix.len() > key.len() {
        return false;
    }
    let mut i: usize = 0;
    while i < prefix.len()
        invariant
            prefix@.len() <= key@.len(),
            i <= prefix@.len(),
            forall|j: int| 0 <= j < i ==> key@[j] == prefix@[j],
        decreases prefix@.len() - i,
    {
        if key[i] != prefix[i] {
            proof {
                assert(key@.take(prefix@.len() as int)[i as int] == key@[i as int]);
            }
            return false;
        }
        i = i + 1;
    }
    proof {
        assert(key@.take(prefix@.len() as int) =~= prefix@);
    }
    true
}

/// Byte-wise strict lexicographic comparison.
pub fn lex_lt_bytes(a: &[u8], b: &[u8]) -> (r: bool)
    ensures
        r == lex_lt(a@, b@),
{
    proof {
        assert(a@.skip(0) =~= a@);
        assert(b@.skip(0) =~= b@);
    }
    let mut i: usize = 0;
    while i < a.len() && i < b.len()
        invariant
            i <= a@.len(),
            i <= b@.len(),
            lex_lt(a@, b@) == lex_lt(a@.skip(i as int), b@.skip(i as int)),
        decreases a@.len() - i,
    {
        if a[i] < b[i] {
            proof {
                assert(a@.skip(i as int)[0] == a@[i as int]);
                assert(b@.skip(i as int)[0] == b@[i as int]);
            }
            return true;
        }
        if a[i] > b[i] {
            proof {
                assert(a@.skip(i as int)[0] == a@[i as int]);
                assert(b@.skip(i as int)[0] == b@[i as int]);
            }
            return false;
        }
        proof {
            assert(a@.skip(i as int)[0] == a@[i as int]);
            assert(b@.skip(i as int)[0] == b@[i as int]);
            assert(a@.skip(i as int).skip(1) =~= a@.skip(i as int + 1));
            assert(b@.skip(i as int).skip(1) =~= b@.skip(i as int + 1));
        }
        i = i + 1;
    }
    proof {
        if i == a.len() {
            assert(a@.skip(i as int).len() == 0);
        } else {
            assert(b@.skip(i as int).len() == 0);
        }
    }
    a.len() < b.len()
}

/// `key` lies within the given optional bounds.
pub fn in_range(key: &[u8], lo: Option<&[u8]>, hi: Option<&[u8]>) -> (r: bool)
    ensures
        r == within_bounds(key@, opt_slice_view(lo), opt_slice_view(hi)),
{
    let lo_ok = match lo {
        Some(l) => !lex_lt_bytes(key, l),
        None => true,
    };
    let hi_ok = match hi {
        Some(h) => lex_lt_bytes(key, h),
        None => true,
    };
    lo_ok && hi_ok
}

} // verus!
