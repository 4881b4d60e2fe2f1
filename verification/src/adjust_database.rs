//! Maintenance routine over the storage surface: recompute the set of live
//! block identifiers and rewrite the header column to retain only the headers
//! of live blocks, copying them back in from a backup store with a bounded
//! per-transaction batch size.

use vstd::prelude::*;
use crate::db::{DBCol, DBOp, DBTransaction, StoreModel, apply_op, apply_ops};
use crate::backend::{Backend, pairs_view, lemma_pairs_view_index, bytes_eq};
use vstd::slice::slice_to_vec;

verus! {

/// Insert the given (key, value) pairs into `col`, in order.
pub open spec fn insert_all(
    m: StoreModel,
    col: DBCol,
    pairs: Seq<(Seq<u8>, Seq<u8>)>,
) -> StoreModel
    decreases pairs.len(),
{
    if pairs.len() == 0 {
        m
    } else {
        insert_all(m, col, pairs.drop_last()).insert((col, pairs.last().0), pairs.last().1)
    }
}

/// The pairs whose key occurs in the live set, in order.
pub open spec fn live_filter(
    pairs: Seq<(Seq<u8>, Seq<u8>)>,
    live: Seq<Seq<u8>>,
) -> Seq<(Seq<u8>, Seq<u8>)>
    decreases pairs.len(),
{
    if pairs.len() == 0 {
        Seq::empty()
    } else {
        live_filter(pairs.drop_last(), live) + if live.contains(pairs.last().0) {
            seq![pairs.last()]
        } else {
            Seq::empty()
        }
    }
}

/// The keys of a pair list, in order.
pub open spec fn keys_of(pairs: Seq<(Seq<u8>, Seq<u8>)>) -> Seq<Seq<u8>> {
    Seq::new(pairs.len(), |i: int| pairs[i].0)
}

/// The view of a list of byte keys.
pub open spec fn keys_view(v: Seq<Vec<u8>>) -> Seq<Seq<u8>> {
    Seq::new(v.len(), |i: int| v[i]@)
}

/// `key` occurs in the live set.
fn contains_key_bytes(live: &Vec<Vec<u8>>, key: &[u8]) -> (r: bool)
    ensures
        r == keys_view(live@).contains(key@),
{
    let mut i: usize = 0;
    while i < live.len()
        invariant
            i <= live@.len(),
            forall|j: int| 0 <= j < i ==> live@[j]@ != key@,
        decreases live@.len() - i,
    {
        if bytes_eq(live[i].as_slice(), key) {
            proof {
                assert(keys_view(live@)[i as int] == key@);
            }
            return true;
        }
        i = i + 1;
    }
    proof {
        if keys_view(live@).contains(key@) {
            let j = choose|j: int| 0 <= j < keys_view(live@).len() && keys_view(live@)[j] == key@;
            assert(live@[j]@ == key@);
        }
    }
    false
}

/// Collect the key of every record of the Block column: the live set.
pub fn load_all_live_blocks(store: &Backend) -> (r: Vec<Vec<u8>>)
    ensures
        keys_view(r@) == keys_of(store.col_entries(DBCol::Block)),
{
    let pairs = store.iter(DBCol::Block);
    let ghost col_e = store.col_entries(DBCol::Block);
    proof {
        lemma_pairs_view_index(pairs@);
    }
    let mut live_hashes: Vec<Vec<u8>> = Vec::new();
    let mut i: usize = 0;
    proof {
        assert(keys_view(live_hashes@) =~= keys_of(col_e).take(0));
    }
    while i < pairs.len()
        invariant
            pairs_view(pairs@) == col_e,
            pairs_view(pairs@).len() == pairs@.len(),
            forall|j: int|
                0 <= j < pairs@.len() ==> #[trigger] pairs_view(pairs@)[j] == (
                pairs@[j].0@, pairs@[j].1@),
            i <= pairs@.len(),
            keys_view(live_hashes@) == keys_of(col_e).take(i as int),
        decreases pairs@.len() - i,
    {
        let ghost live0 = live_hashes@;
        live_hashes.push(slice_to_vec(pairs[i].0.as_slice()));
        proof {
            assert(pairs_view(pairs@)[i as int] == (pairs@[i as int].0@, pairs@[i as int].1@));
            assert(col_e[i as int].0 == pairs@[i as int].0@);
            assert(keys_view(live0).len() == live0.len());
            assert(keys_of(col_e).take(i as int).len() == i);
            assert(live0.len() == i);
            assert forall|j: int| 0 <= j < i + 1 implies keys_view(live_hashes@)[j] == keys_of(
                col_e,
            ).take(i as int + 1)[j] by {
                if j < i {
                    assert(live_hashes@[j] == live0[j]);
                    assert(keys_view(live0)[j] == keys_of(col_e).take(i as int)[j]);
                }
            }
            assert(keys_view(live_hashes@) =~= keys_of(col_e).take(i as int + 1));
        }
        i = i + 1;
    }
    proof {
        assert(keys_of(col_e).take(col_e.len() as int) =~= keys_of(col_e));
    }
    live_hashes
}

/// Copy into `hot_store` every header the backup holds for a live block, in
/// registration order, split into transactions of at most five thousand
/// inserts to cap peak transaction size.
pub fn write_all_live_headers(
    hot_store: &mut Backend,
    backup_store: &Backend,
    live_hashes: &Vec<Vec<u8>>,
)
    requires
        old(hot_store).wf(),
    ensures
        final(hot_store).wf(),
        final(hot_store).contents() == insert_all(
            old(hot_store).contents(),
            DBCol::BlockHeader,
            live_filter(
                backup_store.col_entries(DBCol::BlockHeader),
                keys_view(live_hashes@),
            ),
        ),
{
    let ghost orig = hot_store.contents();
    let ghost live = keys_view(live_hashes@);
    let pairs = backup_store.iter(DBCol::BlockHeader);
    let ghost col_e = backup_store.col_entries(DBCol::BlockHeader);
    proof {
        lemma_pairs_view_index(pairs@);
    }
    let mut transaction = DBTransaction::new();
    let mut counter: usize = 0;
    let ghost mut flushed: Seq<(Seq<u8>, Seq<u8>)> = Seq::empty();
    let ghost mut pending: Seq<(Seq<u8>, Seq<u8>)> = Seq::empty();
    let mut i: usize = 0;
    proof {
        assert(col_e.take(0) =~= Seq::<(Seq<u8>, Seq<u8>)>::empty());
        assert(live_filter(col_e.take(0), live) =~= Seq::<(Seq<u8>, Seq<u8>)>::empty());
        assert(flushed + pending =~= live_filter(col_e.take(0), live));
    }
    while i < pairs.len()
        invariant
            hot_store.wf(),
            pairs_view(pairs@) == col_e,
            pairs_view(pairs@).len() == pairs@.len(),
            forall|j: int|
                0 <= j < pairs@.len() ==> #[trigger] pairs_view(pairs@)[j] == (
                pairs@[j].0@, pairs@[j].1@),
            live == keys_view(live_hashes@),
            i <= pairs@.len(),
            counter < 5000,
            hot_store.contents() == insert_all(orig, DBCol::BlockHeader, flushed),
            apply_ops(hot_store.contents(), transaction.ops@) == insert_all(
                orig,
                DBCol::BlockHeader,
                flushed + pending,
            ),
            flushed + pending == live_filter(col_e.take(i as int), live),
        decreases pairs@.len() - i,
    {
        proof {
            assert(col_e.take(i as int + 1).drop_last() =~= col_e.take(i as int));
            assert(col_e.take(i as int + 1).last() == col_e[i as int]);
        }
        proof {
            assert(pairs_view(pairs@)[i as int] == (pairs@[i as int].0@, pairs@[i as int].1@));
            assert(col_e[i as int] == (pairs@[i as int].0@, pairs@[i as int].1@));
        }
        let is_live = contains_key_bytes(live_hashes, pairs[i].0.as_slice());
        if is_live {
            let key_vec = slice_to_vec(pairs[i].0.as_slice());
            let value_vec = slice_to_vec(pairs[i].1.as_slice());
            let ghost kv = key_vec@;
            let ghost vv = value_vec@;
            let ghost ops0 = transaction.ops@;
            let ghost pend0 = pending;
            transaction.set(DBCol::BlockHeader, key_vec, value_vec);
            proof {
                let pair = col_e[i as int];
                assert(pair.0 == kv && pair.1 == vv);
                pending = pend0.push(pair);
                assert(transaction.ops@.drop_last() =~= ops0);
                assert(apply_ops(hot_store.contents(), transaction.ops@) == apply_op(
                    apply_ops(hot_store.contents(), ops0),
                    transaction.ops@.last(),
                ));
                assert(apply_op(apply_ops(hot_store.contents(), ops0), transaction.ops@.last())
                    == apply_ops(hot_store.contents(), ops0).insert(
                    (DBCol::BlockHeader, kv),
                    vv,
                ));
                assert((flushed + pending).drop_last() =~= flushed + pend0);
                assert((flushed + pending).last() == pair);
                assert(insert_all(orig, DBCol::BlockHeader, flushed + pending) == insert_all(
                    orig,
                    DBCol::BlockHeader,
                    flushed + pend0,
                ).insert((DBCol::BlockHeader, pair.0), pair.1));
                assert(live.contains(pair.0));
                assert(live_filter(col_e.take(i as int + 1), live) =~= live_filter(
                    col_e.take(i as int),
                    live,
                ) + seq![pair]);
                assert(flushed + pending =~= (flushed + pend0) + seq![pair]);
            }
            counter = counter + 1;
            if counter >= 5000 {
                let moved_transaction = transaction;
                hot_store.write(moved_transaction);
                transaction = DBTransaction::new();
                counter = 0;
                proof {
                    flushed = flushed + pending;
                    pending = Seq::empty();
                    assert(flushed + pending =~= flushed);
                    assert(apply_ops(hot_store.contents(), transaction.ops@)
                        == hot_store.contents());
                }
            }
        } else {
            proof {
                assert(live_filter(col_e.take(i as int + 1), live) =~= live_filter(
                    col_e.take(i as int),
                    live,
                ));
            }
        }
        i = i + 1;
    }
    proof {
        assert(col_e.take(col_e.len() as int) =~= col_e);
    }
    hot_store.write(transaction);
    proof {
        assert(hot_store.contents() == insert_all(orig, DBCol::BlockHeader, flushed + pending));
    }
}

/// Garbage-collect headers: compute the live block set from the hot store,
/// clear its header column, and repopulate it from the backup with only the
/// headers of live blocks. Afterwards the hot store's header column holds
/// exactly the backup's headers for live blocks, and no other column moved.
pub fn gc_headers(hot_store: &mut Backend, backup_store: &Backend)
    requires
        old(hot_store).wf(),
    ensures
        final(hot_store).wf(),
        final(hot_store).contents() == insert_all(
            old(hot_store).contents().restrict(
                Set::new(|ck: (DBCol, Seq<u8>)| ck.0 != DBCol::BlockHeader),
            ),
            DBCol::BlockHeader,
            live_filter(
                backup_store.col_entries(DBCol::BlockHeader),
                keys_of(old(hot_store).col_entries(DBCol::Block)),
            ),
        ),
{
    let live_hashes = load_all_live_blocks(hot_store);
    let mut delete_transaction = DBTransaction::new();
    delete_transaction.delete_all(DBCol::BlockHeader);
    let ghost del_ops = delete_transaction.ops@;
    hot_store.write(delete_transaction);
    proof {
        assert(del_ops.drop_last() =~= Seq::<DBOp>::empty());
        assert(apply_ops(old(hot_store).contents(), del_ops) == apply_op(
            apply_ops(old(hot_store).contents(), Seq::<DBOp>::empty()),
            del_ops.last(),
        ));
    }
    write_all_live_headers(hot_store, backup_store, &live_hashes);
}

} // verus!
