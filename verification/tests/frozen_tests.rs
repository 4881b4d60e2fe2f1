use tiered_store::backend::Backend;
use tiered_store::db::{DBCol, DBTransaction, StoreError};
use tiered_store::frozendb::{FrozenDB, FrozenPolicy};

fn backend_with(entries: &[(DBCol, &[u8], &[u8])]) -> Backend {
    let mut b = Backend::new();
    let mut tx = DBTransaction::new();
    for (col, k, v) in entries {
        tx.set(*col, k.to_vec(), v.to_vec());
    }
    b.write(tx);
    b
}

#[test]
fn test_reads_forward_unchanged() {
    let frozen = FrozenDB::new(backend_with(&[(DBCol::Block, b"k1", b"v1")]));
    assert_eq!(frozen.get_raw_bytes(DBCol::Block, b"k1"), Some(b"v1".to_vec()));
    assert_eq!(frozen.get_with_rc_stripped(DBCol::Block, b"k1"), Some(b"v1".to_vec()));
    assert_eq!(frozen.get_raw_bytes(DBCol::Block, b"k2"), None);
    assert_eq!(frozen.iter(DBCol::Block), vec![(b"k1".to_vec(), b"v1".to_vec())]);
    assert_eq!(frozen.iter_raw_bytes(DBCol::Block), vec![(b"k1".to_vec(), b"v1".to_vec())]);
    assert_eq!(frozen.iter_prefix(DBCol::Block, b"k"), vec![(b"k1".to_vec(), b"v1".to_vec())]);
    assert_eq!(
        frozen.iter_range(DBCol::Block, Some(b"k"), None),
        vec![(b"k1".to_vec(), b"v1".to_vec())]
    );
}

#[test]
fn test_write_rejected_and_contents_unchanged() {
    let mut frozen = FrozenDB::new(backend_with(&[
        (DBCol::Block, b"k1", b"v1"),
        (DBCol::BlockHeader, b"h1", b"w1"),
    ]));
    let before_block = frozen.iter(DBCol::Block);
    let before_header = frozen.iter(DBCol::BlockHeader);

    let mut tx = DBTransaction::new();
    tx.set(DBCol::Block, b"k2".to_vec(), b"v2".to_vec());
    tx.delete(DBCol::Block, b"k1".to_vec());
    assert_eq!(frozen.write(tx), Err(StoreError::ReadOnly));

    // Byte-for-byte unchanged, verified by snapshot comparison.
    assert_eq!(frozen.iter(DBCol::Block), before_block);
    assert_eq!(frozen.iter(DBCol::BlockHeader), before_header);
}

#[test]
fn test_delete_then_read_still_served() {
    // A frozen store over {k1: v1}: the read answers, the delete fails with
    // the read-only error, and the read still answers afterwards.
    let mut frozen = FrozenDB::new(backend_with(&[(DBCol::Block, b"k1", b"v1")]));
    assert_eq!(frozen.get_raw_bytes(DBCol::Block, b"k1"), Some(b"v1".to_vec()));
    let mut tx = DBTransaction::new();
    tx.delete(DBCol::Block, b"k1".to_vec());
    assert_eq!(frozen.write(tx), Err(StoreError::ReadOnly));
    assert_eq!(frozen.get_raw_bytes(DBCol::Block, b"k1"), Some(b"v1".to_vec()));
}

#[test]
fn test_strict_delete_and_insert_fails_entirely() {
    let mut frozen = FrozenDB::with_policy(
        backend_with(&[(DBCol::Block, b"k1", b"v1")]),
        FrozenPolicy::Strict,
    );
    let mut tx = DBTransaction::new();
    tx.delete(DBCol::Block, b"k1".to_vec());
    tx.set(DBCol::Block, b"k2".to_vec(), b"v2".to_vec());
    assert_eq!(frozen.write(tx), Err(StoreError::ReadOnly));
    // Zero effect: the delete did not land, and neither did the insert.
    assert_eq!(frozen.get_raw_bytes(DBCol::Block, b"k1"), Some(b"v1".to_vec()));
    assert_eq!(frozen.get_raw_bytes(DBCol::Block, b"k2"), None);
}

#[test]
fn test_permissive_applies_only_the_insert() {
    let mut frozen = FrozenDB::with_policy(
        backend_with(&[(DBCol::Block, b"k1", b"v1")]),
        FrozenPolicy::Permissive,
    );
    let mut tx = DBTransaction::new();
    tx.delete(DBCol::Block, b"k1".to_vec());
    tx.set(DBCol::Block, b"k2".to_vec(), b"v2".to_vec());
    assert_eq!(frozen.write(tx), Ok(()));
    // The delete was silently filtered out; the insert landed.
    assert_eq!(frozen.get_raw_bytes(DBCol::Block, b"k1"), Some(b"v1".to_vec()));
    assert_eq!(frozen.get_raw_bytes(DBCol::Block, b"k2"), Some(b"v2".to_vec()));
}

#[test]
fn test_permissive_filters_delete_all() {
    let mut frozen = FrozenDB::with_policy(
        backend_with(&[(DBCol::Block, b"k1", b"v1")]),
        FrozenPolicy::Permissive,
    );
    let mut tx = DBTransaction::new();
    tx.delete_all(DBCol::Block);
    assert_eq!(frozen.write(tx), Ok(()));
    assert_eq!(frozen.get_raw_bytes(DBCol::Block, b"k1"), Some(b"v1".to_vec()));
}

#[test]
fn test_repeated_failed_write_is_idempotent() {
    let mut frozen = FrozenDB::new(backend_with(&[(DBCol::Block, b"k1", b"v1")]));
    let before = frozen.iter(DBCol::Block);

    let mut tx1 = DBTransaction::new();
    tx1.delete(DBCol::Block, b"k1".to_vec());
    let first = frozen.write(tx1);

    let mut tx2 = DBTransaction::new();
    tx2.delete(DBCol::Block, b"k1".to_vec());
    let second = frozen.write(tx2);

    assert_eq!(first, Err(StoreError::ReadOnly));
    assert_eq!(second, first);
    assert_eq!(frozen.iter(DBCol::Block), before);
}

#[test]
fn test_admin_operations_forward() {
    let frozen = FrozenDB::new(backend_with(&[
        (DBCol::Block, b"k1", b"v1"),
        (DBCol::BlockHeader, b"h1", b"w1"),
    ]));
    frozen.flush();
    frozen.compact();
    assert_eq!(frozen.get_store_statistics().unwrap().entries, 2);
    let snap = frozen.create_checkpoint(Some(&vec![DBCol::Block]));
    assert_eq!(snap.get_raw_bytes(DBCol::Block, b"k1"), Some(b"v1".to_vec()));
    assert_eq!(snap.get_raw_bytes(DBCol::BlockHeader, b"h1"), None);
}
