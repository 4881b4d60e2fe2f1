use tiered_store::backend::Backend;
use tiered_store::db::{DBCol, DBTransaction};

fn backend_with(entries: &[(DBCol, &[u8], &[u8])]) -> Backend {
    let mut b = Backend::new();
    let mut tx = DBTransaction::new();
    for (col, k, v) in entries {
        tx.set(*col, k.to_vec(), v.to_vec());
    }
    b.write(tx);
    b
}

#[test]
fn test_get_returns_stored_value() {
    let b = backend_with(&[(DBCol::Block, b"k1", b"v1")]);
    assert_eq!(b.get_raw_bytes(DBCol::Block, b"k1"), Some(b"v1".to_vec()));
    assert_eq!(b.get_raw_bytes(DBCol::Block, b"k2"), None);
    // Columns do not share a key namespace.
    assert_eq!(b.get_raw_bytes(DBCol::BlockHeader, b"k1"), None);
}

#[test]
fn test_later_set_overwrites() {
    let b = backend_with(&[(DBCol::Block, b"k", b"old"), (DBCol::Block, b"k", b"new")]);
    assert_eq!(b.get_raw_bytes(DBCol::Block, b"k"), Some(b"new".to_vec()));
}

#[test]
fn test_rc_stripped_aliases_raw() {
    let b = backend_with(&[(DBCol::Block, b"k", b"v")]);
    assert_eq!(
        b.get_with_rc_stripped(DBCol::Block, b"k"),
        b.get_raw_bytes(DBCol::Block, b"k")
    );
}

#[test]
fn test_delete_removes_only_named_key() {
    let mut b = backend_with(&[(DBCol::Block, b"k1", b"v1"), (DBCol::Block, b"k2", b"v2")]);
    let mut tx = DBTransaction::new();
    tx.delete(DBCol::Block, b"k1".to_vec());
    b.write(tx);
    assert_eq!(b.get_raw_bytes(DBCol::Block, b"k1"), None);
    assert_eq!(b.get_raw_bytes(DBCol::Block, b"k2"), Some(b"v2".to_vec()));
}

#[test]
fn test_delete_absent_key_is_noop() {
    let mut b = backend_with(&[(DBCol::Block, b"k1", b"v1")]);
    let mut tx = DBTransaction::new();
    tx.delete(DBCol::Block, b"missing".to_vec());
    b.write(tx);
    assert_eq!(b.get_raw_bytes(DBCol::Block, b"k1"), Some(b"v1".to_vec()));
}

#[test]
fn test_delete_all_clears_one_column() {
    let mut b = backend_with(&[
        (DBCol::Block, b"k1", b"v1"),
        (DBCol::BlockHeader, b"h1", b"w1"),
        (DBCol::Block, b"k2", b"v2"),
    ]);
    let mut tx = DBTransaction::new();
    tx.delete_all(DBCol::Block);
    b.write(tx);
    assert_eq!(b.get_raw_bytes(DBCol::Block, b"k1"), None);
    assert_eq!(b.get_raw_bytes(DBCol::Block, b"k2"), None);
    assert_eq!(b.get_raw_bytes(DBCol::BlockHeader, b"h1"), Some(b"w1".to_vec()));
}

#[test]
fn test_iter_lists_column_in_storage_order() {
    let b = backend_with(&[
        (DBCol::Block, b"b", b"2"),
        (DBCol::BlockHeader, b"h", b"x"),
        (DBCol::Block, b"a", b"1"),
    ]);
    let got = b.iter(DBCol::Block);
    assert_eq!(
        got,
        vec![(b"b".to_vec(), b"2".to_vec()), (b"a".to_vec(), b"1".to_vec())]
    );
    assert_eq!(b.iter_raw_bytes(DBCol::Block), got);
}

#[test]
fn test_iter_prefix_keeps_only_prefixed_keys() {
    let b = backend_with(&[
        (DBCol::Block, b"ab", b"1"),
        (DBCol::Block, b"ac", b"2"),
        (DBCol::Block, b"b", b"3"),
        (DBCol::Block, b"a", b"4"),
    ]);
    assert_eq!(
        b.iter_prefix(DBCol::Block, b"a"),
        vec![
            (b"ab".to_vec(), b"1".to_vec()),
            (b"ac".to_vec(), b"2".to_vec()),
            (b"a".to_vec(), b"4".to_vec()),
        ]
    );
    assert_eq!(b.iter_prefix(DBCol::Block, b"ab"), vec![(b"ab".to_vec(), b"1".to_vec())]);
}

#[test]
fn test_iter_range_is_half_open_lexicographic() {
    let b = backend_with(&[
        (DBCol::Block, &[0x00], b"a"),
        (DBCol::Block, &[0x01, 0x00], b"b"),
        (DBCol::Block, &[0x01, 0xff], b"c"),
        (DBCol::Block, &[0x02], b"d"),
    ]);
    // [0x01, 0x02): the lower bound is inclusive, the upper exclusive.
    assert_eq!(
        b.iter_range(DBCol::Block, Some(&[0x01]), Some(&[0x02])),
        vec![
            (vec![0x01, 0x00], b"b".to_vec()),
            (vec![0x01, 0xff], b"c".to_vec()),
        ]
    );
    // Open bounds on either side.
    assert_eq!(b.iter_range(DBCol::Block, None, Some(&[0x01])).len(), 1);
    assert_eq!(b.iter_range(DBCol::Block, Some(&[0x01, 0xff]), None).len(), 2);
    assert_eq!(b.iter_range(DBCol::Block, None, None).len(), 4);
}

#[test]
fn test_statistics_report_entry_count() {
    let b = backend_with(&[(DBCol::Block, b"k1", b"v1"), (DBCol::BlockInfo, b"k2", b"v2")]);
    let st = b.get_store_statistics().unwrap();
    assert_eq!(st.entries, 2);
}

#[test]
fn test_checkpoint_full_and_column_subset() {
    let b = backend_with(&[
        (DBCol::Block, b"k1", b"v1"),
        (DBCol::BlockHeader, b"h1", b"w1"),
    ]);
    let full = b.create_checkpoint(None);
    assert_eq!(full.get_raw_bytes(DBCol::Block, b"k1"), Some(b"v1".to_vec()));
    assert_eq!(full.get_raw_bytes(DBCol::BlockHeader, b"h1"), Some(b"w1".to_vec()));

    let only_headers = b.create_checkpoint(Some(&vec![DBCol::BlockHeader]));
    assert_eq!(only_headers.get_raw_bytes(DBCol::Block, b"k1"), None);
    assert_eq!(
        only_headers.get_raw_bytes(DBCol::BlockHeader, b"h1"),
        Some(b"w1".to_vec())
    );
}
