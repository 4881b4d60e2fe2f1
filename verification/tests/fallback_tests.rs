use tiered_store::backend::Backend;
use tiered_store::db::{DBCol, DBTransaction};
use tiered_store::db_with_backups::{ColumnBackupConfig, DBWithBackups};

fn backend_with(entries: &[(DBCol, &[u8], &[u8])]) -> Backend {
    let mut b = Backend::new();
    let mut tx = DBTransaction::new();
    for (col, k, v) in entries {
        tx.set(*col, k.to_vec(), v.to_vec());
    }
    b.write(tx);
    b
}

fn counter_of(store: &DBWithBackups, col: DBCol) -> u64 {
    for entry in &store.backups {
        if entry.column == col {
            return entry.reads;
        }
    }
    0
}

#[test]
fn test_no_backups_matches_primary() {
    let primary = backend_with(&[(DBCol::Block, b"k1", b"v1")]);
    let alone = backend_with(&[(DBCol::Block, b"k1", b"v1")]);
    let mut store = DBWithBackups::new(primary, Vec::new());
    assert_eq!(
        store.get_raw_bytes(DBCol::Block, b"k1"),
        alone.get_raw_bytes(DBCol::Block, b"k1")
    );
    assert_eq!(
        store.get_raw_bytes(DBCol::Block, b"absent"),
        alone.get_raw_bytes(DBCol::Block, b"absent")
    );
}

#[test]
fn test_primary_hit_returns_primary_value_and_counter_stays() {
    let primary = backend_with(&[(DBCol::Block, b"k", b"primary")]);
    let backup = backend_with(&[(DBCol::Block, b"k", b"backup")]);
    let mut store = DBWithBackups::new(
        primary,
        vec![ColumnBackupConfig { column: DBCol::Block, db: backup }],
    );
    assert_eq!(store.get_raw_bytes(DBCol::Block, b"k"), Some(b"primary".to_vec()));
    assert_eq!(counter_of(&store, DBCol::Block), 0);
}

#[test]
fn test_first_backup_wins_and_counter_increments_once() {
    let primary = Backend::new();
    let backup_a = backend_with(&[(DBCol::Block, b"k", b"from_a")]);
    let backup_b = backend_with(&[(DBCol::Block, b"k", b"from_b")]);
    let mut store = DBWithBackups::new(
        primary,
        vec![
            ColumnBackupConfig { column: DBCol::Block, db: backup_a },
            ColumnBackupConfig { column: DBCol::Block, db: backup_b },
        ],
    );
    // Registration order decides: the first backup holding the key answers.
    assert_eq!(store.get_raw_bytes(DBCol::Block, b"k"), Some(b"from_a".to_vec()));
    assert_eq!(counter_of(&store, DBCol::Block), 1);
}

#[test]
fn test_second_backup_answers_when_first_misses() {
    let primary = Backend::new();
    let backup_a = backend_with(&[(DBCol::Block, b"other", b"x")]);
    let backup_b = backend_with(&[(DBCol::Block, b"k", b"from_b")]);
    let mut store = DBWithBackups::new(
        primary,
        vec![
            ColumnBackupConfig { column: DBCol::Block, db: backup_a },
            ColumnBackupConfig { column: DBCol::Block, db: backup_b },
        ],
    );
    assert_eq!(store.get_raw_bytes(DBCol::Block, b"k"), Some(b"from_b".to_vec()));
    assert_eq!(counter_of(&store, DBCol::Block), 1);
}

#[test]
fn test_total_miss_returns_none_and_counter_stays() {
    let primary = Backend::new();
    let backup = backend_with(&[(DBCol::Block, b"other", b"x")]);
    let mut store = DBWithBackups::new(
        primary,
        vec![ColumnBackupConfig { column: DBCol::Block, db: backup }],
    );
    assert_eq!(store.get_raw_bytes(DBCol::Block, b"k"), None);
    assert_eq!(counter_of(&store, DBCol::Block), 0);
}

#[test]
fn test_unregistered_column_resolves_against_primary_only() {
    let primary = Backend::new();
    let backup = backend_with(&[(DBCol::BlockHeader, b"h", b"w")]);
    let mut store = DBWithBackups::new(
        primary,
        vec![ColumnBackupConfig { column: DBCol::Block, db: backup }],
    );
    // The backup is registered for Block, not BlockHeader.
    assert_eq!(store.get_raw_bytes(DBCol::BlockHeader, b"h"), None);
}

#[test]
fn test_backup_key_never_appears_in_iteration() {
    let primary = backend_with(&[(DBCol::Block, b"p", b"1")]);
    let backup = backend_with(&[(DBCol::Block, b"only_in_backup", b"2")]);
    let mut store = DBWithBackups::new(
        primary,
        vec![ColumnBackupConfig { column: DBCol::Block, db: backup }],
    );
    // The key is served by point lookup...
    assert_eq!(
        store.get_raw_bytes(DBCol::Block, b"only_in_backup"),
        Some(b"2".to_vec())
    );
    // ...but bulk iteration reflects only the primary.
    let expect = vec![(b"p".to_vec(), b"1".to_vec())];
    assert_eq!(store.iter(DBCol::Block), expect);
    assert_eq!(store.iter_raw_bytes(DBCol::Block), expect);
    assert_eq!(store.iter_prefix(DBCol::Block, b"only"), Vec::new());
    assert_eq!(store.iter_range(DBCol::Block, None, None), expect);
}

#[test]
fn test_write_reaches_primary_and_no_backup() {
    let primary = Backend::new();
    let backup = backend_with(&[(DBCol::Block, b"b", b"x")]);
    let mut store = DBWithBackups::new(
        primary,
        vec![ColumnBackupConfig { column: DBCol::Block, db: backup }],
    );
    let mut tx = DBTransaction::new();
    tx.set(DBCol::Block, b"new".to_vec(), b"val".to_vec());
    store.write(tx).unwrap();
    assert_eq!(store.get_raw_bytes(DBCol::Block, b"new"), Some(b"val".to_vec()));
    assert_eq!(store.iter(DBCol::Block), vec![(b"new".to_vec(), b"val".to_vec())]);
    // The backup kept exactly what it held before.
    assert_eq!(
        store.backups[0].dbs[0].iter(DBCol::Block),
        vec![(b"b".to_vec(), b"x".to_vec())]
    );
}

#[test]
fn test_headers_fallback_end_to_end() {
    // Primary empty; the header column falls back to one backup.
    let primary = Backend::new();
    let backup_a = backend_with(&[(DBCol::BlockHeader, b"h1", b"v1")]);
    let mut store = DBWithBackups::new(
        primary,
        vec![ColumnBackupConfig { column: DBCol::BlockHeader, db: backup_a }],
    );
    assert_eq!(store.get_raw_bytes(DBCol::BlockHeader, b"h1"), Some(b"v1".to_vec()));
    assert_eq!(counter_of(&store, DBCol::BlockHeader), 1);
    assert_eq!(store.get_raw_bytes(DBCol::BlockHeader, b"h2"), None);
    assert_eq!(counter_of(&store, DBCol::BlockHeader), 1);
}

#[test]
fn test_admin_operations_forward_to_primary() {
    let primary = backend_with(&[(DBCol::Block, b"k", b"v")]);
    let backup = backend_with(&[(DBCol::Block, b"b1", b"1"), (DBCol::Block, b"b2", b"2")]);
    let store = DBWithBackups::new(
        primary,
        vec![ColumnBackupConfig { column: DBCol::Block, db: backup }],
    );
    store.flush();
    store.compact();
    // Statistics come from the primary, not from the backups.
    assert_eq!(store.get_store_statistics().unwrap().entries, 1);
    let snap = store.create_checkpoint(None);
    assert_eq!(snap.get_raw_bytes(DBCol::Block, b"k"), Some(b"v".to_vec()));
    assert_eq!(snap.get_raw_bytes(DBCol::Block, b"b1"), None);
}
