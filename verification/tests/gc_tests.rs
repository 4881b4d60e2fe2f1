use tiered_store::adjust_database::{gc_headers, load_all_live_blocks, write_all_live_headers};
use tiered_store::backend::Backend;
use tiered_store::db::{DBCol, DBTransaction};

fn backend_with(entries: &[(DBCol, &[u8], &[u8])]) -> Backend {
    let mut b = Backend::new();
    let mut tx = DBTransaction::new();
    for (col, k, v) in entries {
        tx.set(*col, k.to_vec(), v.to_vec());
    }
    b.write(tx);
    b
}

#[test]
fn test_load_all_live_blocks_collects_block_keys() {
    let store = backend_with(&[
        (DBCol::Block, b"a", b"1"),
        (DBCol::BlockHeader, b"h", b"x"),
        (DBCol::Block, b"b", b"2"),
    ]);
    assert_eq!(load_all_live_blocks(&store), vec![b"a".to_vec(), b"b".to_vec()]);
}

#[test]
fn test_write_all_live_headers_copies_only_live_keys() {
    let mut hot = backend_with(&[(DBCol::BlockMisc, b"tip", b"t")]);
    let backup = backend_with(&[
        (DBCol::BlockHeader, b"a", b"ha"),
        (DBCol::BlockHeader, b"stale", b"hs"),
        (DBCol::BlockHeader, b"b", b"hb"),
    ]);
    let live = vec![b"a".to_vec(), b"b".to_vec()];
    write_all_live_headers(&mut hot, &backup, &live);
    assert_eq!(hot.get_raw_bytes(DBCol::BlockHeader, b"a"), Some(b"ha".to_vec()));
    assert_eq!(hot.get_raw_bytes(DBCol::BlockHeader, b"b"), Some(b"hb".to_vec()));
    assert_eq!(hot.get_raw_bytes(DBCol::BlockHeader, b"stale"), None);
    // Unrelated columns are untouched.
    assert_eq!(hot.get_raw_bytes(DBCol::BlockMisc, b"tip"), Some(b"t".to_vec()));
}

#[test]
fn test_gc_headers_end_to_end() {
    // The hot store knows blocks a and b; its header column holds one live
    // header and one orphan. The backup holds headers for more blocks than
    // are live.
    let mut hot = backend_with(&[
        (DBCol::Block, b"a", b"1"),
        (DBCol::Block, b"b", b"2"),
        (DBCol::BlockHeader, b"a", b"old_a"),
        (DBCol::BlockHeader, b"orphan", b"old_o"),
        (DBCol::BlockMisc, b"tip", b"t"),
    ]);
    let backup = backend_with(&[
        (DBCol::BlockHeader, b"a", b"ha"),
        (DBCol::BlockHeader, b"b", b"hb"),
        (DBCol::BlockHeader, b"dead", b"hd"),
    ]);
    gc_headers(&mut hot, &backup);

    // The header column was rewritten to exactly the backup's headers of
    // live blocks.
    assert_eq!(
        hot.iter(DBCol::BlockHeader),
        vec![(b"a".to_vec(), b"ha".to_vec()), (b"b".to_vec(), b"hb".to_vec())]
    );
    assert_eq!(hot.get_raw_bytes(DBCol::BlockHeader, b"orphan"), None);
    assert_eq!(hot.get_raw_bytes(DBCol::BlockHeader, b"dead"), None);
    // Every other column kept its contents.
    assert_eq!(hot.get_raw_bytes(DBCol::Block, b"a"), Some(b"1".to_vec()));
    assert_eq!(hot.get_raw_bytes(DBCol::Block, b"b"), Some(b"2".to_vec()));
    assert_eq!(hot.get_raw_bytes(DBCol::BlockMisc, b"tip"), Some(b"t".to_vec()));
}

#[test]
fn test_gc_headers_with_empty_live_set_clears_headers() {
    let mut hot = backend_with(&[(DBCol::BlockHeader, b"h", b"x")]);
    let backup = backend_with(&[(DBCol::BlockHeader, b"h", b"x")]);
    gc_headers(&mut hot, &backup);
    assert_eq!(hot.iter(DBCol::BlockHeader), Vec::new());
}
