use clortho::file_store::{FileStore, FileStoreError, MemoryFileStore, Writable};
use clortho::lsm::{LsmIter, LsmLevel, LsmLevelIter, LsmLevelSnapshot, NamedSst, TableSnapshot};
use clortho::sst_writer::{SstInfo, SstWriter};
use std::sync::Arc;

/// Writes an SST of `records` into `store` under `id`.
fn write_sst(store: &mut MemoryFileStore, id: &str, records: &[(&[u8], &[u8])]) -> SstInfo {
    let mut writer = SstWriter::new();
    for (k, v) in records {
        writer.push_record(k, v).unwrap();
    }
    let (bytes, info) = writer.finish().unwrap();
    let mut file = store.open_for_write(id).unwrap();
    file.write_all(&bytes).unwrap();
    file.flush_and_close(store).unwrap();
    info
}

fn named(id: &str, info: SstInfo) -> Arc<NamedSst> {
    Arc::new(NamedSst { identifier: id.to_string(), info })
}

#[test]
fn test_lsm_iter() {
    let mut file_store = MemoryFileStore::new();
    let sst1 = write_sst(
        &mut file_store,
        "01",
        &[(b"a", b"1"), (b"b", b"1"), (b"e", b"1"), (b"g", b"1")],
    );
    let sst2 = write_sst(
        &mut file_store,
        "02",
        &[(b"c", b"2"), (b"d", b"2"), (b"f", b"2"), (b"g", b"2")],
    );

    let lsm_tree = TableSnapshot {
        levels: vec![
            Arc::new(LsmLevelSnapshot { ssts: vec![named("01", sst1)] }),
            Arc::new(LsmLevelSnapshot { ssts: vec![named("02", sst2)] }),
        ],
    };

    let mut lsm_iter = LsmIter::new(&lsm_tree, &file_store);

    // Test Seeks
    lsm_iter.seek(b"a").unwrap();
    assert_eq!(lsm_iter.get(), Some((b"a".as_ref(), b"1".as_ref())));

    lsm_iter.seek(b"c").unwrap();
    assert_eq!(lsm_iter.get(), Some((b"c".as_ref(), b"2".as_ref())));

    lsm_iter.seek(b"d").unwrap();
    assert_eq!(lsm_iter.get(), Some((b"d".as_ref(), b"2".as_ref())));

    lsm_iter.seek(b"z").unwrap();
    assert_eq!(lsm_iter.get(), None);

    // Test scan across levels
    lsm_iter.seek(b"b").unwrap();
    assert_eq!(lsm_iter.get(), Some((b"b".as_ref(), b"1".as_ref())));
    lsm_iter.advance().unwrap();
    assert_eq!(lsm_iter.get(), Some((b"c".as_ref(), b"2".as_ref())));
    lsm_iter.advance().unwrap();
    assert_eq!(lsm_iter.get(), Some((b"d".as_ref(), b"2".as_ref())));
    lsm_iter.advance().unwrap();
    assert_eq!(lsm_iter.get(), Some((b"e".as_ref(), b"1".as_ref())));
    lsm_iter.advance().unwrap();
    assert_eq!(lsm_iter.get(), Some((b"f".as_ref(), b"2".as_ref())));
    lsm_iter.advance().unwrap();
    assert_eq!(lsm_iter.get(), Some((b"g".as_ref(), b"1".as_ref())));
    lsm_iter.advance().unwrap();
    assert_eq!(lsm_iter.get(), Some((b"g".as_ref(), b"2".as_ref())));
    lsm_iter.advance().unwrap();
    assert_eq!(lsm_iter.get(), None);
}

fn two_ssts(file_store: &mut MemoryFileStore) -> LsmLevel {
    let sst1 = write_sst(file_store, "01", &[(b"a", b"1"), (b"b", b"2"), (b"c", b"3")]);
    let sst2 = write_sst(file_store, "02", &[(b"d", b"4"), (b"e", b"5"), (b"f", b"6")]);
    LsmLevel { ssts: vec![named("01", sst1), named("02", sst2)] }
}

#[test]
fn test_lsm_level_iter() {
    let mut file_store = MemoryFileStore::new();
    let lsm_level = two_ssts(&mut file_store);

    let mut lsm_iter = LsmLevelIter::new(&lsm_level, &file_store);

    // Test Seeks
    lsm_iter.seek(b"a").unwrap();
    assert_eq!(lsm_iter.get(), Some((b"a".as_ref(), b"1".as_ref())));

    lsm_iter.seek(b"c").unwrap();
    assert_eq!(lsm_iter.get(), Some((b"c".as_ref(), b"3".as_ref())));

    lsm_iter.seek(b"d").unwrap();
    assert_eq!(lsm_iter.get(), Some((b"d".as_ref(), b"4".as_ref())));

    lsm_iter.seek(b"z").unwrap();
    assert_eq!(lsm_iter.get(), None);

    // Test scan across ssts
    lsm_iter.seek(b"c").unwrap();
    assert_eq!(lsm_iter.get(), Some((b"c".as_ref(), b"3".as_ref())));
    lsm_iter.advance().unwrap();
    assert_eq!(lsm_iter.get(), Some((b"d".as_ref(), b"4".as_ref())));
    lsm_iter.advance().unwrap();
    assert_eq!(lsm_iter.get(), Some((b"e".as_ref(), b"5".as_ref())));
    lsm_iter.advance().unwrap();
    assert_eq!(lsm_iter.get(), Some((b"f".as_ref(), b"6".as_ref())));
    lsm_iter.advance().unwrap();
    assert_eq!(lsm_iter.get(), None);
}

#[test]
fn test_lsm_level_iter_pre() {
    let mut file_store = MemoryFileStore::new();
    let sst1 = write_sst(&mut file_store, "01", &[(b"a", b"1"), (b"b", b"2"), (b"c", b"3")]);
    let lsm_level = LsmLevel { ssts: vec![named("01", sst1)] };

    let mut lsm_iter = LsmLevelIter::new(&lsm_level, &file_store);

    lsm_iter.seek(b"").unwrap();
    assert_eq!(lsm_iter.get(), Some((b"a".as_ref(), b"1".as_ref())));
}

#[test]
fn level_iter_seek_between_files_goes_to_next_file() {
    let mut file_store = MemoryFileStore::new();
    let sst1 = write_sst(&mut file_store, "01", &[(b"a", b"1"), (b"c", b"3")]);
    let sst2 = write_sst(&mut file_store, "02", &[(b"m", b"4")]);
    let level = LsmLevel { ssts: vec![named("01", sst1), named("02", sst2)] };
    let mut it = LsmLevelIter::new(&level, &file_store);
    it.seek(b"d").unwrap();
    assert_eq!(it.get(), Some((b"m".as_ref(), b"4".as_ref())));
    it.seek(b"b").unwrap();
    assert_eq!(it.get(), Some((b"c".as_ref(), b"3".as_ref())));
    it.advance().unwrap();
    assert_eq!(it.get(), Some((b"m".as_ref(), b"4".as_ref())));
}

#[test]
fn level_iter_fails_for_missing_file() {
    let mut file_store = MemoryFileStore::new();
    let level = two_ssts(&mut file_store);
    file_store.delete("02").unwrap();
    let mut it = LsmLevelIter::new(&level, &file_store);
    it.seek(b"c").unwrap();
    assert_eq!(it.get(), Some((b"c".as_ref(), b"3".as_ref())));
    assert_eq!(it.advance(), Err(FileStoreError::NotFound));
    assert_eq!(it.seek(b"e"), Err(FileStoreError::NotFound));
}

#[test]
fn tree_iter_equal_keys_fresher_level_first() {
    let mut file_store = MemoryFileStore::new();
    let sst1 = write_sst(&mut file_store, "l0", &[(b"g", b"1")]);
    let sst2 = write_sst(&mut file_store, "l1", &[(b"g", b"2")]);
    let tree = TableSnapshot {
        levels: vec![
            Arc::new(LsmLevelSnapshot { ssts: vec![named("l0", sst1)] }),
            Arc::new(LsmLevelSnapshot { ssts: vec![named("l1", sst2)] }),
        ],
    };
    let mut it = LsmIter::new(&tree, &file_store);
    assert_eq!(it.get(), None);
    it.seek(b"").unwrap();
    assert_eq!(it.get(), Some((b"g".as_ref(), b"1".as_ref())));
    it.advance().unwrap();
    assert_eq!(it.get(), Some((b"g".as_ref(), b"2".as_ref())));
    it.advance().unwrap();
    assert_eq!(it.get(), None);
    it.advance().unwrap();
    assert_eq!(it.get(), None);
}

#[test]
fn empty_level_and_empty_tree_hold_nothing() {
    let file_store = MemoryFileStore::new();
    let level = LsmLevel { ssts: vec![] };
    let mut it = LsmLevelIter::new(&level, &file_store);
    it.seek(b"").unwrap();
    assert_eq!(it.get(), None);
    it.advance().unwrap();
    assert_eq!(it.get(), None);

    let tree = TableSnapshot { levels: vec![] };
    let mut it = LsmIter::new(&tree, &file_store);
    it.seek(b"a").unwrap();
    assert_eq!(it.get(), None);
    it.advance().unwrap();
    assert_eq!(it.get(), None);
}

#[test]
fn tree_iter_merges_many_files_in_key_order() {
    let mut file_store = MemoryFileStore::new();
    // Level 0: one file of even keys; level 1: two files of odd keys.
    let evens: Vec<([u8; 1], [u8; 1])> = (0..20u8).step_by(2).map(|i| ([i], [0])).collect();
    let odds_a: Vec<([u8; 1], [u8; 1])> = (1..10u8).step_by(2).map(|i| ([i], [1])).collect();
    let odds_b: Vec<([u8; 1], [u8; 1])> = (11..20u8).step_by(2).map(|i| ([i], [1])).collect();
    let as_refs = |v: &Vec<([u8; 1], [u8; 1])>| -> Vec<(Vec<u8>, Vec<u8>)> {
        v.iter().map(|(k, x)| (k.to_vec(), x.to_vec())).collect()
    };
    let mut infos = vec![];
    for (id, recs) in [("e", as_refs(&evens)), ("oa", as_refs(&odds_a)), ("ob", as_refs(&odds_b))] {
        let pairs: Vec<(&[u8], &[u8])> = recs.iter().map(|(k, v)| (k.as_slice(), v.as_slice())).collect();
        infos.push(write_sst(&mut file_store, id, &pairs));
    }
    let ob = infos.pop().unwrap();
    let oa = infos.pop().unwrap();
    let e = infos.pop().unwrap();
    let tree = TableSnapshot {
        levels: vec![
            Arc::new(LsmLevelSnapshot { ssts: vec![named("e", e)] }),
            Arc::new(LsmLevelSnapshot { ssts: vec![named("oa", oa), named("ob", ob)] }),
        ],
    };
    let mut it = LsmIter::new(&tree, &file_store);
    it.seek(b"").unwrap();
    for i in 0..20u8 {
        let expected_value = [i % 2];
        assert_eq!(it.get(), Some(([i].as_ref(), expected_value.as_ref())));
        it.advance().unwrap();
    }
    assert_eq!(it.get(), None);
}
