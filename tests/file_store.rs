use clortho::file_store::{
    FileStore, FileStoreError, MemoryBlockStore, MemoryBlockStoreWriter, MemoryFileStore, Writable,
};
use std::ops::Deref;
use std::sync::Arc;

#[test]
fn memory_file_store_test_memory_block_store() {
    let mut block_store = MemoryFileStore::new();

    let mut writer = block_store.open_for_write("foobar").unwrap();
    writer.write_all(b"hello").unwrap();
    writer.write_all(b"world").unwrap();
    // A read gives nothing while the writer is open.
    assert!(block_store.open_for_read("foobar").is_err());
    writer.flush_and_close(&mut block_store).unwrap();

    // The blob can be opened now, more than once.
    let reader1 = block_store.open_for_read("foobar").unwrap();
    let reader2 = block_store.open_for_read("foobar").unwrap();
    assert_eq!(b"helloworld".as_ref(), reader1.deref());
    assert_eq!(b"helloworld".as_ref(), reader2.deref());

    // Now delete
    block_store.delete("foobar").unwrap();
    assert!(block_store.open_for_read("foobar").is_err());

    // Views opened before stay readable.
    assert_eq!(b"helloworld".as_ref(), reader1.deref());
}

#[test]
fn missing_blob_is_not_found() {
    let store = MemoryFileStore::new();
    assert_eq!(store.open_for_read("nope"), Err(FileStoreError::NotFound));
}

#[test]
fn deleted_blob_storage_is_released_with_last_view() {
    let mut store = MemoryFileStore::new();
    let mut w = store.open_for_write("x").unwrap();
    w.write_all(&[1, 2, 3]).unwrap();
    w.flush_and_close(&mut store).unwrap();
    let view = store.open_for_read("x").unwrap();
    assert_eq!(Arc::strong_count(&view), 2);
    store.delete("x").unwrap();
    // The store let go of the bytes: this view is the last owner.
    assert_eq!(Arc::strong_count(&view), 1);
    assert_eq!(view.as_slice(), &[1, 2, 3]);
}

#[test]
fn closing_after_delete_replaces_and_delete_keeps_others() {
    let mut store = MemoryFileStore::new();
    for (name, data) in [("a", b"1".as_ref()), ("b", b"2".as_ref()), ("a", b"3".as_ref())] {
        if store.open_for_read(name).is_ok() {
            store.delete(name).unwrap();
        }
        let mut w = store.open_for_write(name).unwrap();
        w.write_all(data).unwrap();
        w.flush_and_close(&mut store).unwrap();
    }
    assert_eq!(store.open_for_read("a").unwrap().as_slice(), b"3");
    store.delete("a").unwrap();
    store.delete("a").unwrap();
    assert!(store.open_for_read("a").is_err());
    assert_eq!(store.open_for_read("b").unwrap().as_slice(), b"2");
}

#[test]
fn memory_block_store_test_memory_block_store() {
    let mut block_store = MemoryBlockStore::new();
    {
        let mut writer: MemoryBlockStoreWriter = block_store.open_for_write("foobar").unwrap();
        writer.write_all(b"hello").unwrap();
        writer.write_all(b"world").unwrap();
        // A read should give us nothing while the writer is in scope
        assert!(block_store.open_for_read("foobar").is_err());
        writer.flush_and_close(&mut block_store).unwrap();
    }
    // we should be able to open the file for reading now, multiple times even
    let reader1 = block_store.open_for_read("foobar").unwrap();
    let reader2 = block_store.open_for_read("foobar").unwrap();
    assert_eq!(b"helloworld".as_ref(), reader1.deref());
    assert_eq!(b"helloworld".as_ref(), reader2.deref());

    // Now delete
    block_store.delete("foobar").unwrap();
    assert!(block_store.open_for_read("foobar").is_err());

    // But already open readers should still be able to be read
    assert_eq!(b"helloworld".as_ref(), reader1.deref());
}
