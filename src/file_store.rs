//! Named, immutable blobs: written once, then read through shared views.
//!
//! A view is an `Arc` of the blob's bytes, so a view taken before a delete
//! stays readable, and the bytes are freed when the last view is dropped.
use vstd::prelude::*;
use std::sync::Arc;
use crate::sst_reader::ByteView;
use crate::sst_writer::push_all;

verus! {

/// Why a file store operation failed.
#[derive(Clone, Copy, Debug, PartialEq, Eq, Structural)]
pub enum FileStoreError {
    /// No blob has that identifier.
    NotFound,
    /// The storage below the store failed.
    Io,
}

/// A blob being written.
pub trait Writable {
    /// Appends bytes.
    fn write_all(&mut self, buf: &[u8]) -> Result<(), FileStoreError>;
}

/// A store of named, immutable blobs.
pub trait FileStore {
    /// A blob being written.
    type W: Writable;

    /// A view of a blob's bytes.
    type R: ByteView;

    /// The blobs the store holds, by identifier.
    spec fn files(&self) -> Map<Seq<char>, Seq<u8>>;

    /// Starts a new blob; it becomes readable once closed.
    fn open_for_write(&self, identifier: &str) -> Result<Self::W, FileStoreError>;

    /// Opens a blob for reading: a view of the bytes stored under
    /// `identifier`.
    fn open_for_read(&self, identifier: &str) -> (r: Result<Self::R, FileStoreError>)
        ensures
            r matches Ok(v) ==> self.files().contains_key(identifier@) && v.view_bytes()
                == self.files()[identifier@],
    ;

    /// Removes a blob; views already handed out stay readable.
    fn delete(&mut self, identifier: &str) -> (r: Result<(), FileStoreError>)
        ensures
            r is Ok ==> final(self).files() == old(self).files().remove(identifier@),
    ;
}

/// A blob being written to a `MemoryFileStore`.
pub struct MemoryFileStoreWriter {
    buffer: Vec<u8>,
    identifier: String,
}

impl MemoryFileStoreWriter {
    /// The bytes written so far.
    pub closed spec fn written(&self) -> Seq<u8> {
        self.buffer@
    }

    /// The identifier the blob is published under.
    pub closed spec fn name(&self) -> Seq<char> {
        self.identifier@
    }

    /// Publishes the blob in `store`; its identifier must not name a blob
    /// the store holds.
    pub fn flush_and_close(self, store: &mut MemoryFileStore) -> (r: Result<(), FileStoreError>)
        requires
            !old(store).files().contains_key(self.name()),
        ensures
            r is Ok,
            final(store).files() == old(store).files().insert(self.name(), self.written()),
    {
        store.publish(self.identifier, self.buffer);
        Ok(())
    }
}

impl Writable for MemoryFileStoreWriter {
    fn write_all(&mut self, buf: &[u8]) -> (r: Result<(), FileStoreError>)
        ensures
            r is Ok,
            final(self).written() == old(self).written() + buf@,
            final(self).name() == old(self).name(),
    {
        push_all(&mut self.buffer, buf);
        Ok(())
    }
}

/// The in-memory store under its block-store name.
pub type MemoryBlockStore = MemoryFileStore;

/// A blob being written to a `MemoryBlockStore`.
pub type MemoryBlockStoreWriter = MemoryFileStoreWriter;

/// An in-memory file store.
pub struct MemoryFileStore {
    entries: Vec<(String, Arc<Vec<u8>>)>,
    model: Ghost<Map<Seq<char>, Seq<u8>>>,
}

/// One entry per identifier, and the model holds exactly the entries.
spec fn entries_match(e: Seq<(String, Arc<Vec<u8>>)>, m: Map<Seq<char>, Seq<u8>>) -> bool {
    &&& forall|i: int, j: int| 0 <= i < j < e.len() ==> (#[trigger] e[i]).0@ != (#[trigger] e[j]).0@
    &&& forall|i: int|
        0 <= i < e.len() ==> m.contains_key((#[trigger] e[i]).0@) && m[e[i].0@] == (*e[i].1)@
    &&& forall|k: Seq<char>| #[trigger]
        m.contains_key(k) ==> exists|i: int| 0 <= i < e.len() && (#[trigger] e[i]).0@ == k
}

impl MemoryFileStore {
    #[verifier::type_invariant]
    spec fn wf(self) -> bool {
        entries_match(self.entries@, self.model@)
    }

    /// An empty store.
    pub fn new() -> (r: MemoryFileStore)
        ensures
            r.files() == Map::<Seq<char>, Seq<u8>>::empty(),
    {
        MemoryFileStore { entries: Vec::new(), model: Ghost(Map::empty()) }
    }

    /// Where the entry named `identifier` is, if any.
    fn find(entries: &Vec<(String, Arc<Vec<u8>>)>, identifier: &String) -> (r: Option<usize>)
        ensures
            match r {
                Some(i) => i < entries@.len() && entries@[i as int].0@ == identifier@,
                None => forall|j: int| 0 <= j < entries@.len() ==> (#[trigger] entries@[j]).0@ != identifier@,
            },
    {
        let mut i: usize = 0;
        while i < entries.len()
            invariant
                i <= entries@.len(),
                forall|j: int| 0 <= j < i ==> (#[trigger] entries@[j]).0@ != identifier@,
            decreases entries@.len() - i,
        {
            if entries[i].0 == *identifier {
                return Some(i);
            }
            i = i + 1;
        }
        None
    }

    fn publish(&mut self, identifier: String, bytes: Vec<u8>)
        ensures
            final(self).files() == old(self).files().insert(identifier@, bytes@),
    {
        proof {
            use_type_invariant(&*self);
        }
        let mut taken = MemoryFileStore::new();
        std::mem::swap(self, &mut taken);
        let MemoryFileStore { mut entries, model } = taken;
        let ghost m0 = model@;
        let ghost e0 = entries@;
        let ghost name = identifier@;
        let ghost data = bytes@;
        let ghost m1 = m0.insert(name, data);
        match Self::find(&entries, &identifier) {
            Some(i) => {
                entries.set(i, (identifier, Arc::new(bytes)));
                proof {
                    let e = entries@;
                    assert forall|k: Seq<char>| #[trigger] m1.contains_key(k) implies exists|j: int|
                        0 <= j < e.len() && (#[trigger] e[j]).0@ == k by {
                        if k != name {
                            let j = choose|j: int| 0 <= j < e0.len() && (#[trigger] e0[j]).0@ == k;
                            assert(e[j] == e0[j]);
                        } else {
                            assert(e[i as int].0@ == k);
                        }
                    }
                    assert forall|a: int, b: int| 0 <= a < b < e.len() implies (#[trigger] e[a]).0@
                        != (#[trigger] e[b]).0@ by {
                        if a != i && b != i {
                            assert(e[a] == e0[a] && e[b] == e0[b]);
                        } else if a == i {
                            assert(e[b] == e0[b]);
                        } else {
                            assert(e[a] == e0[a]);
                        }
                    }
                    assert forall|a: int| 0 <= a < e.len() implies m1.contains_key(
                        (#[trigger] e[a]).0@,
                    ) && m1[e[a].0@] == (*e[a].1)@ by {
                        if a != i {
                            assert(e[a] == e0[a]);
                        }
                    }
                }
            },
            None => {
                entries.push((identifier, Arc::new(bytes)));
                proof {
                    let e = entries@;
                    let n = e.len() - 1;
                    assert forall|k: Seq<char>| #[trigger] m1.contains_key(k) implies exists|j: int|
                        0 <= j < e.len() && (#[trigger] e[j]).0@ == k by {
                        if k != name {
                            let j = choose|j: int| 0 <= j < e0.len() && (#[trigger] e0[j]).0@ == k;
                            assert(e[j] == e0[j]);
                        } else {
                            assert(e[n].0@ == k);
                        }
                    }
                    assert forall|a: int, b: int| 0 <= a < b < e.len() implies (#[trigger] e[a]).0@
                        != (#[trigger] e[b]).0@ by {
                        assert(e[a] == e0[a]);
                        if b < n {
                            assert(e[b] == e0[b]);
                        }
                    }
                    assert forall|a: int| 0 <= a < e.len() implies m1.contains_key(
                        (#[trigger] e[a]).0@,
                    ) && m1[e[a].0@] == (*e[a].1)@ by {
                        if a < n {
                            assert(e[a] == e0[a]);
                        }
                    }
                }
            },
        }
        *self = MemoryFileStore { entries, model: Ghost(m1) };
    }
}

impl FileStore for MemoryFileStore {
    type W = MemoryFileStoreWriter;

    type R = Arc<Vec<u8>>;

    closed spec fn files(&self) -> Map<Seq<char>, Seq<u8>> {
        self.model@
    }

    /// Starts an empty blob named `identifier`.
    fn open_for_write(&self, identifier: &str) -> (r: Result<MemoryFileStoreWriter, FileStoreError>)
        ensures
            r matches Ok(w) && w.name() == identifier@ && w.written() == Seq::<u8>::empty(),
    {
        Ok(MemoryFileStoreWriter { buffer: Vec::new(), identifier: identifier.to_owned() })
    }

    /// A view of the blob named `identifier`, or `NotFound`.
    fn open_for_read(&self, identifier: &str) -> (r: Result<Arc<Vec<u8>>, FileStoreError>)
        ensures
            match r {
                Ok(v) => self.files().contains_key(identifier@) && (*v)@ == self.files()[identifier@],
                Err(e) => e == FileStoreError::NotFound && !self.files().contains_key(identifier@),
            },
    {
        proof {
            use_type_invariant(self);
        }
        let name = identifier.to_owned();
        match Self::find(&self.entries, &name) {
            Some(i) => Ok(self.entries[i].1.clone()),
            None => Err(FileStoreError::NotFound),
        }
    }

    /// Removes the blob named `identifier`; views already handed out keep
    /// their bytes.
    fn delete(&mut self, identifier: &str) -> (r: Result<(), FileStoreError>)
        ensures
            r is Ok,
            final(self).files() == old(self).files().remove(identifier@),
    {
        proof {
            use_type_invariant(&*self);
        }
        let mut taken = MemoryFileStore::new();
        std::mem::swap(self, &mut taken);
        let MemoryFileStore { mut entries, model } = taken;
        let ghost m0 = model@;
        let ghost e0 = entries@;
        let name = identifier.to_owned();
        let ghost m1 = m0.remove(name@);
        match Self::find(&entries, &name) {
            Some(i) => {
                entries.remove(i);
                proof {
                    let e = entries@;
                    assert forall|k: Seq<char>| #[trigger] m1.contains_key(k) implies exists|j: int|
                        0 <= j < e.len() && (#[trigger] e[j]).0@ == k by {
                        let j = choose|j: int| 0 <= j < e0.len() && (#[trigger] e0[j]).0@ == k;
                        if j < i {
                            assert(e[j] == e0[j]);
                        } else {
                            assert(j != i);
                            assert(e[j - 1] == e0[j]);
                        }
                    }
                    assert forall|a: int, b: int| 0 <= a < b < e.len() implies (#[trigger] e[a]).0@
                        != (#[trigger] e[b]).0@ by {
                        let a0 = if a < i { a } else { a + 1 };
                        let b0 = if b < i { b } else { b + 1 };
                        assert(e[a] == e0[a0] && e[b] == e0[b0]);
                    }
                    assert forall|a: int| 0 <= a < e.len() implies m1.contains_key(
                        (#[trigger] e[a]).0@,
                    ) && m1[e[a].0@] == (*e[a].1)@ by {
                        let a0 = if a < i { a } else { a + 1 };
                        assert(e[a] == e0[a0]);
                        assert(e0[a0].0@ != e0[i as int].0@);
                    }
                }
            },
            None => {
                proof {
                    assert(!m0.contains_key(name@));
                    assert(m1 =~= m0);
                }
            },
        }
        *self = MemoryFileStore { entries, model: Ghost(m1) };
        Ok(())
    }
}

/// A blob published under `name` reads back as exactly the bytes written,
/// and every other blob is unchanged.
pub proof fn lemma_read_after_close(files: Map<Seq<char>, Seq<u8>>, name: Seq<char>, written: Seq<u8>)
    ensures
        files.insert(name, written).contains_key(name),
        files.insert(name, written)[name] == written,
        forall|k: Seq<char>|
            k != name ==> (#[trigger] files.insert(name, written).contains_key(k)
                == files.contains_key(k)),
{
}

/// Two reads of one blob, with no change to the store between them, give
/// the same bytes.
pub proof fn lemma_reads_agree(files: Map<Seq<char>, Seq<u8>>, name: Seq<char>, a: Seq<u8>, b: Seq<u8>)
    requires
        files.contains_key(name),
        a == files[name],
        b == files[name],
    ensures
        a == b,
{
}

/// After a delete, the blob can no longer be opened; the other blobs stay.
pub proof fn lemma_read_after_delete(files: Map<Seq<char>, Seq<u8>>, name: Seq<char>)
    ensures
        !files.remove(name).contains_key(name),
        forall|k: Seq<char>|
            k != name && #[trigger] files.contains_key(k) ==> files.remove(name).contains_key(k)
                && files.remove(name)[k] == files[k],
{
}

} // verus!
