//! The database handle and its snapshots: a point-in-time, shareable view of
//! every table's levels.
use vstd::prelude::*;
use std::sync::Arc;
use crate::file_store::FileStoreError;
use crate::lsm::TableSnapshot;

verus! {

struct DbSnapshotInner {
    tables: Vec<(String, Arc<TableSnapshot>)>,
}

/// A point-in-time view of the database: each table by name.
pub struct DbSnapshot {
    inner: Arc<DbSnapshotInner>,
}

impl DbSnapshot {
    /// The names of the tables, in order.
    pub closed spec fn table_names(&self) -> Seq<Seq<char>> {
        self.inner.tables@.map_values(|t: (String, Arc<TableSnapshot>)| t.0@)
    }

    /// A snapshot without tables.
    pub fn new() -> (r: DbSnapshot)
        ensures
            r.table_names() == Seq::<Seq<char>>::empty(),
    {
        let r = DbSnapshot { inner: Arc::new(DbSnapshotInner { tables: Vec::new() }) };
        assert(r.table_names() =~= Seq::<Seq<char>>::empty());
        r
    }

    /// The `i`th table.
    pub closed spec fn table(&self, i: int) -> TableSnapshot {
        *self.inner.tables@[i].1
    }

    /// The table named `name`, if the snapshot holds one.
    pub fn index(&self, name: &str) -> (r: Option<&TableSnapshot>)
        ensures
            r is Some <==> self.table_names().contains(name@),
            r matches Some(t) ==> exists|i: int|
                0 <= i < self.table_names().len() && self.table_names()[i] == name@ && *t
                    == self.table(i),
    {
        let owned = name.to_owned();
        let tables = &self.inner.tables;
        let mut i: usize = 0;
        while i < tables.len()
            invariant
                i <= tables@.len(),
                tables@ == self.inner.tables@,
                owned@ == name@,
                forall|j: int| 0 <= j < i ==> (#[trigger] tables@[j]).0@ != name@,
            decreases tables@.len() - i,
        {
            if tables[i].0 == owned {
                let t: &TableSnapshot = &tables[i].1;
                assert(self.table_names()[i as int] == name@);
                assert(self.table_names().contains(name@));
                assert(*t == self.table(i as int));
                return Some(t);
            }
            i = i + 1;
        }
        proof {
            if self.table_names().contains(name@) {
                let j = choose|j: int| 0 <= j < self.table_names().len() && self.table_names()[j] == name@;
                assert(tables@[j].0@ == name@);
            }
        }
        None
    }

    /// Another handle on the same snapshot.
    pub fn share(&self) -> (r: DbSnapshot)
        ensures
            r.table_names() == self.table_names(),
    {
        DbSnapshot { inner: self.inner.clone() }
    }
}

/// The entry point of the database.
pub struct Db {
    current_snapshot: DbSnapshot,
}

impl Db {
    /// The snapshot reads see.
    pub closed spec fn snapshot(&self) -> DbSnapshot {
        self.current_snapshot
    }

    /// A new database held in memory, without tables.
    pub fn new_in_mem() -> (r: Db)
        ensures
            r.snapshot().table_names() == Seq::<Seq<char>>::empty(),
    {
        Db { current_snapshot: DbSnapshot::new() }
    }

    /// A point-in-time snapshot for reads.
    pub fn read(&self) -> (r: DbSnapshot)
        ensures
            r.table_names() == self.snapshot().table_names(),
    {
        self.current_snapshot.share()
    }

    /// Runs a write transaction and returns its outcome.
    pub fn write<F>(&self, writer_function: F) -> (r: Result<(), FileStoreError>) where
        F: FnOnce() -> Result<(), FileStoreError>,

        requires
            writer_function.requires(()),
        ensures
            writer_function.ensures((), r),
    {
        writer_function()
    }
}

} // verus!
