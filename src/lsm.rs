//! Iteration over the levels of an LSM tree.
//!
//! A level is a run of SST files with disjoint, ascending key ranges; its
//! iterator finds the file that may hold a key by binary search over the
//! file descriptors and reads it through the file store. The tree iterator
//! merges the levels: the smallest key first, and for equal keys the lower
//! (fresher) level first.
use vstd::prelude::*;
use std::sync::Arc;
use std::cmp::Ordering;
use crate::format::{Record, sst_ok, count_lt};
use crate::keys::{key_lt, key_le, compare_keys, lemma_cmp_trans, lemma_cmp_range};
use crate::file_store::{FileStore, FileStoreError};
use crate::sst_reader::{SstReader, lemma_seek_empty_key};
use crate::sst_writer::SstInfo;

verus! {

/// An SST file of a level: its identifier in the file store and its metadata.
pub struct NamedSst {
    pub identifier: String,
    pub info: SstInfo,
}

/// One level of an LSM tree.
pub struct LsmLevelSnapshot {
    pub ssts: Vec<Arc<NamedSst>>,
}

/// A level, as the level iterator reads it.
pub type LsmLevel = LsmLevelSnapshot;

/// The levels of one table, freshest first.
pub struct TableSnapshot {
    pub levels: Vec<Arc<LsmLevelSnapshot>>,
}

/// The smallest key of file `i`.
pub open spec fn sst_min(ssts: Seq<Arc<NamedSst>>, i: int) -> Seq<u8> {
    ssts[i].info.min_record@
}

/// The largest key of file `i`.
pub open spec fn sst_max(ssts: Seq<Arc<NamedSst>>, i: int) -> Seq<u8> {
    ssts[i].info.max_record@
}

/// The files of a level cover disjoint key ranges in ascending order.
pub open spec fn level_ok(ssts: Seq<Arc<NamedSst>>) -> bool {
    &&& forall|i: int| 0 <= i < ssts.len() ==> key_le(sst_min(ssts, i), #[trigger] sst_max(ssts, i))
    &&& forall|i: int|
        0 <= i < ssts.len() - 1 ==> key_lt(#[trigger] sst_max(ssts, i), sst_min(ssts, i + 1))
}

proof fn lemma_level_max_ascending(ssts: Seq<Arc<NamedSst>>, i: int, j: int)
    requires
        level_ok(ssts),
        0 <= i < j < ssts.len(),
    ensures
        key_lt(sst_max(ssts, i), sst_max(ssts, j)),
    decreases j - i,
{
    assert(key_lt(sst_max(ssts, i), sst_min(ssts, i + 1)));
    assert(key_le(sst_min(ssts, i + 1), sst_max(ssts, i + 1)));
    lemma_cmp_trans(sst_max(ssts, i), sst_min(ssts, i + 1), sst_max(ssts, i + 1));
    if i + 1 < j {
        lemma_level_max_ascending(ssts, i + 1, j);
        lemma_cmp_trans(sst_max(ssts, i), sst_max(ssts, i + 1), sst_max(ssts, j));
    }
}

/// The file a seek for `key` goes to: the first whose largest key is not
/// below `key` (the one whose range holds it, or else the next one up).
pub open spec fn is_level_index(ssts: Seq<Arc<NamedSst>>, key: Seq<u8>, i: int) -> bool {
    &&& 0 <= i <= ssts.len()
    &&& forall|j: int| 0 <= j < i ==> key_lt(#[trigger] sst_max(ssts, j), key)
    &&& i < ssts.len() ==> !key_lt(sst_max(ssts, i), key)
}

/// Binary search for the file of the level a seek for `key` goes to.
fn find_sst(ssts: &Vec<Arc<NamedSst>>, key: &[u8]) -> (r: usize)
    requires
        level_ok(ssts@),
    ensures
        is_level_index(ssts@, key@, r as int),
{
    let mut lo: usize = 0;
    let mut hi: usize = ssts.len();
    while lo < hi
        invariant
            level_ok(ssts@),
            lo <= hi <= ssts@.len(),
            forall|j: int| 0 <= j < lo ==> key_lt(#[trigger] sst_max(ssts@, j), key@),
            forall|j: int| hi <= j < ssts@.len() ==> !key_lt(#[trigger] sst_max(ssts@, j), key@),
        decreases hi - lo,
    {
        let mid = lo + (hi - lo) / 2;
        let sst: &NamedSst = &ssts[mid];
        match compare_keys(sst.info.max_record.as_slice(), key) {
            Ordering::Less => {
                proof {
                    assert forall|j: int| 0 <= j < mid + 1 implies key_lt(
                        #[trigger] sst_max(ssts@, j),
                        key@,
                    ) by {
                        if j < mid {
                            lemma_level_max_ascending(ssts@, j, mid as int);
                            lemma_cmp_trans(sst_max(ssts@, j), sst_max(ssts@, mid as int), key@);
                        }
                    }
                }
                lo = mid + 1;
            },
            _ => {
                proof {
                    assert forall|j: int| mid <= j < ssts@.len() implies !key_lt(
                        #[trigger] sst_max(ssts@, j),
                        key@,
                    ) by {
                        if j > mid {
                            lemma_level_max_ascending(ssts@, mid as int, j);
                            if key_lt(sst_max(ssts@, j), key@) {
                                lemma_cmp_trans(sst_max(ssts@, mid as int), sst_max(ssts@, j), key@);
                            }
                        }
                    }
                }
                hi = mid;
            },
        }
    }
    lo
}

/// Iterator over one level: at most one open file at a time.
pub struct LsmLevelIter<'a, F: FileStore> {
    level: &'a LsmLevelSnapshot,
    file_store: &'a F,
    current_sst: Option<(SstReader<F::R>, usize)>,
    // The identifier of the last file the store failed to open, if any.
    failed: Ghost<Option<Seq<char>>>,
}

impl<'a, F: FileStore> LsmLevelIter<'a, F> {
    /// The level iterated.
    pub closed spec fn ssts(&self) -> Seq<Arc<NamedSst>> {
        self.level.ssts@
    }

    /// The index of the open file, if any.
    pub closed spec fn position(&self) -> Option<usize> {
        match self.current_sst {
            Some((_, i)) => Some(i),
            None => None,
        }
    }

    /// The bytes of the open file.
    pub closed spec fn reader_bytes(&self) -> Seq<u8> {
        match self.current_sst {
            Some((r, _)) => r.bytes(),
            None => Seq::empty(),
        }
    }

    /// The cursor in the open file stands at its record `i` of `rs`.
    pub closed spec fn cursor_at(&self, rs: Seq<Record>, i: int) -> bool {
        match self.current_sst {
            Some((r, _)) => r.cursor_at(rs, i),
            None => false,
        }
    }

    /// The record at the cursor, if any.
    pub closed spec fn current(&self) -> Option<Record> {
        match self.current_sst {
            Some((r, _)) => r.current(),
            None => None,
        }
    }

    /// The identifier of the last file the store failed to open, if any.
    pub closed spec fn failed_open(&self) -> Option<Seq<char>> {
        self.failed@
    }

    /// The file store read from.
    pub closed spec fn store(&self) -> F {
        *self.file_store
    }

    /// The open file's bytes are the blob stored under its identifier.
    pub open spec fn reads_its_file(&self) -> bool {
        self.position() matches Some(i) ==> {
            let id = self.ssts()[i as int].identifier@;
            &&& self.store().files().contains_key(id)
            &&& self.reader_bytes() == self.store().files()[id]
        }
    }

    /// A well-formed iterator reads its open file from the store.
    pub proof fn lemma_reads_its_file(&self)
        requires
            self.wf(),
        ensures
            self.reads_its_file(),
    {
    }

    /// The iterator stands where a seek for `key` puts it: on the file that
    /// may hold `key`, at its first record not below `key`, or on nothing
    /// past the last file.
    pub open spec fn sought(&self, key: Seq<u8>) -> bool {
        match self.position() {
            Some(i) => {
                &&& is_level_index(self.ssts(), key, i as int)
                &&& i < self.ssts().len()
                &&& forall|rs: Seq<Record>| #[trigger]
                    sst_ok(self.reader_bytes(), rs) ==> self.cursor_at(rs, count_lt(rs, key) as int)
            },
            None => is_level_index(self.ssts(), key, self.ssts().len() as int) && self.current() is None,
        }
    }

    /// `next` is this iterator moved one record on (`ok` when no file
    /// failed to open on the way).
    pub open spec fn steps_to(&self, next: Self, ok: bool) -> bool {
        &&& next.ssts() == self.ssts()
        &&& (self.position() is None ==> next.position() is None)
        &&& (!ok ==> next.current() is None)
        &&& (self.position() is Some && next.position() == self.position() ==> {
            &&& next.reader_bytes() == self.reader_bytes()
            &&& forall|rs: Seq<Record>, j: int|
                #![trigger self.cursor_at(rs, j)]
                sst_ok(self.reader_bytes(), rs) && self.cursor_at(rs, j)
                    ==> next.cursor_at(
                    rs,
                    if j < rs.len() {
                        j + 1
                    } else {
                        j
                    },
                )
            &&& ok && next.current() is None ==> self.position()->Some_0 + 1
                >= next.ssts().len()
        })
        &&& (self.position() is Some && next.position() != self.position() ==> {
            &&& next.position() == Some((self.position()->Some_0 + 1) as usize)
            &&& forall|rs: Seq<Record>, j: int|
                #![trigger self.cursor_at(rs, j)]
                sst_ok(self.reader_bytes(), rs) && self.cursor_at(rs, j) ==> j + 1
                    >= rs.len()
            &&& forall|rs: Seq<Record>| #[trigger]
                sst_ok(next.reader_bytes(), rs) ==> next.cursor_at(rs, 0)
        })
    }

    /// The iterator's invariant.
    pub closed spec fn wf(&self) -> bool {
        &&& level_ok(self.level.ssts@)
        &&& self.current_sst matches Some((r, i)) ==> r.wf() && i < self.level.ssts@.len()
        &&& self.reads_its_file()
    }

    /// Creates an iterator over `level`, with no open file.
    pub fn new(level: &'a LsmLevelSnapshot, file_store: &'a F) -> (r: Self)
        requires
            level_ok(level.ssts@),
        ensures
            r.wf(),
            r.ssts() == level.ssts@,
            r.store() == *file_store,
            r.position() is None,
            r.current() is None,
    {
        LsmLevelIter { level, file_store, current_sst: None, failed: Ghost(None) }
    }

    /// Opens file `idx` of the level and seeks its reader to `key`.
    fn open_at(&self, idx: usize, key: &[u8]) -> (r: Result<SstReader<F::R>, FileStoreError>)
        requires
            self.wf(),
            idx < self.ssts().len(),
        ensures
            r matches Ok(reader) ==> reader.wf() && forall|rs: Seq<Record>| #[trigger]
                sst_ok(reader.bytes(), rs) ==> reader.cursor_at(rs, count_lt(rs, key@) as int),
            r matches Ok(reader) ==> self.store().files().contains_key(
                self.ssts()[idx as int].identifier@,
            ) && reader.bytes() == self.store().files()[self.ssts()[idx as int].identifier@],
    {
        let sst: &NamedSst = &self.level.ssts[idx];
        let raw = self.file_store.open_for_read(sst.identifier.as_str());
        match raw {
            Ok(view) => {
                let mut reader = SstReader::new(view);
                reader.seek(key);
                Ok(reader)
            },
            Err(e) => Err(e),
        }
    }

    /// Opens the file of the level that may hold `key` and places the cursor
    /// on its first record not below `key`; past the last file, the cursor
    /// holds nothing. Fails where the file store cannot open the file.
    pub fn seek(&mut self, key: &[u8]) -> (r: Result<(), FileStoreError>)
        requires
            old(self).wf(),
        ensures
            final(self).wf(),
            final(self).ssts() == old(self).ssts(),
            final(self).store() == old(self).store(),
            final(self).reads_its_file(),
            r is Ok ==> final(self).sought(key@),
            is_level_index(old(self).ssts(), key@, old(self).ssts().len() as int) ==> r is Ok
                && final(self).position() is None,
            r is Err ==> !is_level_index(old(self).ssts(), key@, old(self).ssts().len() as int),
            forall|i: int|
                #[trigger] is_level_index(old(self).ssts(), key@, i) && r is Err ==> i < old(
                    self,
                ).ssts().len() && final(self).failed_open() == Some(old(self).ssts()[i].identifier@),
    {
        let idx = find_sst(&self.level.ssts, key);
        if idx < self.level.ssts.len() {
            match self.open_at(idx, key) {
                Ok(reader) => {
                    self.current_sst = Some((reader, idx));
                },
                Err(e) => {
                    self.failed = Ghost(Some(self.level.ssts@[idx as int].identifier@));
                    return Err(e);
                },
            }
        } else {
            self.current_sst = None;
        }
        Ok(())
    }

    /// Moves to the next record of the level: the next one of the open file,
    /// or else the first one of the next file.
    pub fn advance(&mut self) -> (r: Result<(), FileStoreError>)
        requires
            old(self).wf(),
        ensures
            final(self).wf(),
            final(self).ssts() == old(self).ssts(),
            final(self).store() == old(self).store(),
            final(self).reads_its_file(),
            old(self).steps_to(*final(self), r is Ok),
            r is Err ==> (old(self).position() matches Some(i) && i + 1 < old(self).ssts().len()
                && final(self).failed_open() == Some(old(self).ssts()[i + 1].identifier@)),
    {
        let ghost old_self = *self;
        let mut taken: Option<(SstReader<F::R>, usize)> = None;
        std::mem::swap(&mut taken, &mut self.current_sst);
        match taken {
            Some((mut reader, idx)) => {
                let ghost r0 = reader;
                assert(idx < self.level.ssts@.len());
                reader.advance();
                if reader.get().is_none() {
                    proof {
                        assert forall|rs: Seq<Record>, j: int|
                            #![trigger old_self.cursor_at(rs, j)]
                            sst_ok(old_self.reader_bytes(), rs) && old_self.cursor_at(rs, j)
                                implies j + 1 >= rs.len() by {
                            assert(r0.cursor_at(rs, j));
                            if j + 1 < rs.len() {
                                reader.lemma_cursor_current(rs, j + 1);
                            }
                        }
                    }
                    if idx < self.level.ssts.len() - 1 {
                        let next = idx + 1;
                        let empty: [u8; 0] = [];
                        match self.open_at(next, empty.as_slice()) {
                            Ok(next_reader) => {
                                proof {
                                    assert forall|rs: Seq<Record>| #[trigger]
                                        sst_ok(next_reader.bytes(), rs) implies next_reader.cursor_at(
                                        rs,
                                        0,
                                    ) by {
                                        lemma_seek_empty_key(rs);
                                        assert(empty@ =~= Seq::<u8>::empty());
                                    }
                                }
                                self.current_sst = Some((next_reader, next));
                                return Ok(());
                            },
                            Err(e) => {
                                self.current_sst = Some((reader, idx));
                                self.failed = Ghost(Some(self.level.ssts@[next as int].identifier@));
                                return Err(e);
                            },
                        }
                    }
                }
                self.current_sst = Some((reader, idx));
            },
            None => {},
        }
        Ok(())
    }

    /// The record at the cursor, if any.
    pub fn get(&self) -> (r: Option<(&[u8], &[u8])>)
        requires
            self.wf(),
        ensures
            match r {
                Some((k, v)) => self.current() == Some((k@, v@)),
                None => self.current() is None,
            },
    {
        match &self.current_sst {
            Some((reader, _)) => reader.get(),
            None => None,
        }
    }
}

/// `(a, la)` comes before `(b, lb)` in the merge: smaller key first, and
/// for equal keys the lower (fresher) level.
pub open spec fn merge_before(a: Seq<u8>, la: int, b: Seq<u8>, lb: int) -> bool {
    key_lt(a, b) || (a == b && la <= lb)
}

/// The key the level iterator `l` stands on, if any.
pub open spec fn head_key<'a, F: FileStore>(l: LsmLevelIter<'a, F>) -> Option<Seq<u8>> {
    match l.current() {
        Some(rec) => Some(rec.0),
        None => None,
    }
}

/// Each merge entry holds the key its level stands on, one entry per level.
pub open spec fn entries_sound<'a, F: FileStore>(
    entries: Seq<(Vec<u8>, usize)>,
    levels: Seq<LsmLevelIter<'a, F>>,
) -> bool {
    &&& forall|e: int|
        0 <= e < entries.len() ==> (#[trigger] entries[e]).1 < levels.len() && head_key(
            levels[entries[e].1 as int],
        ) == Some(entries[e].0@)
    &&& forall|e: int, f: int|
        0 <= e < f < entries.len() ==> (#[trigger] entries[e]).1 != (#[trigger] entries[f]).1
}

/// Every level that stands on a record has a merge entry.
pub open spec fn entries_complete<'a, F: FileStore>(
    entries: Seq<(Vec<u8>, usize)>,
    levels: Seq<LsmLevelIter<'a, F>>,
) -> bool {
    forall|i: int|
        0 <= i < levels.len() && (#[trigger] head_key(levels[i])) is Some ==> exists|e: int|
            0 <= e < entries.len() && (#[trigger] entries[e]).1 == i
}

/// An iterator over a whole table: it merges the levels.
pub struct LsmIter<'a, F: FileStore> {
    pub levels: Vec<LsmLevelIter<'a, F>>,
    // One entry per level that stands on a record: its key and the level.
    heap: Vec<(Vec<u8>, usize)>,
}

impl<'a, F: FileStore> LsmIter<'a, F> {
    /// The level iterators, freshest level first.
    pub closed spec fn level_iters(&self) -> Seq<LsmLevelIter<'a, F>> {
        self.levels@
    }

    /// The iterator's invariant.
    pub closed spec fn wf(&self) -> bool {
        &&& forall|i: int| 0 <= i < self.levels@.len() ==> (#[trigger] self.levels@[i]).wf()
        &&& entries_sound(self.heap@, self.levels@)
    }

    /// Every level that stands on a record takes part in the merge (what a
    /// successful seek establishes and advancing keeps).
    pub closed spec fn complete(&self) -> bool {
        entries_complete(self.heap@, self.levels@)
    }

    /// The level the merge stands on: the one whose record comes first.
    pub closed spec fn top(&self) -> Option<int> {
        if exists|e: int| 0 <= e < self.heap@.len() && is_top(self.heap@, e) {
            Some(self.heap@[choose|e: int| 0 <= e < self.heap@.len() && is_top(self.heap@, e)].1 as int)
        } else {
            None
        }
    }

    /// Creates an iterator over the levels of `tree`; it stands on nothing
    /// until the first seek.
    pub fn new(tree: &'a TableSnapshot, file_store: &'a F) -> (r: Self)
        requires
            forall|i: int| 0 <= i < tree.levels@.len() ==> level_ok((#[trigger] tree.levels@[i]).ssts@),
        ensures
            r.wf(),
            r.complete(),
            r.level_iters().len() == tree.levels@.len(),
            r.top() is None,
    {
        let mut levels: Vec<LsmLevelIter<'a, F>> = Vec::new();
        let mut i: usize = 0;
        while i < tree.levels.len()
            invariant
                i <= tree.levels@.len(),
                levels@.len() == i,
                forall|j: int| 0 <= j < tree.levels@.len() ==> level_ok((#[trigger] tree.levels@[j]).ssts@),
                forall|j: int| 0 <= j < i ==> (#[trigger] levels@[j]).wf() && levels@[j].current() is None,
            decreases tree.levels@.len() - i,
        {
            let level: &LsmLevelSnapshot = &tree.levels[i];
            levels.push(LsmLevelIter::new(level, file_store));
            i = i + 1;
        }
        let r = LsmIter { levels, heap: Vec::new() };
        assert(r.top() is None);
        assert forall|j: int| 0 <= j < r.levels@.len() implies head_key(#[trigger] r.levels@[j]) is None by {
            assert(r.levels@[j].current() is None);
        }
        r
    }

    /// Seeks every level to `key`; the merge then stands on the first record
    /// not below `key` across all levels.
    pub fn seek(&mut self, key: &[u8]) -> (r: Result<(), FileStoreError>)
        requires
            old(self).wf(),
        ensures
            final(self).wf(),
            final(self).level_iters().len() == old(self).level_iters().len(),
            r is Ok ==> final(self).complete(),
            r is Ok ==> forall|i: int|
                0 <= i < final(self).level_iters().len() ==> (#[trigger] final(self).level_iters()[i]).sought(key@),
            forall|i: int|
                0 <= i < final(self).level_iters().len() ==> (#[trigger] final(self).level_iters()[i]).reads_its_file(),
            forall|i: int|
                0 <= i < final(self).level_iters().len() ==> (#[trigger] final(self).level_iters()[i]).store()
                    == old(self).level_iters()[i].store(),
            (forall|i: int|
                0 <= i < old(self).level_iters().len() ==> is_level_index(
                    (#[trigger] old(self).level_iters()[i]).ssts(),
                    key@,
                    old(self).level_iters()[i].ssts().len() as int,
                )) ==> r is Ok,
    {
        self.heap = Vec::new();
        let n = self.levels.len();
        let mut i: usize = 0;
        while i < n
            invariant
                n == self.levels@.len(),
                n == old(self).levels@.len(),
                i <= n,
                forall|j: int| 0 <= j < i ==> (#[trigger] self.levels@[j]).sought(key@),
                forall|j: int|
                    0 <= j < n ==> (#[trigger] self.levels@[j]).ssts() == old(self).levels@[j].ssts()
                        && self.levels@[j].store() == old(self).levels@[j].store(),
                forall|j: int| 0 <= j < n ==> (#[trigger] self.levels@[j]).wf(),
                forall|e: int|
                    0 <= e < self.heap@.len() ==> (#[trigger] self.heap@[e]).1 < i && head_key(
                        self.levels@[self.heap@[e].1 as int],
                    ) == Some(self.heap@[e].0@),
                forall|e: int, f: int|
                    0 <= e < f < self.heap@.len() ==> (#[trigger] self.heap@[e]).1 != (
                    #[trigger] self.heap@[f]).1,
                forall|j: int|
                    0 <= j < i && (#[trigger] head_key(self.levels@[j])) is Some ==> exists|e: int|
                        0 <= e < self.heap@.len() && (#[trigger] self.heap@[e]).1 == j,
            decreases n - i,
        {
            let ghost before = self.levels@;
            let r = self.levels[i].seek(key);
            proof {
                assert forall|j: int| 0 <= j < n && j != i implies self.levels@[j] == before[j] by {}
            }
            match r {
                Ok(()) => {},
                Err(e) => {
                    self.heap = Vec::new();
                    proof {
                        assert forall|j: int| 0 <= j < n implies (#[trigger] self.levels@[j]).reads_its_file() by {
                            self.levels@[j].lemma_reads_its_file();
                        }
                        assert(before[i as int].ssts() == old(self).levels@[i as int].ssts());
                        assert(!is_level_index(
                            old(self).level_iters()[i as int].ssts(),
                            key@,
                            old(self).level_iters()[i as int].ssts().len() as int,
                        ));
                    }
                    return Err(e);
                },
            }
            match self.levels[i].get() {
                Some((k, _)) => {
                    let ghost h = self.heap@;
                    self.heap.push((vstd::slice::slice_to_vec(k), i));
                    proof {
                        assert forall|e: int, f: int|
                            0 <= e < f < self.heap@.len() implies (#[trigger] self.heap@[e]).1 != (
                            #[trigger] self.heap@[f]).1 by {
                            if f < h.len() {
                                assert(self.heap@[e] == h[e] && self.heap@[f] == h[f]);
                            } else {
                                assert(self.heap@[e] == h[e]);
                            }
                        }
                        assert forall|j: int|
                            0 <= j < i + 1 && (#[trigger] head_key(self.levels@[j])) is Some implies exists|
                            e: int,
                        | 0 <= e < self.heap@.len() && (#[trigger] self.heap@[e]).1 == j by {
                            if j < i {
                                let e = choose|e: int| 0 <= e < h.len() && (#[trigger] h[e]).1 == j;
                                assert(self.heap@[e] == h[e]);
                            } else {
                                assert(self.heap@[h.len() as int].1 == j);
                            }
                        }
                        assert forall|e: int|
                            0 <= e < self.heap@.len() implies (#[trigger] self.heap@[e]).1 < i + 1
                            && head_key(self.levels@[self.heap@[e].1 as int]) == Some(
                            self.heap@[e].0@,
                        ) by {
                            if e < h.len() {
                                assert(self.heap@[e] == h[e]);
                            }
                        }
                    }
                },
                None => {},
            }
            i = i + 1;
        }
        proof {
            assert forall|j: int| 0 <= j < n implies (#[trigger] self.levels@[j]).reads_its_file() by {
                self.levels@[j].lemma_reads_its_file();
            }
        }
        Ok(())
    }

    /// The index in the merge entries of the record that comes first.
    fn top_entry(&self) -> (r: Option<usize>)
        requires
            self.wf(),
        ensures
            match r {
                Some(e) => e < self.heap@.len() && is_top(self.heap@, e as int),
                None => self.heap@.len() == 0,
            },
    {
        if self.heap.len() == 0 {
            return None;
        }
        let mut best: usize = 0;
        let mut e: usize = 1;
        while e < self.heap.len()
            invariant
                1 <= e <= self.heap@.len(),
                best < e,
                forall|f: int|
                    0 <= f < e ==> merge_before(
                        self.heap@[best as int].0@,
                        self.heap@[best as int].1 as int,
                        (#[trigger] self.heap@[f]).0@,
                        self.heap@[f].1 as int,
                    ),
            decreases self.heap@.len() - e,
        {
            let c = compare_keys(self.heap[e].0.as_slice(), self.heap[best].0.as_slice());
            let take = match c {
                Ordering::Less => true,
                Ordering::Equal => self.heap[e].1 < self.heap[best].1,
                Ordering::Greater => false,
            };
            proof {
                lemma_cmp_range(self.heap@[e as int].0@, self.heap@[best as int].0@);
            }
            if take {
                proof {
                    assert forall|f: int| 0 <= f < e + 1 implies merge_before(
                        self.heap@[e as int].0@,
                        self.heap@[e as int].1 as int,
                        (#[trigger] self.heap@[f]).0@,
                        self.heap@[f].1 as int,
                    ) by {
                        if f < e {
                            lemma_cmp_range(self.heap@[best as int].0@, self.heap@[f].0@);
                            if key_lt(self.heap@[best as int].0@, self.heap@[f].0@) {
                                if key_lt(self.heap@[e as int].0@, self.heap@[best as int].0@) {
                                    lemma_cmp_trans(self.heap@[e as int].0@, self.heap@[best as int].0@, self.heap@[f].0@);
                                }
                            }
                        } else {
                            lemma_cmp_range(self.heap@[e as int].0@, self.heap@[e as int].0@);
                        }
                    }
                }
                best = e;
            } else {
                proof {
                    assert(merge_before(
                        self.heap@[best as int].0@,
                        self.heap@[best as int].1 as int,
                        self.heap@[e as int].0@,
                        self.heap@[e as int].1 as int,
                    ));
                }
            }
            e = e + 1;
        }
        Some(best)
    }

    /// The record the merge stands on: the smallest key across the levels,
    /// and for equal keys the one of the lowest level.
    pub fn get(&self) -> (r: Option<(&[u8], &[u8])>)
        requires
            self.wf(),
        ensures
            match r {
                Some((k, v)) => exists|i: int|
                    0 <= i < self.level_iters().len() && (#[trigger] self.level_iters()[i]).current() == Some(
                        (k@, v@),
                    ) && (self.complete() ==> forall|j: int|
                        0 <= j < self.level_iters().len() && (#[trigger] head_key(self.level_iters()[j])) is Some
                            ==> merge_before(k@, i, head_key(self.level_iters()[j])->Some_0, j)),
                None => self.complete() ==> forall|j: int|
                    0 <= j < self.level_iters().len() ==> (#[trigger] self.level_iters()[j]).current() is None,
            },
    {
        match self.top_entry() {
            Some(e) => {
                let level = self.heap[e].1;
                let r = self.levels[level].get();
                proof {
                    assert(self.levels@[level as int].current() == Some(self.levels@[level as int].current()->Some_0));
                    if self.complete() {
                    assert forall|j: int|
                        0 <= j < self.levels@.len() && (#[trigger] head_key(self.levels@[j])) is Some
                            implies merge_before(
                        self.heap@[e as int].0@,
                        level as int,
                        head_key(self.levels@[j])->Some_0,
                        j,
                    ) by {
                        let f = choose|f: int| 0 <= f < self.heap@.len() && (#[trigger] self.heap@[f]).1 == j;
                        assert(merge_before(
                            self.heap@[e as int].0@,
                            self.heap@[e as int].1 as int,
                            self.heap@[f].0@,
                            self.heap@[f].1 as int,
                        ));
                    }
                    }
                }
                r
            },
            None => {
                proof {
                    if self.complete() {
                    assert forall|j: int| 0 <= j < self.levels@.len() implies (
                    #[trigger] self.levels@[j]).current() is None by {
                        if head_key(self.levels@[j]) is Some {
                            let f = choose|f: int| 0 <= f < self.heap@.len() && (#[trigger] self.heap@[f]).1 == j;
                        }
                    }
                    }
                }
                None
            },
        }
    }

    /// Moves past the record the merge stands on: advances its level and
    /// takes that level's next key into the merge.
    pub fn advance(&mut self) -> (r: Result<(), FileStoreError>)
        requires
            old(self).wf(),
        ensures
            final(self).wf(),
            final(self).level_iters().len() == old(self).level_iters().len(),
            old(self).complete() ==> final(self).complete(),
            match old(self).top() {
                Some(l) => {
                    &&& old(self).level_iters()[l].steps_to(final(self).level_iters()[l], r is Ok)
                    &&& forall|j: int|
                        0 <= j < old(self).level_iters().len() && j != l ==> final(self).level_iters()[j]
                            == old(self).level_iters()[j]
                },
                None => final(self).level_iters() == old(self).level_iters(),
            },
    {
        match self.top_entry() {
            Some(e) => {
                let ghost h0 = self.heap@;
                proof {
                    lemma_top_unique(h0, self.levels@, e as int);
                }
                let (_, level) = self.heap.remove(e);
                let ghost h1 = self.heap@;
                let ghost before = self.levels@;
                let r = self.levels[level].advance();
                proof {
                    assert forall|j: int| 0 <= j < self.levels@.len() && j != level implies self.levels@[j] == before[j] by {}
                }
                let got = match self.levels[level].get() {
                    Some((k, _)) => Some(vstd::slice::slice_to_vec(k)),
                    None => None,
                };
                proof {
                    lemma_entries_after_remove(h0, e as int, before, self.levels@, level);
                }
                match got {
                    Some(k) => {
                        self.heap.push((k, level));
                        proof {
                            lemma_entries_push(h1, self.levels@, level, k, old(self).complete());
                        }
                    },
                    None => {
                        proof {
                            assert(entries_sound(self.heap@, self.levels@));
                        }
                    },
                }
                r
            },
            None => {
                proof {
                    assert(!(exists|f: int| 0 <= f < self.heap@.len() && is_top(self.heap@, f)));
                }
                Ok(())
            },
        }
    }
}

/// Entry `e` comes first among `entries`.
pub open spec fn is_top(entries: Seq<(Vec<u8>, usize)>, e: int) -> bool {
    forall|f: int|
        0 <= f < entries.len() ==> merge_before(
            entries[e].0@,
            entries[e].1 as int,
            (#[trigger] entries[f]).0@,
            entries[f].1 as int,
        )
}

/// The entry that comes first is the only one that does: two entries that
/// each come before the other hold the same level.
proof fn lemma_top_unique<'a, F: FileStore>(
    h: Seq<(Vec<u8>, usize)>,
    levels: Seq<LsmLevelIter<'a, F>>,
    e: int,
)
    requires
        entries_sound(h, levels),
        0 <= e < h.len(),
        is_top(h, e),
    ensures
        forall|f: int| 0 <= f < h.len() && is_top(h, f) ==> f == e,
{
    assert forall|f: int| 0 <= f < h.len() && is_top(h, f) implies f == e by {
        assert(merge_before(h[e].0@, h[e].1 as int, h[f].0@, h[f].1 as int));
        assert(merge_before(h[f].0@, h[f].1 as int, h[e].0@, h[e].1 as int));
        lemma_cmp_range(h[e].0@, h[f].0@);
        if f != e {
            if f < e {
                assert(h[f].1 != h[e].1);
            } else {
                assert(h[e].1 != h[f].1);
            }
        }
    }
}

proof fn lemma_entries_after_remove<'a, F: FileStore>(
    h0: Seq<(Vec<u8>, usize)>,
    e: int,
    before: Seq<LsmLevelIter<'a, F>>,
    after: Seq<LsmLevelIter<'a, F>>,
    level: usize,
)
    requires
        entries_sound(h0, before),
        0 <= e < h0.len(),
        h0[e].1 == level,
        before.len() == after.len(),
        forall|j: int| 0 <= j < after.len() && j != level ==> after[j] == before[j],
    ensures
        ({
            let h1 = h0.remove(e);
            &&& forall|f: int|
                0 <= f < h1.len() ==> (#[trigger] h1[f]).1 < after.len() && h1[f].1 != level
                    && head_key(after[h1[f].1 as int]) == Some(h1[f].0@)
            &&& forall|f: int, g: int| 0 <= f < g < h1.len() ==> (#[trigger] h1[f]).1 != (#[trigger] h1[g]).1
            &&& entries_complete(h0, before) ==> forall|i: int|
                0 <= i < after.len() && i != level && (#[trigger] head_key(after[i])) is Some
                    ==> exists|f: int| 0 <= f < h1.len() && (#[trigger] h1[f]).1 == i
        }),
{
    let h1 = h0.remove(e);
    assert forall|f: int| 0 <= f < h1.len() implies (#[trigger] h1[f]).1 < after.len() && h1[f].1
        != level && head_key(after[h1[f].1 as int]) == Some(h1[f].0@) by {
        let f0 = if f < e { f } else { f + 1 };
        assert(h1[f] == h0[f0]);
    }
    assert forall|f: int, g: int| 0 <= f < g < h1.len() implies (#[trigger] h1[f]).1 != (#[trigger] h1[g]).1 by {
        let f0 = if f < e { f } else { f + 1 };
        let g0 = if g < e { g } else { g + 1 };
        assert(h1[f] == h0[f0] && h1[g] == h0[g0]);
    }
    if entries_complete(h0, before) {
        assert forall|i: int|
            0 <= i < after.len() && i != level && (#[trigger] head_key(after[i])) is Some implies exists|
            f: int,
        | 0 <= f < h1.len() && (#[trigger] h1[f]).1 == i by {
            assert(after[i] == before[i]);
            let f0 = choose|f: int| 0 <= f < h0.len() && (#[trigger] h0[f]).1 == i;
            let f = if f0 < e { f0 } else { f0 - 1 };
            assert(h1[f] == h0[f0]);
        }
    }
}

proof fn lemma_entries_push<'a, F: FileStore>(
    h1: Seq<(Vec<u8>, usize)>,
    levels: Seq<LsmLevelIter<'a, F>>,
    level: usize,
    v: Vec<u8>,
    was_complete: bool,
)
    requires
        level < levels.len(),
        head_key(levels[level as int]) == Some(v@),
        forall|f: int|
            0 <= f < h1.len() ==> (#[trigger] h1[f]).1 < levels.len() && h1[f].1 != level && head_key(
                levels[h1[f].1 as int],
            ) == Some(h1[f].0@),
        forall|f: int, g: int| 0 <= f < g < h1.len() ==> (#[trigger] h1[f]).1 != (#[trigger] h1[g]).1,
        was_complete ==> forall|i: int|
            0 <= i < levels.len() && i != level && (#[trigger] head_key(levels[i])) is Some ==> exists|
                f: int,
            | 0 <= f < h1.len() && (#[trigger] h1[f]).1 == i,
    ensures
        entries_sound(h1.push((v, level)), levels),
        was_complete ==> entries_complete(h1.push((v, level)), levels),
{
    let h2 = h1.push((v, level));
    assert forall|f: int| 0 <= f < h2.len() implies (#[trigger] h2[f]).1 < levels.len() && head_key(
        levels[h2[f].1 as int],
    ) == Some(h2[f].0@) by {
        if f < h1.len() {
            assert(h2[f] == h1[f]);
        }
    }
    assert forall|f: int, g: int| 0 <= f < g < h2.len() implies (#[trigger] h2[f]).1 != (#[trigger] h2[g]).1 by {
        assert(h2[f] == h1[f]);
        if g < h1.len() {
            assert(h2[g] == h1[g]);
        }
    }
    if was_complete {
        assert forall|i: int| 0 <= i < levels.len() && (#[trigger] head_key(levels[i])) is Some implies exists|
            f: int,
        | 0 <= f < h2.len() && (#[trigger] h2[f]).1 == i by {
            if i != level {
                let f = choose|f: int| 0 <= f < h1.len() && (#[trigger] h1[f]).1 == i;
                assert(h2[f] == h1[f]);
            } else {
                assert(h2[h1.len() as int].1 == i);
            }
        }
    }
}

} // verus!
