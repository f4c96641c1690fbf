//! Push-based writer of one SST file.
//!
//! Records arrive in ascending key order; the writer appends them to the data
//! section and, every `LOWER_LEAF_SIZE` records, closes a leaf of the search
//! tree. `finish` writes the terminator, builds the B+-tree level by level out
//! of pages of up to `SEARCH_TREE_SIZE` children, and writes the footer.
use vstd::prelude::*;
use crate::format::{
    Record, sst_header, record_bytes, records_bytes, record_offset, record_ok, records_ok,
    tree_ok, sst_ok, root_ptr, pivot_in_bounds, pivot_at, pivot_ptr, child_ptr,
    page_size, count_lt, HEADER_SIZE, LOWER_LEAF_SIZE, SEARCH_TREE_SIZE, MAX_SST_SIZE,
    FORMAT_VERSION, separates, lemma_tree_ok_extend, lemma_tree_ok_height,
    lemma_u32_stored, lemma_pivot_stored, lemma_pivot_extend, lemma_count_lt_pivot, lemma_leaf_ok,
};
use crate::keys::{
    key_lt, common_prefix_len, pivot_of, lemma_pivot, is_common_prefix_len, shortest_separator,
    lemma_common_prefix,
};
use crate::varint::{
    varint_u32, be_u16, be_u32, write_varint_unsigned, push_be_u16, push_be_u32,
};

verus! {

/// Why a file could not be written.
#[derive(Clone, Copy, Debug, PartialEq, Eq, Structural)]
pub enum SstError {
    /// The file would outgrow what its signed 32-bit pointers can address.
    TooLarge,
    /// A record with an empty key and an empty value, which the format
    /// cannot tell from the end of the data.
    EmptyRecord,
}

/// Metadata about a finished SST file.
pub struct SstInfo {
    /// The smallest key (empty for a file without records).
    pub min_record: Vec<u8>,
    /// The largest key (empty for a file without records).
    pub max_record: Vec<u8>,
    /// The file's size in bytes.
    pub size: u32,
}

/// A sub-tree while the search tree is built: its key range, its pointer,
/// and the records it covers.
struct PageData {
    min: Vec<u8>,
    max: Vec<u8>,
    pointer: i32,
    lo: Ghost<int>,
    hi: Ghost<int>,
}

/// `d` covers the records `[d.lo, d.hi)`, with their first and last keys.
spec fn span_ok(rs: Seq<Record>, d: PageData) -> bool {
    &&& 0 <= d.lo@ < d.hi@ <= rs.len()
    &&& d.min@ == rs[d.lo@].0
    &&& d.max@ == rs[d.hi@ - 1].0
}

/// Consecutive spans.
spec fn spans_ok(rs: Seq<Record>, ds: Seq<PageData>) -> bool {
    &&& forall|k: int| 0 < k < ds.len() ==> ds[k - 1].hi@ == (#[trigger] ds[k]).lo@
    &&& forall|k: int| 0 <= k < ds.len() ==> span_ok(rs, #[trigger] ds[k])
}

/// `d` covers the records `[d.lo, d.hi)` within `h` page levels.
spec fn desc_ok(b: Seq<u8>, rs: Seq<Record>, d: PageData, h: nat) -> bool {
    &&& span_ok(rs, d)
    &&& tree_ok(b, rs, d.pointer, d.lo@, h)
    &&& (d.pointer as int) < b.len()
}

/// `ds` covers the records `[0, to)` with consecutive sub-trees.
#[verifier::opaque]
spec fn run_ok(b: Seq<u8>, rs: Seq<Record>, ds: Seq<PageData>, to: int, h: nat) -> bool {
    &&& ds.len() == 0 ==> to == 0
    &&& ds.len() > 0 ==> ds[0].lo@ == 0 && ds.last().hi@ == to
    &&& forall|k: int| 0 < k < ds.len() ==> ds[k - 1].hi@ == (#[trigger] ds[k]).lo@
    &&& forall|k: int| 0 <= k < ds.len() ==> desc_ok(b, rs, #[trigger] ds[k], h)
}

fn copy_bytes(s: &[u8]) -> (r: Vec<u8>)
    ensures
        r@ == s@,
{
    vstd::slice::slice_to_vec(s)
}

/// Appends the bytes of `s`.
pub(crate) fn push_all(buffer: &mut Vec<u8>, s: &[u8])
    ensures
        final(buffer)@ == old(buffer)@ + s@,
{
    let mut i: usize = 0;
    while i < s.len()
        invariant
            i <= s@.len(),
            buffer@ == old(buffer)@ + s@.take(i as int),
        decreases s@.len() - i,
    {
        buffer.push(s[i]);
        assert(s@.take(i + 1) =~= s@.take(i as int).push(s@[i as int]));
        i = i + 1;
    }
    assert(s@.take(s@.len() as int) =~= s@);
}

/// The number of bytes `varint_u32(v)` takes.
fn varint_u32_len(v: u32) -> (r: usize)
    ensures
        r == varint_u32(v).len(),
        r <= 5,
{
    if v < 253 {
        1
    } else if v <= 0xffff {
        2 + 1
    } else {
        4 + 1
    }
}

fn copy_page(d: &PageData) -> (r: PageData)
    ensures
        r.min@ == d.min@,
        r.max@ == d.max@,
        r.pointer == d.pointer,
        r.lo == d.lo,
        r.hi == d.hi,
{
    PageData {
        min: copy_bytes(d.min.as_slice()),
        max: copy_bytes(d.max.as_slice()),
        pointer: d.pointer,
        lo: Ghost(d.lo@),
        hi: Ghost(d.hi@),
    }
}

proof fn lemma_extends_trans(a: Seq<u8>, b: Seq<u8>, c: Seq<u8>)
    requires
        a.len() <= b.len() <= c.len(),
        b.take(a.len() as int) == a,
        c.take(b.len() as int) == b,
    ensures
        c.take(a.len() as int) == a,
{
    assert(c.take(a.len() as int) =~= a) by {
        assert forall|t: int| 0 <= t < a.len() implies c.take(a.len() as int)[t] == a[t] by {
            assert(c.take(b.len() as int)[t] == c[t]);
            assert(b.take(a.len() as int)[t] == b[t]);
        }
    }
}

proof fn lemma_extends_append(a: Seq<u8>, more: Seq<u8>)
    ensures
        (a + more).take(a.len() as int) == a,
{
    assert((a + more).take(a.len() as int) =~= a);
}

proof fn lemma_desc_extend(
    b: Seq<u8>,
    b2: Seq<u8>,
    rs: Seq<Record>,
    ds: Seq<PageData>,
    to: int,
    h: nat,
)
    requires
        run_ok(b, rs, ds, to, h),
        b.len() <= b2.len(),
        b2.take(b.len() as int) == b,
    ensures
        run_ok(b2, rs, ds, to, h),
{
    reveal(run_ok);
    assert forall|k: int| 0 <= k < ds.len() implies desc_ok(b2, rs, #[trigger] ds[k], h) by {
        lemma_tree_ok_extend(b, b2, rs, ds[k].pointer, ds[k].lo@, h);
    }
}

/// Appending a record keeps what the closed and the current leaves state.
proof fn lemma_push(
    b0: Seq<u8>,
    rs: Seq<Record>,
    rec: Record,
    ds: Seq<PageData>,
    cur: PageData,
    page_offset: int,
)
    requires
        records_ok(rs),
        record_ok(rec),
        rs.len() > 0 ==> key_lt(rs.last().0, rec.0),
        b0 == sst_header() + records_bytes(rs),
        run_ok(b0, rs, ds, ds.len() * LOWER_LEAF_SIZE, 0),
        page_offset > 0 ==> cur.hi@ == rs.len() && desc_ok(b0, rs, cur, 0),
    ensures
        records_ok(rs.push(rec)),
        b0 + record_bytes(rec) == sst_header() + records_bytes(rs.push(rec)),
        run_ok(b0 + record_bytes(rec), rs.push(rec), ds, ds.len() * LOWER_LEAF_SIZE, 0),
        page_offset > 0 ==> desc_ok(b0 + record_bytes(rec), rs.push(rec), cur, 0),
        record_offset(rs.push(rec), rs.len() as int) == b0.len(),
        forall|i: int| 0 <= i < rs.len() ==> #[trigger] rs.push(rec)[i] == rs[i],
{
    reveal(run_ok);
    reveal_with_fuel(tree_ok, 1);
    let rs2 = rs.push(rec);
    let b1 = b0 + record_bytes(rec);
    assert(rs2.drop_last() =~= rs);
    assert(b1 =~= sst_header() + records_bytes(rs2));
    assert(rs2.take(rs.len() as int) =~= rs);
    assert forall|i: int, j: int| 0 <= i < j < rs2.len() implies key_lt(
        #[trigger] rs2[i].0,
        #[trigger] rs2[j].0,
    ) by {
        if j == rs.len() && i < rs.len() - 1 {
            crate::keys::lemma_cmp_trans(rs[i].0, rs.last().0, rec.0);
        }
    }
    assert forall|i: int| 0 <= i < rs2.len() implies record_ok(#[trigger] rs2[i]) by {}
    lemma_extends_append(b0, record_bytes(rec));
    assert forall|k: int| 0 <= k < ds.len() implies desc_ok(b1, rs2, #[trigger] ds[k], 0) by {
        let d = ds[k];
        assert(desc_ok(b0, rs, d, 0));
        assert(rs2.take(d.lo@) =~= rs.take(d.lo@));
    }
    if page_offset > 0 {
        assert(rs2.take(cur.lo@) =~= rs.take(cur.lo@));
    }
}

/// Writer for a single SST file. Records must come in strictly ascending
/// key order.
pub struct SstWriter {
    buffer: Vec<u8>,
    // The leaves closed so far, `LOWER_LEAF_SIZE` records each.
    data_pages: Vec<PageData>,
    // The index of the next record within the current leaf.
    page_offset: usize,
    // The current, not yet full, leaf.
    current_page: PageData,
    records: Ghost<Seq<Record>>,
}

impl SstWriter {
    /// The records pushed so far.
    pub closed spec fn records(&self) -> Seq<Record> {
        self.records@
    }

    /// The bytes written so far: header and data section.
    pub closed spec fn bytes(&self) -> Seq<u8> {
        self.buffer@
    }

    /// The writer's invariant.
    pub closed spec fn wf(&self) -> bool {
        let rs = self.records@;
        let b = self.buffer@;
        let full = self.data_pages@.len() * LOWER_LEAF_SIZE;
        &&& records_ok(rs)
        &&& b == sst_header() + records_bytes(rs)
        &&& b.len() + 8 <= MAX_SST_SIZE
        &&& self.page_offset < LOWER_LEAF_SIZE
        &&& rs.len() == full + self.page_offset
        &&& run_ok(b, rs, self.data_pages@, full as int, 0)
        &&& forall|k: int|
            0 <= k < self.data_pages@.len() ==> (#[trigger] self.data_pages@[k]).hi@ - self.data_pages@[k].lo@
                == LOWER_LEAF_SIZE
        &&& self.page_offset > 0 ==> {
            &&& self.current_page.lo@ == full
            &&& self.current_page.hi@ == rs.len()
            &&& desc_ok(b, rs, self.current_page, 0)
        }
    }

    /// Creates a writer; the header is written at once.
    pub fn new() -> (r: SstWriter)
        ensures
            r.wf(),
            r.records() == Seq::<Record>::empty(),
            r.bytes() == sst_header(),
    {
        let mut buffer: Vec<u8> = Vec::new();
        write_header(&mut buffer);
        let w = SstWriter {
            buffer,
            data_pages: Vec::new(),
            page_offset: 0,
            current_page: PageData {
                min: Vec::new(),
                max: Vec::new(),
                pointer: 0,
                lo: Ghost(0),
                hi: Ghost(0),
            },
            records: Ghost(Seq::empty()),
        };
        reveal(run_ok);
        assert(records_bytes(Seq::<Record>::empty()) =~= Seq::<u8>::empty());
        assert(w.buffer@ =~= sst_header() + records_bytes(Seq::<Record>::empty()));
        w
    }

    /// The bytes written are the header and the records pushed.
    pub proof fn lemma_bytes(&self)
        requires
            self.wf(),
        ensures
            self.bytes() == sst_header() + records_bytes(self.records()),
            records_ok(self.records()),
    {
    }

    /// The number of bytes written so far: header and data section.
    pub fn size(&self) -> (r: usize)
        requires
            self.wf(),
        ensures
            r == self.bytes().len(),
    {
        self.buffer.len()
    }

    /// Appends a record; its key must sort after every key pushed before.
    /// Returns the record's pointer: its negated file offset. Fails, changing
    /// nothing, when the file would outgrow its pointers.
    pub fn push_record(&mut self, record_key: &[u8], record_value: &[u8]) -> (r: Result<
        i32,
        SstError,
    >)
        requires
            old(self).wf(),
            !(record_key@.len() == 0 && record_value@.len() == 0),
            old(self).records().len() > 0 ==> key_lt(
                old(self).records().last().0,
                record_key@,
            ),
        ensures
            final(self).wf(),
            (r is Ok) == (old(self).bytes().len() + record_bytes((record_key@, record_value@)).len() + 8
                <= MAX_SST_SIZE),
            match r {
                Ok(p) => {
                    &&& final(self).records() == old(self).records().push(
                        (record_key@, record_value@),
                    )
                    &&& final(self).bytes() == old(self).bytes() + record_bytes(
                        (record_key@, record_value@),
                    )
                    &&& p == -(old(self).bytes().len() as int)
                }
                Err(e) => {
                    &&& e == SstError::TooLarge
                    &&& final(self).records() == old(self).records()
                    &&& final(self).bytes() == old(self).bytes()
                },
            },
    {
        let klen = record_key.len();
        let vlen = record_value.len();
        let size = self.buffer.len();
        let room = MAX_SST_SIZE - 8 - size;
        if klen > room {
            return Err(SstError::TooLarge);
        }
        let room = room - klen;
        if vlen > room {
            return Err(SstError::TooLarge);
        }
        let room = room - vlen;
        if varint_u32_len(klen as u32) + varint_u32_len(vlen as u32) > room {
            return Err(SstError::TooLarge);
        }
        let ghost rs = self.records@;
        let ghost b0 = self.buffer@;
        let ghost rec: Record = (record_key@, record_value@);
        let pointer = -(size as i32);
        write_varint_unsigned(klen as u32, &mut self.buffer);
        write_varint_unsigned(vlen as u32, &mut self.buffer);
        push_all(&mut self.buffer, record_key);
        push_all(&mut self.buffer, record_value);
        let ghost rs2 = rs.push(rec);
        proof {
            assert(self.buffer@ =~= b0 + record_bytes(rec));
            lemma_push(b0, rs, rec, self.data_pages@, self.current_page, self.page_offset as int);
            self.records = Ghost(rs2);
        }
        if self.page_offset == 0 {
            self.current_page = PageData {
                min: copy_bytes(record_key),
                max: copy_bytes(record_key),
                pointer,
                lo: Ghost(rs.len() as int),
                hi: Ghost(rs.len() as int + 1),
            };
            proof {
                lemma_leaf_ok(self.buffer@, rs2, pointer, rs.len() as int, 0);
            }
        } else {
            self.current_page.max = copy_bytes(record_key);
            self.current_page.hi = Ghost(rs.len() as int + 1);
        }
        proof {
            assert(desc_ok(self.buffer@, rs2, self.current_page, 0));
        }
        self.page_offset = self.page_offset + 1;
        if self.page_offset == LOWER_LEAF_SIZE {
            let page = copy_page(&self.current_page);
            proof {
                assert(desc_ok(self.buffer@, rs2, page, 0));
                lemma_close_leaf(
                    self.buffer@,
                    rs2,
                    self.data_pages@,
                    page,
                    self.data_pages@.len() * LOWER_LEAF_SIZE,
                );
            }
            let ghost ds = self.data_pages@;
            self.data_pages.push(page);
            self.page_offset = 0;
            proof {
                assert forall|k: int| 0 <= k < self.data_pages@.len() implies (
                #[trigger] self.data_pages@[k]).hi@ - self.data_pages@[k].lo@ == LOWER_LEAF_SIZE by {
                    if k < ds.len() {
                        assert(self.data_pages@[k] == ds[k]);
                    }
                }
            }
        }
        Ok(pointer)
    }
}

proof fn lemma_u32_extend(b: Seq<u8>, b2: Seq<u8>, x: int)
    requires
        0 <= x,
        x + 4 <= b.len(),
        b.len() <= b2.len(),
        b2.take(b.len() as int) == b,
    ensures
        crate::varint::from_be_u32(b2, x) == crate::varint::from_be_u32(b, x),
{
    assert(b2.take(b.len() as int)[x] == b2[x]);
    assert(b2.take(b.len() as int)[x + 1] == b2[x + 1]);
    assert(b2.take(b.len() as int)[x + 2] == b2[x + 2]);
    assert(b2.take(b.len() as int)[x + 3] == b2[x + 3]);
}

/// The facts a page's proof rests on, gathered while it is written.
spec fn page_written(
    b: Seq<u8>,
    rs: Seq<Record>,
    level: Seq<PageData>,
    start: int,
    end: int,
    page: int,
    pivot_ptrs: Seq<u32>,
    pivs: Seq<Seq<u8>>,
    h: nat,
) -> bool {
    let n = end - start;
    &&& 0 <= start < end <= level.len()
    &&& 2 <= n <= SEARCH_TREE_SIZE
    &&& run_ok(b, rs, level, rs.len() as int, h)
    &&& forall|k: int| 0 <= k < level.len() ==> (#[trigger] level[k]).pointer < page
    &&& 0 <= page
    &&& page + page_size(n) <= b.len()
    &&& b[page] == n
    &&& pivot_ptrs.len() == n - 1
    &&& pivs.len() == n - 1
    &&& forall|i: int|
        0 <= i < n - 1 ==> {
            &&& crate::varint::from_be_u32(b, page + 1 + 4 * i) == #[trigger] pivot_ptrs[i]
            &&& pivot_in_bounds(b, pivot_ptrs[i] as int)
            &&& pivot_at(b, pivot_ptrs[i] as int) == pivs[i]
            &&& count_lt(rs, pivs[i]) == level[start + i + 1].lo@
            &&& separates(rs, pivs[i])
        }
    &&& forall|i: int|
        0 <= i < n ==> #[trigger] crate::varint::from_be_u32(b, page + 1 + 4 * (n - 1) + 4 * i)
            == level[start + i].pointer as u32
}

/// A search page at `p` whose children are, in order, the sub-trees `cs`.
spec fn page_lists(b: Seq<u8>, p: i32, cs: Seq<PageData>) -> bool {
    &&& p >= 0
    &&& (p as int) < b.len()
    &&& p + page_size(cs.len() as int) <= b.len()
    &&& b[p as int] == cs.len()
    &&& forall|i: int| 0 <= i < cs.len() ==> #[trigger] child_ptr(b, p as int, i) == cs[i].pointer
}

/// A page listing sub-trees stays the same when bytes are appended.
proof fn lemma_page_lists_extend(b: Seq<u8>, b2: Seq<u8>, p: i32, cs: Seq<PageData>)
    requires
        page_lists(b, p, cs),
        p + page_size(cs.len() as int) <= b.len(),
        b.len() <= b2.len(),
        b2.take(b.len() as int) == b,
    ensures
        page_lists(b2, p, cs),
{
    assert forall|t: int| 0 <= t < b.len() implies b2[t] == b[t] by {
        assert(b2.take(b.len() as int)[t] == b2[t]);
    }
    let n = cs.len() as int;
    assert forall|i: int| 0 <= i < n implies #[trigger] child_ptr(b2, p as int, i) == child_ptr(
        b,
        p as int,
        i,
    ) by {
        let x = p + 1 + 4 * (n - 1) + 4 * i;
        assert(b2[p as int] == b[p as int]);
        assert(b2[x] == b[x] && b2[x + 1] == b[x + 1] && b2[x + 2] == b[x + 2] && b2[x + 3]
            == b[x + 3]);
    }
}

proof fn lemma_page_ok(
    b: Seq<u8>,
    rs: Seq<Record>,
    level: Seq<PageData>,
    start: int,
    end: int,
    page: int,
    pivot_ptrs: Seq<u32>,
    pivs: Seq<Seq<u8>>,
    h: nat,
)
    requires
        page_written(b, rs, level, start, end, page, pivot_ptrs, pivs, h),
        page < i32::MAX,
    ensures
        tree_ok(b, rs, page as i32, level[start].lo@, h + 1),
        page_lists(b, page as i32, level.subrange(start, end)),
{
    reveal(run_ok);
    reveal_with_fuel(tree_ok, 1);
    let n = end - start;
    let p = page as i32;
    assert(p as int == page);
    assert forall|i: int| 0 <= i < n implies #[trigger] child_ptr(b, page, i)
        == level[start + i].pointer by {
        let v = level[start + i].pointer;
        assert(crate::varint::from_be_u32(b, page + 1 + 4 * (n - 1) + 4 * i) == v as u32);
        assert((v as u32) as i32 == v) by (bit_vector);
    }
    assert forall|i: int| 0 <= i < n - 1 implies #[trigger] pivot_ptr(b, page, i)
        == pivot_ptrs[i] as int by {}
    assert forall|i: int| 0 <= i < n implies #[trigger] child_ptr(b, page, i) < p by {
        assert(level[start + i].pointer < page);
    }
    assert(desc_ok(b, rs, level[start], h));
    assert forall|i: int| 1 <= i < n implies tree_ok(
        b,
        rs,
        #[trigger] child_ptr(b, page, i),
        count_lt(rs, pivot_at(b, pivot_ptr(b, page, i - 1))) as int,
        h,
    ) by {
        assert(pivot_ptr(b, page, i - 1) == pivot_ptrs[i - 1] as int);
        assert(desc_ok(b, rs, level[start + i], h));
    }
    assert forall|i: int| 0 <= i < n - 1 implies pivot_in_bounds(
        b,
        #[trigger] pivot_ptr(b, page, i),
    ) by {
        assert(pivot_ptr(b, page, i) == pivot_ptrs[i] as int);
    }
    assert(level[start].lo@ <= rs.len());
    assert forall|i: int| 0 <= i < n implies #[trigger] child_ptr(b, page, i)
        == level.subrange(start, end)[i].pointer by {
        assert(level.subrange(start, end)[i] == level[start + i]);
    }
}

/// The pivot between the children `t` and `t + 1` of a run splits the
/// records where the second child starts.
proof fn lemma_boundary(rs: Seq<Record>, lv: Seq<PageData>, t: int, c: int)
    requires
        records_ok(rs),
        spans_ok(rs, lv),
        0 <= t,
        t + 1 < lv.len(),
        is_common_prefix_len(lv[t].max@, lv[t + 1].min@, c),
    ensures
        c + 1 <= lv[t + 1].min@.len(),
        count_lt(rs, pivot_of(lv[t + 1].min@, c)) == lv[t + 1].lo@,
        separates(rs, pivot_of(lv[t + 1].min@, c)),
{
    assert(span_ok(rs, lv[t]));
    assert(span_ok(rs, lv[t + 1]));
    assert(lv[t].hi@ == lv[t + 1].lo@);
    assert(key_lt(rs[lv[t].hi@ - 1].0, rs[lv[t + 1].lo@].0));
    lemma_pivot(lv[t].max@, lv[t + 1].min@, c);
    lemma_count_lt_pivot(rs, pivot_of(lv[t + 1].min@, c), lv[t + 1].lo@);
    lemma_common_prefix(lv[t].max@, lv[t + 1].min@, c);
    assert(pivot_of(lv[t + 1].min@, c) == shortest_separator(
        rs[lv[t + 1].lo@ - 1].0,
        rs[lv[t + 1].lo@].0,
    ));
}

/// Appends a pivot, `varint(len) bytes`, and returns where it starts.
fn write_pivot(buffer: &mut Vec<u8>, pivot: &[u8]) -> (pp: usize)
    requires
        old(buffer)@.len() + 6 + pivot@.len() + 5 <= MAX_SST_SIZE,
    ensures
        pp == old(buffer)@.len(),
        old(buffer)@.len() <= final(buffer)@.len(),
        final(buffer)@.len() + 6 <= MAX_SST_SIZE,
        final(buffer)@.take(old(buffer)@.len() as int) == old(buffer)@,
        pivot_in_bounds(final(buffer)@, pp as int),
        pivot_at(final(buffer)@, pp as int) == pivot@,
        (pp as int) < final(buffer)@.len(),
        final(buffer)@.len() <= old(buffer)@.len() + 5 + pivot@.len(),
{
    let pp = buffer.len();
    write_varint_unsigned(pivot.len() as u32, buffer);
    push_all(buffer, pivot);
    proof {
        let e = varint_u32(pivot@.len() as u32);
        assert(final(buffer)@ =~= old(buffer)@ + (e + pivot@));
        lemma_extends_append(old(buffer)@, e + pivot@);
        assert(final(buffer)@.subrange(pp as int, pp + e.len() + pivot@.len()) =~= e + pivot@);
        lemma_pivot_stored(final(buffer)@, pp as int, pivot@);
    }
    pp
}

/// The pivots written so far for the children from `start` on.
spec fn pivots_ok(
    b: Seq<u8>,
    rs: Seq<Record>,
    lv: Seq<PageData>,
    start: int,
    ptrs: Seq<u32>,
    pivs: Seq<Seq<u8>>,
) -> bool {
    &&& ptrs.len() == pivs.len()
    &&& forall|i: int|
        0 <= i < ptrs.len() ==> {
            &&& pivot_in_bounds(b, #[trigger] ptrs[i] as int)
            &&& pivot_at(b, ptrs[i] as int) == pivs[i]
            &&& count_lt(rs, pivs[i]) == lv[start + i + 1].lo@
            &&& separates(rs, pivs[i])
            &&& ptrs[i] < b.len()
        }
}

proof fn lemma_pivots_step(
    b: Seq<u8>,
    b2: Seq<u8>,
    rs: Seq<Record>,
    lv: Seq<PageData>,
    start: int,
    ptrs: Seq<u32>,
    pivs: Seq<Seq<u8>>,
    pp: usize,
    piv: Seq<u8>,
)
    requires
        pivots_ok(b, rs, lv, start, ptrs, pivs),
        b.len() <= b2.len(),
        b2.take(b.len() as int) == b,
        pivot_in_bounds(b2, pp as int),
        pivot_at(b2, pp as int) == piv,
        (pp as int) < b2.len() <= u32::MAX,
        count_lt(rs, piv) == lv[start + ptrs.len() + 1].lo@,
        separates(rs, piv),
    ensures
        pivots_ok(b2, rs, lv, start, ptrs.push(pp as u32), pivs.push(piv)),
{
    let ptrs2 = ptrs.push(pp as u32);
    let pivs2 = pivs.push(piv);
    assert forall|i: int| 0 <= i < ptrs2.len() implies {
        &&& pivot_in_bounds(b2, #[trigger] ptrs2[i] as int)
        &&& pivot_at(b2, ptrs2[i] as int) == pivs2[i]
        &&& count_lt(rs, pivs2[i]) == lv[start + i + 1].lo@
        &&& separates(rs, pivs2[i])
        &&& ptrs2[i] < b2.len()
    } by {
        if i < ptrs.len() {
            assert(ptrs2[i] == ptrs[i] && pivs2[i] == pivs[i]);
            lemma_pivot_extend(b, b2, ptrs[i] as int);
        }
    }
}

/// Writes the pivots between the children `level[start..end]` and returns
/// where each one starts.
#[verifier::rlimit(100)]
fn write_pivots(
    level: &Vec<PageData>,
    start: usize,
    end: usize,
    buffer: &mut Vec<u8>,
    Ghost(rs): Ghost<Seq<Record>>,
    Ghost(h): Ghost<nat>,
    Ghost(k): Ghost<nat>,
) -> (r: Result<(Vec<u32>, Ghost<Seq<Seq<u8>>>), SstError>)
    requires
        records_ok(rs),
        keys_within(rs, k),
        start < end <= level@.len(),
        2 <= end - start <= SEARCH_TREE_SIZE,
        run_ok(old(buffer)@, rs, level@, rs.len() as int, h),
        old(buffer)@.len() + 6 <= MAX_SST_SIZE,
    ensures
        final(buffer)@.len() + 6 <= MAX_SST_SIZE,
        old(buffer)@.len() <= final(buffer)@.len(),
        final(buffer)@.take(old(buffer)@.len() as int) == old(buffer)@,
        match r {
            Ok((ptrs, pivs)) => ptrs@.len() == end - start - 1 && pivots_ok(
                final(buffer)@,
                rs,
                level@,
                start as int,
                ptrs@,
                pivs@,
            ) && final(buffer)@.len() <= old(buffer)@.len() + (end - start - 1) * (k + 6),
            Err(e) => e == SstError::TooLarge,
        },
        old(buffer)@.len() + 6 + (end - start) * (k + 14) <= MAX_SST_SIZE ==> r is Ok,
{
    reveal(run_ok);
    let ghost b0 = buffer@;
    let ghost lv = level@;
    let mut pivot_ptrs: Vec<u32> = Vec::new();
    let ghost mut pivs: Seq<Seq<u8>> = Seq::empty();
    let mut t = start;
    proof {
        assert forall|k: int| 0 <= k < lv.len() implies span_ok(rs, #[trigger] lv[k]) by {
            assert(desc_ok(b0, rs, lv[k], h));
        }
        lemma_extends_append(b0, Seq::empty());
        assert(b0 + Seq::<u8>::empty() =~= b0);
    }
    while t + 1 < end
        invariant
            start <= t < end,
            end <= lv.len(),
            level@ == lv,
            b0 == old(buffer)@,
            records_ok(rs),
            spans_ok(rs, lv),
            pivot_ptrs@.len() == t - start,
            pivs.len() == t - start,
            b0.len() <= buffer@.len(),
            buffer@.take(b0.len() as int) == b0,
            buffer@.len() + 6 <= MAX_SST_SIZE,
            pivots_ok(buffer@, rs, lv, start as int, pivot_ptrs@, pivs),
            keys_within(rs, k),
            buffer@.len() <= b0.len() + (t - start) * (k + 6),
        decreases end - t,
    {
        let left = &level[t];
        let right = &level[t + 1];
        let c = common_prefix_len(left.max.as_slice(), right.min.as_slice());
        proof {
            lemma_boundary(rs, lv, t as int, c as int);
            assert(span_ok(rs, lv[t + 1]));
            assert(rs[lv[t + 1].lo@].0.len() <= k);
            let done = t - start;
            if b0.len() + 6 + (end - start) * (k + 14) <= MAX_SST_SIZE {
                assert((done + 1) * (k + 6) <= (end - start) * (k + 14)) by (nonlinear_arith)
                    requires
                        0 <= done,
                        done + 1 <= end - start,
                ;
                assert(done * (k + 6) + (k + 6) == (done + 1) * (k + 6)) by (nonlinear_arith);
            }
        }
        let pivot = vstd::slice::slice_subrange(right.min.as_slice(), 0, c + 1);
        if c + 1 > MAX_SST_SIZE - 6 - buffer.len() || 5 > MAX_SST_SIZE - 6 - buffer.len() - (c
            + 1) {
            return Err(SstError::TooLarge);
        }
        let ghost before = buffer@;
        let pp = write_pivot(buffer, pivot);
        proof {
            assert(pivot@ =~= pivot_of(right.min@, c as int));
            lemma_extends_trans(b0, before, buffer@);
            lemma_pivots_step(before, buffer@, rs, lv, start as int, pivot_ptrs@, pivs, pp, pivot@);
            pivs = pivs.push(pivot@);
            let done = t - start;
            assert(done * (k + 6) + (k + 6) == (done + 1) * (k + 6)) by (nonlinear_arith);
        }
        pivot_ptrs.push(pp as u32);
        t = t + 1;
    }
    Ok((pivot_ptrs, Ghost(pivs)))
}

/// Writes a page record for the children `level[start..end]` with the
/// given pivot offsets, and returns where it starts.
fn write_page_record(
    level: &Vec<PageData>,
    start: usize,
    end: usize,
    pivot_ptrs: &Vec<u32>,
    buffer: &mut Vec<u8>,
) -> (r: Result<usize, SstError>)
    requires
        start < end <= level@.len(),
        2 <= end - start <= SEARCH_TREE_SIZE,
        pivot_ptrs@.len() == end - start - 1,
        old(buffer)@.len() + 6 <= MAX_SST_SIZE,
    ensures
        old(buffer)@.len() <= final(buffer)@.len(),
        final(buffer)@.take(old(buffer)@.len() as int) == old(buffer)@,
        final(buffer)@.len() + 6 <= MAX_SST_SIZE,
        old(buffer)@.len() + 6 + 1 + 8 * (end - start) <= MAX_SST_SIZE ==> r is Ok,
        match r {
            Ok(page) => {
                let n = end - start;
                &&& page == old(buffer)@.len()
                &&& final(buffer)@.len() == page + page_size(n)
                &&& final(buffer)@[page as int] == n
                &&& forall|i: int|
                    0 <= i < n - 1 ==> crate::varint::from_be_u32(final(buffer)@, page + 1 + 4 * i)
                        == #[trigger] pivot_ptrs@[i]
                &&& forall|i: int|
                    0 <= i < n ==> #[trigger] crate::varint::from_be_u32(
                        final(buffer)@,
                        page + 1 + 4 * (n - 1) + 4 * i,
                    ) == level@[start + i].pointer as u32
            },
            Err(e) => e == SstError::TooLarge,
        },
{
    let ghost lv = level@;
    let n = end - start;
    if 1 + 8 * n > MAX_SST_SIZE - 6 - buffer.len() {
        proof {
            lemma_extends_append(buffer@, Seq::empty());
            assert(buffer@ + Seq::<u8>::empty() =~= buffer@);
        }
        return Err(SstError::TooLarge);
    }
    let ghost after_pivots = buffer@;
    assert(after_pivots == old(buffer)@);
    let page = buffer.len();
    buffer.push(n as u8);
    let mut i: usize = 0;
    while i < pivot_ptrs.len()
        invariant
            i <= pivot_ptrs@.len(),
            pivot_ptrs@.len() == n - 1,
            buffer@.len() == page + 1 + 4 * i,
            buffer@.take(page as int) == after_pivots,
            buffer@[page as int] == n,
            page == after_pivots.len(),
            forall|j: int|
                0 <= j < i ==> crate::varint::from_be_u32(buffer@, page + 1 + 4 * j)
                    == #[trigger] pivot_ptrs@[j],
        decreases pivot_ptrs@.len() - i,
    {
        let ghost before = buffer@;
        push_be_u32(pivot_ptrs[i], buffer);
        proof {
            lemma_extends_append(before, be_u32(pivot_ptrs@[i as int]));
            assert forall|j: int| 0 <= j < i implies crate::varint::from_be_u32(
                buffer@,
                page + 1 + 4 * j,
            ) == #[trigger] pivot_ptrs@[j] by {
                lemma_u32_extend(before, buffer@, page + 1 + 4 * j);
            }
            assert(buffer@.subrange(page + 1 + 4 * i, page + 1 + 4 * i + 4) =~= be_u32(
                pivot_ptrs@[i as int],
            ));
            lemma_u32_stored(buffer@, page + 1 + 4 * i, pivot_ptrs@[i as int]);
            lemma_extends_trans(after_pivots, before, buffer@);
            assert(buffer@[page as int] == before[page as int]);
        }
        i = i + 1;
    }
    let ghost after_ptrs = buffer@;
    let mut i: usize = 0;
    while i < n
        invariant
            i <= n,
            n == end - start,
            end <= lv.len(),
            level@ == lv,
            pivot_ptrs@.len() == n - 1,
            buffer@.len() == page + 1 + 4 * (n - 1) + 4 * i,
            buffer@.take(after_ptrs.len() as int) == after_ptrs,
            after_ptrs.len() == page + 1 + 4 * (n - 1),
            forall|j: int|
                0 <= j < i ==> #[trigger] crate::varint::from_be_u32(
                    buffer@,
                    page + 1 + 4 * (n - 1) + 4 * j,
                ) == lv[start + j].pointer as u32,
        decreases n - i,
    {
        let ghost before = buffer@;
        push_be_u32(level[start + i].pointer as u32, buffer);
        proof {
            let x = page + 1 + 4 * (n - 1) + 4 * i;
            lemma_extends_append(before, be_u32(lv[start + i].pointer as u32));
            assert forall|j: int| 0 <= j < i implies #[trigger] crate::varint::from_be_u32(
                buffer@,
                page + 1 + 4 * (n - 1) + 4 * j,
            ) == lv[start + j].pointer as u32 by {
                lemma_u32_extend(before, buffer@, page + 1 + 4 * (n - 1) + 4 * j);
            }
            assert(buffer@.subrange(x, x + 4) =~= be_u32(lv[start + i].pointer as u32));
            lemma_u32_stored(buffer@, x, lv[start + i].pointer as u32);
            lemma_extends_trans(after_ptrs, before, buffer@);
        }
        i = i + 1;
    }
    proof {
        let b = buffer@;
        lemma_extends_trans(after_pivots, after_ptrs, b);
        assert(b[page as int] == n) by {
            assert(after_ptrs.take(page as int) == after_pivots);
            assert(b.take(after_ptrs.len() as int)[page as int] == b[page as int]);
            assert(after_ptrs[page as int] == n);
        }
        assert forall|i: int| 0 <= i < n - 1 implies crate::varint::from_be_u32(b, page + 1 + 4 * i)
            == #[trigger] pivot_ptrs@[i] by {
            lemma_u32_extend(after_ptrs, b, page + 1 + 4 * i);
        }
    }
    Ok(page)
}

/// Writes the pivots and the page record for the children `level[start..end]`
/// and returns the sub-tree the page heads.
fn write_page(
    level: &Vec<PageData>,
    start: usize,
    end: usize,
    buffer: &mut Vec<u8>,
    Ghost(rs): Ghost<Seq<Record>>,
    Ghost(h): Ghost<nat>,
    Ghost(k): Ghost<nat>,
) -> (r: Result<PageData, SstError>)
    requires
        records_ok(rs),
        keys_within(rs, k),
        start < end <= level@.len(),
        2 <= end - start <= SEARCH_TREE_SIZE,
        run_ok(old(buffer)@, rs, level@, rs.len() as int, h),
        old(buffer)@.len() + 6 <= MAX_SST_SIZE,
    ensures
        final(buffer)@.len() + 6 <= MAX_SST_SIZE,
        old(buffer)@.len() <= final(buffer)@.len(),
        final(buffer)@.take(old(buffer)@.len() as int) == old(buffer)@,
        match r {
            Ok(d) => {
                &&& desc_ok(final(buffer)@, rs, d, h + 1)
                &&& d.lo@ == level@[start as int].lo@
                &&& d.hi@ == level@[end - 1].hi@
                &&& final(buffer)@.len() <= old(buffer)@.len() + (end - start) * (k + 14)
                &&& page_lists(final(buffer)@, d.pointer, level@.subrange(start as int, end as int))
                &&& d.pointer + page_size((end - start) as int) <= final(buffer)@.len()
            },
            Err(e) => e == SstError::TooLarge,
        },
        old(buffer)@.len() + 6 + (end - start) * (k + 14) <= MAX_SST_SIZE ==> r is Ok,
{
    reveal(run_ok);
    let ghost b0 = buffer@;
    let ghost lv = level@;
    let n = end - start;
    let (pivot_ptrs, Ghost(pivs)) = match write_pivots(level, start, end, buffer, Ghost(rs), Ghost(h), Ghost(k)) {
        Ok(x) => x,
        Err(e) => {
            return Err(e);
        },
    };
    proof {
        assert(n * (k + 14) == (n - 1) * (k + 6) + 8 * n + k + 6) by (nonlinear_arith);
    }
    let ghost after_pivots0 = buffer@;
    let page = match write_page_record(level, start, end, &pivot_ptrs, buffer) {
        Ok(p) => p,
        Err(e) => {
            proof {
                lemma_extends_trans(b0, after_pivots0, buffer@);
            }
            return Err(e);
        },
    };
    let ghost after_ptrs = buffer@;
    let d = PageData {
        min: copy_bytes(level[start].min.as_slice()),
        max: copy_bytes(level[end - 1].max.as_slice()),
        pointer: page as i32,
        lo: Ghost(lv[start as int].lo@),
        hi: Ghost(lv[end - 1].hi@),
    };
    proof {
        let b = buffer@;
        lemma_extends_trans(b0, after_pivots0, b);
        lemma_desc_extend(b0, b, rs, lv, rs.len() as int, h);
        assert forall|i: int| 0 <= i < n - 1 implies {
            &&& crate::varint::from_be_u32(b, page + 1 + 4 * i) == #[trigger] pivot_ptrs@[i]
            &&& pivot_in_bounds(b, pivot_ptrs@[i] as int)
            &&& pivot_at(b, pivot_ptrs@[i] as int) == pivs[i]
            &&& count_lt(rs, pivs[i]) == lv[start + i + 1].lo@
            &&& separates(rs, pivs[i])
        } by {
            assert(pivot_in_bounds(after_pivots0, pivot_ptrs@[i] as int));
            lemma_pivot_extend(after_pivots0, b, pivot_ptrs@[i] as int);
        }
        assert forall|k: int| 0 <= k < lv.len() implies (#[trigger] lv[k]).pointer < page by {
            assert(desc_ok(b0, rs, lv[k], h));
        }
        assert(page_written(b, rs, lv, start as int, end as int, page as int, pivot_ptrs@, pivs, h));
        lemma_page_ok(b, rs, lv, start as int, end as int, page as int, pivot_ptrs@, pivs, h);
        assert(desc_ok(b0, rs, lv[start as int], h));
        assert(desc_ok(b0, rs, lv[end - 1], h));
        assert(lv[start as int].lo@ <= lv[end - 1].lo@) by {
            lemma_run_ordered(b0, rs, lv, rs.len() as int, h, start as int, end - 1);
        }
    }
    Ok(d)
}

proof fn lemma_run_ordered(
    b: Seq<u8>,
    rs: Seq<Record>,
    ds: Seq<PageData>,
    to: int,
    h: nat,
    i: int,
    j: int,
)
    requires
        run_ok(b, rs, ds, to, h),
        0 <= i <= j < ds.len(),
    ensures
        ds[i].lo@ <= ds[j].lo@,
        ds[i].hi@ <= ds[j].hi@,
    decreases j - i,
{
    reveal(run_ok);
    if i < j {
        lemma_run_ordered(b, rs, ds, to, h, i, j - 1);
        assert(desc_ok(b, rs, ds[j - 1], h));
        assert(ds[j - 1].hi@ == ds[j].lo@);
        assert(desc_ok(b, rs, ds[j], h));
    }
}

/// Writes the search tree over the sub-trees `children` (one level of the
/// tree, covering every record) and returns the root pointer.
#[verifier::rlimit(100)]
fn write_search_tree(
    children: Vec<PageData>,
    buffer: &mut Vec<u8>,
    Ghost(rs): Ghost<Seq<Record>>,
    Ghost(k): Ghost<nat>,
) -> (r: Result<i32, SstError>)
    requires
        records_ok(rs),
        keys_within(rs, k),
        children@.len() >= 1,
        run_ok(old(buffer)@, rs, children@, rs.len() as int, 0),
        old(buffer)@.len() + 6 <= MAX_SST_SIZE,
    ensures
        final(buffer)@.len() + 6 <= MAX_SST_SIZE,
        old(buffer)@.len() <= final(buffer)@.len(),
        final(buffer)@.take(old(buffer)@.len() as int) == old(buffer)@,
        children@.len() == 1 ==> r == Ok::<i32, SstError>(children@[0].pointer) && final(buffer)@
            == old(buffer)@,
        children@.len() >= 2 ==> (r matches Ok(root) ==> root >= 0),
        2 <= children@.len() <= SEARCH_TREE_SIZE ==> (r matches Ok(root) ==> page_lists(
            final(buffer)@,
            root,
            children@,
        )),
        old(buffer)@.len() + 6 + 2 * children@.len() * (k + 14) <= MAX_SST_SIZE ==> r is Ok,
        match r {
            Ok(root) => root_reaches_records(final(buffer)@, rs, root),
            Err(e) => e == SstError::TooLarge,
        },
{
    let ghost b0 = buffer@;
    let ghost n0 = children@.len();
    let ghost w = k + 14;
    let ghost fits = b0.len() + 6 + 2 * n0 * w <= MAX_SST_SIZE;
    let mut level = children;
    let ghost mut h: nat = 0;
    proof {
        lemma_extends_append(b0, Seq::empty());
        assert(b0 + Seq::<u8>::empty() =~= b0);
    }
    while level.len() > 1
        invariant
            records_ok(rs),
            level@.len() >= 1,
            n0 == children@.len(),
            n0 == 1 ==> level@.len() == 1,
            n0 == 1 ==> buffer@ == b0 && h == 0,
            h == 0 ==> level@ == children@,
            h >= 1 ==> level@[0].pointer >= 0,
            h >= 1 && n0 <= SEARCH_TREE_SIZE ==> level@.len() == 1 && page_lists(
                buffer@,
                level@[0].pointer,
                children@,
            ),
            keys_within(rs, k),
            w == k + 14,
            fits == (b0.len() + 6 + 2 * n0 * w <= MAX_SST_SIZE),
            fits ==> buffer@.len() + 2 * level@.len() * w <= b0.len() + 2 * n0 * w,
            run_ok(buffer@, rs, level@, rs.len() as int, h),
            buffer@.len() + 6 <= MAX_SST_SIZE,
            b0 == old(buffer)@,
            b0.len() <= buffer@.len(),
            buffer@.take(b0.len() as int) == b0,
        decreases level@.len(),
    {
        let mut next: Vec<PageData> = Vec::new();
        let mut start: usize = 0;
        let ghost bls = buffer@.len();
        proof {
            lemma_run_empty(buffer@, rs, h + 1);
        }
        while start < level.len()
            invariant
                records_ok(rs),
                n0 == children@.len(),
                n0 != 1,
                h == 0 ==> level@ == children@,
                h >= 1 ==> n0 > SEARCH_TREE_SIZE,
                start > 0 ==> next@[0].pointer >= 0,
                h == 0 && n0 <= SEARCH_TREE_SIZE && start > 0 ==> start == level@.len()
                    && next@.len() == 1 && page_lists(buffer@, next@[0].pointer, children@),
                keys_within(rs, k),
                w == k + 14,
                fits == (b0.len() + 6 + 2 * n0 * w <= MAX_SST_SIZE),
                fits ==> bls + 2 * level@.len() * w <= b0.len() + 2 * n0 * w,
                fits ==> buffer@.len() <= bls + start * w,
                level@.len() >= 2,
                start <= level@.len(),
                run_ok(buffer@, rs, level@, rs.len() as int, h),
                run_ok(
                    buffer@,
                    rs,
                    next@,
                    if start == 0 {
                        0
                    } else {
                        level@[start - 1].hi@
                    },
                    h + 1,
                ),
                next@.len() * SEARCH_TREE_SIZE == start || (start == level@.len()
                    && next@.len() * SEARCH_TREE_SIZE <= start + SEARCH_TREE_SIZE - 1),
                start > 0 ==> next@.len() >= 1,
                buffer@.len() + 6 <= MAX_SST_SIZE,
                b0 == old(buffer)@,
                b0.len() <= buffer@.len(),
                buffer@.take(b0.len() as int) == b0,
            decreases level@.len() - start,
        {
            let end = if level.len() - start > SEARCH_TREE_SIZE {
                start + SEARCH_TREE_SIZE
            } else {
                level.len()
            };
            let ghost before = buffer@;
            let ghost prev_to = if start == 0 {
                0
            } else {
                level@[start - 1].hi@
            };
            let d = if end - start == 1 {
                let d = copy_page(&level[start]);
                proof {
                    lemma_run_elem(buffer@, rs, level@, rs.len() as int, h, start as int);
                    lemma_tree_ok_height(buffer@, rs, d.pointer, d.lo@, h);
                    lemma_extends_append(before, Seq::empty());
                    assert(before + Seq::<u8>::empty() =~= before);
                }
                d
            } else {
                proof {
                    if fits {
                        let c = end - start;
                        assert((start + c) * w <= level@.len() * w) by (nonlinear_arith)
                            requires
                                start + c <= level@.len(),
                                w >= 0,
                        ;
                        assert(start * w + c * w == (start + c) * w) by (nonlinear_arith);
                        assert(level@.len() * w >= 0) by (nonlinear_arith)
                            requires
                                w >= 0,
                        ;
                        assert(2 * level@.len() * w == level@.len() * w + level@.len() * w)
                            by (nonlinear_arith);
                        assert(c * w == (end - start) * (k + 14));
                        assert(buffer@.len() + 6 + (end - start) * (k + 14) <= MAX_SST_SIZE);
                    }
                }
                match write_page(&level, start, end, buffer, Ghost(rs), Ghost(h), Ghost(k)) {
                    Ok(d) => {
                        proof {
                            if start == 0 && end == level@.len() {
                                assert(level@.subrange(0, level@.len() as int) =~= level@);
                            }
                        }
                        d
                    },
                    Err(e) => {
                        proof {
                            lemma_extends_trans(b0, before, buffer@);
                        }
                        return Err(e);
                    },
                }
            };
            proof {
                if fits {
                    let c = end - start;
                    assert(start * w + c * w == end * w) by (nonlinear_arith)
                        requires
                            end == start + c,
                    ;
                    assert(start * w <= end * w) by (nonlinear_arith)
                        requires
                            start <= end,
                            w >= 0,
                    ;
                }
                lemma_extends_trans(b0, before, buffer@);
                lemma_level_step(
                    before,
                    buffer@,
                    rs,
                    level@,
                    next@,
                    start as int,
                    end as int,
                    d,
                    h,
                );
            }
            next.push(d);
            start = end;
        }
        proof {
            lemma_run_elem(buffer@, rs, level@, rs.len() as int, h, level@.len() - 1);
            if fits {
                let l = level@.len();
                let m = next@.len();
                assert(2 * m <= l);
                assert(2 * m * w <= l * w) by (nonlinear_arith)
                    requires
                        2 * m <= l,
                        w >= 0,
                ;
                assert(2 * l * w == l * w + l * w) by (nonlinear_arith);
            }
        }
        level = next;
        proof {
            h = h + 1;
        }
    }
    proof {
        lemma_run_elem(buffer@, rs, level@, rs.len() as int, h, 0);
        assert(tree_ok(buffer@, rs, level@[0].pointer, 0, h));
    }
    let root = level[0].pointer;
    assert(tree_ok(buffer@, rs, root, 0, h));
    assert(root_reaches_records(buffer@, rs, root));
    Ok(root)
}

/// `root` leads to every record of `rs`: a data pointer to the first record,
/// or a valid search tree over them.
spec fn root_reaches_records(b: Seq<u8>, rs: Seq<Record>, root: i32) -> bool {
    exists|h: nat| tree_ok(b, rs, root, 0, h)
}

proof fn lemma_run_empty(b: Seq<u8>, rs: Seq<Record>, h: nat)
    ensures
        run_ok(b, rs, Seq::empty(), 0, h),
{
    reveal(run_ok);
}

proof fn lemma_run_elem(b: Seq<u8>, rs: Seq<Record>, ds: Seq<PageData>, to: int, h: nat, k: int)
    requires
        run_ok(b, rs, ds, to, h),
        0 <= k < ds.len(),
    ensures
        desc_ok(b, rs, ds[k], h),
        k == 0 ==> ds[k].lo@ == 0,
        k == ds.len() - 1 ==> ds[k].hi@ == to,
        k > 0 ==> ds[k - 1].hi@ == ds[k].lo@,
{
    reveal(run_ok);
}

proof fn lemma_level_step(
    b: Seq<u8>,
    b2: Seq<u8>,
    rs: Seq<Record>,
    level: Seq<PageData>,
    next: Seq<PageData>,
    start: int,
    end: int,
    d: PageData,
    h: nat,
)
    requires
        run_ok(b, rs, level, rs.len() as int, h),
        run_ok(
            b,
            rs,
            next,
            if start == 0 {
                0
            } else {
                level[start - 1].hi@
            },
            h + 1,
        ),
        0 <= start < end <= level.len(),
        b.len() <= b2.len(),
        b2.take(b.len() as int) == b,
        desc_ok(b2, rs, d, h + 1),
        d.lo@ == level[start].lo@,
        d.hi@ == level[end - 1].hi@,
    ensures
        run_ok(b2, rs, level, rs.len() as int, h),
        run_ok(b2, rs, next.push(d), level[end - 1].hi@, h + 1),
{
    lemma_desc_extend(b, b2, rs, level, rs.len() as int, h);
    lemma_desc_extend(
        b,
        b2,
        rs,
        next,
        if start == 0 {
            0
        } else {
            level[start - 1].hi@
        },
        h + 1,
    );
    reveal(run_ok);
    let n2 = next.push(d);
    assert forall|k: int| 0 <= k < n2.len() implies desc_ok(b2, rs, #[trigger] n2[k], h + 1) by {
        if k < next.len() {
            assert(n2[k] == next[k]);
        }
    }
    assert forall|k: int| 0 < k < n2.len() implies n2[k - 1].hi@ == (#[trigger] n2[k]).lo@ by {
        if k < next.len() {
            assert(n2[k] == next[k]);
            assert(n2[k - 1] == next[k - 1]);
        } else {
            assert(n2[k - 1] == next[k - 1]);
        }
    }
}

/// Leaves of `LOWER_LEAF_SIZE` records each, the last perhaps shorter, start
/// at record `LOWER_LEAF_SIZE * j` and point there.
proof fn lemma_leaf_pointers(b: Seq<u8>, rs: Seq<Record>, ds: Seq<PageData>, j: int)
    requires
        run_ok(b, rs, ds, rs.len() as int, 0),
        forall|k: int| 0 <= k < ds.len() - 1 ==> (#[trigger] ds[k]).hi@ - ds[k].lo@ == LOWER_LEAF_SIZE,
        0 <= j < ds.len(),
    ensures
        ds[j].lo@ == LOWER_LEAF_SIZE * j,
        ds[j].pointer == -record_offset(rs, LOWER_LEAF_SIZE * j),
    decreases j,
{
    lemma_run_elem(b, rs, ds, rs.len() as int, 0, j);
    if j > 0 {
        lemma_leaf_pointers(b, rs, ds, j - 1);
        assert(ds[j - 1].hi@ - ds[j - 1].lo@ == LOWER_LEAF_SIZE);
    }
    reveal_with_fuel(tree_ok, 1);
}

/// Closing the current leaf extends the run of leaves to every record.
proof fn lemma_close_leaf(b: Seq<u8>, rs: Seq<Record>, ds: Seq<PageData>, cur: PageData, full: int)
    requires
        run_ok(b, rs, ds, full, 0),
        desc_ok(b, rs, cur, 0),
        cur.lo@ == full,
        cur.hi@ == rs.len(),
    ensures
        run_ok(b, rs, ds.push(cur), rs.len() as int, 0),
{
    reveal(run_ok);
    let n2 = ds.push(cur);
    assert forall|k: int| 0 <= k < n2.len() implies desc_ok(b, rs, #[trigger] n2[k], 0) by {
        if k < ds.len() {
            assert(n2[k] == ds[k]);
        }
    }
    assert forall|k: int| 0 < k < n2.len() implies n2[k - 1].hi@ == (#[trigger] n2[k]).lo@ by {
        if k < ds.len() {
            assert(n2[k] == ds[k]);
        }
        assert(n2[k - 1] == ds[k - 1]);
    }
}

proof fn lemma_finish(b0: Seq<u8>, b1: Seq<u8>, b2: Seq<u8>, b: Seq<u8>, rs: Seq<Record>, root: i32)
    requires
        records_ok(rs),
        b0 == sst_header() + records_bytes(rs),
        b1 == b0 + seq![0u8, 0u8],
        b1.len() <= b2.len(),
        b2.take(b1.len() as int) == b1,
        b2.len() + 6 <= MAX_SST_SIZE,
        root_reaches_records(b2, rs, root),
        b == b2 + be_u32(root as u32) + be_u16(FORMAT_VERSION),
    ensures
        sst_ok(b, rs),
        b.take(b0.len() as int) == b0,
        b.len() <= MAX_SST_SIZE,
        root_ptr(b) == root,
{
    let end = record_offset(rs, rs.len() as int);
    lemma_extends_append(b2, be_u32(root as u32) + be_u16(FORMAT_VERSION));
    assert(b =~= b2 + (be_u32(root as u32) + be_u16(FORMAT_VERSION)));
    lemma_extends_trans(b1, b2, b);
    lemma_extends_append(b0, seq![0u8, 0u8]);
    lemma_extends_trans(b0, b1, b);
    assert(b.subrange(b.len() - 6, b.len() - 2) =~= be_u32(root as u32));
    lemma_u32_stored(b, b.len() - 6, root as u32);
    assert((root as u32) as i32 == root) by (bit_vector);
    assert(root_ptr(b) == root);
    assert(b.skip(b.len() - 2) =~= be_u16(FORMAT_VERSION));
    let h = choose|h: nat| tree_ok(b2, rs, root, 0, h);
    lemma_tree_ok_extend(b2, b, rs, root, 0, h);
    assert(rs.take(rs.len() as int) =~= rs);
    assert(end == b0.len());
    assert(b.take(end + 2) =~= sst_header() + records_bytes(rs) + seq![0u8, 0u8]) by {
        assert(b.take(b1.len() as int) == b1);
    }
    assert(tree_ok(b, rs, root_ptr(b), 0, h));
}

impl SstWriter {
    /// Ends the file: writes the terminator, the search tree and the footer.
    /// Returns the file's bytes and its metadata, or fails when the search
    /// tree would take the file past what its pointers can address.
    #[verifier::rlimit(100)]
    pub fn finish(self) -> (r: Result<(Vec<u8>, SstInfo), SstError>)
        requires
            self.wf(),
        ensures
            self.records().len() <= LOWER_LEAF_SIZE && self.bytes().len() + 8 <= MAX_SST_SIZE
                ==> r is Ok,
            self.bytes().len() + 8 + tree_size_bound(
                self.records().len(),
                max_key_len(self.records()),
            ) <= MAX_SST_SIZE ==> r is Ok,
            match r {
                Ok((bytes, info)) => {
                    let rs = self.records();
                    &&& sst_ok(bytes@, rs)
                    &&& bytes@.take(self.bytes().len() as int) == self.bytes()
                    &&& info.size == bytes@.len()
                    &&& info.min_record@ == if rs.len() == 0 {
                        Seq::<u8>::empty()
                    } else {
                        rs[0].0
                    }
                    &&& info.max_record@ == if rs.len() == 0 {
                        Seq::<u8>::empty()
                    } else {
                        rs.last().0
                    }
                },
                Err(e) => e == SstError::TooLarge,
            },
            // Up to one leaf: no search page; the root is the data pointer to
            // the first record (or the terminator), -26.
            self.records().len() <= LOWER_LEAF_SIZE ==> (r matches Ok((bytes, _)) ==> bytes@
                == self.bytes() + seq![0u8, 0u8] + be_u32(0xffff_ffe6u32) + be_u16(FORMAT_VERSION)),
            // More than one leaf: the root is a search page.
            self.records().len() > LOWER_LEAF_SIZE ==> (r matches Ok((bytes, _)) ==> root_ptr(bytes@)
                >= 0),
            // Two to `SEARCH_TREE_SIZE` leaves: the root page lists the leaves,
            // each a data pointer to its first record.
            LOWER_LEAF_SIZE < self.records().len() <= LOWER_LEAF_SIZE * SEARCH_TREE_SIZE ==> (r matches Ok(
                (bytes, _),
            ) ==> {
                let n = (self.records().len() + LOWER_LEAF_SIZE - 1) / LOWER_LEAF_SIZE as int;
                &&& bytes@[root_ptr(bytes@) as int] == n
                &&& forall|j: int|
                    0 <= j < n ==> #[trigger] child_ptr(bytes@, root_ptr(bytes@) as int, j) == -record_offset(
                        self.records(),
                        LOWER_LEAF_SIZE * j,
                    )
            }),
    {
        let ghost rs = self.records@;
        let ghost b0 = self.buffer@;
        let SstWriter { mut buffer, mut data_pages, page_offset, current_page, records } = self;
        proof {
            if page_offset != 0 {
                lemma_close_leaf(b0, rs, data_pages@, current_page, rs.len() - page_offset);
            }
        }
        let ghost old_pages = data_pages@;
        if page_offset != 0 {
            data_pages.push(current_page);
        }
        let (min_record, max_record) = if data_pages.len() == 0 {
            (Vec::new(), Vec::new())
        } else {
            let last = data_pages.len() - 1;
            proof {
                lemma_run_elem(b0, rs, data_pages@, rs.len() as int, 0, 0);
                lemma_run_elem(b0, rs, data_pages@, rs.len() as int, 0, last as int);
            }
            (copy_bytes(data_pages[0].min.as_slice()), copy_bytes(data_pages[last].max.as_slice()))
        };
        proof {
            if data_pages@.len() == 0 {
                reveal(run_ok);
            }
            if rs.len() <= LOWER_LEAF_SIZE {
                assert(data_pages@.len() <= 1) by {
                    reveal(run_ok);
                    if data_pages@.len() > 1 {
                        lemma_run_elem(b0, rs, data_pages@, rs.len() as int, 0, 1);
                        lemma_run_elem(b0, rs, data_pages@, rs.len() as int, 0, 0);
                        assert(false);
                    }
                }
            }
        }
        let terminator = buffer.len();
        buffer.push(0);
        buffer.push(0);
        let ghost b1 = buffer@;
        proof {
            lemma_extends_append(b0, seq![0u8, 0u8]);
            assert(b1 =~= b0 + seq![0u8, 0u8]);
            lemma_desc_extend(b0, b1, rs, data_pages@, rs.len() as int, 0);
            assert(rs.take(rs.len() as int) =~= rs);
        }
        proof {
            if rs.len() <= LOWER_LEAF_SIZE && data_pages@.len() == 1 {
                lemma_run_elem(b1, rs, data_pages@, rs.len() as int, 0, 0);
                reveal_with_fuel(tree_ok, 1);
                assert(record_offset(rs, 0) == HEADER_SIZE) by {
                    assert(rs.take(0) =~= Seq::<Record>::empty());
                }
            }
            if rs.len() == 0 {
                assert(records_bytes(rs) =~= Seq::<u8>::empty());
            }
            if rs.len() > LOWER_LEAF_SIZE {
                assert(data_pages@.len() >= 2);
            }
            assert forall|k: int| 0 <= k < data_pages@.len() - 1 implies (
            #[trigger] data_pages@[k]).hi@ - data_pages@[k].lo@ == LOWER_LEAF_SIZE by {
                if page_offset != 0 {
                    assert(data_pages@[k] == old_pages[k]);
                } else {
                    assert(data_pages@[k] == old_pages[k]);
                }
            }
        }
        let ghost pages = data_pages@;
        let root = if data_pages.len() == 0 {
            let p = -(terminator as i32);
            proof {
                lemma_leaf_ok(b1, rs, p, 0, 0);
                assert(root_reaches_records(b1, rs, p));
                lemma_extends_append(b1, Seq::empty());
                assert(b1 + Seq::<u8>::empty() =~= b1);
            }
            p
        } else {
            proof {
                lemma_max_key_len(rs);
                let m0 = data_pages@.len();
                let n = rs.len();
                assert(m0 == (n + 15) / 16);
                let w = max_key_len(rs) + 14;
                assert(tree_size_bound(n, max_key_len(rs)) == 2 * m0 * w);
            }
            match write_search_tree(data_pages, &mut buffer, Ghost(rs), Ghost(max_key_len(rs))) {
                Ok(p) => p,
                Err(e) => {
                    return Err(e);
                },
            }
        };
        let ghost b2 = buffer@;
        write_footer(&mut buffer, root);
        let size = buffer.len() as u32;
        proof {
            lemma_finish(b0, b1, b2, buffer@, rs, root);
            if rs.len() <= LOWER_LEAF_SIZE {
                assert(root == -26i32);
                assert((root as u32) == 0xffff_ffe6u32) by (bit_vector)
                    requires
                        root == -26i32,
                ;
                assert(b2 == b1);
            }
            if LOWER_LEAF_SIZE < rs.len() <= LOWER_LEAF_SIZE * SEARCH_TREE_SIZE {
                let n = pages.len() as int;
                assert(n == (rs.len() + LOWER_LEAF_SIZE - 1) / LOWER_LEAF_SIZE as int);
                assert(2 <= n <= SEARCH_TREE_SIZE);
                let b = buffer@;
                let foot = be_u32(root as u32) + be_u16(FORMAT_VERSION);
                assert(b =~= b2 + foot);
                lemma_extends_append(b2, foot);
                assert(page_lists(b2, root, pages));
                lemma_page_lists_extend(b2, b, root, pages);
                assert forall|j: int| 0 <= j < n implies #[trigger] child_ptr(b, root as int, j)
                    == -record_offset(rs, LOWER_LEAF_SIZE * j) by {
                    lemma_leaf_pointers(b1, rs, pages, j);
                }
            }
        }
        Ok((buffer, SstInfo { min_record, max_record, size }))
    }
}

/// Every key of `rs` is at most `k` bytes long.
pub open spec fn keys_within(rs: Seq<Record>, k: nat) -> bool {
    forall|i: int| 0 <= i < rs.len() ==> (#[trigger] rs[i]).0.len() <= k
}

/// The length of the longest key of `rs`.
pub open spec fn max_key_len(rs: Seq<Record>) -> nat
    decreases rs.len(),
{
    if rs.len() == 0 {
        0
    } else if rs.last().0.len() > max_key_len(rs.drop_last()) {
        rs.last().0.len()
    } else {
        max_key_len(rs.drop_last())
    }
}

/// An upper bound on the bytes of the search tree over `n` records whose
/// keys take at most `k` bytes: two bytes per leaf and `k + 14` each.
pub open spec fn tree_size_bound(n: nat, k: nat) -> nat {
    2 * ((n + 15) / 16) * (k + 14)
}

pub proof fn lemma_max_key_len(rs: Seq<Record>)
    ensures
        keys_within(rs, max_key_len(rs)),
    decreases rs.len(),
{
    if rs.len() > 0 {
        lemma_max_key_len(rs.drop_last());
        assert forall|i: int| 0 <= i < rs.len() implies (#[trigger] rs[i]).0.len() <= max_key_len(rs) by {
            if i < rs.len() - 1 {
                assert(rs[i] == rs.drop_last()[i]);
            }
        }
    }
}

/// Writes the header.
fn write_header(buffer: &mut Vec<u8>)
    ensures
        final(buffer)@ == old(buffer)@ + sst_header(),
{
    let mut h: Vec<u8> = vec![
        99u8, 108, 111, 114, 116, 104, 111, 10, 100, 97, 116, 97, 10, 118, 49, 10, 10, 10, 10,
        10, 10, 10, 45, 45, 45, 10,
    ];
    buffer.append(&mut h);
    assert(final(buffer)@ =~= old(buffer)@ + sst_header());
}

/// Writes the footer: the root pointer and the format version.
fn write_footer(buffer: &mut Vec<u8>, tree_pointer: i32)
    ensures
        final(buffer)@ == old(buffer)@ + be_u32(tree_pointer as u32) + be_u16(FORMAT_VERSION),
{
    push_be_u32(tree_pointer as u32, buffer);
    push_be_u16(FORMAT_VERSION, buffer);
}

} // verus!
