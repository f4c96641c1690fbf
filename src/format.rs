//! The SST file layout, stated over bytes.
//!
//! A file is a fixed header, the records in ascending key order (each as
//! `varint(key_len) varint(value_len) key value`), a terminator of two zero
//! bytes, the search pages of the embedded B+-tree with their pivots, and a
//! footer: the root pointer as a big-endian `i32` and the format version as a
//! big-endian `u16`.
//!
//! A pointer that is negative is the negated offset of a record (or of the
//! terminator); one that is not negative is the offset of a search page. A
//! page is `u8(n)`, then `n - 1` big-endian `u32` offsets of its pivots, then
//! `n` big-endian `i32` child pointers; a pivot is `varint(len) bytes`.
use vstd::prelude::*;
use crate::keys::{key_lt, key_le, lemma_cmp_trans, lemma_cmp_range, shortest_separator};
use crate::varint::{
    varint_u32, varint_u32_width, varint_u32_value, from_be_u32, be_u16, be_u32, lemma_be_u32,
    lemma_varint_u32_round_trip,
};

verus! {

/// Size of the fixed header.
pub const HEADER_SIZE: usize = 26;

/// Records per leaf of the search tree.
pub const LOWER_LEAF_SIZE: usize = 16;

/// Largest number of children of a search page.
pub const SEARCH_TREE_SIZE: usize = 64;

/// Format version written in the footer.
pub const FORMAT_VERSION: u16 = 1;

/// Pointers are signed 32-bit offsets, so a file holds at most this many bytes.
pub const MAX_SST_SIZE: usize = 0x7fff_ffff;

/// The header: `clortho\ndata\nv1\n\n\n\n\n\n\n---\n`.
pub open spec fn sst_header() -> Seq<u8> {
    seq![
        99u8, 108, 111, 114, 116, 104, 111, 10, 100, 97, 116, 97, 10, 118, 49, 10, 10, 10, 10,
        10, 10, 10, 45, 45, 45, 10,
    ]
}

/// A record: a key and a value.
pub type Record = (Seq<u8>, Seq<u8>);

/// The bytes of one record in the data section.
pub open spec fn record_bytes(r: Record) -> Seq<u8> {
    varint_u32(r.0.len() as u32) + varint_u32(r.1.len() as u32) + r.0 + r.1
}

/// The bytes of a run of records in the data section.
pub open spec fn records_bytes(rs: Seq<Record>) -> Seq<u8>
    decreases rs.len(),
{
    if rs.len() == 0 {
        Seq::empty()
    } else {
        records_bytes(rs.drop_last()) + record_bytes(rs.last())
    }
}

/// The file offset of record `i` (of the terminator for `i == rs.len()`).
pub open spec fn record_offset(rs: Seq<Record>, i: int) -> int {
    HEADER_SIZE + records_bytes(rs.take(i)).len()
}

/// A record the format can hold: lengths fit a `u32`, and it is not the
/// terminator (empty key and empty value).
pub open spec fn record_ok(r: Record) -> bool {
    &&& r.0.len() <= u32::MAX
    &&& r.1.len() <= u32::MAX
    &&& !(r.0.len() == 0 && r.1.len() == 0)
}

/// Records in strictly ascending key order.
pub open spec fn keys_ascending(rs: Seq<Record>) -> bool {
    forall|i: int, j: int| 0 <= i < j < rs.len() ==> key_lt(#[trigger] rs[i].0, #[trigger] rs[j].0)
}

/// What an SST may hold.
pub open spec fn records_ok(rs: Seq<Record>) -> bool {
    &&& keys_ascending(rs)
    &&& forall|i: int| 0 <= i < rs.len() ==> record_ok(#[trigger] rs[i])
}

/// The number of records whose key sorts before `p`; in ascending records,
/// the index of the first record whose key is at least `p`.
pub open spec fn count_lt(rs: Seq<Record>, p: Seq<u8>) -> nat
    decreases rs.len(),
{
    if rs.len() == 0 {
        0
    } else {
        count_lt(rs.drop_last(), p) + if key_lt(rs.last().0, p) {
            1nat
        } else {
            0nat
        }
    }
}

/// The offset of the `i`th pivot pointer of the page at `page`.
pub open spec fn pivot_ptr(b: Seq<u8>, page: int, i: int) -> int {
    from_be_u32(b, page + 1 + 4 * i) as int
}

/// Where the bytes of the pivot stored at `pp` start.
pub open spec fn pivot_start(b: Seq<u8>, pp: int) -> int {
    pp + varint_u32_width(b[pp])
}

/// The length of the pivot stored at `pp`.
pub open spec fn pivot_len(b: Seq<u8>, pp: int) -> int {
    varint_u32_value(b.skip(pp)) as int
}

/// The pivot stored at `pp` lies inside the file.
pub open spec fn pivot_in_bounds(b: Seq<u8>, pp: int) -> bool {
    &&& 0 <= pp < b.len()
    &&& pivot_start(b, pp) <= b.len()
    &&& pivot_start(b, pp) + pivot_len(b, pp) <= b.len()
}

/// The pivot stored at `pp`.
pub open spec fn pivot_at(b: Seq<u8>, pp: int) -> Seq<u8> {
    b.subrange(pivot_start(b, pp), pivot_start(b, pp) + pivot_len(b, pp))
}

/// The `i`th child pointer of the page at `page`.
pub open spec fn child_ptr(b: Seq<u8>, page: int, i: int) -> i32 {
    from_be_u32(b, page + 1 + 4 * (b[page] as int - 1) + 4 * i) as i32
}

/// The size of a page with `n` children.
pub open spec fn page_size(n: int) -> int {
    1 + 4 * (n - 1) + 4 * n
}

/// `ptr` leads, within `h` page levels, to the records from `lo` on: a data
/// pointer is the offset of record `lo`; a page (of 2 to `SEARCH_TREE_SIZE`
/// children) sends its first child to `lo` too, and each later child to the
/// first record that is not below the pivot in front of it; each pivot is the
/// shortest separator of the two records it falls between. Child pages lie
/// before their parent.
#[verifier::opaque]
pub open spec fn tree_ok(b: Seq<u8>, rs: Seq<Record>, ptr: i32, lo: int, h: nat) -> bool
    decreases h,
{
    if ptr < 0 {
        &&& 0 <= lo <= rs.len()
        &&& -(ptr as int) == record_offset(rs, lo)
    } else if h == 0 {
        false
    } else {
        let p = ptr as int;
        let n = b[p] as int;
        &&& p < b.len()
        &&& 2 <= n <= SEARCH_TREE_SIZE
        &&& p + page_size(n) <= b.len()
        &&& 0 <= lo <= rs.len()
        &&& forall|i: int|
            0 <= i < n - 1 ==> pivot_in_bounds(b, #[trigger] pivot_ptr(b, p, i)) && separates(
                rs,
                pivot_at(b, pivot_ptr(b, p, i)),
            )
        &&& forall|i: int| 0 <= i < n ==> #[trigger] child_ptr(b, p, i) < ptr
        &&& tree_ok(b, rs, child_ptr(b, p, 0), lo, (h - 1) as nat)
        &&& forall|i: int|
            1 <= i < n ==> tree_ok(
                b,
                rs,
                #[trigger] child_ptr(b, p, i),
                count_lt(rs, pivot_at(b, pivot_ptr(b, p, i - 1))) as int,
                (h - 1) as nat,
            )
    }
}

/// `piv` is the shortest separator between the two records it splits the
/// records at.
pub open spec fn separates(rs: Seq<Record>, piv: Seq<u8>) -> bool {
    let k = count_lt(rs, piv) as int;
    &&& 0 < k < rs.len()
    &&& piv == shortest_separator(rs[k - 1].0, rs[k].0)
}

/// The root pointer stored in the footer.
pub open spec fn root_ptr(b: Seq<u8>) -> i32 {
    from_be_u32(b, b.len() - 6) as i32
}

/// `b` is an SST file that holds exactly the records `rs`.
pub open spec fn sst_ok(b: Seq<u8>, rs: Seq<Record>) -> bool {
    let end = record_offset(rs, rs.len() as int);
    &&& records_ok(rs)
    &&& end + 2 + 6 <= b.len() <= MAX_SST_SIZE
    &&& b.take(end + 2) == sst_header() + records_bytes(rs) + seq![0u8, 0u8]
    &&& b.skip(b.len() - 2) == be_u16(FORMAT_VERSION)
    &&& exists|h: nat| tree_ok(b, rs, root_ptr(b), 0, h)
}

pub proof fn lemma_records_bytes_take(rs: Seq<Record>, j: int)
    requires
        0 <= j < rs.len(),
    ensures
        records_bytes(rs.take(j + 1)) == records_bytes(rs.take(j)) + record_bytes(rs[j]),
{
    assert(rs.take(j + 1).drop_last() =~= rs.take(j));
}

pub proof fn lemma_records_bytes_prefix(rs: Seq<Record>, j: int)
    requires
        0 <= j <= rs.len(),
    ensures
        records_bytes(rs).take(records_bytes(rs.take(j)).len() as int) == records_bytes(rs.take(j)),
        records_bytes(rs.take(j)).len() <= records_bytes(rs).len(),
    decreases rs.len(),
{
    if j == rs.len() {
        assert(rs.take(j) =~= rs);
        assert(records_bytes(rs).take(records_bytes(rs).len() as int) =~= records_bytes(rs));
    } else {
        let d = rs.drop_last();
        assert(d.take(j) =~= rs.take(j));
        lemma_records_bytes_prefix(d, j);
        let a = records_bytes(d);
        let p = records_bytes(d.take(j));
        assert((a + record_bytes(rs.last())).take(p.len() as int) =~= a.take(p.len() as int));
    }
}

/// The bytes of record `j` sit at its offset in a file of records `rs`.
pub proof fn lemma_record_at(b: Seq<u8>, rs: Seq<Record>, j: int)
    requires
        0 <= j < rs.len(),
        record_offset(rs, rs.len() as int) <= b.len(),
        b.take(record_offset(rs, rs.len() as int)) == sst_header() + records_bytes(rs),
    ensures
        record_offset(rs, j + 1) == record_offset(rs, j) + record_bytes(rs[j]).len(),
        record_offset(rs, j + 1) <= record_offset(rs, rs.len() as int),
        b.subrange(record_offset(rs, j), record_offset(rs, j + 1)) == record_bytes(rs[j]),
{
    lemma_records_bytes_take(rs, j);
    lemma_records_bytes_prefix(rs, j + 1);
    assert(rs.take(rs.len() as int) =~= rs);
    let all = records_bytes(rs);
    let upto = records_bytes(rs.take(j + 1));
    let before = records_bytes(rs.take(j));
    let o = record_offset(rs, j);
    assert forall|t: int| 0 <= t < record_bytes(rs[j]).len() implies b.subrange(
        o,
        o + record_bytes(rs[j]).len(),
    )[t] == record_bytes(rs[j])[t] by {
        assert(b[o + t] == b.take(record_offset(rs, rs.len() as int))[o + t]);
        assert((sst_header() + all)[o + t] == all[before.len() + t]);
        assert(all[before.len() + t] == all.take(upto.len() as int)[before.len() + t]);
        assert(upto[before.len() + t] == record_bytes(rs[j])[t]);
    }
    assert(b.subrange(o, o + record_bytes(rs[j]).len()) =~= record_bytes(rs[j]));
}

/// Ascending records below the `count_lt` boundary sort before `p`; the
/// others do not.
pub proof fn lemma_count_lt(rs: Seq<Record>, p: Seq<u8>)
    requires
        keys_ascending(rs),
    ensures
        count_lt(rs, p) <= rs.len(),
        forall|j: int| 0 <= j < count_lt(rs, p) ==> key_lt(#[trigger] rs[j].0, p),
        forall|j: int| count_lt(rs, p) <= j < rs.len() ==> !key_lt(#[trigger] rs[j].0, p),
    decreases rs.len(),
{
    if rs.len() > 0 {
        let d = rs.drop_last();
        assert(keys_ascending(d)) by {
            assert forall|i: int, j: int| 0 <= i < j < d.len() implies key_lt(
                #[trigger] d[i].0,
                #[trigger] d[j].0,
            ) by {
                assert(d[i] == rs[i] && d[j] == rs[j]);
            }
        }
        lemma_count_lt(d, p);
        let c = count_lt(d, p);
        let last = rs.len() - 1;
        assert(rs.last() == rs[last]);
        if key_lt(rs[last].0, p) && c < last {
            assert(d[c as int] == rs[c as int]);
            assert(key_lt(rs[c as int].0, rs[last].0));
            lemma_cmp_trans(rs[c as int].0, rs[last].0, p);
            assert(false);
        }
        assert forall|j: int| 0 <= j < count_lt(rs, p) implies key_lt(#[trigger] rs[j].0, p) by {
            if j < c {
                assert(d[j] == rs[j]);
            }
        }
        assert forall|j: int| count_lt(rs, p) <= j < rs.len() implies !key_lt(
            #[trigger] rs[j].0,
            p,
        ) by {
            if j < last {
                assert(d[j] == rs[j]);
            }
        }
    }
}

/// In ascending records, the first record not below `p` is the one at `k`
/// when every record before `k` sorts below `p` and the one at `k` does not.
pub proof fn lemma_count_lt_at(rs: Seq<Record>, p: Seq<u8>, k: int)
    requires
        keys_ascending(rs),
        0 <= k <= rs.len(),
        forall|j: int| 0 <= j < k ==> key_lt(#[trigger] rs[j].0, p),
        k < rs.len() ==> !key_lt(rs[k].0, p),
    ensures
        count_lt(rs, p) == k,
{
    lemma_count_lt(rs, p);
    let c = count_lt(rs, p) as int;
    if c < k {
        assert(key_lt(rs[c].0, p));
    }
    if c > k {
        assert(key_lt(rs[k].0, p));
    }
}

/// A pivot between the key at `k - 1` and the key at `k` (above the first,
/// no later than the second) splits ascending records at `k`.
pub proof fn lemma_count_lt_pivot(rs: Seq<Record>, p: Seq<u8>, k: int)
    requires
        keys_ascending(rs),
        0 < k < rs.len(),
        key_lt(rs[k - 1].0, p),
        key_le(p, rs[k].0),
    ensures
        count_lt(rs, p) == k,
{
    assert forall|j: int| 0 <= j < k implies key_lt(#[trigger] rs[j].0, p) by {
        if j < k - 1 {
            assert(key_lt(rs[j].0, rs[k - 1].0));
            lemma_cmp_trans(rs[j].0, rs[k - 1].0, p);
        }
    }
    lemma_cmp_range(rs[k].0, p);
    lemma_count_lt_at(rs, p, k);
}

/// A data pointer to record `lo` is a valid tree of any height.
pub proof fn lemma_leaf_ok(b: Seq<u8>, rs: Seq<Record>, ptr: i32, lo: int, h: nat)
    requires
        ptr < 0,
        0 <= lo <= rs.len(),
        -(ptr as int) == record_offset(rs, lo),
    ensures
        tree_ok(b, rs, ptr, lo, h),
{
    reveal_with_fuel(tree_ok, 1);
}

/// A tree stays valid with more page levels allowed.
pub proof fn lemma_tree_ok_height(b: Seq<u8>, rs: Seq<Record>, ptr: i32, lo: int, h: nat)
    requires
        tree_ok(b, rs, ptr, lo, h),
    ensures
        tree_ok(b, rs, ptr, lo, h + 1),
    decreases h,
{
    reveal_with_fuel(tree_ok, 1);
    if ptr >= 0 {
        let p = ptr as int;
        let n = b[p] as int;
        lemma_tree_ok_height(b, rs, child_ptr(b, p, 0), lo, (h - 1) as nat);
        assert forall|i: int| 1 <= i < n implies tree_ok(
            b,
            rs,
            #[trigger] child_ptr(b, p, i),
            count_lt(rs, pivot_at(b, pivot_ptr(b, p, i - 1))) as int,
            h,
        ) by {
            lemma_tree_ok_height(
                b,
                rs,
                child_ptr(b, p, i),
                count_lt(rs, pivot_at(b, pivot_ptr(b, p, i - 1))) as int,
                (h - 1) as nat,
            );
        }
    }
}

/// A tree stays valid when bytes are appended to the file.
pub proof fn lemma_tree_ok_extend(
    b: Seq<u8>,
    b2: Seq<u8>,
    rs: Seq<Record>,
    ptr: i32,
    lo: int,
    h: nat,
)
    requires
        tree_ok(b, rs, ptr, lo, h),
        b.len() <= b2.len(),
        b2.take(b.len() as int) == b,
    ensures
        tree_ok(b2, rs, ptr, lo, h),
    decreases h,
{
    reveal_with_fuel(tree_ok, 1);
    assert forall|t: int| 0 <= t < b.len() implies b2[t] == b[t] by {
        assert(b2.take(b.len() as int)[t] == b2[t]);
    }
    if ptr >= 0 {
        let p = ptr as int;
        let n = b[p] as int;
        assert forall|i: int| 0 <= i < n implies #[trigger] child_ptr(b2, p, i) == child_ptr(
            b,
            p,
            i,
        ) by {}
        assert forall|i: int| 0 <= i < n - 1 implies #[trigger] pivot_ptr(b2, p, i) == pivot_ptr(
            b,
            p,
            i,
        ) by {}
        assert forall|i: int|
            0 <= i < n - 1 implies pivot_in_bounds(b2, #[trigger] pivot_ptr(b2, p, i))
            && pivot_at(b2, pivot_ptr(b2, p, i)) == pivot_at(b, pivot_ptr(b, p, i)) by {
            lemma_pivot_extend(b, b2, pivot_ptr(b, p, i));
        }
        lemma_tree_ok_extend(b, b2, rs, child_ptr(b, p, 0), lo, (h - 1) as nat);
        assert forall|i: int| 1 <= i < n implies tree_ok(
            b2,
            rs,
            #[trigger] child_ptr(b2, p, i),
            count_lt(rs, pivot_at(b2, pivot_ptr(b2, p, i - 1))) as int,
            (h - 1) as nat,
        ) by {
            assert(child_ptr(b2, p, i) == child_ptr(b, p, i));
            assert(pivot_at(b2, pivot_ptr(b2, p, i - 1)) == pivot_at(b, pivot_ptr(b, p, i - 1)));
            lemma_tree_ok_extend(
                b,
                b2,
                rs,
                child_ptr(b, p, i),
                count_lt(rs, pivot_at(b, pivot_ptr(b, p, i - 1))) as int,
                (h - 1) as nat,
            );
        }
    }
}

/// Four bytes written as `be_u32(v)` at `x` read back as `v`.
pub proof fn lemma_u32_stored(b: Seq<u8>, x: int, v: u32)
    requires
        0 <= x,
        x + 4 <= b.len(),
        b.subrange(x, x + 4) == be_u32(v),
    ensures
        from_be_u32(b, x) == v,
{
    lemma_be_u32(v);
    assert(b[x] == b.subrange(x, x + 4)[0]);
    assert(b[x + 1] == b.subrange(x, x + 4)[1]);
    assert(b[x + 2] == b.subrange(x, x + 4)[2]);
    assert(b[x + 3] == b.subrange(x, x + 4)[3]);
}

/// A pivot written as `varint(len) bytes` at `pp` reads back as itself.
pub proof fn lemma_pivot_stored(b: Seq<u8>, pp: int, piv: Seq<u8>)
    requires
        0 <= pp,
        piv.len() <= u32::MAX,
        pp + varint_u32(piv.len() as u32).len() + piv.len() <= b.len(),
        b.subrange(pp, pp + varint_u32(piv.len() as u32).len() + piv.len()) == varint_u32(
            piv.len() as u32,
        ) + piv,
    ensures
        pivot_in_bounds(b, pp),
        pivot_at(b, pp) == piv,
{
    let e = varint_u32(piv.len() as u32);
    let end = pp + e.len() + piv.len();
    let rest = piv + b.skip(end);
    assert(b.skip(pp) =~= e + rest) by {
        assert forall|t: int| 0 <= t < b.len() - pp implies b.skip(pp)[t] == (e + rest)[t] by {
            if t < e.len() + piv.len() {
                assert(b.skip(pp)[t] == b.subrange(pp, end)[t]);
            }
        }
    }
    lemma_varint_u32_round_trip(piv.len() as u32, rest);
    assert(b[pp] == b.skip(pp)[0]);
    assert(pivot_at(b, pp) =~= piv) by {
        assert forall|t: int| 0 <= t < piv.len() implies pivot_at(b, pp)[t] == piv[t] by {
            assert(pivot_at(b, pp)[t] == b[pp + e.len() + t]);
            assert(b[pp + e.len() + t] == b.subrange(pp, end)[e.len() + t]);
        }
    }
}

/// A pivot inside the file stays the same when bytes are appended.
pub proof fn lemma_pivot_extend(b: Seq<u8>, b2: Seq<u8>, pp: int)
    requires
        pivot_in_bounds(b, pp),
        b.len() <= b2.len(),
        b2.take(b.len() as int) == b,
    ensures
        pivot_in_bounds(b2, pp),
        pivot_at(b2, pp) == pivot_at(b, pp),
{
    assert forall|t: int| 0 <= t < b.len() implies b2[t] == b[t] by {
        assert(b2.take(b.len() as int)[t] == b2[t]);
    }
    assert(b2.skip(pp)[0] == b.skip(pp)[0]);
    if varint_u32_width(b[pp]) >= 3 {
        assert(b2.skip(pp)[1] == b.skip(pp)[1]);
        assert(b2.skip(pp)[2] == b.skip(pp)[2]);
    }
    if varint_u32_width(b[pp]) >= 5 {
        assert(b2.skip(pp)[3] == b.skip(pp)[3]);
        assert(b2.skip(pp)[4] == b.skip(pp)[4]);
    }
    assert(pivot_len(b2, pp) == pivot_len(b, pp));
    assert(pivot_at(b2, pp) =~= pivot_at(b, pp));
}

} // verus!
