//! Cursor over the bytes of an SST file.
//!
//! `seek` walks the embedded B+-tree from the root pointer in the footer down
//! to a data pointer, then scans forward to the first record whose key is at
//! least the one sought; `advance` decodes the next record. Reading does no
//! I/O: bytes that are not a well-formed file leave the cursor empty rather
//! than fail.
use vstd::prelude::*;
use std::cmp::Ordering;
use std::sync::Arc;
use crate::format::{
    Record, sst_ok, record_offset, records_bytes, record_ok, tree_ok, root_ptr,
    pivot_ptr, pivot_at, pivot_in_bounds, child_ptr, page_size,
    count_lt, sst_header, lemma_record_at, lemma_count_lt,
};
use crate::keys::{key_lt, key_le, compare_keys, lemma_cmp_range, lemma_cmp_trans};
use crate::varint::{
    read_varint_unsigned, varint_u32, varint_u32_width, varint_u32_value, from_be_u32,
    lemma_varint_u32_round_trip,
};

verus! {

/// Something that holds the bytes of a file.
pub trait ByteView {
    /// The bytes held.
    spec fn view_bytes(&self) -> Seq<u8>;

    /// The bytes held, borrowed.
    fn bytes(&self) -> (r: &[u8])
        ensures
            r@ == self.view_bytes(),
    ;
}

impl ByteView for Vec<u8> {
    open spec fn view_bytes(&self) -> Seq<u8> {
        self@
    }

    fn bytes(&self) -> (r: &[u8]) {
        self.as_slice()
    }
}

impl ByteView for Arc<Vec<u8>> {
    open spec fn view_bytes(&self) -> Seq<u8> {
        (**self)@
    }

    fn bytes(&self) -> (r: &[u8]) {
        let v: &Vec<u8> = &**self;
        v.as_slice()
    }
}

/// The result of decoding at `pos` as the records `rs` say it should be:
/// record `j` (`key_start`, `value_start`, `value_end`), or the terminator
/// (an empty range) for `j == rs.len()`.
pub open spec fn decoded_as(b: Seq<u8>, rs: Seq<Record>, j: int, r: Option<(usize, usize, usize)>) -> bool {
    match r {
        Some((ks, vs, ve)) => {
            &&& j < rs.len() ==> {
                &&& ks < ve
                &&& b.subrange(ks as int, vs as int) == rs[j].0
                &&& b.subrange(vs as int, ve as int) == rs[j].1
                &&& ve == record_offset(rs, j + 1)
            }
            &&& j == rs.len() ==> ks == ve
        },
        None => false,
    }
}

/// A decoded record lies inside the bytes.
pub open spec fn in_bounds(b: Seq<u8>, r: Option<(usize, usize, usize)>) -> bool {
    match r {
        Some((ks, vs, ve)) => ks <= vs <= ve <= b.len(),
        None => true,
    }
}

/// Reads the record (or the terminator) at `pos`; `None` where the bytes
/// there are not one.
fn read_record(data: &[u8], pos: usize) -> (r: Option<(usize, usize, usize)>)
    ensures
        in_bounds(data@, r),
        r matches Some((ks, vs, ve)) ==> pos < ks && (ks == ve ==> vs == ve),
        forall|rs: Seq<Record>, j: int|
            #![trigger sst_ok(data@, rs), record_offset(rs, j)]
            sst_ok(data@, rs) && 0 <= j <= rs.len() && pos == record_offset(rs, j) ==> decoded_as(
                data@,
                rs,
                j,
                r,
            ),
{
    let len = data.len();
    if pos >= len || varint_u32_len_of(data[pos]) > len - pos {
        proof {
            lemma_no_record_at(data@, pos as int);
        }
        return None;
    }
    let mut key_len: u32 = 0;
    let rest = read_varint_unsigned(&mut key_len, vstd::slice::slice_subrange(data, pos, len));
    let vl_pos = len - rest.len();
    if vl_pos >= len || varint_u32_len_of(data[vl_pos]) > len - vl_pos {
        proof {
            lemma_no_record_at(data@, pos as int);
        }
        return None;
    }
    let mut val_len: u32 = 0;
    let rest2 = read_varint_unsigned(&mut val_len, vstd::slice::slice_subrange(data, vl_pos, len));
    let ks = len - rest2.len();
    if key_len as usize > len - ks || val_len as usize > len - ks - key_len as usize {
        proof {
            lemma_no_record_at(data@, pos as int);
        }
        return None;
    }
    let vs = ks + key_len as usize;
    let ve = vs + val_len as usize;
    proof {
        assert forall|rs: Seq<Record>, j: int|
            #![trigger sst_ok(data@, rs), record_offset(rs, j)]
            sst_ok(data@, rs) && 0 <= j <= rs.len() && pos == record_offset(rs, j) implies decoded_as(
                data@,
                rs,
                j,
                Some((ks, vs, ve)),
            ) by {
            lemma_valid_record(data@, rs, j);
        }
    }
    Some((ks, vs, ve))
}

/// How many bytes an unsigned encoding that starts with `tag` takes.
fn varint_u32_len_of(tag: u8) -> (r: usize)
    ensures
        r == varint_u32_width(tag),
{
    if tag == 253 {
        3
    } else if tag == 254 {
        5
    } else {
        1
    }
}

/// Used where decoding at `pos` went out of the bytes: no valid reading of
/// the file has a record there.
proof fn lemma_no_record_at(b: Seq<u8>, pos: int)
    requires
        pos >= b.len() || pos + varint_u32_width(b[pos]) > b.len() || ({
            let vl_pos = pos + varint_u32_width(b[pos]);
            vl_pos >= b.len() || vl_pos + varint_u32_width(b[vl_pos]) > b.len() || ({
                let ks = vl_pos + varint_u32_width(b[vl_pos]);
                ks + varint_u32_value(b.skip(pos)) + varint_u32_value(b.skip(vl_pos)) > b.len()
            })
        }),
    ensures
        forall|rs: Seq<Record>, j: int|
            #![trigger sst_ok(b, rs), record_offset(rs, j)]
            sst_ok(b, rs) && 0 <= j <= rs.len() ==> pos != record_offset(rs, j),
{
    assert forall|rs: Seq<Record>, j: int|
        #![trigger sst_ok(b, rs), record_offset(rs, j)]
        sst_ok(b, rs) && 0 <= j <= rs.len() implies pos != record_offset(rs, j) by {
        lemma_valid_record(b, rs, j);
    }
}

/// Where the record (or terminator) at index `j` of a valid file sits, and
/// that decoding it there gives it back.
#[verifier::rlimit(40)]
proof fn lemma_valid_record(b: Seq<u8>, rs: Seq<Record>, j: int)
    requires
        sst_ok(b, rs),
        0 <= j <= rs.len(),
    ensures
        ({
            let pos = record_offset(rs, j);
            let vl_pos = pos + varint_u32_width(b[pos]);
            let ks = vl_pos + varint_u32_width(b[vl_pos]);
            let kl = varint_u32_value(b.skip(pos)) as int;
            let vl = varint_u32_value(b.skip(vl_pos)) as int;
            &&& 0 <= pos < vl_pos < b.len()
            &&& vl_pos < ks <= b.len()
            &&& ks + kl + vl <= b.len()
            &&& decoded_as(b, rs, j, Some((ks as usize, (ks + kl) as usize, (ks + kl + vl) as usize)))
        }),
{
    let pos = record_offset(rs, j);
    let end = record_offset(rs, rs.len() as int);
    assert(rs.take(rs.len() as int) =~= rs);
    assert(b.take(end) =~= sst_header() + records_bytes(rs)) by {
        assert(b.take(end + 2).take(end) =~= b.take(end));
        assert((sst_header() + records_bytes(rs) + seq![0u8, 0u8]).take(end) =~= sst_header()
            + records_bytes(rs));
    }
    crate::format::lemma_records_bytes_prefix(rs, j);
    if j < rs.len() {
        lemma_record_at(b, rs, j);
        let r = rs[j];
        assert(record_ok(r));
        let e1 = varint_u32(r.0.len() as u32);
        let e2 = varint_u32(r.1.len() as u32);
        let nxt = record_offset(rs, j + 1);
        assert(b.subrange(pos, nxt) == e1 + e2 + r.0 + r.1);
        assert(b.skip(pos) =~= e1 + (e2 + r.0 + r.1 + b.skip(nxt))) by {
            assert forall|t: int| 0 <= t < b.len() - pos implies b.skip(pos)[t] == (e1 + (e2 + r.0
                + r.1 + b.skip(nxt)))[t] by {
                if t < nxt - pos {
                    assert(b.skip(pos)[t] == b.subrange(pos, nxt)[t]);
                    assert((e1 + e2 + r.0 + r.1)[t] == (e1 + (e2 + r.0 + r.1 + b.skip(nxt)))[t]);
                }
            }
        }
        lemma_varint_u32_round_trip(r.0.len() as u32, e2 + r.0 + r.1 + b.skip(nxt));
        assert(b[pos] == b.skip(pos)[0]);
        let vl_pos = pos + e1.len();
        assert(b.skip(vl_pos) =~= e2 + (r.0 + r.1 + b.skip(nxt))) by {
            assert forall|t: int| 0 <= t < b.len() - vl_pos implies b.skip(vl_pos)[t] == (e2 + (r.0 + r.1
                + b.skip(nxt)))[t] by {
                assert(b.skip(vl_pos)[t] == b.skip(pos)[e1.len() + t]);
            }
        }
        lemma_varint_u32_round_trip(r.1.len() as u32, r.0 + r.1 + b.skip(nxt));
        assert(b[vl_pos] == b.skip(vl_pos)[0]);
        let ks = vl_pos + e2.len();
        assert(b.subrange(ks, ks + r.0.len()) =~= r.0) by {
            assert forall|t: int| 0 <= t < r.0.len() implies b.subrange(ks, ks + r.0.len())[t]
                == r.0[t] by {
                assert(b.subrange(pos, nxt)[e1.len() + e2.len() + t] == b[ks + t]);
            }
        }
        assert(b.subrange(ks + r.0.len(), ks + r.0.len() + r.1.len()) =~= r.1) by {
            assert forall|t: int| 0 <= t < r.1.len() implies b.subrange(
                ks + r.0.len(),
                ks + r.0.len() + r.1.len(),
            )[t] == r.1[t] by {
                assert(b.subrange(pos, nxt)[e1.len() + e2.len() + r.0.len() + t] == b[ks
                    + r.0.len() + t]);
            }
        }
    } else {
        assert(pos == end);
        assert(b.take(end + 2)[end] == 0u8);
        assert(b.take(end + 2)[end + 1] == 0u8);
        assert(b.skip(pos)[0] == 0);
        assert(b.skip(pos + 1)[0] == 0);
    }
}

/// A binary search over the `size - 1` pivots between `size` children:
/// `f(i)` compares pivot `i` with the key sought. Returns the child whose
/// pivot on the left is at most the key and whose pivot on the right is above
/// it (treating a pivot equal to the key as below it).
pub fn binary_search<F: Fn(u8) -> Ordering>(size: u8, f: F) -> (r: u8)
    requires
        size >= 1,
        forall|i: u8| (i as int) < size - 1 ==> #[trigger] f.requires((i,)),
    ensures
        r < size,
        r > 0 ==> exists|o: Ordering| #[trigger]
            f.ensures(((r - 1) as u8,), o) && o != Ordering::Greater,
        r < size - 1 ==> exists|o: Ordering| #[trigger] f.ensures((r,), o) && o == Ordering::Greater,
{
    let mut left: u8 = 0;
    let mut right: u8 = size - 1;
    while right != left
        invariant
            left <= right < size,
            forall|i: u8| (i as int) < size - 1 ==> #[trigger] f.requires((i,)),
            left > 0 ==> exists|o: Ordering| #[trigger]
                f.ensures(((left - 1) as u8,), o) && o != Ordering::Greater,
            right < size - 1 ==> exists|o: Ordering| #[trigger]
                f.ensures((right,), o) && o == Ordering::Greater,
        decreases right - left,
    {
        let mid = left + (right - left) / 2;
        let cmp = f(mid);
        match cmp {
            Ordering::Greater => {
                right = mid;
            },
            _ => {
                assert(((mid + 1 - 1) as u8) == mid);
                left = mid + 1;
            },
        }
    }
    left
}

fn read_u32(data: &[u8], at: usize) -> (r: u32)
    requires
        at + 4 <= data@.len(),
    ensures
        r == from_be_u32(data@, at as int),
{
    ((data[at] as u32) << 24u32) | ((data[at + 1] as u32) << 16u32) | ((data[at + 2] as u32)
        << 8u32) | (data[at + 3] as u32)
}

/// The bounds of the pivot stored at `pp`, if it lies inside the bytes.
fn read_pivot(data: &[u8], pp: usize) -> (r: Option<(usize, usize)>)
    ensures
        pivot_in_bounds(data@, pp as int) ==> r is Some,
        r matches Some((s, e)) ==> {
            &&& s <= e <= data@.len()
            &&& pivot_in_bounds(data@, pp as int)
            &&& data@.subrange(s as int, e as int) == pivot_at(data@, pp as int)
        },
{
    let len = data.len();
    if pp >= len || varint_u32_len_of(data[pp]) > len - pp {
        return None;
    }
    let mut plen: u32 = 0;
    let rest = read_varint_unsigned(&mut plen, vstd::slice::slice_subrange(data, pp, len));
    let s = len - rest.len();
    if plen as usize > len - s {
        return None;
    }
    Some((s, s + plen as usize))
}

/// Every pivot of the page at `p` with `n` children lies inside the bytes.
pub open spec fn page_pivots_in_bounds(b: Seq<u8>, p: int, n: int) -> bool {
    forall|i: int| 0 <= i < n - 1 ==> pivot_in_bounds(b, #[trigger] pivot_ptr(b, p, i))
}

/// A walk may go on at `ptr`: it leads to the records from some `lo` on,
/// and every record before `lo` sorts below `key`.
pub open spec fn walk_ready(b: Seq<u8>, rs: Seq<Record>, ptr: i32, key: Seq<u8>) -> bool {
    exists|lo: int, h: nat|
        #![trigger tree_ok(b, rs, ptr, lo, h)]
        tree_ok(b, rs, ptr, lo, h) && forall|j: int| 0 <= j < lo ==> key_lt(#[trigger] rs[j].0, key)
}

/// A scan may go on at `pos`: it is the offset of some record `j`, and every
/// record before `j` sorts below `key`.
pub open spec fn scan_ready(b: Seq<u8>, rs: Seq<Record>, pos: int, key: Seq<u8>) -> bool {
    exists|j: int|
        #![trigger record_offset(rs, j)]
        0 <= j <= rs.len() && pos == record_offset(rs, j) && forall|i: int|
            0 <= i < j ==> key_lt(#[trigger] rs[i].0, key)
}

/// `r` is what a seek to record `i` of `rs` finds: record `i`, or nothing
/// past the last record.
pub open spec fn found_as(b: Seq<u8>, rs: Seq<Record>, i: int, r: Option<(usize, usize, usize)>) -> bool {
    &&& i < rs.len() ==> decoded_as(b, rs, i, r)
    &&& i == rs.len() ==> r is None
}

proof fn lemma_scan_step(b: Seq<u8>, rs: Seq<Record>, pos: int, key: Seq<u8>, r: Option<(usize, usize, usize)>)
    requires
        sst_ok(b, rs),
        scan_ready(b, rs, pos, key),
        forall|rs2: Seq<Record>, j: int|
            #![trigger sst_ok(b, rs2), record_offset(rs2, j)]
            sst_ok(b, rs2) && 0 <= j <= rs2.len() && pos == record_offset(rs2, j) ==> decoded_as(
                b,
                rs2,
                j,
                r,
            ),
    ensures
        r is Some,
        r matches Some((ks, vs, ve)) ==> {
            &&& ks == ve ==> found_as(b, rs, count_lt(rs, key) as int, None)
            &&& ks != ve && !key_lt(b.subrange(ks as int, vs as int), key) ==> found_as(
                b,
                rs,
                count_lt(rs, key) as int,
                r,
            )
            &&& ks != ve && key_lt(b.subrange(ks as int, vs as int), key) ==> scan_ready(
                b,
                rs,
                ve as int,
                key,
            )
        },
{
    let j = choose|j: int|
        #![trigger record_offset(rs, j)]
        0 <= j <= rs.len() && pos == record_offset(rs, j) && forall|i: int|
            0 <= i < j ==> key_lt(#[trigger] rs[i].0, key);
    assert(decoded_as(b, rs, j, r));
    lemma_count_lt(rs, key);
    if let Some((ks, vs, ve)) = r {
        if ks == ve {
            assert(j == rs.len());
            crate::format::lemma_count_lt_at(rs, key, j);
        } else if !key_lt(b.subrange(ks as int, vs as int), key) {
            crate::format::lemma_count_lt_at(rs, key, j);
        } else {
            assert forall|i: int| 0 <= i < j + 1 implies key_lt(#[trigger] rs[i].0, key) by {}
            assert(scan_ready(b, rs, ve as int, key)) by {
                assert(record_offset(rs, j + 1) == ve);
            }
        }
    }
}

/// Scans forward from the record at `pos` to the first one whose key is at
/// least `key`.
fn scan(data: &[u8], start: usize, key: &[u8]) -> (r: Option<(usize, usize, usize)>)
    ensures
        in_bounds(data@, r),
        forall|rs: Seq<Record>|
            #[trigger] sst_ok(data@, rs) && scan_ready(data@, rs, start as int, key@) ==> found_as(
                data@,
                rs,
                count_lt(rs, key@) as int,
                r,
            ),
{
    let mut pos = start;
    loop
        invariant
            forall|rs: Seq<Record>|
                #[trigger] sst_ok(data@, rs) && scan_ready(data@, rs, start as int, key@)
                    ==> scan_ready(data@, rs, pos as int, key@),
        decreases data@.len() + 1 - pos,
    {
        let rec = read_record(data, pos);
        proof {
            assert forall|rs: Seq<Record>|
                #[trigger] sst_ok(data@, rs) && scan_ready(data@, rs, start as int, key@) implies {
                    &&& rec is Some
                    &&& rec matches Some((ks, vs, ve)) ==> {
                        &&& ks == ve ==> found_as(data@, rs, count_lt(rs, key@) as int, None)
                        &&& ks != ve && !key_lt(data@.subrange(ks as int, vs as int), key@)
                            ==> found_as(data@, rs, count_lt(rs, key@) as int, rec)
                        &&& ks != ve && key_lt(data@.subrange(ks as int, vs as int), key@)
                            ==> scan_ready(data@, rs, ve as int, key@)
                    }
                } by {
                lemma_scan_step(data@, rs, pos as int, key@, rec);
            }
        }
        match rec {
            None => {
                return None;
            },
            Some((ks, vs, ve)) => {
                if ks == ve {
                    return None;
                }
                let k = vstd::slice::slice_subrange(data, ks, vs);
                match compare_keys(k, key) {
                    Ordering::Less => {
                        pos = ve;
                    },
                    _ => {
                        return rec;
                    },
                }
            },
        }
    }
}

proof fn lemma_walk_page(
    b: Seq<u8>,
    rs: Seq<Record>,
    ptr: i32,
    key: Seq<u8>,
    idx: int,
    child: i32,
)
    requires
        sst_ok(b, rs),
        walk_ready(b, rs, ptr, key),
        ptr >= 0,
        0 <= idx < b[ptr as int],
        child == child_ptr(b, ptr as int, idx),
        idx > 0 ==> pivot_in_bounds(b, pivot_ptr(b, ptr as int, idx - 1)) ==> key_le(
            pivot_at(b, pivot_ptr(b, ptr as int, idx - 1)),
            key,
        ),
    ensures
        walk_ready(b, rs, child, key),
        child < ptr,
{
    reveal_with_fuel(tree_ok, 1);
    let (lo, h) = choose|lo: int, h: nat|
        #![trigger tree_ok(b, rs, ptr, lo, h)]
        tree_ok(b, rs, ptr, lo, h) && forall|j: int| 0 <= j < lo ==> key_lt(#[trigger] rs[j].0, key);
    let p = ptr as int;
    assert(child_ptr(b, p, idx) < ptr);
    if idx == 0 {
        assert(tree_ok(b, rs, child, lo, (h - 1) as nat));
    } else {
        let piv = pivot_at(b, pivot_ptr(b, p, idx - 1));
        assert(pivot_in_bounds(b, pivot_ptr(b, p, idx - 1)));
        let lo2 = count_lt(rs, piv) as int;
        assert(tree_ok(b, rs, child, lo2, (h - 1) as nat));
        assert(crate::format::keys_ascending(rs));
        lemma_count_lt(rs, piv);
        assert forall|j: int| 0 <= j < lo2 implies key_lt(#[trigger] rs[j].0, key) by {
            lemma_cmp_trans(rs[j].0, piv, key);
        }
        assert(tree_ok(b, rs, child, lo2, (h - 1) as nat) && forall|j: int|
            0 <= j < lo2 ==> key_lt(#[trigger] rs[j].0, key));
    }
}

/// What a page at `ptr` of a valid tree guarantees about its layout.
proof fn lemma_page_layout(b: Seq<u8>, rs: Seq<Record>, ptr: i32, key: Seq<u8>)
    requires
        sst_ok(b, rs),
        walk_ready(b, rs, ptr, key),
        ptr >= 0,
    ensures
        (ptr as int) < b.len(),
        b[ptr as int] >= 1,
        ptr + page_size(b[ptr as int] as int) <= b.len(),
        page_pivots_in_bounds(b, ptr as int, b[ptr as int] as int),
{
    reveal_with_fuel(tree_ok, 1);
    let (lo, h) = choose|lo: int, h: nat|
        #![trigger tree_ok(b, rs, ptr, lo, h)]
        tree_ok(b, rs, ptr, lo, h) && forall|j: int| 0 <= j < lo ==> key_lt(#[trigger] rs[j].0, key);
    assert(tree_ok(b, rs, ptr, lo, h));
}

/// A data pointer of a valid tree starts a scan.
proof fn lemma_walk_leaf(b: Seq<u8>, rs: Seq<Record>, ptr: i32, key: Seq<u8>)
    requires
        sst_ok(b, rs),
        walk_ready(b, rs, ptr, key),
        ptr < 0,
    ensures
        scan_ready(b, rs, -(ptr as int), key),
        ptr != i32::MIN,
{
    reveal_with_fuel(tree_ok, 1);
    let (lo, h) = choose|lo: int, h: nat|
        #![trigger tree_ok(b, rs, ptr, lo, h)]
        tree_ok(b, rs, ptr, lo, h) && forall|j: int| 0 <= j < lo ==> key_lt(#[trigger] rs[j].0, key);
    assert(tree_ok(b, rs, ptr, lo, h));
    crate::format::lemma_records_bytes_prefix(rs, lo);
    assert(rs.take(rs.len() as int) =~= rs);
    assert(record_offset(rs, lo) <= record_offset(rs, rs.len() as int));
}

/// Walks the search tree from `from` down to the data section and scans
/// there for the first record whose key is at least `key`.
fn walk_from(data: &[u8], from: i32, key: &[u8]) -> (r: Option<(usize, usize, usize)>)
    ensures
        in_bounds(data@, r),
        forall|rs: Seq<Record>|
            #[trigger] sst_ok(data@, rs) && walk_ready(data@, rs, from, key@) ==> found_as(
                data@,
                rs,
                count_lt(rs, key@) as int,
                r,
            ),
{
    let len = data.len();
    let mut ptr = from;
    while ptr >= 0
        invariant
            len == data@.len(),
            forall|rs: Seq<Record>|
                #[trigger] sst_ok(data@, rs) && walk_ready(data@, rs, from, key@) ==> walk_ready(
                    data@,
                    rs,
                    ptr,
                    key@,
                ),
        decreases if ptr >= 0 {
            ptr as int + 1
        } else {
            0
        },
    {
        let p = ptr as usize;
        if p >= len || data[p] == 0 || (data[p] as usize) * 8 - 3 > len - p {
            proof {
                assert forall|rs: Seq<Record>|
                    #[trigger] sst_ok(data@, rs) && walk_ready(data@, rs, from, key@) implies false by {
                    lemma_page_layout(data@, rs, ptr, key@);
                }
            }
            return None;
        }
        let n = data[p];
        let cmp = |i: u8| -> (o: Ordering)
            requires
                (i as int) < n - 1,
            ensures
                pivot_in_bounds(data@, pivot_ptr(data@, p as int, i as int)) ==> ((o
                    == Ordering::Greater) == key_lt(
                    key@,
                    pivot_at(data@, pivot_ptr(data@, p as int, i as int)),
                )),
            {
                let pp = read_u32(data, p + 1 + 4 * (i as usize)) as usize;
                match read_pivot(data, pp) {
                    Some((s, e)) => compare_keys(vstd::slice::slice_subrange(data, s, e), key),
                    None => Ordering::Greater,
                }
            };
        let idx = binary_search(n, cmp);
        proof {
            if idx > 0 {
                let o = choose|o: Ordering| #[trigger]
                    cmp.ensures(((idx - 1) as u8,), o) && o != Ordering::Greater;
                let piv = pivot_at(data@, pivot_ptr(data@, p as int, idx - 1));
                assert((idx - 1) as u8 as int == idx - 1);
                lemma_cmp_range(key@, piv);
            }
        }
        let child = read_u32(data, p + 1 + 4 * (n as usize - 1) + 4 * (idx as usize)) as i32;
        if child >= ptr {
            proof {
                assert forall|rs: Seq<Record>|
                    #[trigger] sst_ok(data@, rs) && walk_ready(data@, rs, from, key@) implies false by {
                    lemma_page_layout(data@, rs, ptr, key@);
                    lemma_walk_page(data@, rs, ptr, key@, idx as int, child);
                }
            }
            return None;
        }
        proof {
            assert forall|rs: Seq<Record>|
                #[trigger] sst_ok(data@, rs) && walk_ready(data@, rs, from, key@) implies walk_ready(
                    data@,
                    rs,
                    child,
                    key@,
                ) && child < ptr by {
                lemma_page_layout(data@, rs, ptr, key@);
                lemma_walk_page(data@, rs, ptr, key@, idx as int, child);
            }
        }
        ptr = child;
    }
    if ptr == i32::MIN {
        proof {
            assert forall|rs: Seq<Record>|
                #[trigger] sst_ok(data@, rs) && walk_ready(data@, rs, from, key@) implies false by {
                lemma_walk_leaf(data@, rs, ptr, key@);
            }
        }
        return None;
    }
    let pos = (-ptr) as usize;
    proof {
        assert forall|rs: Seq<Record>|
            #[trigger] sst_ok(data@, rs) && walk_ready(data@, rs, from, key@) implies scan_ready(
                data@,
                rs,
                pos as int,
                key@,
            ) by {
            lemma_walk_leaf(data@, rs, ptr, key@);
        }
    }
    scan(data, pos, key)
}

/// What a seek for `key` finds among the records `rs`: the first record
/// whose key is at least `key`, if any.
pub open spec fn seek_result(rs: Seq<Record>, key: Seq<u8>) -> Option<Record> {
    if count_lt(rs, key) < rs.len() {
        Some(rs[count_lt(rs, key) as int])
    } else {
        None
    }
}

/// Reader over the bytes of one SST file: a cursor that `seek` places and
/// `advance` moves forward.
pub struct SstReader<D: ByteView> {
    data: D,
    // Where the record after the current one starts.
    next_position: Option<usize>,
    // The current record: key start, value start, value end.
    key_value: Option<(usize, usize, usize)>,
}

impl<D: ByteView> SstReader<D> {
    /// The bytes read.
    pub closed spec fn bytes(&self) -> Seq<u8> {
        self.data.view_bytes()
    }

    /// The record at the cursor, if any.
    pub closed spec fn current(&self) -> Option<Record> {
        match self.key_value {
            Some((ks, vs, ve)) => Some(
                (
                    self.bytes().subrange(ks as int, vs as int),
                    self.bytes().subrange(vs as int, ve as int),
                ),
            ),
            None => None,
        }
    }

    /// The cursor stands at record `i` of `rs` (past the last one for
    /// `i == rs.len()`).
    pub closed spec fn cursor_at(&self, rs: Seq<Record>, i: int) -> bool {
        &&& 0 <= i <= rs.len()
        &&& i < rs.len() ==> {
            &&& self.current() == Some(rs[i])
            &&& self.next_position == Some(record_offset(rs, i + 1) as usize)
        }
        &&& i == rs.len() ==> self.current() is None && self.next_position is None
    }

    /// The reader's invariant: the current record lies inside the bytes.
    pub closed spec fn wf(&self) -> bool {
        in_bounds(self.bytes(), self.key_value)
    }

    /// A cursor at record `i` shows record `i`.
    pub proof fn lemma_cursor_current(&self, rs: Seq<Record>, i: int)
        requires
            self.cursor_at(rs, i),
        ensures
            self.current() == if i < rs.len() {
                Some(rs[i])
            } else {
                None::<Record>
            },
    {
    }

    /// Creates a reader over `data`, with no current record.
    pub fn new(data: D) -> (r: Self)
        ensures
            r.wf(),
            r.bytes() == data.view_bytes(),
            r.current() is None,
    {
        SstReader { data, next_position: None, key_value: None }
    }

    /// Places the cursor on the first record whose key is at least `key`, or
    /// past the end when there is none.
    pub fn seek(&mut self, key: &[u8])
        requires
            old(self).wf(),
        ensures
            final(self).wf(),
            final(self).bytes() == old(self).bytes(),
            forall|rs: Seq<Record>|
                #[trigger] sst_ok(final(self).bytes(), rs) ==> final(self).cursor_at(
                    rs,
                    count_lt(rs, key@) as int,
                ),
            forall|rs: Seq<Record>|
                #[trigger] sst_ok(final(self).bytes(), rs) ==> final(self).current() == seek_result(
                    rs,
                    key@,
                ),
    {
        let data = self.data.bytes();
        let len = data.len();
        if len < 6 {
            self.key_value = None;
            self.next_position = None;
            return;
        }
        let root = read_u32(data, len - 6) as i32;
        proof {
            assert forall|rs: Seq<Record>| #[trigger] sst_ok(data@, rs) implies walk_ready(
                data@,
                rs,
                root,
                key@,
            ) by {
                let h = choose|h: nat| tree_ok(data@, rs, root_ptr(data@), 0, h);
                assert(tree_ok(data@, rs, root, 0, h));
            }
        }
        let found = walk_from(data, root, key);
        match found {
            Some((ks, vs, ve)) => {
                self.key_value = found;
                self.next_position = Some(ve);
            },
            None => {
                self.key_value = None;
                self.next_position = None;
            },
        }
        proof {
            assert forall|rs: Seq<Record>| #[trigger] sst_ok(self.bytes(), rs) implies self.cursor_at(
                rs,
                count_lt(rs, key@) as int,
            ) && self.current() == seek_result(rs, key@) by {
                lemma_count_lt(rs, key@);
            }
        }
    }

    /// Moves the cursor to the next record; past the last one it holds none.
    pub fn advance(&mut self)
        requires
            old(self).wf(),
        ensures
            final(self).wf(),
            final(self).bytes() == old(self).bytes(),
            forall|rs: Seq<Record>, i: int|
                #![trigger old(self).cursor_at(rs, i)]
                sst_ok(old(self).bytes(), rs) && old(self).cursor_at(rs, i) ==> final(self).cursor_at(
                    rs,
                    if i < rs.len() {
                        i + 1
                    } else {
                        i
                    },
                ),
    {
        match self.next_position {
            Some(pos) => {
                let data = self.data.bytes();
                let rec = read_record(data, pos);
                let ghost old_self = *self;
                proof {
                    assert forall|rs: Seq<Record>, i: int|
                        #![trigger old_self.cursor_at(rs, i)]
                        sst_ok(data@, rs) && old_self.cursor_at(rs, i) implies i < rs.len()
                        && decoded_as(data@, rs, i + 1, rec) by {
                        assert(i < rs.len());
                        lemma_valid_record(data@, rs, i + 1);
                        assert(record_offset(rs, i + 1) == pos);
                    }
                }
                match rec {
                    Some((ks, vs, ve)) => {
                        if ks == ve {
                            self.key_value = None;
                            self.next_position = None;
                        } else {
                            self.key_value = rec;
                            self.next_position = Some(ve);
                        }
                    },
                    None => {
                        self.key_value = None;
                        self.next_position = None;
                    },
                }
            },
            None => {
                self.key_value = None;
            },
        }
    }

    /// The record at the cursor, if any.
    pub fn get(&self) -> (r: Option<(&[u8], &[u8])>)
        requires
            self.wf(),
        ensures
            match r {
                Some((k, v)) => self.current() == Some((k@, v@)),
                None => self.current() is None,
            },
    {
        match self.key_value {
            Some((ks, vs, ve)) => {
                let data = self.data.bytes();
                Some(
                    (
                        vstd::slice::slice_subrange(data, ks, vs),
                        vstd::slice::slice_subrange(data, vs, ve),
                    ),
                )
            },
            None => None,
        }
    }
}

/// A seek for the empty key starts at the first record, so seeking it and
/// advancing step by step visits the records in order, each exactly once.
pub proof fn lemma_seek_empty_key(rs: Seq<Record>)
    requires
        crate::format::records_ok(rs),
    ensures
        count_lt(rs, Seq::empty()) == 0,
        seek_result(rs, Seq::empty()) == if rs.len() > 0 {
            Some(rs[0])
        } else {
            None::<Record>
        },
{
    lemma_count_lt(rs, Seq::empty());
    if count_lt(rs, Seq::empty()) > 0 {
        assert(key_lt(rs[0].0, Seq::<u8>::empty()));
    }
}

/// A seek for a key that the file holds finds that record.
pub proof fn lemma_seek_present(rs: Seq<Record>, i: int)
    requires
        crate::format::records_ok(rs),
        0 <= i < rs.len(),
    ensures
        count_lt(rs, rs[i].0) == i,
        seek_result(rs, rs[i].0) == Some(rs[i]),
{
    lemma_cmp_range(rs[i].0, rs[i].0);
    crate::format::lemma_count_lt_at(rs, rs[i].0, i);
}

/// A seek for a key that the file does not hold, but that sorts no later
/// than its largest key, finds the record with the smallest larger key.
pub proof fn lemma_seek_absent(rs: Seq<Record>, key: Seq<u8>)
    requires
        crate::format::records_ok(rs),
        rs.len() > 0,
        key_le(key, rs.last().0),
        forall|i: int| 0 <= i < rs.len() ==> (#[trigger] rs[i]).0 != key,
    ensures
        seek_result(rs, key) matches Some(r) && key_lt(key, r.0) && forall|i: int|
            0 <= i < rs.len() && key_lt(key, (#[trigger] rs[i]).0) ==> key_le(r.0, rs[i].0),
{
    lemma_count_lt(rs, key);
    let c = count_lt(rs, key) as int;
    let last = rs.len() - 1;
    assert(rs.last() == rs[last]);
    if c == rs.len() {
        assert(key_lt(rs[last].0, key));
        lemma_cmp_range(key, rs[last].0);
    }
    lemma_cmp_range(key, rs[c].0);
    assert forall|i: int| 0 <= i < rs.len() && key_lt(key, (#[trigger] rs[i]).0) implies key_le(
        rs[c].0,
        rs[i].0,
    ) by {
        lemma_cmp_range(rs[c].0, rs[i].0);
        if i < c {
            lemma_cmp_range(key, rs[i].0);
        }
    }
}

/// A seek for a key above every key of the file finds nothing.
pub proof fn lemma_seek_past_end(rs: Seq<Record>, key: Seq<u8>)
    requires
        crate::format::records_ok(rs),
        rs.len() == 0 || key_lt(rs.last().0, key),
    ensures
        seek_result(rs, key) is None,
{
    assert forall|i: int| 0 <= i < rs.len() implies key_lt(#[trigger] rs[i].0, key) by {
        if i < rs.len() - 1 {
            lemma_cmp_trans(rs[i].0, rs.last().0, key);
        }
    }
    crate::format::lemma_count_lt_at(rs, key, rs.len() as int);
}

} // verus!
