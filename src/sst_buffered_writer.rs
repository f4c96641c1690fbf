//! A writer that takes records in any order: it buffers them, sorts them by
//! key (keeping the order of pushes among equal keys), lets a merge policy
//! collapse the values of each key, and writes the result as one SST file.
use vstd::prelude::*;
use std::cmp::Ordering;
use crate::format::{Record, sst_ok, keys_ascending, records_bytes, HEADER_SIZE, MAX_SST_SIZE};
use crate::keys::{key_lt, key_le, compare_keys, lemma_cmp_range, lemma_cmp_trans};
use crate::merge::{Merger, values_view};
use crate::records::KVWritable;
use crate::sst_writer::{SstWriter, SstInfo, SstError, tree_size_bound, max_key_len};

verus! {

/// The values pushed for `key`, newest first.
pub open spec fn values_of(ps: Seq<Record>, key: Seq<u8>) -> Seq<Seq<u8>>
    decreases ps.len(),
{
    if ps.len() == 0 {
        Seq::empty()
    } else if ps.last().0 == key {
        seq![ps.last().1] + values_of(ps.drop_last(), key)
    } else {
        values_of(ps.drop_last(), key)
    }
}

/// `rs` is what the buffered records `ps` come to under the policy `m`:
/// one record per pushed key that the policy keeps, with the merged value
/// of all values pushed for it.
pub open spec fn merged_records<M: Merger>(rs: Seq<Record>, ps: Seq<Record>, m: M) -> bool {
    &&& forall|j: int|
        0 <= j < rs.len() ==> exists|i: int| 0 <= i < ps.len() && ps[i].0 == (#[trigger] rs[j]).0
    &&& forall|j: int|
        0 <= j < rs.len() ==> m.merged((#[trigger] rs[j]).0, values_of(ps, rs[j].0)) == Some(rs[j].1)
    &&& forall|i: int|
        0 <= i < ps.len() && (#[trigger] m.merged(ps[i].0, values_of(ps, ps[i].0))) is Some
            ==> exists|j: int| 0 <= j < rs.len() && (#[trigger] rs[j]).0 == ps[i].0
}

/// The policy keeps an empty value for the empty key, a record the format
/// cannot hold.
pub open spec fn empty_record_kept<M: Merger>(ps: Seq<Record>, m: M) -> bool {
    exists|i: int|
        0 <= i < ps.len() && ps[i].0.len() == 0 && #[trigger] m.merged(ps[i].0, values_of(ps, ps[i].0))
            == Some(Seq::<u8>::empty())
}

/// Push `x` sorts before push `y`: by key, then by the order of pushes.
pub open spec fn push_before(ps: Seq<Record>, x: int, y: int) -> bool {
    key_lt(ps[x].0, ps[y].0) || (ps[x].0 == ps[y].0 && x < y)
}

/// `order` lists the pushes `0..n` in `push_before` order.
pub open spec fn sorted_pushes(order: Seq<usize>, ps: Seq<Record>, n: int) -> bool {
    &&& order.len() == n
    &&& n <= ps.len()
    &&& forall|p: int| 0 <= p < order.len() ==> (#[trigger] order[p]) < n
    &&& forall|p: int, q: int|
        0 <= p < q < order.len() ==> push_before(ps, #[trigger] order[p] as int, #[trigger] order[q] as int)
    &&& forall|i: int| 0 <= i < n ==> #[trigger] listed(order, i)
}

/// Push `i` appears in `order`.
pub open spec fn listed(order: Seq<usize>, i: int) -> bool {
    exists|p: int| 0 <= p < order.len() && order[p] == i
}

/// The arena holds each push at its pointers.
spec fn arena_ok(arena: Seq<u8>, ptrs: Seq<(usize, usize, usize)>, ps: Seq<Record>) -> bool {
    &&& ptrs.len() == ps.len()
    &&& forall|i: int|
        0 <= i < ptrs.len() ==> {
            let (s, k, e) = #[trigger] ptrs[i];
            &&& s <= k <= e <= arena.len()
            &&& arena.subrange(s as int, k as int) == ps[i].0
            &&& arena.subrange(k as int, e as int) == ps[i].1
        }
}

/// A writer that accepts records in any order.
pub struct SstBufferedWriter<M: Merger> {
    inner: SstWriter,
    // The bytes of the pushed records.
    bytes_buffer: Vec<u8>,
    // Where each pushed record is: key start, key end (value start), value end.
    pointers: Vec<(usize, usize, usize)>,
    merger: M,
    pushed: Ghost<Seq<Record>>,
}

impl<M: Merger> SstBufferedWriter<M> {
    /// The records pushed so far, in the order of pushes.
    pub closed spec fn pushed(&self) -> Seq<Record> {
        self.pushed@
    }

    /// The merge policy.
    pub closed spec fn policy(&self) -> M {
        self.merger
    }

    /// The writer's invariant.
    pub closed spec fn wf(&self) -> bool {
        &&& arena_ok(self.bytes_buffer@, self.pointers@, self.pushed@)
        &&& self.inner.wf()
        &&& self.inner.records().len() == 0
    }

    /// Creates a buffered writer with the merge policy `merger`.
    pub fn new(merger: M) -> (r: Self)
        ensures
            r.wf(),
            r.pushed() == Seq::<Record>::empty(),
            r.policy() == merger,
    {
        SstBufferedWriter {
            inner: SstWriter::new(),
            bytes_buffer: Vec::new(),
            pointers: Vec::new(),
            merger,
            pushed: Ghost(Seq::empty()),
        }
    }

    /// Buffers a record.
    pub fn push_record<R: KVWritable>(&mut self, record: R)
        requires
            old(self).wf(),
        ensures
            final(self).wf(),
            final(self).pushed() == old(self).pushed().push((record.key_bytes(), record.value_bytes())),
            final(self).policy() == old(self).policy(),
    {
        let ghost a0 = self.bytes_buffer@;
        let start = self.bytes_buffer.len();
        record.write_key(&mut self.bytes_buffer);
        let key_end = self.bytes_buffer.len();
        record.write_value(&mut self.bytes_buffer);
        let value_end = self.bytes_buffer.len();
        self.pointers.push((start, key_end, value_end));
        proof {
            let a = self.bytes_buffer@;
            let ps = self.pushed@.push((record.key_bytes(), record.value_bytes()));
            assert(a.subrange(start as int, key_end as int) =~= record.key_bytes());
            assert(a.subrange(key_end as int, value_end as int) =~= record.value_bytes());
            assert forall|i: int| 0 <= i < self.pointers@.len() - 1 implies {
                let (s, k, e) = #[trigger] self.pointers@[i];
                &&& a.subrange(s as int, k as int) == ps[i].0
                &&& a.subrange(k as int, e as int) == ps[i].1
            } by {
                let (s, k, e) = self.pointers@[i];
                assert(a0.subrange(s as int, k as int) == self.pushed@[i].0);
                assert(a.subrange(s as int, k as int) =~= a0.subrange(s as int, k as int));
                assert(a.subrange(k as int, e as int) =~= a0.subrange(k as int, e as int));
            }
            self.pushed = Ghost(ps);
        }
    }
}

/// Where push `i` goes among the sorted pushes `0..i`: after every push whose
/// key is not above its own.
fn insert_position(
    arena: &Vec<u8>,
    ptrs: &Vec<(usize, usize, usize)>,
    order: &Vec<usize>,
    i: usize,
    Ghost(ps): Ghost<Seq<Record>>,
) -> (pos: usize)
    requires
        arena_ok(arena@, ptrs@, ps),
        i < ps.len(),
        sorted_pushes(order@, ps, i as int),
    ensures
        pos <= order@.len(),
        forall|p: int| 0 <= p < pos ==> key_le(ps[#[trigger] order@[p] as int].0, ps[i as int].0),
        forall|p: int|
            pos <= p < order@.len() ==> key_lt(ps[i as int].0, ps[#[trigger] order@[p] as int].0),
{
    let key = key_of(arena, ptrs, i, Ghost(ps));
    let mut pos: usize = 0;
    while pos < order.len()
        invariant
            arena_ok(arena@, ptrs@, ps),
            i < ps.len(),
            key@ == ps[i as int].0,
            sorted_pushes(order@, ps, i as int),
            pos <= order@.len(),
            forall|p: int| 0 <= p < pos ==> key_le(ps[#[trigger] order@[p] as int].0, ps[i as int].0),
        decreases order@.len() - pos,
    {
        let other = key_of(arena, ptrs, order[pos], Ghost(ps));
        match compare_keys(key, other) {
            Ordering::Less => {
                proof {
                    assert forall|p: int| pos <= p < order@.len() implies key_lt(
                        ps[i as int].0,
                        ps[#[trigger] order@[p] as int].0,
                    ) by {
                        if p > pos {
                            assert(push_before(ps, order@[pos as int] as int, order@[p] as int));
                            lemma_cmp_range(ps[order@[pos as int] as int].0, ps[order@[p] as int].0);
                            lemma_cmp_trans(
                                ps[i as int].0,
                                ps[order@[pos as int] as int].0,
                                ps[order@[p] as int].0,
                            );
                        }
                    }
                }
                return pos;
            },
            _ => {
                proof {
                    lemma_cmp_range(key@, other@);
                }
                pos = pos + 1;
            },
        }
    }
    pos
}

/// The key of push `i`.
fn key_of<'b>(
    arena: &'b Vec<u8>,
    ptrs: &Vec<(usize, usize, usize)>,
    i: usize,
    Ghost(ps): Ghost<Seq<Record>>,
) -> (r: &'b [u8])
    requires
        arena_ok(arena@, ptrs@, ps),
        i < ps.len(),
    ensures
        r@ == ps[i as int].0,
{
    let (s, k, _) = ptrs[i];
    vstd::slice::slice_subrange(arena.as_slice(), s, k)
}

/// The value of push `i`.
fn value_of<'b>(
    arena: &'b Vec<u8>,
    ptrs: &Vec<(usize, usize, usize)>,
    i: usize,
    Ghost(ps): Ghost<Seq<Record>>,
) -> (r: &'b [u8])
    requires
        arena_ok(arena@, ptrs@, ps),
        i < ps.len(),
    ensures
        r@ == ps[i as int].1,
{
    let (_, k, e) = ptrs[i];
    vstd::slice::slice_subrange(arena.as_slice(), k, e)
}

/// Sorts the pushes by key, keeping the order of pushes among equal keys.
fn sort_pushes(
    arena: &Vec<u8>,
    ptrs: &Vec<(usize, usize, usize)>,
    Ghost(ps): Ghost<Seq<Record>>,
) -> (order: Vec<usize>)
    requires
        arena_ok(arena@, ptrs@, ps),
    ensures
        sorted_pushes(order@, ps, ps.len() as int),
{
    let mut order: Vec<usize> = Vec::new();
    let mut i: usize = 0;
    while i < ptrs.len()
        invariant
            arena_ok(arena@, ptrs@, ps),
            i <= ps.len(),
            sorted_pushes(order@, ps, i as int),
        decreases ps.len() - i,
    {
        let pos = insert_position(arena, ptrs, &order, i, Ghost(ps));
        let ghost o0 = order@;
        order.insert(pos, i);
        proof {
            let o = order@;
            assert(o =~= o0.insert(pos as int, i));
            assert forall|p: int, q: int| 0 <= p < q < o.len() implies push_before(
                ps,
                #[trigger] o[p] as int,
                #[trigger] o[q] as int,
            ) by {
                if q < pos {
                    assert(o[p] == o0[p] && o[q] == o0[q]);
                } else if q == pos {
                    assert(o[p] == o0[p]);
                    assert(key_le(ps[o0[p] as int].0, ps[i as int].0));
                    lemma_cmp_range(ps[o0[p] as int].0, ps[i as int].0);
                } else if p < pos {
                    assert(o[p] == o0[p] && o[q] == o0[q - 1]);
                    if p < q - 1 {
                        assert(push_before(ps, o0[p] as int, o0[q - 1] as int));
                    } else {
                        assert(push_before(ps, o0[p] as int, o0[q - 1] as int));
                    }
                } else if p == pos {
                    assert(o[q] == o0[q - 1]);
                    assert(key_lt(ps[i as int].0, ps[o0[q - 1] as int].0));
                } else {
                    assert(o[p] == o0[p - 1] && o[q] == o0[q - 1]);
                }
            }
            assert forall|j: int| 0 <= j < i + 1 implies #[trigger] listed(o, j) by {
                if j == i {
                    assert(o[pos as int] == j);
                } else {
                    assert(listed(o0, j));
                    let q0 = choose|p: int| 0 <= p < o0.len() && o0[p] == j;
                    if q0 < pos {
                        assert(o[q0] == j);
                    } else {
                        assert(o[q0 + 1] == j);
                    }
                }
            }
            assert forall|p: int| 0 <= p < o.len() implies (#[trigger] o[p]) < i + 1 by {
                if p < pos {
                    assert(o[p] == o0[p]);
                } else if p > pos {
                    assert(o[p] == o0[p - 1]);
                }
            }
        }
        i = i + 1;
    }
    order
}

/// Indices listed newest first that are exactly the pushes with key `k`
/// give `values_of(ps, k)`.
proof fn lemma_values_of(ps: Seq<Record>, k: Seq<u8>, idxs: Seq<int>)
    requires
        forall|t: int, u: int| 0 <= t < u < idxs.len() ==> #[trigger] idxs[t] > #[trigger] idxs[u],
        forall|t: int| 0 <= t < idxs.len() ==> 0 <= #[trigger] idxs[t] < ps.len(),
        forall|t: int| 0 <= t < idxs.len() ==> ps[#[trigger] idxs[t]].0 == k,
        forall|i: int| 0 <= i < ps.len() && ps[i].0 == k ==> #[trigger] idxs.contains(i),
    ensures
        values_of(ps, k) == idxs.map_values(|i: int| ps[i].1),
    decreases ps.len(),
{
    if ps.len() == 0 {
        if idxs.len() > 0 {
            assert(0 <= idxs[0] < ps.len());
        }
        assert(idxs.map_values(|i: int| ps[i].1) =~= Seq::<Seq<u8>>::empty());
    } else {
        let m = ps.len() - 1;
        let d = ps.drop_last();
        if ps[m].0 == k {
            assert(idxs.contains(m));
            let t0 = choose|t: int| 0 <= t < idxs.len() && idxs[t] == m;
            if t0 > 0 {
                assert(idxs[0] > idxs[t0]);
            }
            assert(idxs[0] == m);
            let rest = idxs.drop_first();
            assert forall|i: int| 0 <= i < d.len() && d[i].0 == k implies #[trigger] rest.contains(i) by {
                assert(ps[i] == d[i]);
                assert(idxs.contains(i));
                let t = choose|t: int| 0 <= t < idxs.len() && idxs[t] == i;
                assert(t != 0);
                assert(rest[t - 1] == i);
            }
            assert forall|t: int| 0 <= t < rest.len() implies 0 <= #[trigger] rest[t] < d.len() by {
                assert(rest[t] == idxs[t + 1]);
                assert(idxs[0] > idxs[t + 1]);
            }
            assert forall|t: int| 0 <= t < rest.len() implies d[#[trigger] rest[t]].0 == k by {
                assert(rest[t] == idxs[t + 1]);
                assert(idxs[0] > idxs[t + 1]);
            }
            assert forall|t: int, u: int| 0 <= t < u < rest.len() implies #[trigger] rest[t] > #[trigger] rest[u] by {
                assert(rest[t] == idxs[t + 1] && rest[u] == idxs[u + 1]);
            }
            lemma_values_of(d, k, rest);
            assert forall|t: int| 0 <= t < rest.len() implies d[#[trigger] rest[t]].1 == ps[rest[t]].1 by {
                assert(rest[t] == idxs[t + 1]);
                assert(idxs[0] > idxs[t + 1]);
            }
            assert(idxs.map_values(|i: int| ps[i].1) =~= seq![ps[m].1] + rest.map_values(|i: int| d[i].1));
        } else {
            assert forall|t: int| 0 <= t < idxs.len() implies 0 <= #[trigger] idxs[t] < d.len() by {
                if idxs[t] == m {
                    assert(ps[idxs[t]].0 == k);
                }
            }
            assert forall|t: int| 0 <= t < idxs.len() implies d[#[trigger] idxs[t]].0 == k by {
                assert(idxs[t] < d.len());
                assert(d[idxs[t]] == ps[idxs[t]]);
            }
            assert forall|i: int| 0 <= i < d.len() && d[i].0 == k implies #[trigger] idxs.contains(i) by {
                assert(ps[i] == d[i]);
            }
            lemma_values_of(d, k, idxs);
            assert forall|t: int| 0 <= t < idxs.len() implies d[#[trigger] idxs[t]].1 == ps[idxs[t]].1 by {
                assert(idxs[t] < d.len());
            }
            assert(idxs.map_values(|i: int| ps[i].1) =~= idxs.map_values(|i: int| d[i].1));
        }
    }
}

/// The key of the push at position `p` of `order`.
pub open spec fn key_at(ps: Seq<Record>, order: Seq<usize>, p: int) -> Seq<u8> {
    ps[order[p] as int].0
}

/// The end of the run of equal keys that starts at position `a` of `order`.
fn group_end(
    arena: &Vec<u8>,
    ptrs: &Vec<(usize, usize, usize)>,
    order: &Vec<usize>,
    a: usize,
    Ghost(ps): Ghost<Seq<Record>>,
) -> (b: usize)
    requires
        arena_ok(arena@, ptrs@, ps),
        sorted_pushes(order@, ps, ps.len() as int),
        a < order@.len(),
    ensures
        a < b <= order@.len(),
        forall|p: int| a <= p < b ==> #[trigger] key_at(ps, order@, p) == key_at(ps, order@, a as int),
        b < order@.len() ==> key_at(ps, order@, b as int) != key_at(ps, order@, a as int),
{
    let key = key_of(arena, ptrs, order[a], Ghost(ps));
    let n = order.len();
    let mut b = a + 1;
    while b < n
        invariant
            arena_ok(arena@, ptrs@, ps),
            sorted_pushes(order@, ps, ps.len() as int),
            a < b <= order@.len(),
            n == order@.len(),
            key@ == key_at(ps, order@, a as int),
            forall|p: int| a <= p < b ==> #[trigger] key_at(ps, order@, p) == key_at(ps, order@, a as int),
        decreases order@.len() - b,
    {
        let other = key_of(arena, ptrs, order[b], Ghost(ps));
        match compare_keys(other, key) {
            Ordering::Equal => {
                b = b + 1;
            },
            _ => {
                return b;
            },
        }
    }
    b
}

/// The values of the pushes at positions `a..b` of `order`, last first.
fn group_values<'b>(
    arena: &'b Vec<u8>,
    ptrs: &Vec<(usize, usize, usize)>,
    order: &Vec<usize>,
    a: usize,
    b: usize,
    Ghost(ps): Ghost<Seq<Record>>,
) -> (r: Vec<&'b [u8]>)
    requires
        arena_ok(arena@, ptrs@, ps),
        sorted_pushes(order@, ps, ps.len() as int),
        a < b <= order@.len(),
    ensures
        r@.len() == b - a,
        forall|t: int| 0 <= t < b - a ==> (#[trigger] r@[t])@ == ps[order@[b - 1 - t] as int].1,
{
    let mut r: Vec<&'b [u8]> = Vec::new();
    let mut c = b;
    while c > a
        invariant
            arena_ok(arena@, ptrs@, ps),
            sorted_pushes(order@, ps, ps.len() as int),
            a <= c <= b <= order@.len(),
            r@.len() == b - c,
            forall|t: int| 0 <= t < b - c ==> (#[trigger] r@[t])@ == ps[order@[b - 1 - t] as int].1,
        decreases c - a,
    {
        c = c - 1;
        r.push(value_of(arena, ptrs, order[c], Ghost(ps)));
    }
    r
}

/// The run at positions `a..b` of `order`, maximal for its key, read last
/// first, holds the values pushed for that key, newest first.
proof fn lemma_group_values(ps: Seq<Record>, order: Seq<usize>, a: int, b: int, vals: Seq<Seq<u8>>)
    requires
        sorted_pushes(order, ps, ps.len() as int),
        0 <= a < b <= order.len(),
        forall|p: int| a <= p < b ==> #[trigger] key_at(ps, order, p) == key_at(ps, order, a),
        b < order.len() ==> key_at(ps, order, b) != key_at(ps, order, a),
        a > 0 ==> key_at(ps, order, a - 1) != key_at(ps, order, a),
        vals.len() == b - a,
        forall|t: int| 0 <= t < b - a ==> #[trigger] vals[t] == ps[order[b - 1 - t] as int].1,
    ensures
        vals == values_of(ps, key_at(ps, order, a)),
{
    let k = key_at(ps, order, a);
    let idxs = Seq::new((b - a) as nat, |t: int| order[b - 1 - t] as int);
    assert forall|t: int, u: int| 0 <= t < u < idxs.len() implies #[trigger] idxs[t] > #[trigger] idxs[u] by {
        assert(push_before(ps, order[b - 1 - u] as int, order[b - 1 - t] as int));
        assert(key_at(ps, order, b - 1 - u) == k && key_at(ps, order, b - 1 - t) == k);
        lemma_cmp_range(k, k);
    }
    assert forall|t: int| 0 <= t < idxs.len() implies ps[#[trigger] idxs[t]].0 == k by {
        assert(key_at(ps, order, b - 1 - t) == k);
    }
    assert forall|i: int| 0 <= i < ps.len() && ps[i].0 == k implies #[trigger] idxs.contains(i) by {
        assert(listed(order, i));
        let p = choose|p: int| 0 <= p < order.len() && order[p] == i;
        if p < a {
            assert(push_before(ps, order[p] as int, order[a - 1] as int) || p == a - 1);
            assert(push_before(ps, order[a - 1] as int, order[a] as int));
            lemma_cmp_range(key_at(ps, order, a - 1), k);
            if p < a - 1 {
                lemma_cmp_range(ps[i].0, key_at(ps, order, a - 1));
                if key_lt(ps[i].0, key_at(ps, order, a - 1)) {
                    lemma_cmp_trans(ps[i].0, key_at(ps, order, a - 1), k);
                }
            }
            lemma_cmp_range(k, k);
            assert(false);
        } else if p >= b {
            assert(push_before(ps, order[b] as int, order[p] as int) || p == b);
            assert(push_before(ps, order[b - 1] as int, order[b] as int));
            assert(key_at(ps, order, b - 1) == k);
            lemma_cmp_range(k, key_at(ps, order, b));
            if p > b {
                lemma_cmp_range(key_at(ps, order, b), ps[i].0);
                lemma_cmp_trans(k, key_at(ps, order, b), ps[i].0);
            }
            lemma_cmp_range(k, k);
            assert(false);
        } else {
            assert(idxs[b - 1 - p] == i);
        }
    }
    lemma_values_of(ps, k, idxs);
    assert(vals =~= idxs.map_values(|i: int| ps[i].1));
}

/// What the records written so far say once the runs before position `a`
/// of `order` have been merged and written.
#[verifier::opaque]
spec fn progress<M: Merger>(recs: Seq<Record>, ps: Seq<Record>, order: Seq<usize>, m: M, a: int) -> bool {
    &&& forall|j: int|
        0 <= j < recs.len() ==> exists|i: int| 0 <= i < ps.len() && ps[i].0 == (#[trigger] recs[j]).0
    &&& forall|j: int|
        0 <= j < recs.len() ==> m.merged((#[trigger] recs[j]).0, values_of(ps, recs[j].0)) == Some(
            recs[j].1,
        )
    &&& forall|p: int|
        0 <= p < a && (#[trigger] m.merged(key_at(ps, order, p), values_of(ps, key_at(ps, order, p))))
            is Some ==> exists|j: int| 0 <= j < recs.len() && (#[trigger] recs[j]).0 == key_at(ps, order, p)
    &&& a > 0 && a < order.len() ==> key_lt(key_at(ps, order, a - 1), key_at(ps, order, a))
    &&& recs.len() > 0 ==> a > 0 && key_le(recs.last().0, key_at(ps, order, a - 1))
}

proof fn lemma_progress_start<M: Merger>(ps: Seq<Record>, order: Seq<usize>, m: M)
    ensures
        progress(Seq::empty(), ps, order, m, 0),
{
    reveal(progress);
}

proof fn lemma_progress_done<M: Merger>(rs: Seq<Record>, ps: Seq<Record>, order: Seq<usize>, m: M)
    requires
        sorted_pushes(order, ps, ps.len() as int),
        progress(rs, ps, order, m, order.len() as int),
    ensures
        merged_records(rs, ps, m),
{
    reveal(progress);
    assert forall|i: int|
        0 <= i < ps.len() && (#[trigger] m.merged(ps[i].0, values_of(ps, ps[i].0))) is Some implies exists|
        j: int,
    | 0 <= j < rs.len() && (#[trigger] rs[j]).0 == ps[i].0 by {
        assert(listed(order, i));
        let p = choose|p: int| 0 <= p < order.len() && order[p] == i;
        assert(key_at(ps, order, p) == ps[i].0);
        assert(m.merged(key_at(ps, order, p), values_of(ps, key_at(ps, order, p))) is Some);
    }
}

/// The records gathered so far.
spec fn out_recs(v: Seq<(Vec<u8>, Vec<u8>)>) -> Seq<Record> {
    v.map_values(|p: (Vec<u8>, Vec<u8>)| (p.0@, p.1@))
}

/// Gathered records ascend by key, and none is an empty key with an empty
/// value.
spec fn out_ok(recs: Seq<Record>) -> bool {
    &&& keys_ascending(recs)
    &&& forall|j: int| 0 <= j < recs.len() ==> !((#[trigger] recs[j]).0.len() == 0 && recs[j].1.len() == 0)
}

/// The file that holds `rs` fits what its pointers can address.
pub open spec fn fits(rs: Seq<Record>) -> bool {
    HEADER_SIZE + records_bytes(rs).len() + 8 + tree_size_bound(rs.len(), max_key_len(rs))
        <= MAX_SST_SIZE
}

/// Merges the run of equal keys at position `a` of `order` and writes what
/// the policy keeps; returns where the next run starts.
fn write_group<M: Merger>(
    out: &mut Vec<(Vec<u8>, Vec<u8>)>,
    merger: &M,
    arena: &Vec<u8>,
    ptrs: &Vec<(usize, usize, usize)>,
    order: &Vec<usize>,
    a: usize,
    Ghost(ps): Ghost<Seq<Record>>,
) -> (r: Result<usize, SstError>)
    requires
        arena_ok(arena@, ptrs@, ps),
        sorted_pushes(order@, ps, ps.len() as int),
        a < order@.len(),
        out_ok(out_recs(old(out)@)),
        progress(out_recs(old(out)@), ps, order@, *merger, a as int),
    ensures
        match r {
            Ok(b) => {
                &&& a < b <= order@.len()
                &&& out_ok(out_recs(final(out)@))
                &&& progress(out_recs(final(out)@), ps, order@, *merger, b as int)
            },
            Err(e) => e == SstError::EmptyRecord && empty_record_kept(ps, *merger),
        },
{
    reveal(progress);
    let n = order.len();
    let b = group_end(arena, ptrs, order, a, Ghost(ps));
    let key = key_of(arena, ptrs, order[a], Ghost(ps));
    let values = group_values(arena, ptrs, order, a, b, Ghost(ps));
    let ghost k = key_at(ps, order@, a as int);
    proof {
        if a > 0 {
            lemma_cmp_range(key_at(ps, order@, a - 1), k);
        }
        lemma_group_values(ps, order@, a as int, b as int, values_view(values@));
        if b < n {
            assert(push_before(ps, order@[b - 1] as int, order@[b as int] as int));
            assert(key_at(ps, order@, b - 1) == k);
            lemma_cmp_range(k, key_at(ps, order@, b as int));
        }
        assert(key_at(ps, order@, b - 1) == k);
    }
    let ghost recs0 = out_recs(out@);
    proof {
        if recs0.len() > 0 {
            lemma_cmp_range(recs0.last().0, key_at(ps, order@, a - 1));
            if key_lt(recs0.last().0, key_at(ps, order@, a - 1)) {
                lemma_cmp_trans(recs0.last().0, key_at(ps, order@, a - 1), k);
            }
        }
    }
    match merger.merge(key, &values) {
        Some(v) => {
            if key.len() == 0 && v.len() == 0 {
                proof {
                    let i = order@[a as int] as int;
                    assert(listed(order@, i));
                    assert(ps[i].0 == k);
                    assert(v@ =~= Seq::<u8>::empty());
                    assert(merger.merged(ps[i].0, values_of(ps, ps[i].0)) == Some(Seq::<u8>::empty()));
                }
                return Err(SstError::EmptyRecord);
            }
            let ghost vv = v@;
            out.push((vstd::slice::slice_to_vec(key), v));
            proof {
                let recs = out_recs(out@);
                assert(recs =~= recs0.push((k, vv)));
                assert forall|i: int, j: int| 0 <= i < j < recs.len() implies key_lt(
                    #[trigger] recs[i].0,
                    #[trigger] recs[j].0,
                ) by {
                    if j == recs0.len() {
                        assert(recs[i] == recs0[i]);
                        if i < recs0.len() - 1 {
                            assert(key_lt(recs0[i].0, recs0.last().0));
                            lemma_cmp_trans(recs0[i].0, recs0.last().0, k);
                        }
                    } else {
                        assert(recs[i] == recs0[i] && recs[j] == recs0[j]);
                    }
                }
                assert forall|j: int| 0 <= j < recs.len() implies !((#[trigger] recs[j]).0.len() == 0
                    && recs[j].1.len() == 0) by {
                    if j < recs0.len() {
                        assert(recs[j] == recs0[j]);
                    }
                }
                assert(listed(order@, order@[a as int] as int));
                assert forall|j: int| 0 <= j < recs.len() implies exists|i: int|
                    0 <= i < ps.len() && ps[i].0 == (#[trigger] recs[j]).0 by {
                    if j < recs0.len() {
                        assert(recs[j] == recs0[j]);
                    } else {
                        assert(ps[order@[a as int] as int].0 == recs[j].0);
                    }
                }
                assert forall|j: int| 0 <= j < recs.len() implies merger.merged(
                    (#[trigger] recs[j]).0,
                    values_of(ps, recs[j].0),
                ) == Some(recs[j].1) by {
                    if j < recs0.len() {
                        assert(recs[j] == recs0[j]);
                    }
                }
                assert forall|p: int|
                    0 <= p < b && (#[trigger] merger.merged(
                        key_at(ps, order@, p),
                        values_of(ps, key_at(ps, order@, p)),
                    )) is Some implies exists|j: int|
                    0 <= j < recs.len() && (#[trigger] recs[j]).0 == key_at(ps, order@, p) by {
                    if p < a {
                        let j = choose|j: int|
                            0 <= j < recs0.len() && (#[trigger] recs0[j]).0 == key_at(ps, order@, p);
                        assert(recs[j] == recs0[j]);
                    } else {
                        assert(recs[recs0.len() as int].0 == key_at(ps, order@, p));
                    }
                }
                lemma_cmp_range(k, k);
                assert(recs.last() == (k, vv));
            }
        },
        None => {
            proof {
                assert forall|p: int|
                    0 <= p < b && (#[trigger] merger.merged(
                        key_at(ps, order@, p),
                        values_of(ps, key_at(ps, order@, p)),
                    )) is Some implies exists|j: int|
                    0 <= j < recs0.len() && (#[trigger] recs0[j]).0 == key_at(ps, order@, p) by {
                    if p >= a {
                        assert(key_at(ps, order@, p) == k);
                    }
                }
            }
        },
    }
    Ok(b)
}

/// Pushes the gathered records, in order, into an empty writer.
fn write_records(writer: &mut SstWriter, out: &Vec<(Vec<u8>, Vec<u8>)>) -> (r: Result<(), SstError>)
    requires
        old(writer).wf(),
        old(writer).records().len() == 0,
        out_ok(out_recs(out@)),
    ensures
        fits(out_recs(out@)) ==> r is Ok,
        r is Ok ==> final(writer).wf() && final(writer).records() == out_recs(out@),
        r is Err ==> r == Err::<(), SstError>(SstError::TooLarge),
{
    let ghost rs = out_recs(out@);
    let mut i: usize = 0;
    proof {
        assert(old(writer).records() =~= rs.take(0));
    }
    while i < out.len()
        invariant
            rs == out_recs(out@),
            out_ok(rs),
            i <= rs.len(),
            writer.wf(),
            writer.records() == rs.take(i as int),
        decreases rs.len() - i,
    {
        let ghost before = writer.records();
        proof {
            writer.lemma_bytes();
            assert(rs[i as int] == (out@[i as int].0@, out@[i as int].1@));
            if i > 0 {
                assert(before.last() == rs[i - 1]);
            }
            crate::format::lemma_records_bytes_take(rs, i as int);
            crate::format::lemma_records_bytes_prefix(rs, i + 1);
            assert(rs.take(i + 1).take(i as int) =~= rs.take(i as int));
        }
        let (k, v) = (&out[i].0, &out[i].1);
        match writer.push_record(k.as_slice(), v.as_slice()) {
            Ok(_) => {},
            Err(e) => {
                return Err(e);
            },
        }
        proof {
            assert(rs.take(i + 1) =~= rs.take(i as int).push(rs[i as int]));
        }
        i = i + 1;
    }
    proof {
        assert(rs.take(rs.len() as int) =~= rs);
    }
    Ok(())
}

impl<M: Merger> SstBufferedWriter<M> {
    /// Sorts the buffered records by key, merges the values of each key with
    /// the policy (newest first), and writes what the policy keeps as one
    /// SST file. Returns its bytes and metadata. Succeeds unless the policy
    /// keeps an empty value for the empty key, or the file would not fit.
    #[verifier::rlimit(100)]
    pub fn finish(self) -> (r: Result<(Vec<u8>, SstInfo), SstError>)
        requires
            self.wf(),
        ensures
            !empty_record_kept(self.pushed(), self.policy()) && (forall|rs: Seq<Record>|
                #![trigger merged_records(rs, self.pushed(), self.policy())]
                merged_records(rs, self.pushed(), self.policy()) && keys_ascending(rs) ==> fits(rs))
                ==> r is Ok,
            match r {
                Ok((bytes, info)) => exists|rs: Seq<Record>|
                    #![trigger sst_ok(bytes@, rs)]
                    {
                        &&& sst_ok(bytes@, rs)
                        &&& merged_records(rs, self.pushed(), self.policy())
                        &&& info.size == bytes@.len()
                        &&& info.min_record@ == if rs.len() == 0 {
                            Seq::<u8>::empty()
                        } else {
                            rs[0].0
                        }
                        &&& info.max_record@ == if rs.len() == 0 {
                            Seq::<u8>::empty()
                        } else {
                            rs.last().0
                        }
                    },
                Err(e) => e == SstError::TooLarge || (e == SstError::EmptyRecord && empty_record_kept(
                    self.pushed(),
                    self.policy(),
                )),
            },
    {
        let SstBufferedWriter { inner, bytes_buffer, pointers, merger, pushed } = self;
        let ghost ps = pushed@;
        let order = sort_pushes(&bytes_buffer, &pointers, Ghost(ps));
        let mut out: Vec<(Vec<u8>, Vec<u8>)> = Vec::new();
        let n = order.len();
        let mut a: usize = 0;
        proof {
            lemma_progress_start(ps, order@, merger);
            assert(out_recs(out@) =~= Seq::<Record>::empty());
        }
        while a < n
            invariant
                arena_ok(bytes_buffer@, pointers@, ps),
                sorted_pushes(order@, ps, ps.len() as int),
                n == order@.len(),
                a <= n,
                out_ok(out_recs(out@)),
                progress(out_recs(out@), ps, order@, merger, a as int),
                ps == self.pushed(),
                merger == self.policy(),
            decreases n - a,
        {
            match write_group(&mut out, &merger, &bytes_buffer, &pointers, &order, a, Ghost(ps)) {
                Ok(b) => {
                    a = b;
                },
                Err(e) => {
                    return Err(e);
                },
            }
        }
        let ghost rs = out_recs(out@);
        proof {
            lemma_progress_done(rs, ps, order@, merger);
        }
        let mut writer = inner;
        proof {
            if (forall|rs2: Seq<Record>|
                #![trigger merged_records(rs2, ps, merger)]
                merged_records(rs2, ps, merger) && keys_ascending(rs2) ==> fits(rs2)) {
                assert(merged_records(rs, ps, merger));
            }
        }
        match write_records(&mut writer, &out) {
            Ok(()) => {},
            Err(e) => {
                return Err(e);
            },
        }
        proof {
            writer.lemma_bytes();
        }
        match writer.finish() {
            Ok((bytes, info)) => {
                proof {
                    assert(sst_ok(bytes@, rs));
                }
                Ok((bytes, info))
            },
            Err(e) => Err(e),
        }
    }
}

} // verus!
