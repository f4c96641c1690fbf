//! Byte-wise lexicographic order on keys.
use vstd::prelude::*;
use std::cmp::Ordering;

verus! {

/// Lexicographic comparison of two byte strings: negative, zero or positive
/// as `a` sorts before, equal to, or after `b`.
pub open spec fn key_cmp(a: Seq<u8>, b: Seq<u8>) -> int
    decreases a.len(),
{
    if a.len() == 0 {
        if b.len() == 0 {
            0
        } else {
            -1
        }
    } else if b.len() == 0 {
        1
    } else if a[0] < b[0] {
        -1
    } else if a[0] > b[0] {
        1
    } else {
        key_cmp(a.drop_first(), b.drop_first())
    }
}

/// `a` sorts strictly before `b`.
pub open spec fn key_lt(a: Seq<u8>, b: Seq<u8>) -> bool {
    key_cmp(a, b) < 0
}

/// `a` sorts before `b` or equals it.
pub open spec fn key_le(a: Seq<u8>, b: Seq<u8>) -> bool {
    key_cmp(a, b) <= 0
}

pub proof fn lemma_cmp_range(a: Seq<u8>, b: Seq<u8>)
    ensures
        -1 <= key_cmp(a, b) <= 1,
        key_cmp(a, b) == -key_cmp(b, a),
        key_cmp(a, b) == 0 <==> a == b,
    decreases a.len(),
{
    if a.len() > 0 && b.len() > 0 && a[0] == b[0] {
        lemma_cmp_range(a.drop_first(), b.drop_first());
        if a.drop_first() == b.drop_first() {
            assert(a =~= seq![a[0]] + a.drop_first());
            assert(b =~= seq![b[0]] + b.drop_first());
        }
    }
    if a.len() == 0 && b.len() == 0 {
        assert(a =~= b);
    }
}

pub proof fn lemma_cmp_trans(a: Seq<u8>, b: Seq<u8>, c: Seq<u8>)
    requires
        key_cmp(a, b) <= 0,
        key_cmp(b, c) <= 0,
    ensures
        key_cmp(a, c) <= 0,
        key_cmp(a, b) < 0 || key_cmp(b, c) < 0 ==> key_cmp(a, c) < 0,
    decreases a.len(),
{
    if a.len() > 0 && b.len() > 0 && c.len() > 0 && a[0] == b[0] && b[0] == c[0] {
        lemma_cmp_trans(a.drop_first(), b.drop_first(), c.drop_first());
    }
}

/// Comparing two keys that share their first `i` bytes comes down to what
/// follows.
pub proof fn lemma_cmp_skip(a: Seq<u8>, b: Seq<u8>, i: int)
    requires
        0 <= i <= a.len(),
        i <= b.len(),
        a.take(i) == b.take(i),
    ensures
        key_cmp(a, b) == key_cmp(a.skip(i), b.skip(i)),
    decreases i,
{
    if i > 0 {
        assert(a[0] == a.take(i)[0]);
        assert(b[0] == b.take(i)[0]);
        assert(a.drop_first().take(i - 1) =~= a.take(i).drop_first());
        assert(b.drop_first().take(i - 1) =~= b.take(i).drop_first());
        lemma_cmp_skip(a.drop_first(), b.drop_first(), i - 1);
        assert(a.drop_first().skip(i - 1) =~= a.skip(i));
        assert(b.drop_first().skip(i - 1) =~= b.skip(i));
    } else {
        assert(a.skip(0) =~= a);
        assert(b.skip(0) =~= b);
    }
}

/// A prefix sorts no later than the whole, and strictly before a longer whole.
pub proof fn lemma_prefix_le(p: Seq<u8>, a: Seq<u8>)
    requires
        p.len() <= a.len(),
        a.take(p.len() as int) == p,
    ensures
        key_le(p, a),
        p.len() < a.len() ==> key_lt(p, a),
{
    assert(p.take(p.len() as int) =~= p);
    lemma_cmp_skip(p, a, p.len() as int);
    assert(p.skip(p.len() as int).len() == 0);
}

/// A strictly smaller first part decides the order of two concatenations
/// whose first parts have the same length.
pub proof fn lemma_cmp_prefix_lt(a: Seq<u8>, b: Seq<u8>, c: Seq<u8>, d: Seq<u8>)
    requires
        a.len() == b.len(),
        key_lt(a, b),
    ensures
        key_lt(a + c, b + d),
    decreases a.len(),
{
    if a.len() > 0 && a[0] == b[0] {
        assert((a + c).drop_first() =~= a.drop_first() + c);
        assert((b + d).drop_first() =~= b.drop_first() + d);
        lemma_cmp_prefix_lt(a.drop_first(), b.drop_first(), c, d);
    }
}

/// Concatenations with the same first part compare as what follows it.
pub proof fn lemma_cmp_same_prefix(a: Seq<u8>, c: Seq<u8>, d: Seq<u8>)
    ensures
        key_cmp(a + c, a + d) == key_cmp(c, d),
    decreases a.len(),
{
    if a.len() > 0 {
        assert((a + c).drop_first() =~= a.drop_first() + c);
        assert((a + d).drop_first() =~= a.drop_first() + d);
        lemma_cmp_same_prefix(a.drop_first(), c, d);
    } else {
        assert(a + c =~= c);
        assert(a + d =~= d);
    }
}

/// The shortest prefix of `r` that sorts strictly after `l`, for `l < r`:
/// `r` cut one byte past the common prefix of the two.
pub open spec fn pivot_of(r: Seq<u8>, common: int) -> Seq<u8> {
    r.take(common + 1)
}

/// The common prefix length of two keys, as `common_prefix_len` returns it.
pub open spec fn is_common_prefix_len(a: Seq<u8>, b: Seq<u8>, n: int) -> bool {
    &&& 0 <= n <= a.len()
    &&& n <= b.len()
    &&& a.take(n) == b.take(n)
    &&& n < a.len() && n < b.len() ==> a[n] != b[n]
}

/// The length of the common prefix of two keys.
pub open spec fn common_prefix(a: Seq<u8>, b: Seq<u8>) -> nat
    decreases a.len(),
{
    if a.len() == 0 || b.len() == 0 || a[0] != b[0] {
        0
    } else {
        1 + common_prefix(a.drop_first(), b.drop_first())
    }
}

/// The shortest prefix of `r` that sorts after `l` (for `l < r`): `r` cut
/// one byte past the common prefix of the two.
pub open spec fn shortest_separator(l: Seq<u8>, r: Seq<u8>) -> Seq<u8> {
    r.take(common_prefix(l, r) as int + 1)
}

/// `common_prefix` is the length `common_prefix_len` computes.
pub proof fn lemma_common_prefix(a: Seq<u8>, b: Seq<u8>, n: int)
    requires
        is_common_prefix_len(a, b, n),
    ensures
        n == common_prefix(a, b),
    decreases a.len(),
{
    if n > 0 {
        assert(a[0] == a.take(n)[0] && b[0] == b.take(n)[0]);
        assert(a.drop_first().take(n - 1) =~= a.take(n).drop_first());
        assert(b.drop_first().take(n - 1) =~= b.take(n).drop_first());
        if n - 1 < a.len() - 1 && n - 1 < b.len() - 1 {
            assert(a.drop_first()[n - 1] == a[n]);
            assert(b.drop_first()[n - 1] == b[n]);
        }
        lemma_common_prefix(a.drop_first(), b.drop_first(), n - 1);
    }
}

/// For `l < r`, the pivot cut from `r` sorts after `l` and no later than `r`.
pub proof fn lemma_pivot(l: Seq<u8>, r: Seq<u8>, n: int)
    requires
        key_lt(l, r),
        is_common_prefix_len(l, r, n),
    ensures
        n < r.len(),
        key_lt(l, pivot_of(r, n)),
        key_le(pivot_of(r, n), r),
        pivot_of(r, n).len() == n + 1,
{
    lemma_cmp_skip(l, r, n);
    if n == r.len() {
        assert(r.skip(n).len() == 0);
        assert(false);
    }
    let p = pivot_of(r, n);
    lemma_prefix_le(p, r);
    assert(p.take(n) =~= r.take(n));
    assert(l.take(n) == p.take(n));
    lemma_cmp_skip(l, p, n);
    assert(p.skip(n) =~= seq![r[n]]);
    assert(p.skip(n)[0] == r.skip(n)[0]);
    if n < l.len() {
        assert(l.skip(n)[0] == l[n]);
    }
}

/// Compares two byte strings lexicographically.
pub fn compare_keys(a: &[u8], b: &[u8]) -> (r: Ordering)
    ensures
        (r == Ordering::Less) == key_lt(a@, b@),
        (r == Ordering::Equal) == (a@ == b@),
        (r == Ordering::Greater) == key_lt(b@, a@),
{
    proof {
        lemma_cmp_range(a@, b@);
    }
    let n = common_prefix_len(a, b);
    proof {
        lemma_cmp_skip(a@, b@, n as int);
    }
    if n < a.len() && n < b.len() {
        assert(a@.skip(n as int)[0] == a@[n as int]);
        assert(b@.skip(n as int)[0] == b@[n as int]);
        if a[n] < b[n] {
            Ordering::Less
        } else {
            Ordering::Greater
        }
    } else if n < b.len() {
        Ordering::Less
    } else if n < a.len() {
        Ordering::Greater
    } else {
        Ordering::Equal
    }
}

/// Returns the length in bytes of the common prefix of two byte strings.
pub fn common_prefix_len(a: &[u8], b: &[u8]) -> (r: usize)
    ensures
        is_common_prefix_len(a@, b@, r as int),
{
    let mut i: usize = 0;
    while i < a.len() && i < b.len()
        invariant
            i <= a@.len(),
            i <= b@.len(),
            a@.take(i as int) == b@.take(i as int),
        decreases a@.len() - i,
    {
        if a[i] != b[i] {
            return i;
        }
        assert(a@.take(i + 1) =~= a@.take(i as int).push(a@[i as int]));
        assert(b@.take(i + 1) =~= b@.take(i as int).push(b@[i as int]));
        i = i + 1;
    }
    i
}

} // verus!
