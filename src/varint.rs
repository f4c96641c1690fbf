//! Order-preserving variable-width integer encodings.
//!
//! Both encodings put a tag byte first that fixes the width (and, for signed
//! values, the sign), so that comparing two encodings byte by byte orders them
//! as the numbers they encode.
use vstd::prelude::*;
use crate::keys::{key_cmp, key_lt, lemma_cmp_range};

verus! {

/// Big-endian bytes of a `u16`.
pub open spec fn be_u16(v: u16) -> Seq<u8> {
    seq![((v >> 8u16) & 0xffu16) as u8, (v & 0xffu16) as u8]
}

/// Big-endian bytes of a `u32`.
pub open spec fn be_u32(v: u32) -> Seq<u8> {
    seq![
        ((v >> 24u32) & 0xffu32) as u8,
        ((v >> 16u32) & 0xffu32) as u8,
        ((v >> 8u32) & 0xffu32) as u8,
        (v & 0xffu32) as u8,
    ]
}

/// Big-endian bytes of a `u64`.
pub open spec fn be_u64(v: u64) -> Seq<u8> {
    seq![
        ((v >> 56u64) & 0xffu64) as u8,
        ((v >> 48u64) & 0xffu64) as u8,
        ((v >> 40u64) & 0xffu64) as u8,
        ((v >> 32u64) & 0xffu64) as u8,
        ((v >> 24u64) & 0xffu64) as u8,
        ((v >> 16u64) & 0xffu64) as u8,
        ((v >> 8u64) & 0xffu64) as u8,
        (v & 0xffu64) as u8,
    ]
}

/// The `u16` whose big-endian bytes start at `b[at]`.
pub open spec fn from_be_u16(b: Seq<u8>, at: int) -> u16 {
    ((b[at] as u16) << 8u16) | (b[at + 1] as u16)
}

/// The `u32` whose big-endian bytes start at `b[at]`.
pub open spec fn from_be_u32(b: Seq<u8>, at: int) -> u32 {
    ((b[at] as u32) << 24u32) | ((b[at + 1] as u32) << 16u32) | ((b[at + 2] as u32) << 8u32) | (
    b[at + 3] as u32)
}

/// The `u64` whose big-endian bytes start at `b[at]`.
pub open spec fn from_be_u64(b: Seq<u8>, at: int) -> u64 {
    ((b[at] as u64) << 56u64) | ((b[at + 1] as u64) << 48u64) | ((b[at + 2] as u64) << 40u64) | ((
    b[at + 3] as u64) << 32u64) | ((b[at + 4] as u64) << 24u64) | ((b[at + 5] as u64) << 16u64)
        | ((b[at + 6] as u64) << 8u64) | (b[at + 7] as u64)
}

/// The unsigned encoding: one byte below 253, else a width tag and the
/// value big-endian.
pub open spec fn varint_u32(v: u32) -> Seq<u8> {
    if v < 253 {
        seq![v as u8]
    } else if v <= 0xffff {
        seq![253u8] + be_u16(v as u16)
    } else {
        seq![254u8] + be_u32(v)
    }
}

/// How many bytes an unsigned encoding that starts with `tag` takes.
pub open spec fn varint_u32_width(tag: u8) -> nat {
    if tag == 253 {
        3
    } else if tag == 254 {
        5
    } else {
        1
    }
}

/// The value of the unsigned encoding at the start of `b`.
pub open spec fn varint_u32_value(b: Seq<u8>) -> u32 {
    if b[0] == 253 {
        from_be_u16(b, 1) as u32
    } else if b[0] == 254 {
        from_be_u32(b, 1)
    } else {
        b[0] as u32
    }
}

/// The byte that encodes 0 in the signed encoding.
pub const VARINT_SIGNED_ZERO_ENC: u8 = 103;

/// The signed encoding: values in [-99, 148] as the single byte `v + 103`;
/// beyond, a tag for sign and width, then the payload big-endian (for
/// negative values the complement of the magnitude).
pub open spec fn varint_i64(v: i64) -> Seq<u8> {
    if v >= 0 {
        if v <= 148 {
            seq![(v + 103) as u8]
        } else if v <= 0xff {
            seq![252u8, v as u8]
        } else if v <= 0xffff {
            seq![253u8] + be_u16(v as u16)
        } else if v <= 0xffff_ffff {
            seq![254u8] + be_u32(v as u32)
        } else {
            seq![255u8] + be_u64(v as u64)
        }
    } else {
        if v >= -99 {
            seq![(v + 103) as u8]
        } else if v >= -0xff {
            seq![3u8, !((-v) as u8)]
        } else if v >= -0xffff {
            seq![2u8] + be_u16(!((-v) as u16))
        } else if v >= -0xffff_ffff {
            seq![1u8] + be_u32(!((-v) as u32))
        } else {
            seq![0u8] + be_u64(v as u64)
        }
    }
}

/// How many bytes a signed encoding that starts with `tag` takes.
pub open spec fn varint_i64_width(tag: u8) -> nat {
    if tag == 0 || tag == 255 {
        9
    } else if tag == 1 || tag == 254 {
        5
    } else if tag == 2 || tag == 253 {
        3
    } else if tag == 3 || tag == 252 {
        2
    } else {
        1
    }
}

/// The value of the signed encoding at the start of `b`.
pub open spec fn varint_i64_value(b: Seq<u8>) -> i64 {
    let t = b[0];
    if t == 0 {
        from_be_u64(b, 1) as i64
    } else if t == 1 {
        (-((!from_be_u32(b, 1)) as int)) as i64
    } else if t == 2 {
        (-((!from_be_u16(b, 1)) as int)) as i64
    } else if t == 3 {
        (-((!b[1]) as int)) as i64
    } else if t == 252 {
        b[1] as i64
    } else if t == 253 {
        from_be_u16(b, 1) as i64
    } else if t == 254 {
        from_be_u32(b, 1) as i64
    } else if t == 255 {
        from_be_u64(b, 1) as i64
    } else {
        (t as int - 103) as i64
    }
}

pub proof fn lemma_be_u16(v: u16)
    ensures
        from_be_u16(be_u16(v), 0) == v,
{
    let b = be_u16(v);
    assert((((((v >> 8u16) & 0xffu16) as u8) as u16) << 8u16) | (((v & 0xffu16) as u8) as u16)
        == v) by (bit_vector);
}

pub proof fn lemma_be_u32(v: u32)
    ensures
        from_be_u32(be_u32(v), 0) == v,
{
    assert((((((v >> 24u32) & 0xffu32) as u8) as u32) << 24u32) | (((((v >> 16u32) & 0xffu32)
        as u8) as u32) << 16u32) | (((((v >> 8u32) & 0xffu32) as u8) as u32) << 8u32) | (((v
        & 0xffu32) as u8) as u32) == v) by (bit_vector);
}

proof fn lemma_be_u64(v: u64)
    ensures
        from_be_u64(be_u64(v), 0) == v,
{
    assert((((((v >> 56u64) & 0xffu64) as u8) as u64) << 56u64) | (((((v >> 48u64) & 0xffu64)
        as u8) as u64) << 48u64) | (((((v >> 40u64) & 0xffu64) as u8) as u64) << 40u64) | (((((v
        >> 32u64) & 0xffu64) as u8) as u64) << 32u64) | (((((v >> 24u64) & 0xffu64) as u8)
        as u64) << 24u64) | (((((v >> 16u64) & 0xffu64) as u8) as u64) << 16u64) | (((((v
        >> 8u64) & 0xffu64) as u8) as u64) << 8u64) | (((v & 0xffu64) as u8) as u64) == v)
        by (bit_vector);
}

/// Decoding an unsigned encoding gives back the value, whatever follows it.
pub proof fn lemma_varint_u32_round_trip(v: u32, rest: Seq<u8>)
    ensures
        varint_u32_width((varint_u32(v) + rest)[0]) == varint_u32(v).len(),
        varint_u32_value(varint_u32(v) + rest) == v,
{
    let e = varint_u32(v);
    let s = e + rest;
    if v < 253 {
    } else if v <= 0xffff {
        lemma_be_u16(v as u16);
        let b = be_u16(v as u16);
        assert(s[1] == b[0] && s[2] == b[1]);
        assert(from_be_u16(s, 1) == from_be_u16(b, 0));
        assert((v as u16) as u32 == v);
    } else {
        lemma_be_u32(v);
        let b = be_u32(v);
        assert(s[1] == b[0] && s[2] == b[1] && s[3] == b[2] && s[4] == b[3]);
        assert(from_be_u32(s, 1) == from_be_u32(b, 0));
    }
}

/// Decoding a signed encoding gives back the value, whatever follows it.
pub proof fn lemma_varint_i64_round_trip(v: i64, rest: Seq<u8>)
    ensures
        varint_i64_width((varint_i64(v) + rest)[0]) == varint_i64(v).len(),
        varint_i64_value(varint_i64(v) + rest) == v,
{
    let e = varint_i64(v);
    let s = e + rest;
    if v >= 0 {
        if v <= 148 {
        } else if v <= 0xff {
            assert(s[1] == v as u8);
        } else if v <= 0xffff {
            lemma_be_u16(v as u16);
            let b = be_u16(v as u16);
            assert(s[1] == b[0] && s[2] == b[1]);
            assert(from_be_u16(s, 1) == from_be_u16(b, 0));
        } else if v <= 0xffff_ffff {
            lemma_be_u32(v as u32);
            let b = be_u32(v as u32);
            assert(s[1] == b[0] && s[2] == b[1] && s[3] == b[2] && s[4] == b[3]);
            assert(from_be_u32(s, 1) == from_be_u32(b, 0));
        } else {
            lemma_be_u64(v as u64);
            let b = be_u64(v as u64);
            assert forall|i: int| 0 <= i < 8 implies s[i + 1] == b[i] by {}
            assert(from_be_u64(s, 1) == from_be_u64(b, 0));
            assert((v as u64) as i64 == v) by (bit_vector)
                requires
                    v >= 0,
            ;
        }
    } else {
        if v >= -99 {
        } else if v >= -0xff {
            let m = (-v) as u8;
            assert(!(!m) == m) by (bit_vector);
            assert(s[1] == !m);
        } else if v >= -0xffff {
            let m = (-v) as u16;
            lemma_be_u16(!m);
            let b = be_u16(!m);
            assert(s[1] == b[0] && s[2] == b[1]);
            assert(from_be_u16(s, 1) == from_be_u16(b, 0));
            assert(!(!m) == m) by (bit_vector);
        } else if v >= -0xffff_ffff {
            let m = (-v) as u32;
            lemma_be_u32(!m);
            let b = be_u32(!m);
            assert(s[1] == b[0] && s[2] == b[1] && s[3] == b[2] && s[4] == b[3]);
            assert(from_be_u32(s, 1) == from_be_u32(b, 0));
            assert(!(!m) == m) by (bit_vector);
        } else {
            lemma_be_u64(v as u64);
            let b = be_u64(v as u64);
            assert forall|i: int| 0 <= i < 8 implies s[i + 1] == b[i] by {}
            assert(from_be_u64(s, 1) == from_be_u64(b, 0));
            assert((v as u64) as i64 == v) by (bit_vector);
        }
    }
}

proof fn lemma_be_u16_order(a: u16, b: u16)
    requires
        a < b,
    ensures
        key_lt(be_u16(a), be_u16(b)),
{
    reveal_with_fuel(key_cmp, 3);
    let x = be_u16(a);
    let y = be_u16(b);
    assert(((a >> 8u16) & 0xffu16) < 256 && (a & 0xffu16) < 256) by (bit_vector);
    assert(((b >> 8u16) & 0xffu16) < 256 && (b & 0xffu16) < 256) by (bit_vector);
    assert(((a >> 8u16) & 0xffu16) < ((b >> 8u16) & 0xffu16) || (((a >> 8u16) & 0xffu16) == ((b
        >> 8u16) & 0xffu16) && (a & 0xffu16) < (b & 0xffu16))) by (bit_vector)
        requires
            a < b,
    ;
    assert(x.drop_first() =~= seq![x[1]]);
    assert(y.drop_first() =~= seq![y[1]]);
    assert(seq![x[1]].drop_first() =~= Seq::<u8>::empty());
    assert(seq![y[1]].drop_first() =~= Seq::<u8>::empty());
}

proof fn lemma_be_u32_order(a: u32, b: u32)
    requires
        a < b,
    ensures
        key_lt(be_u32(a), be_u32(b)),
{
    reveal_with_fuel(key_cmp, 5);
    let x = be_u32(a);
    let y = be_u32(b);
    assert(((a >> 24u32) & 0xffu32) < 256 && ((a >> 16u32) & 0xffu32) < 256 && ((a >> 8u32)
        & 0xffu32) < 256 && (a & 0xffu32) < 256) by (bit_vector);
    assert(((b >> 24u32) & 0xffu32) < 256 && ((b >> 16u32) & 0xffu32) < 256 && ((b >> 8u32)
        & 0xffu32) < 256 && (b & 0xffu32) < 256) by (bit_vector);
    assert(((a >> 24u32) & 0xffu32) < ((b >> 24u32) & 0xffu32) || (((a >> 24u32) & 0xffu32) == ((
    b >> 24u32) & 0xffu32) && ((a >> 16u32) & 0xffu32) < ((b >> 16u32) & 0xffu32)) || (((a
        >> 24u32) & 0xffu32) == ((b >> 24u32) & 0xffu32) && ((a >> 16u32) & 0xffu32) == ((b
        >> 16u32) & 0xffu32) && ((a >> 8u32) & 0xffu32) < ((b >> 8u32) & 0xffu32)) || (((a
        >> 24u32) & 0xffu32) == ((b >> 24u32) & 0xffu32) && ((a >> 16u32) & 0xffu32) == ((b
        >> 16u32) & 0xffu32) && ((a >> 8u32) & 0xffu32) == ((b >> 8u32) & 0xffu32) && (a
        & 0xffu32) < (b & 0xffu32))) by (bit_vector)
        requires
            a < b,
    ;
    assert(x.drop_first() =~= seq![x[1], x[2], x[3]]);
    assert(y.drop_first() =~= seq![y[1], y[2], y[3]]);
    assert(seq![x[1], x[2], x[3]].drop_first() =~= seq![x[2], x[3]]);
    assert(seq![y[1], y[2], y[3]].drop_first() =~= seq![y[2], y[3]]);
    assert(seq![x[2], x[3]].drop_first() =~= seq![x[3]]);
    assert(seq![y[2], y[3]].drop_first() =~= seq![y[3]]);
    assert(seq![x[3]].drop_first() =~= Seq::<u8>::empty());
    assert(seq![y[3]].drop_first() =~= Seq::<u8>::empty());
}

proof fn lemma_be_u64_order(a: u64, b: u64)
    requires
        a < b,
    ensures
        key_lt(be_u64(a), be_u64(b)),
{
    let x = be_u64(a);
    let y = be_u64(b);
    let hi_a = (a >> 32u64) as u32;
    let hi_b = (b >> 32u64) as u32;
    let lo_a = a as u32;
    let lo_b = b as u32;
    assert(x =~= be_u32(hi_a) + be_u32(lo_a)) by {
        assert(((a >> 56u64) & 0xffu64) as u8 == ((hi_a >> 24u32) & 0xffu32) as u8) by (bit_vector)
            requires
                hi_a == (a >> 32u64) as u32,
        ;
        assert(((a >> 48u64) & 0xffu64) as u8 == ((hi_a >> 16u32) & 0xffu32) as u8) by (bit_vector)
            requires
                hi_a == (a >> 32u64) as u32,
        ;
        assert(((a >> 40u64) & 0xffu64) as u8 == ((hi_a >> 8u32) & 0xffu32) as u8) by (bit_vector)
            requires
                hi_a == (a >> 32u64) as u32,
        ;
        assert(((a >> 32u64) & 0xffu64) as u8 == (hi_a & 0xffu32) as u8) by (bit_vector)
            requires
                hi_a == (a >> 32u64) as u32,
        ;
        assert(((a >> 24u64) & 0xffu64) as u8 == ((lo_a >> 24u32) & 0xffu32) as u8) by (bit_vector)
            requires
                lo_a == a as u32,
        ;
        assert(((a >> 16u64) & 0xffu64) as u8 == ((lo_a >> 16u32) & 0xffu32) as u8) by (bit_vector)
            requires
                lo_a == a as u32,
        ;
        assert(((a >> 8u64) & 0xffu64) as u8 == ((lo_a >> 8u32) & 0xffu32) as u8) by (bit_vector)
            requires
                lo_a == a as u32,
        ;
        assert((a & 0xffu64) as u8 == (lo_a & 0xffu32) as u8) by (bit_vector)
            requires
                lo_a == a as u32,
        ;
    }
    assert(y =~= be_u32(hi_b) + be_u32(lo_b)) by {
        assert(((b >> 56u64) & 0xffu64) as u8 == ((hi_b >> 24u32) & 0xffu32) as u8) by (bit_vector)
            requires
                hi_b == (b >> 32u64) as u32,
        ;
        assert(((b >> 48u64) & 0xffu64) as u8 == ((hi_b >> 16u32) & 0xffu32) as u8) by (bit_vector)
            requires
                hi_b == (b >> 32u64) as u32,
        ;
        assert(((b >> 40u64) & 0xffu64) as u8 == ((hi_b >> 8u32) & 0xffu32) as u8) by (bit_vector)
            requires
                hi_b == (b >> 32u64) as u32,
        ;
        assert(((b >> 32u64) & 0xffu64) as u8 == (hi_b & 0xffu32) as u8) by (bit_vector)
            requires
                hi_b == (b >> 32u64) as u32,
        ;
        assert(((b >> 24u64) & 0xffu64) as u8 == ((lo_b >> 24u32) & 0xffu32) as u8) by (bit_vector)
            requires
                lo_b == b as u32,
        ;
        assert(((b >> 16u64) & 0xffu64) as u8 == ((lo_b >> 16u32) & 0xffu32) as u8) by (bit_vector)
            requires
                lo_b == b as u32,
        ;
        assert(((b >> 8u64) & 0xffu64) as u8 == ((lo_b >> 8u32) & 0xffu32) as u8) by (bit_vector)
            requires
                lo_b == b as u32,
        ;
        assert((b & 0xffu64) as u8 == (lo_b & 0xffu32) as u8) by (bit_vector)
            requires
                lo_b == b as u32,
        ;
    }
    assert(hi_a < hi_b || (hi_a == hi_b && lo_a < lo_b)) by (bit_vector)
        requires
            a < b,
            hi_a == (a >> 32u64) as u32,
            hi_b == (b >> 32u64) as u32,
            lo_a == a as u32,
            lo_b == b as u32,
    ;
    if hi_a < hi_b {
        lemma_be_u32_order(hi_a, hi_b);
        crate::keys::lemma_cmp_prefix_lt(be_u32(hi_a), be_u32(hi_b), be_u32(lo_a), be_u32(lo_b));
    } else {
        lemma_be_u32_order(lo_a, lo_b);
        crate::keys::lemma_cmp_same_prefix(be_u32(hi_a), be_u32(lo_a), be_u32(lo_b));
    }
}

/// Signed encodings sort byte by byte as the numbers they encode.
pub proof fn lemma_varint_i64_order(a: i64, b: i64)
    ensures
        a < b <==> key_lt(varint_i64(a), varint_i64(b)),
{
    if a < b {
        lemma_varint_i64_lt(a, b);
    } else if b < a {
        lemma_varint_i64_lt(b, a);
        lemma_cmp_range(varint_i64(a), varint_i64(b));
    } else {
        lemma_cmp_range(varint_i64(a), varint_i64(b));
    }
}

proof fn lemma_varint_i64_lt(a: i64, b: i64)
    requires
        a < b,
    ensures
        key_lt(varint_i64(a), varint_i64(b)),
{
    let x = varint_i64(a);
    let y = varint_i64(b);
    if x[0] == y[0] {
        assert(key_cmp(x, y) == key_cmp(x.drop_first(), y.drop_first()));
        if a >= 0 && a <= 148 || a < 0 && a >= -99 {
        } else if a >= 0 && a <= 0xff {
            reveal_with_fuel(key_cmp, 2);
            assert(x.drop_first() =~= seq![a as u8]);
            assert(y.drop_first() =~= seq![b as u8]);
            assert(seq![a as u8].drop_first() =~= Seq::<u8>::empty());
        } else if a >= 0 && a <= 0xffff {
            assert(x.drop_first() =~= be_u16(a as u16));
            assert(y.drop_first() =~= be_u16(b as u16));
            lemma_be_u16_order(a as u16, b as u16);
        } else if a >= 0 && a <= 0xffff_ffff {
            assert(x.drop_first() =~= be_u32(a as u32));
            assert(y.drop_first() =~= be_u32(b as u32));
            lemma_be_u32_order(a as u32, b as u32);
        } else if a >= 0 {
            assert(x.drop_first() =~= be_u64(a as u64));
            assert(y.drop_first() =~= be_u64(b as u64));
            assert((a as u64) < (b as u64)) by (bit_vector)
                requires
                    0 <= a < b,
            ;
            lemma_be_u64_order(a as u64, b as u64);
        } else if a >= -0xff {
            reveal_with_fuel(key_cmp, 2);
            let ma = (-a) as u8;
            let mb = (-b) as u8;
            assert(!ma < !mb) by (bit_vector)
                requires
                    ma > mb,
            ;
            assert(x.drop_first() =~= seq![!ma]);
            assert(y.drop_first() =~= seq![!mb]);
            assert(seq![!ma].drop_first() =~= Seq::<u8>::empty());
        } else if a >= -0xffff {
            let ma = (-a) as u16;
            let mb = (-b) as u16;
            assert(!ma < !mb) by (bit_vector)
                requires
                    ma > mb,
            ;
            assert(x.drop_first() =~= be_u16(!ma));
            assert(y.drop_first() =~= be_u16(!mb));
            lemma_be_u16_order(!ma, !mb);
        } else if a >= -0xffff_ffff {
            let ma = (-a) as u32;
            let mb = (-b) as u32;
            assert(!ma < !mb) by (bit_vector)
                requires
                    ma > mb,
            ;
            assert(x.drop_first() =~= be_u32(!ma));
            assert(y.drop_first() =~= be_u32(!mb));
            lemma_be_u32_order(!ma, !mb);
        } else {
            assert(x.drop_first() =~= be_u64(a as u64));
            assert(y.drop_first() =~= be_u64(b as u64));
            assert((a as u64) < (b as u64)) by (bit_vector)
                requires
                    a < b < 0,
            ;
            lemma_be_u64_order(a as u64, b as u64);
        }
    }
}

/// Distinct unsigned values have distinct encodings.
pub proof fn lemma_varint_u32_injective(a: u32, b: u32)
    ensures
        varint_u32(a) == varint_u32(b) ==> a == b,
{
    lemma_varint_u32_round_trip(a, Seq::empty());
    lemma_varint_u32_round_trip(b, Seq::empty());
    assert(varint_u32(a) + Seq::<u8>::empty() =~= varint_u32(a));
    assert(varint_u32(b) + Seq::<u8>::empty() =~= varint_u32(b));
}

/// Distinct signed values have distinct encodings.
pub proof fn lemma_varint_i64_injective(a: i64, b: i64)
    ensures
        varint_i64(a) == varint_i64(b) ==> a == b,
{
    lemma_varint_i64_round_trip(a, Seq::empty());
    lemma_varint_i64_round_trip(b, Seq::empty());
    assert(varint_i64(a) + Seq::<u8>::empty() =~= varint_i64(a));
    assert(varint_i64(b) + Seq::<u8>::empty() =~= varint_i64(b));
}

/// Unsigned encodings sort byte by byte as the numbers they encode.
pub proof fn lemma_varint_u32_order(a: u32, b: u32)
    ensures
        a < b <==> key_lt(varint_u32(a), varint_u32(b)),
{
    if a < b {
        lemma_varint_u32_lt(a, b);
    } else if b < a {
        lemma_varint_u32_lt(b, a);
        lemma_cmp_range(varint_u32(a), varint_u32(b));
    } else {
        lemma_cmp_range(varint_u32(a), varint_u32(b));
    }
}

proof fn lemma_varint_u32_lt(a: u32, b: u32)
    requires
        a < b,
    ensures
        key_lt(varint_u32(a), varint_u32(b)),
{
    let x = varint_u32(a);
    let y = varint_u32(b);
    if x[0] == y[0] {
        assert(key_cmp(x, y) == key_cmp(x.drop_first(), y.drop_first()));
        if a < 253 {
        } else if a <= 0xffff {
            assert(b <= 0xffff);
            assert(x.drop_first() =~= be_u16(a as u16));
            assert(y.drop_first() =~= be_u16(b as u16));
            lemma_be_u16_order(a as u16, b as u16);
        } else {
            assert(x.drop_first() =~= be_u32(a));
            assert(y.drop_first() =~= be_u32(b));
            lemma_be_u32_order(a, b);
        }
    }
}

pub(crate) fn push_be_u16(v: u16, buffer: &mut Vec<u8>)
    ensures
        final(buffer)@ == old(buffer)@ + be_u16(v),
{
    buffer.push(((v >> 8u16) & 0xffu16) as u8);
    buffer.push((v & 0xffu16) as u8);
    assert(final(buffer)@ =~= old(buffer)@ + be_u16(v));
}

pub(crate) fn push_be_u32(v: u32, buffer: &mut Vec<u8>)
    ensures
        final(buffer)@ == old(buffer)@ + be_u32(v),
{
    buffer.push(((v >> 24u32) & 0xffu32) as u8);
    buffer.push(((v >> 16u32) & 0xffu32) as u8);
    buffer.push(((v >> 8u32) & 0xffu32) as u8);
    buffer.push((v & 0xffu32) as u8);
    assert(final(buffer)@ =~= old(buffer)@ + be_u32(v));
}

fn push_be_u64(v: u64, buffer: &mut Vec<u8>)
    ensures
        final(buffer)@ == old(buffer)@ + be_u64(v),
{
    buffer.push(((v >> 56u64) & 0xffu64) as u8);
    buffer.push(((v >> 48u64) & 0xffu64) as u8);
    buffer.push(((v >> 40u64) & 0xffu64) as u8);
    buffer.push(((v >> 32u64) & 0xffu64) as u8);
    buffer.push(((v >> 24u64) & 0xffu64) as u8);
    buffer.push(((v >> 16u64) & 0xffu64) as u8);
    buffer.push(((v >> 8u64) & 0xffu64) as u8);
    buffer.push((v & 0xffu64) as u8);
    assert(final(buffer)@ =~= old(buffer)@ + be_u64(v));
}

/// Appends the unsigned encoding of `i` to `buffer`.
pub fn write_varint_unsigned(i: u32, buffer: &mut Vec<u8>)
    ensures
        final(buffer)@ == old(buffer)@ + varint_u32(i),
{
    if i < 253 {
        buffer.push(i as u8);
        assert(final(buffer)@ =~= old(buffer)@ + varint_u32(i));
    } else if i <= 0xffff {
        buffer.push(253);
        push_be_u16(i as u16, buffer);
        assert(final(buffer)@ =~= old(buffer)@ + varint_u32(i));
    } else {
        buffer.push(254);
        push_be_u32(i, buffer);
        assert(final(buffer)@ =~= old(buffer)@ + varint_u32(i));
    }
}

/// Reads the unsigned encoding at the start of `buffer` into `i` and returns
/// what follows it. A buffer shorter than its tag announces is a caller's bug.
pub fn read_varint_unsigned<'a>(i: &mut u32, buffer: &'a [u8]) -> (rem: &'a [u8])
    requires
        buffer@.len() >= 1,
        buffer@.len() >= varint_u32_width(buffer@[0]),
    ensures
        *final(i) == varint_u32_value(buffer@),
        rem@ == buffer@.subrange(varint_u32_width(buffer@[0]) as int, buffer@.len() as int),
{
    let tag = buffer[0];
    if tag == 253 {
        *i = (((buffer[1] as u16) << 8u16) | (buffer[2] as u16)) as u32;
        &buffer[3..buffer.len()]
    } else if tag == 254 {
        *i = ((buffer[1] as u32) << 24u32) | ((buffer[2] as u32) << 16u32) | ((buffer[3] as u32)
            << 8u32) | (buffer[4] as u32);
        &buffer[5..buffer.len()]
    } else {
        *i = tag as u32;
        &buffer[1..buffer.len()]
    }
}

/// Appends the signed encoding of `i` to `buffer`.
pub fn write_varint_signed(i: i64, buffer: &mut Vec<u8>)
    ensures
        final(buffer)@ == old(buffer)@ + varint_i64(i),
{
    if i >= 0 {
        if i <= 148 {
            buffer.push((i + 103) as u8);
        } else if i <= 0xff {
            buffer.push(252);
            buffer.push(i as u8);
        } else if i <= 0xffff {
            buffer.push(253);
            push_be_u16(i as u16, buffer);
        } else if i <= 0xffff_ffff {
            buffer.push(254);
            push_be_u32(i as u32, buffer);
        } else {
            buffer.push(255);
            push_be_u64(i as u64, buffer);
        }
    } else {
        if i >= -99 {
            buffer.push((i + 103) as u8);
        } else if i >= -0xff {
            buffer.push(3);
            buffer.push(!((-i) as u8));
        } else if i >= -0xffff {
            buffer.push(2);
            push_be_u16(!((-i) as u16), buffer);
        } else if i >= -0xffff_ffff {
            buffer.push(1);
            push_be_u32(!((-i) as u32), buffer);
        } else {
            buffer.push(0);
            push_be_u64(i as u64, buffer);
        }
    }
    assert(final(buffer)@ =~= old(buffer)@ + varint_i64(i));
}

/// Reads the signed encoding at the start of `buffer` into `i` and returns
/// what follows it. A buffer shorter than its tag announces is a caller's bug.
pub fn read_varint_signed<'a>(i: &mut i64, buffer: &'a [u8]) -> (rem: &'a [u8])
    requires
        buffer@.len() >= 1,
        buffer@.len() >= varint_i64_width(buffer@[0]),
    ensures
        *final(i) == varint_i64_value(buffer@),
        rem@ == buffer@.subrange(varint_i64_width(buffer@[0]) as int, buffer@.len() as int),
{
    let tag = buffer[0];
    let len = buffer.len();
    if tag == 0 {
        let u = read_be_u64(buffer);
        *i = u as i64;
        &buffer[9..len]
    } else if tag == 1 {
        let u = ((buffer[1] as u32) << 24u32) | ((buffer[2] as u32) << 16u32) | ((buffer[3] as u32)
            << 8u32) | (buffer[4] as u32);
        *i = -((!u) as i64);
        &buffer[5..len]
    } else if tag == 2 {
        let u = ((buffer[1] as u16) << 8u16) | (buffer[2] as u16);
        *i = -((!u) as i64);
        &buffer[3..len]
    } else if tag == 3 {
        *i = -((!buffer[1]) as i64);
        &buffer[2..len]
    } else if tag == 252 {
        *i = buffer[1] as i64;
        &buffer[2..len]
    } else if tag == 253 {
        *i = (((buffer[1] as u16) << 8u16) | (buffer[2] as u16)) as i64;
        &buffer[3..len]
    } else if tag == 254 {
        *i = (((buffer[1] as u32) << 24u32) | ((buffer[2] as u32) << 16u32) | ((buffer[3] as u32)
            << 8u32) | (buffer[4] as u32)) as i64;
        &buffer[5..len]
    } else if tag == 255 {
        let u = read_be_u64(buffer);
        *i = u as i64;
        &buffer[9..len]
    } else {
        *i = tag as i64 - 103;
        &buffer[1..len]
    }
}

fn read_be_u64(buffer: &[u8]) -> (r: u64)
    requires
        buffer@.len() >= 9,
    ensures
        r == from_be_u64(buffer@, 1),
{
    ((buffer[1] as u64) << 56u64) | ((buffer[2] as u64) << 48u64) | ((buffer[3] as u64) << 40u64)
        | ((buffer[4] as u64) << 32u64) | ((buffer[5] as u64) << 24u64) | ((buffer[6] as u64)
        << 16u64) | ((buffer[7] as u64) << 8u64) | (buffer[8] as u64)
}

} // verus!
