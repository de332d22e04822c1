//! The mathematical model of byte-order decoding: what a sequence of bytes
//! means as an unsigned or two's-complement signed integer, big- or
//! little-endian, together with the spec-level encoders and the round-trip
//! and reversal laws.

use vstd::prelude::*;

verus! {

/// The byte order used to decode multi-byte integers.
#[derive(Clone, Copy, PartialEq, Eq, Structural, Debug)]
pub enum Endian {
    /// The first byte read is the most significant.
    Big,
    /// The first byte read is the least significant.
    Little,
}

/// 256 raised to the power `n`: the number of distinct values of `n` bytes.
pub open spec fn pow256(n: nat) -> nat
    decreases n,
{
    if n == 0 {
        1
    } else {
        256 * pow256((n - 1) as nat)
    }
}

/// The unsigned value of `b` read big-endian: the first byte is the most
/// significant.
pub open spec fn be_nat(b: Seq<u8>) -> nat
    decreases b.len(),
{
    if b.len() == 0 {
        0
    } else {
        be_nat(b.drop_last()) * 256 + (b.last() as nat)
    }
}

/// The unsigned value of `b` read little-endian: the first byte is the least
/// significant.
pub open spec fn le_nat(b: Seq<u8>) -> nat
    decreases b.len(),
{
    if b.len() == 0 {
        0
    } else {
        (b.first() as nat) + 256 * le_nat(b.drop_first())
    }
}

/// The unsigned value of `b` under byte order `e`.
pub open spec fn uint_of(e: Endian, b: Seq<u8>) -> nat {
    match e {
        Endian::Big => be_nat(b),
        Endian::Little => le_nat(b),
    }
}

/// The two's-complement reading of the unsigned value `n` of width `w` bytes.
pub open spec fn as_signed(n: nat, w: nat) -> int {
    if 2 * n < pow256(w) {
        n as int
    } else {
        n - pow256(w)
    }
}

/// The signed value of `b` under byte order `e`: the two's-complement reading
/// of the same byte pattern as the unsigned value.
pub open spec fn sint_of(e: Endian, b: Seq<u8>) -> int {
    as_signed(uint_of(e, b), b.len())
}

/// `pow256` is positive.
pub proof fn lemma_pow256_pos(w: nat)
    ensures
        pow256(w) >= 1,
    decreases w,
{
    if w > 0 {
        lemma_pow256_pos((w - 1) as nat);
    }
}

/// The values of `pow256` at the supported widths.
pub proof fn lemma_pow256_values()
    ensures
        pow256(1) == 0x100,
        pow256(2) == 0x10000,
        pow256(4) == 0x100000000,
        pow256(8) == 0x10000000000000000,
{
    assert(pow256(0) == 1);
    assert(pow256(1) == 0x100);
    assert(pow256(2) == 0x10000);
    assert(pow256(3) == 0x1000000);
    assert(pow256(4) == 0x100000000);
    assert(pow256(5) == 0x10000000000);
    assert(pow256(6) == 0x1000000000000);
    assert(pow256(7) == 0x100000000000000);
    assert(pow256(8) == 0x10000000000000000);
}

proof fn lemma_be_nat_1(b: Seq<u8>)
    requires
        b.len() == 1,
    ensures
        be_nat(b) == b[0],
{
    assert(be_nat(b.drop_last()) == 0);
}

/// The big-endian value of two bytes, written out.
pub proof fn lemma_be_nat_2(b: Seq<u8>)
    requires
        b.len() == 2,
    ensures
        be_nat(b) == (b[0] as nat) * 0x100 + b[1],
{
    lemma_be_nat_1(b.drop_last());
    assert(b.drop_last()[0] == b[0]);
}

proof fn lemma_be_nat_3(b: Seq<u8>)
    requires
        b.len() == 3,
    ensures
        be_nat(b) == (b[0] as nat) * 0x10000 + (b[1] as nat) * 0x100 + b[2],
{
    lemma_be_nat_2(b.drop_last());
    assert(b.drop_last()[0] == b[0]);
    assert(b.drop_last()[1] == b[1]);
}

/// The big-endian value of four bytes, written out.
pub proof fn lemma_be_nat_4(b: Seq<u8>)
    requires
        b.len() == 4,
    ensures
        be_nat(b) == (b[0] as nat) * 0x1000000 + (b[1] as nat) * 0x10000 + (b[2] as nat) * 0x100
            + b[3],
{
    lemma_be_nat_3(b.drop_last());
    assert(b.drop_last()[0] == b[0]);
    assert(b.drop_last()[1] == b[1]);
    assert(b.drop_last()[2] == b[2]);
}

proof fn lemma_be_nat_5(b: Seq<u8>)
    requires
        b.len() == 5,
    ensures
        be_nat(b) == (b[0] as nat) * 0x100000000 + (b[1] as nat) * 0x1000000 + (b[2] as nat)
            * 0x10000 + (b[3] as nat) * 0x100 + b[4],
{
    lemma_be_nat_4(b.drop_last());
    assert(forall|i: int| 0 <= i < 4 ==> b.drop_last()[i] == b[i]);
}

proof fn lemma_be_nat_6(b: Seq<u8>)
    requires
        b.len() == 6,
    ensures
        be_nat(b) == (b[0] as nat) * 0x10000000000 + (b[1] as nat) * 0x100000000 + (b[2] as nat)
            * 0x1000000 + (b[3] as nat) * 0x10000 + (b[4] as nat) * 0x100 + b[5],
{
    lemma_be_nat_5(b.drop_last());
    assert(forall|i: int| 0 <= i < 5 ==> b.drop_last()[i] == b[i]);
}

proof fn lemma_be_nat_7(b: Seq<u8>)
    requires
        b.len() == 7,
    ensures
        be_nat(b) == (b[0] as nat) * 0x1000000000000 + (b[1] as nat) * 0x10000000000 + (
        b[2] as nat) * 0x100000000 + (b[3] as nat) * 0x1000000 + (b[4] as nat) * 0x10000 + (
        b[5] as nat) * 0x100 + b[6],
{
    lemma_be_nat_6(b.drop_last());
    assert(forall|i: int| 0 <= i < 6 ==> b.drop_last()[i] == b[i]);
}

/// The big-endian value of eight bytes, written out.
pub proof fn lemma_be_nat_8(b: Seq<u8>)
    requires
        b.len() == 8,
    ensures
        be_nat(b) == (b[0] as nat) * 0x100000000000000 + (b[1] as nat) * 0x1000000000000 + (
        b[2] as nat) * 0x10000000000 + (b[3] as nat) * 0x100000000 + (b[4] as nat) * 0x1000000 + (
        b[5] as nat) * 0x10000 + (b[6] as nat) * 0x100 + b[7],
{
    lemma_be_nat_7(b.drop_last());
    assert(forall|i: int| 0 <= i < 7 ==> b.drop_last()[i] == b[i]);
}

/// The two byte orders are exact byte-order reversals of each other: reading
/// bytes little-endian is reading the reversed bytes big-endian.
pub proof fn lemma_le_is_be_reversed(b: Seq<u8>)
    ensures
        le_nat(b) == be_nat(b.reverse()),
    decreases b.len(),
{
    if b.len() == 0 {
        assert(b.reverse() =~= b);
    } else {
        let t = b.drop_first();
        lemma_le_is_be_reversed(t);
        assert(b.reverse().drop_last() =~= t.reverse());
        assert(b.reverse().last() == b[0]);
        assert(be_nat(b.reverse()) == be_nat(b.reverse().drop_last()) * 256 + (b.reverse().last() as nat));
    }
}

/// Two byte sequences of one length with the same big-endian value are equal.
pub proof fn lemma_be_nat_injective(a: Seq<u8>, b: Seq<u8>)
    requires
        a.len() == b.len(),
        be_nat(a) == be_nat(b),
    ensures
        a == b,
    decreases a.len(),
{
    if a.len() == 0 {
        assert(a =~= b);
    } else {
        vstd::arithmetic::div_mod::lemma_fundamental_div_mod_converse(
            be_nat(a) as int,
            256,
            be_nat(a.drop_last()) as int,
            a.last() as int,
        );
        vstd::arithmetic::div_mod::lemma_fundamental_div_mod_converse(
            be_nat(b) as int,
            256,
            be_nat(b.drop_last()) as int,
            b.last() as int,
        );
        lemma_be_nat_injective(a.drop_last(), b.drop_last());
        assert forall|i: int| 0 <= i < a.len() implies a[i] == b[i] by {
            if i < a.len() - 1 {
                assert(a.drop_last()[i] == a[i]);
                assert(b.drop_last()[i] == b[i]);
            }
        }
        assert(a =~= b);
    }
}

/// Byte-order sensitivity: on a byte pattern that is not a palindrome, the
/// big-endian and little-endian readings disagree.
pub proof fn lemma_endian_sensitivity(b: Seq<u8>)
    requires
        b != b.reverse(),
    ensures
        be_nat(b) != le_nat(b),
{
    lemma_le_is_be_reversed(b);
    if be_nat(b) == be_nat(b.reverse()) {
        lemma_be_nat_injective(b, b.reverse());
        assert(false);
    }
}

/// The `w` bytes that encode `n` big-endian.
pub open spec fn be_bytes_of(n: nat, w: nat) -> Seq<u8>
    decreases w,
{
    if w == 0 {
        Seq::empty()
    } else {
        be_bytes_of(n / 256, (w - 1) as nat).push((n % 256) as u8)
    }
}

/// The `w` bytes that encode `n` little-endian.
pub open spec fn le_bytes_of(n: nat, w: nat) -> Seq<u8> {
    be_bytes_of(n, w).reverse()
}

/// The `w` bytes that encode `n` under byte order `e`.
pub open spec fn bytes_of(e: Endian, n: nat, w: nat) -> Seq<u8> {
    match e {
        Endian::Big => be_bytes_of(n, w),
        Endian::Little => le_bytes_of(n, w),
    }
}

proof fn lemma_be_bytes_of_len(n: nat, w: nat)
    ensures
        be_bytes_of(n, w).len() == w,
    decreases w,
{
    if w > 0 {
        lemma_be_bytes_of_len(n / 256, (w - 1) as nat);
    }
}

proof fn lemma_be_round_trip(n: nat, w: nat)
    requires
        n < pow256(w),
    ensures
        be_bytes_of(n, w).len() == w,
        be_nat(be_bytes_of(n, w)) == n,
    decreases w,
{
    lemma_be_bytes_of_len(n, w);
    if w > 0 {
        let q = n / 256;
        let r = n % 256;
        vstd::arithmetic::div_mod::lemma_fundamental_div_mod(n as int, 256);
        vstd::arithmetic::div_mod::lemma_mod_division_less_than_divisor(n as int, 256);
        assert(pow256(w) == 256 * pow256((w - 1) as nat));
        assert(q < pow256((w - 1) as nat)) by (nonlinear_arith)
            requires
                n < 256 * pow256((w - 1) as nat),
                n == 256 * (n / 256) + n % 256,
                n % 256 >= 0,
                q == n / 256,
        ;
        lemma_be_round_trip(q, (w - 1) as nat);
        let b = be_bytes_of(n, w);
        assert(b.drop_last() =~= be_bytes_of(q, (w - 1) as nat));
        assert(b.last() == r as u8);
        assert(be_nat(b) == be_nat(b.drop_last()) * 256 + (b.last() as nat));
        assert(q * 256 == 256 * q) by (nonlinear_arith);
    }
}

proof fn lemma_le_round_trip(n: nat, w: nat)
    requires
        n < pow256(w),
    ensures
        le_bytes_of(n, w).len() == w,
        le_nat(le_bytes_of(n, w)) == n,
{
    lemma_be_round_trip(n, w);
    lemma_le_is_be_reversed(le_bytes_of(n, w));
    assert(le_bytes_of(n, w).reverse() =~= be_bytes_of(n, w));
}

/// Unsigned round trip: encoding any value of `w` bytes under a byte order and
/// reading it back under the same order reproduces the value.
pub proof fn lemma_unsigned_round_trip(e: Endian, n: nat, w: nat)
    requires
        n < pow256(w),
    ensures
        bytes_of(e, n, w).len() == w,
        uint_of(e, bytes_of(e, n, w)) == n,
{
    match e {
        Endian::Big => lemma_be_round_trip(n, w),
        Endian::Little => lemma_le_round_trip(n, w),
    }
}

/// The two's-complement byte pattern of a signed value: the unsigned value
/// congruent to it modulo `pow256(w)`.
pub open spec fn to_unsigned(v: int, w: nat) -> nat {
    if v >= 0 {
        v as nat
    } else {
        (v + pow256(w)) as nat
    }
}

/// Signed round trip: encoding any in-range signed value of `w` bytes under a
/// byte order and reading it back signed under the same order reproduces it.
pub proof fn lemma_signed_round_trip(e: Endian, v: int, w: nat)
    requires
        w > 0,
        -(pow256(w) as int) <= 2 * v < pow256(w),
    ensures
        to_unsigned(v, w) < pow256(w),
        bytes_of(e, to_unsigned(v, w), w).len() == w,
        sint_of(e, bytes_of(e, to_unsigned(v, w), w)) == v,
{
    lemma_pow256_pos(w);
    let n = to_unsigned(v, w);
    lemma_unsigned_round_trip(e, n, w);
}

/// Assembles two bytes, most significant first.
pub(crate) fn be_u16(b0: u8, b1: u8) -> (r: u16)
    ensures
        r == be_nat(seq![b0, b1]),
{
    proof {
        lemma_be_nat_2(seq![b0, b1]);
    }
    (b0 as u16) * 0x100 + (b1 as u16)
}

/// Assembles four bytes, most significant first.
pub(crate) fn be_u32(b0: u8, b1: u8, b2: u8, b3: u8) -> (r: u32)
    ensures
        r == be_nat(seq![b0, b1, b2, b3]),
{
    proof {
        lemma_be_nat_4(seq![b0, b1, b2, b3]);
    }
    (b0 as u32) * 0x1000000 + (b1 as u32) * 0x10000 + (b2 as u32) * 0x100 + (b3 as u32)
}

/// Assembles eight bytes, most significant first.
pub(crate) fn be_u64(b0: u8, b1: u8, b2: u8, b3: u8, b4: u8, b5: u8, b6: u8, b7: u8) -> (r: u64)
    ensures
        r == be_nat(seq![b0, b1, b2, b3, b4, b5, b6, b7]),
{
    proof {
        lemma_be_nat_8(seq![b0, b1, b2, b3, b4, b5, b6, b7]);
    }
    (b0 as u64) * 0x100000000000000 + (b1 as u64) * 0x1000000000000 + (b2 as u64) * 0x10000000000
        + (b3 as u64) * 0x100000000 + (b4 as u64) * 0x1000000 + (b5 as u64) * 0x10000 + (
    b6 as u64) * 0x100 + (b7 as u64)
}

/// Assembles two bytes, most significant first, read as two's complement.
pub(crate) fn be_i16(b0: u8, b1: u8) -> (r: i16)
    ensures
        r as int == as_signed(be_nat(seq![b0, b1]), 2),
{
    proof {
        lemma_be_nat_2(seq![b0, b1]);
        lemma_pow256_values();
    }
    let hi: i32 = if b0 >= 0x80 {
        b0 as i32 - 0x100
    } else {
        b0 as i32
    };
    let v: i32 = hi * 0x100 + (b1 as i32);
    proof {
        assert(-0x8000 <= v <= 0x7fff);
    }
    v as i16
}

/// Assembles four bytes, most significant first, read as two's complement.
pub(crate) fn be_i32(b0: u8, b1: u8, b2: u8, b3: u8) -> (r: i32)
    ensures
        r as int == as_signed(be_nat(seq![b0, b1, b2, b3]), 4),
{
    proof {
        lemma_be_nat_4(seq![b0, b1, b2, b3]);
        lemma_pow256_values();
    }
    let hi: i64 = if b0 >= 0x80 {
        b0 as i64 - 0x100
    } else {
        b0 as i64
    };
    let v: i64 = hi * 0x1000000 + (b1 as i64) * 0x10000 + (b2 as i64) * 0x100 + (b3 as i64);
    proof {
        assert(-0x80000000 <= v <= 0x7fffffff);
    }
    v as i32
}

/// Assembles eight bytes, most significant first, read as two's complement.
pub(crate) fn be_i64(b0: u8, b1: u8, b2: u8, b3: u8, b4: u8, b5: u8, b6: u8, b7: u8) -> (r: i64)
    ensures
        r as int == as_signed(be_nat(seq![b0, b1, b2, b3, b4, b5, b6, b7]), 8),
{
    proof {
        lemma_be_nat_8(seq![b0, b1, b2, b3, b4, b5, b6, b7]);
        lemma_pow256_values();
    }
    let hi: i128 = if b0 >= 0x80 {
        b0 as i128 - 0x100
    } else {
        b0 as i128
    };
    let v: i128 = hi * 0x100000000000000 + (b1 as i128) * 0x1000000000000 + (b2 as i128)
        * 0x10000000000 + (b3 as i128) * 0x100000000 + (b4 as i128) * 0x1000000 + (b5 as i128)
        * 0x10000 + (b6 as i128) * 0x100 + (b7 as i128);
    proof {
        assert(-0x8000000000000000 <= v <= 0x7fffffffffffffff);
    }
    v as i64
}

} // verus!
