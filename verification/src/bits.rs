//! Bytes seen as eight separate bits.
//!
//! The planar codec moves single bits between bytes; its contracts are stated
//! with [`bit`], which reads one bit, and [`byte_from_bits`], which names the
//! byte that has a given bit at every position.
use vstd::prelude::*;

verus! {

/// Whether bit `i` of `x` is set. Bit 0 is the least significant one; positions
/// outside `0..8` hold no bit.
pub open spec fn bit(x: u8, i: int) -> bool {
    0 <= i < 8 && (x >> (i as u8)) & 1u8 == 1u8
}

/// The weight that a set bit at position `i` adds to a byte.
pub open spec fn weight(set: bool, i: nat) -> int {
    if !set {
        0
    } else if i == 0 {
        1
    } else if i == 1 {
        2
    } else if i == 2 {
        4
    } else if i == 3 {
        8
    } else if i == 4 {
        16
    } else if i == 5 {
        32
    } else if i == 6 {
        64
    } else if i == 7 {
        128
    } else {
        0
    }
}

/// The byte whose bit `i` is set exactly when `f(i)` holds, for `i` in `0..8`.
#[verifier::opaque]
pub open spec fn byte_from_bits(f: spec_fn(int) -> bool) -> u8 {
    (weight(f(0), 0) + weight(f(1), 1) + weight(f(2), 2) + weight(f(3), 3) + weight(f(4), 4)
        + weight(f(5), 5) + weight(f(6), 6) + weight(f(7), 7)) as u8
}

proof fn lemma_sum_bits(x: u8, e0: u8, e1: u8, e2: u8, e3: u8, e4: u8, e5: u8, e6: u8, e7: u8)
    by (bit_vector)
    requires
        e0 <= 1,
        e1 <= 1,
        e2 <= 1,
        e3 <= 1,
        e4 <= 1,
        e5 <= 1,
        e6 <= 1,
        e7 <= 1,
        x == e0 + 2 * e1 + 4 * e2 + 8 * e3 + 16 * e4 + 32 * e5 + 64 * e6 + 128 * e7,
    ensures
        (x >> 0u8) & 1u8 == e0,
        (x >> 1u8) & 1u8 == e1,
        (x >> 2u8) & 1u8 == e2,
        (x >> 3u8) & 1u8 == e3,
        (x >> 4u8) & 1u8 == e4,
        (x >> 5u8) & 1u8 == e5,
        (x >> 6u8) & 1u8 == e6,
        (x >> 7u8) & 1u8 == e7,
{
}

proof fn lemma_bits_sum(x: u8)
    by (bit_vector)
    ensures
        x == ((x >> 0u8) & 1u8) + 2 * ((x >> 1u8) & 1u8) + 4 * ((x >> 2u8) & 1u8) + 8 * ((x >> 3u8)
            & 1u8) + 16 * ((x >> 4u8) & 1u8) + 32 * ((x >> 5u8) & 1u8) + 64 * ((x >> 6u8) & 1u8)
            + 128 * ((x >> 7u8) & 1u8),
        (x >> 0u8) & 1u8 <= 1,
        (x >> 1u8) & 1u8 <= 1,
        (x >> 2u8) & 1u8 <= 1,
        (x >> 3u8) & 1u8 <= 1,
        (x >> 4u8) & 1u8 <= 1,
        (x >> 5u8) & 1u8 <= 1,
        (x >> 6u8) & 1u8 <= 1,
        (x >> 7u8) & 1u8 <= 1,
{
}

/// Reading bit `i` of an assembled byte gives back `f(i)`.
pub proof fn lemma_bit_of_byte_from_bits(f: spec_fn(int) -> bool, i: int)
    requires
        0 <= i < 8,
    ensures
        bit(byte_from_bits(f), i) == f(i),
{
    let e0: u8 = if f(0) { 1 } else { 0 };
    let e1: u8 = if f(1) { 1 } else { 0 };
    let e2: u8 = if f(2) { 1 } else { 0 };
    let e3: u8 = if f(3) { 1 } else { 0 };
    let e4: u8 = if f(4) { 1 } else { 0 };
    let e5: u8 = if f(5) { 1 } else { 0 };
    let e6: u8 = if f(6) { 1 } else { 0 };
    let e7: u8 = if f(7) { 1 } else { 0 };
    let x = byte_from_bits(f);
    reveal(byte_from_bits);
    assert(x == e0 + 2 * e1 + 4 * e2 + 8 * e3 + 16 * e4 + 32 * e5 + 64 * e6 + 128 * e7);
    lemma_sum_bits(x, e0, e1, e2, e3, e4, e5, e6, e7);
}

/// A byte is the one assembled from its own bits: if `x` has bit `i` set
/// exactly when `f(i)` holds, then `x` is `byte_from_bits(f)`.
pub proof fn lemma_byte_from_its_bits(x: u8, f: spec_fn(int) -> bool)
    requires
        forall|i: int| 0 <= i < 8 ==> bit(x, i) == f(i),
    ensures
        x == byte_from_bits(f),
{
    lemma_bits_sum(x);
    reveal(byte_from_bits);
    assert(bit(x, 0) == f(0));
    assert(bit(x, 1) == f(1));
    assert(bit(x, 2) == f(2));
    assert(bit(x, 3) == f(3));
    assert(bit(x, 4) == f(4));
    assert(bit(x, 5) == f(5));
    assert(bit(x, 6) == f(6));
    assert(bit(x, 7) == f(7));
}

/// Two bytes with the same bits are the same byte.
pub proof fn lemma_bytes_equal_by_bits(x: u8, y: u8)
    requires
        forall|i: int| 0 <= i < 8 ==> bit(x, i) == bit(y, i),
    ensures
        x == y,
{
    lemma_byte_from_its_bits(x, |i: int| bit(y, i));
    lemma_byte_from_its_bits(y, |i: int| bit(y, i));
}

proof fn lemma_or_shift_raw(p: u8, b: u8, i: u8, k: u8)
    by (bit_vector)
    requires
        b <= 1,
        i < 8,
        k < 8,
    ensures
        ((p | (b << i)) >> k) & 1 == 1 <==> ((p >> k) & 1 == 1 || (k == i && b == 1)),
{
}

proof fn lemma_extract_raw(x: u8, s: u8)
    by (bit_vector)
    requires
        s < 8,
    ensures
        (x >> s) & 1 <= 1,
{
}

proof fn lemma_double_raw(acc: u8, e: u8, k: u8, below: u8)
    by (bit_vector)
    requires
        acc < 128,
        e <= 1,
        k < 8,
        k > 0 ==> below == k - 1,
    ensures
        2 * acc + e < 256,
        k == 0 ==> ((((2 * acc + e) as u8) >> k) & 1 == 1 <==> e == 1),
        k > 0 ==> ((((2 * acc + e) as u8) >> k) & 1 == 1 <==> (acc >> below) & 1 == 1),
{
}

proof fn lemma_top_raw(x: u8)
    by (bit_vector)
    ensures
        (x >> 7u8) & 1 == 1 <==> x >= 128,
{
}

proof fn lemma_zero_raw(k: u8)
    by (bit_vector)
    requires
        k < 8,
    ensures
        (0u8 >> k) & 1 == 0,
{
}

proof fn lemma_small_raw(x: u8, d: u8, k: u8)
    by (bit_vector)
    requires
        d <= k,
        k < 8,
        x < (1u8 << d),
    ensures
        (x >> k) & 1 == 0,
{
}

proof fn lemma_powers_raw()
    by (bit_vector)
    ensures
        (1u8 << 2u8) == 4,
        (1u8 << 4u8) == 16,
{
}

/// A byte below 4 has no bit set from position 2 on, and one below 16 none
/// from position 4 on.
pub proof fn lemma_small_byte_bits(x: u8, depth: u8, k: int)
    requires
        depth == 2 && x < 4 || depth == 4 && x < 16 || depth >= 8,
        depth <= k,
    ensures
        !bit(x, k),
{
    if k < 8 {
        lemma_powers_raw();
        lemma_small_raw(x, depth, k as u8);
    }
}

/// The zero byte has no bit set.
pub proof fn lemma_bit_zero(k: int)
    ensures
        !bit(0u8, k),
{
    if 0 <= k < 8 {
        lemma_zero_raw(k as u8);
    }
}

/// The top bit of a byte is set exactly when the byte is 128 or more.
pub proof fn lemma_bit_top(x: u8)
    ensures
        bit(x, 7) <==> x >= 128,
{
    lemma_top_raw(x);
}

/// Shifting a byte right by `s` and masking with 1 reads its bit `s`.
pub proof fn lemma_bit_extract(x: u8, s: u8)
    requires
        s < 8,
    ensures
        (x >> s) & 1 <= 1,
        (x >> s) & 1 == 1 <==> bit(x, s as int),
{
    lemma_extract_raw(x, s);
}

/// Or-ing a single bit `b` into position `i` of `p` sets that bit where `b` is
/// 1 and leaves every other bit as it was.
pub proof fn lemma_bit_or_shift(p: u8, b: u8, i: u8, k: int)
    requires
        b <= 1,
        i < 8,
    ensures
        bit(p | (b << i), k) == (bit(p, k) || (k == i && b == 1)),
{
    if 0 <= k < 8 {
        lemma_or_shift_raw(p, b, i, k as u8);
    }
}

/// Doubling a byte below 128 and adding a bit `e` moves every bit up by one
/// and puts `e` in bit 0.
pub proof fn lemma_bit_double(acc: u8, e: u8, k: int)
    requires
        acc < 128,
        e <= 1,
        0 <= k < 8,
    ensures
        2 * acc + e < 256,
        bit((2 * acc + e) as u8, k) == (if k == 0 {
            e == 1
        } else {
            bit(acc, k - 1)
        }),
{
    let below: u8 = if k > 0 {
        (k - 1) as u8
    } else {
        0
    };
    lemma_double_raw(acc, e, k as u8, below);
}

} // verus!
