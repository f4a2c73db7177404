//! Little-endian integer fields inside a byte buffer.
//!
//! The container format stores every integer little-endian.  The spec
//! functions here read a 16- or 64-bit field of a byte sequence as a plain
//! mathematical integer; the executable functions read, overwrite and append
//! such fields and are proved against those spec functions.

use vstd::prelude::*;

verus! {

/// The value of the two-byte little-endian field of `data` at `pos`.
pub open spec fn le16_at(data: Seq<u8>, pos: int) -> int {
    data[pos] + 0x100 * data[pos + 1]
}

/// The value of the eight-byte little-endian field of `data` at `pos`.
pub open spec fn le64_at(data: Seq<u8>, pos: int) -> int {
    data[pos] + 0x100 * data[pos + 1] + 0x10000 * data[pos + 2] + 0x1000000 * data[pos + 3]
        + 0x100000000 * data[pos + 4] + 0x10000000000 * data[pos + 5] + 0x1000000000000 * data[
        pos + 6] + 0x100000000000000 * data[pos + 7]
}

/// Read the two-byte little-endian field at `pos`.
pub fn read_u16_at(data: &Vec<u8>, pos: usize) -> (v: u16)
    requires
        pos + 2 <= data.len(),
    ensures
        v == le16_at(data@, pos as int),
{
    (data[pos] as u16) + 0x100 * (data[pos + 1] as u16)
}

/// Read the eight-byte little-endian field at `pos`.
pub fn read_u64_at(data: &Vec<u8>, pos: usize) -> (v: u64)
    requires
        pos + 8 <= data.len(),
    ensures
        v == le64_at(data@, pos as int),
{
    (data[pos] as u64) + 0x100 * (data[pos + 1] as u64) + 0x10000 * (data[pos + 2] as u64)
        + 0x1000000 * (data[pos + 3] as u64) + 0x100000000 * (data[pos + 4] as u64)
        + 0x10000000000 * (data[pos + 5] as u64) + 0x1000000000000 * (data[pos + 6] as u64)
        + 0x100000000000000 * (data[pos + 7] as u64)
}

/// Overwrite the eight-byte little-endian field at `pos` with `v`, leaving
/// every byte outside that field unchanged.
pub fn write_u64_at(data: &mut Vec<u8>, pos: usize, v: u64)
    requires
        pos + 8 <= old(data).len(),
    ensures
        final(data)@.len() == old(data)@.len(),
        le64_at(final(data)@, pos as int) == v,
        forall|j: int|
            0 <= j < old(data)@.len() && !(pos <= j < pos + 8) ==> final(data)@[j] == old(
                data,
            )@[j],
{
    let mut x: u64 = v;
    let mut k: usize = 0;
    while k < 8
        invariant
            k <= 8,
            pos + 8 <= data.len(),
            data@.len() == old(data)@.len(),
            x == v as int / pow256(k as nat),
            forall|j: int|
                0 <= j < data@.len() && !(pos <= j < pos + k) ==> data@[j] == old(data)@[j],
            forall|j: int|
                pos <= j < pos + k ==> data@[j] == (v as int / pow256((j - pos) as nat)) % 0x100,
        decreases 8 - k,
    {
        let b: u8 = (x % 0x100) as u8;
        data[pos + k] = b;
        proof {
            lemma_pow256_step(v as int, k as nat);
        }
        x = x / 0x100;
        k = k + 1;
    }
    proof {
        lemma_le64_of_digits(final(data)@, pos as int, v as int);
    }
}

/// Append the eight-byte little-endian encoding of `v`, leaving the existing
/// bytes unchanged.
pub fn push_u64_le(data: &mut Vec<u8>, v: u64)
    ensures
        final(data)@.len() == old(data)@.len() + 8,
        le64_at(final(data)@, old(data)@.len() as int) == v,
        forall|j: int| 0 <= j < old(data)@.len() ==> final(data)@[j] == old(data)@[j],
{
    let mut x: u64 = v;
    let base: usize = data.len();
    let mut k: usize = 0;
    while k < 8
        invariant
            k <= 8,
            base == old(data)@.len(),
            data@.len() == base + k,
            x == v as int / pow256(k as nat),
            forall|j: int| 0 <= j < base ==> data@[j] == old(data)@[j],
            forall|j: int|
                base <= j < base + k ==> data@[j] == (v as int / pow256((j - base) as nat)) % 0x100,
        decreases 8 - k,
    {
        let b: u8 = (x % 0x100) as u8;
        data.push(b);
        proof {
            lemma_pow256_step(v as int, k as nat);
        }
        x = x / 0x100;
        k = k + 1;
    }
    proof {
        lemma_le64_of_digits(final(data)@, base as int, v as int);
    }
}

/// 256 to the `k`th power, the place value of byte `k` of a little-endian
/// field.
pub open spec fn pow256(k: nat) -> int
    decreases k,
{
    if k == 0 {
        1
    } else {
        0x100 * pow256((k - 1) as nat)
    }
}

proof fn lemma_pow256_step(v: int, k: nat)
    requires
        v >= 0,
    ensures
        (v / pow256(k)) / 0x100 == v / pow256(k + 1),
        pow256(k) > 0,
{
    lemma_pow256_pos(k);
    vstd::arithmetic::div_mod::lemma_div_denominator(v, pow256(k), 0x100);
    assert(pow256(k + 1) == pow256(k) * 0x100) by {
        assert(pow256(k + 1) == 0x100 * pow256(k));
    };
}

proof fn lemma_pow256_pos(k: nat)
    ensures
        pow256(k) > 0,
    decreases k,
{
    if k > 0 {
        lemma_pow256_pos((k - 1) as nat);
    }
}

/// A field whose bytes are the successive base-256 digits of `v` reads back
/// as `v`.
proof fn lemma_le64_of_digits(data: Seq<u8>, pos: int, v: int)
    requires
        0 <= v < 0x10000000000000000,
        0 <= pos,
        pos + 8 <= data.len(),
        forall|j: int| pos <= j < pos + 8 ==> data[j] == (v / pow256((j - pos) as nat)) % 0x100,
    ensures
        le64_at(data, pos) == v,
{
    assert(pow256(0) == 1 && pow256(1) == 0x100 && pow256(2) == 0x10000 && pow256(3) == 0x1000000
        && pow256(4) == 0x100000000 && pow256(5) == 0x10000000000 && pow256(6) == 0x1000000000000
        && pow256(7) == 0x100000000000000) by {
        reveal_with_fuel(pow256, 9);
    };
    lemma_unfold_div_mod(v, 1, 0x100);
    lemma_unfold_div_mod(v, 0x100, 0x10000);
    lemma_unfold_div_mod(v, 0x10000, 0x1000000);
    lemma_unfold_div_mod(v, 0x1000000, 0x100000000);
    lemma_unfold_div_mod(v, 0x100000000, 0x10000000000);
    lemma_unfold_div_mod(v, 0x10000000000, 0x1000000000000);
    lemma_unfold_div_mod(v, 0x1000000000000, 0x100000000000000);
    assert(v / 0x100000000000000 < 0x100) by {
        vstd::arithmetic::div_mod::lemma_multiply_divide_lt(v, 0x100000000000000, 0x100);
    };
    assert((v / 0x100000000000000) % 0x100 == v / 0x100000000000000) by {
        vstd::arithmetic::div_mod::lemma_small_mod((v / 0x100000000000000) as nat, 0x100);
    };
}

/// Splits the base-`p` digit of `v` out of the running quotient: the byte at
/// place `p` plus 256 times the next quotient reassemble `v / p`.
proof fn lemma_unfold_div_mod(v: int, p: int, p_next: int)
    requires
        v >= 0,
        p > 0,
        p_next == p * 0x100,
    ensures
        p * (v / p) == p * ((v / p) % 0x100) + p_next * (v / p_next),
{
    let q = v / p;
    vstd::arithmetic::div_mod::lemma_fundamental_div_mod(q, 0x100);
    vstd::arithmetic::div_mod::lemma_div_denominator(v, p, 0x100);
    assert(q == 0x100 * (q / 0x100) + q % 0x100);
    assert(p * q == p * (0x100 * (q / 0x100) + q % 0x100));
    assert(p * (0x100 * (q / 0x100) + q % 0x100) == p * (0x100 * (q / 0x100)) + p * (q % 0x100))
        by (nonlinear_arith);
    assert(p * (0x100 * (q / 0x100)) == (p * 0x100) * (q / 0x100)) by (nonlinear_arith);
}

} // verus!
