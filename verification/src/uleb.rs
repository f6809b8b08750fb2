//! ULEB128 / SLEB128 decoding.  Shifts by 64 or more wrap their amount, as
//! Rust's release arithmetic does.

use vstd::prelude::*;
use vstd::arithmetic::power2::{lemma2_to64, lemma2_to64_rest, lemma_pow2_adds, lemma_pow2_pos, lemma_pow2_strictly_increases, pow2};
use vstd::bits::{lemma_u64_pow2_no_overflow, lemma_u64_shl_is_mul};

verus! {

/// Decoding state of an unsigned LEB128 run: the bytes from `pos` on are
/// folded into `acc`, the next group landing at bit `shift`.  Returns the
/// value and the position after the last byte read.
pub open spec fn uleb_from(d: Seq<u8>, pos: int, shift: u32, acc: u64) -> (u64, int)
    decreases d.len() - pos,
{
    if pos < 0 || pos >= d.len() {
        (acc, pos)
    } else {
        let b = d[pos];
        let acc2 = acc | ((b & 0x7f) as u64).wrapping_shl(shift);
        if b & 0x80 == 0 {
            (acc2, pos + 1)
        } else {
            uleb_from(d, pos + 1, shift.wrapping_add(7), acc2)
        }
    }
}

/// The unsigned LEB128 value starting at `pos`, and the position after it.
pub open spec fn uleb(d: Seq<u8>, pos: int) -> (u64, int) {
    uleb_from(d, pos, 0, 0)
}

/// Read an unsigned LEB128 starting at `*pos` in `data`, advancing `*pos`.
pub fn read_uleb128(data: &[u8], pos: &mut usize) -> (r: u64)
    ensures
        r == uleb(data@, *old(pos) as int).0,
        *final(pos) as int == if *old(pos) < data@.len() { uleb(data@, *old(pos) as int).1 } else { *old(pos) as int },
{
    let mut result: u64 = 0;
    let mut shift: u32 = 0;
    if *pos >= data.len() {
        return 0;
    }
    while *pos < data.len()
        invariant_except_break
            *old(pos) < *pos <= data@.len() || (*pos == *old(pos) && shift == 0 && result == 0),
            *old(pos) < data@.len(),
            uleb_from(data@, *pos as int, shift, result) == uleb(data@, *old(pos) as int),
        ensures
            result == uleb(data@, *old(pos) as int).0,
            *pos as int == uleb(data@, *old(pos) as int).1,
        decreases data@.len() - *pos,
    {
        let byte = data[*pos];
        *pos = *pos + 1;
        result = result | ((byte & 0x7f) as u64).wrapping_shl(shift);
        if byte & 0x80 == 0 {
            break;
        }
        shift = shift.wrapping_add(7);
    }
    result
}

/// The sum of the 7-bit groups of the `k` bytes from `pos`, the group of
/// byte `i` weighted by 2^(7i): the first byte holds the lowest bits.
pub open spec fn uleb_groups(d: Seq<u8>, pos: int, k: nat) -> nat
    decreases k,
{
    if k == 0 {
        0
    } else {
        uleb_groups(d, pos, (k - 1) as nat) + ((d[pos + k - 1] & 0x7f) as nat) * pow2((7 * (k - 1)) as nat)
    }
}

proof fn lemma_groups_below(d: Seq<u8>, pos: int, j: nat)
    ensures
        uleb_groups(d, pos, j) < pow2(7 * j),
    decreases j,
{
    lemma_pow2_pos(7 * j);
    if j > 0 {
        let p = pow2((7 * (j - 1)) as nat);
        lemma_groups_below(d, pos, (j - 1) as nat);
        let b = d[pos + j - 1];
        assert(b & 0x7f <= 127) by (bit_vector);
        lemma_pow2_adds((7 * (j - 1)) as nat, 7);
        lemma2_to64();
        assert(7 * j == (7 * (j - 1)) as nat + 7);
        let prev = uleb_groups(d, pos, (j - 1) as nat);
        let g = (b & 0x7f) as nat;
        assert(prev + g * p < p * 128) by (nonlinear_arith)
            requires
                prev < p,
                g <= 127,
        ;
    }
}

proof fn lemma_uleb_steps(d: Seq<u8>, pos: int, k: nat, j: nat)
    requires
        0 <= pos,
        1 <= k <= 10,
        pos + k <= d.len(),
        forall|i: int| pos <= i < pos + k - 1 ==> d[i] >= 0x80,
        d[pos + k - 1] < 0x80 || pos + k == d.len(),
        j < k,
    ensures
        uleb_from(d, pos + j, (7 * j) as u32, uleb_groups(d, pos, j) as u64) == (
            (uleb_groups(d, pos, k) % 0x1_0000_0000_0000_0000) as u64,
            pos + k,
        ),
    decreases k - j,
{
    let sh: u64 = (7 * j) as u64;
    let t: u32 = (7 * j) as u32;
    let p = pow2(7 * j);
    lemma_groups_below(d, pos, j);
    lemma_groups_below(d, pos, j + 1);
    lemma2_to64();
    lemma2_to64_rest();
    lemma_u64_pow2_no_overflow(7 * j);
    let prev = uleb_groups(d, pos, j);
    let acc: u64 = prev as u64;
    let b = d[pos + j];
    let g: u64 = (b & 0x7f) as u64;
    assert(b & 0x7f <= 127) by (bit_vector);
    assert(b & 0x80 == 0 <==> b < 0x80) by (bit_vector);
    assert(t % 64 == t);
    assert(g << t == g << sh) by (bit_vector)
        requires
            t == sh,
            sh < 64,
    ;
    let acc2 = acc | g.wrapping_shl(t);
    assert(uleb_groups(d, pos, j + 1) == prev + (g as nat) * p);
    if j < 9 {
        lemma_pow2_strictly_increases(7 * j, 63);
        if j < 8 {
            lemma_pow2_strictly_increases(7 * (j + 1), 63);
        }
        assert((g as nat) * p <= 127 * p) by (nonlinear_arith)
            requires
                g <= 127,
        ;
        lemma_u64_shl_is_mul(g, sh);
        lemma_u64_shl_is_mul(1, sh);
        assert(acc < (1u64 << sh));
        assert(acc | (g << sh) == acc + (g << sh)) by (bit_vector)
            requires
                acc < (1u64 << sh),
                sh <= 56,
                g <= 127,
        ;
        assert(acc2 == uleb_groups(d, pos, j + 1));
        assert(uleb_groups(d, pos, j + 1) % 0x1_0000_0000_0000_0000 == uleb_groups(d, pos, j + 1));
        if j + 1 < k {
            assert(d[pos + j] >= 0x80);
            assert(t.wrapping_add(7) == (7 * (j + 1)) as u32);
            lemma_uleb_steps(d, pos, k, j + 1);
        } else if b & 0x80 != 0 {
            assert(uleb_from(d, pos + j + 1, t.wrapping_add(7), acc2) == (acc2, pos + j + 1));
        }
    } else {
        assert(j == 9 && k == 10);
        assert(sh == 63);
        assert(p == 0x8000_0000_0000_0000);
        assert(acc | (g << sh) == acc + (g % 2) * 0x8000_0000_0000_0000) by (bit_vector)
            requires
                acc < 0x8000_0000_0000_0000u64,
                sh == 63,
        ;
        let total = prev + (g as nat) * p;
        assert(total % 0x1_0000_0000_0000_0000 == prev + (g as nat % 2) * p) by (nonlinear_arith)
            requires
                total == prev + (g as nat) * p,
                prev < p,
                p == 0x8000_0000_0000_0000,
        ;
        assert(acc2 == (total % 0x1_0000_0000_0000_0000) as u64);
        if b & 0x80 != 0 {
            assert(uleb_from(d, pos + j + 1, t.wrapping_add(7), acc2) == (acc2, pos + j + 1));
        }
    }
}

/// An unsigned LEB128 run of `k` bytes, at most 10 (every byte but the last
/// has its high bit set; the last has it clear, or ends the data), reads as
/// the sum of its 7-bit groups, the first group lowest, cut to 64 bits; the
/// read stops right after the run.
pub proof fn lemma_uleb_is_sum_of_groups(d: Seq<u8>, pos: int, k: nat)
    requires
        0 <= pos,
        1 <= k <= 10,
        pos + k <= d.len(),
        forall|i: int| pos <= i < pos + k - 1 ==> d[i] >= 0x80,
        d[pos + k - 1] < 0x80 || pos + k == d.len(),
    ensures
        uleb(d, pos) == ((uleb_groups(d, pos, k) % 0x1_0000_0000_0000_0000) as u64, pos + k),
{
    lemma_uleb_steps(d, pos, k, 0);
    assert(uleb_groups(d, pos, 0) == 0);
}

/// Signed LEB128 scan: folds the bytes from `pos` into `acc`; returns the
/// accumulator, the shift after the last byte, the last byte read (`last`
/// when none) and the position after it.
pub open spec fn sleb_from(d: Seq<u8>, pos: int, shift: u32, acc: i64, last: u8) -> (i64, u32, u8, int)
    decreases d.len() - pos,
{
    if pos < 0 || pos >= d.len() {
        (acc, shift, last, pos)
    } else {
        let b = d[pos];
        let acc2 = acc | ((b & 0x7f) as i64).wrapping_shl(shift);
        let shift2 = shift.wrapping_add(7);
        if b & 0x80 == 0 {
            (acc2, shift2, b, pos + 1)
        } else {
            sleb_from(d, pos + 1, shift2, acc2, b)
        }
    }
}

/// The signed LEB128 value starting at `pos` (sign-extended from bit 6 of the
/// last byte when fewer than 64 bits were read), and the position after it.
pub open spec fn sleb(d: Seq<u8>, pos: int) -> (i64, int) {
    let (acc, shift, last, end) = sleb_from(d, pos, 0, 0, 0);
    let v = if shift < 64 && (last & 0x40) != 0 {
        acc | (-1i64).wrapping_shl(shift)
    } else {
        acc
    };
    (v, end)
}

/// Read a signed LEB128 starting at `*pos` in `data`, advancing `*pos`.
pub fn read_sleb128(data: &[u8], pos: &mut usize) -> (r: i64)
    ensures
        r == sleb(data@, *old(pos) as int).0,
        *final(pos) as int == sleb(data@, *old(pos) as int).1,
{
    let mut result: i64 = 0;
    let mut shift: u32 = 0;
    let mut byte: u8 = 0;
    if *pos >= data.len() {
        assert(0u8 & 0x40u8 == 0) by (bit_vector);
        return 0;
    }
    while *pos < data.len()
        invariant_except_break
            *pos <= data@.len(),
            sleb_from(data@, *pos as int, shift, result, byte) == sleb_from(data@, *old(pos) as int, 0, 0, 0),
        ensures
            sleb_from(data@, *old(pos) as int, 0, 0, 0) == (result, shift, byte, *pos as int),
        decreases data@.len() - *pos,
    {
        byte = data[*pos];
        *pos = *pos + 1;
        result = result | ((byte & 0x7f) as i64).wrapping_shl(shift);
        shift = shift.wrapping_add(7);
        if byte & 0x80 == 0 {
            break;
        }
    }
    if shift < 64 && (byte & 0x40) != 0 {
        result = result | (-1i64).wrapping_shl(shift);
    }
    result
}

} // verus!
