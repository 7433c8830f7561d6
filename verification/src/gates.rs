//! Gate-level 4-bit binary addition and multiplication built from full adders.

use vstd::prelude::*;

verus! {

/// The numeric value of a single bit.
pub open spec fn bit(b: bool) -> int {
    if b { 1 } else { 0 }
}

/// The value of four bits, least significant first.
pub open spec fn val4(b0: bool, b1: bool, b2: bool, b3: bool) -> int {
    bit(b0) + 2 * bit(b1) + 4 * bit(b2) + 8 * bit(b3)
}

/// The value of eight bits, least significant first.
pub open spec fn val8(x: (bool, bool, bool, bool, bool, bool, bool, bool)) -> int {
    val4(x.0, x.1, x.2, x.3) + 16 * val4(x.4, x.5, x.6, x.7)
}

/// Whether `x` has a bit of `mask` set, as `split4` reads a bit.
pub open spec fn bit_of(x: u8, mask: u8) -> bool {
    x & mask != 0
}

/// Full adder: sum and carry of three bits.
pub fn fa(a: bool, b: bool, ci: bool) -> (r: (bool, bool))
    ensures
        r.0 == (a != (b != ci)),
        r.1 == ((a && b) || (ci && (a != b))),
        bit(r.0) + 2 * bit(r.1) == bit(a) + bit(b) + bit(ci),
{
    let so = a ^ b ^ ci;
    let co = a && b || ci && (a ^ b);
    (so, co)
}

/// Multiply cell, `(sum, carry)` by its truth table over the partial product `b = x && y`:
/// without `b` it adds `si` and `ci`; with `b` it gives `(1, 0)` when `si` and `ci` are clear,
/// `(1, 1)` when only `ci` is set, and `(0, 1)` whenever `si` is set.
pub fn ma(x: bool, y: bool, ci: bool, si: bool) -> (r: (bool, bool))
    ensures
        r == (if x && y {
            if si { (false, true) } else { (true, ci) }
        } else {
            (si != ci, si && ci)
        }),
{
    if x && y {
        if si {
            (false, true)
        } else {
            (true, ci)
        }
    } else {
        fa(si, false, ci)
    }
}

/// Ripple-carry addition of two 4-bit numbers; the fifth component is the carry out.
#[allow(clippy::too_many_arguments)]
pub fn add4(
    a0: bool, a1: bool, a2: bool, a3: bool,
    b0: bool, b1: bool, b2: bool, b3: bool,
) -> (r: (bool, bool, bool, bool, bool))
    ensures
        val4(r.0, r.1, r.2, r.3) + 16 * bit(r.4) == val4(a0, a1, a2, a3) + val4(b0, b1, b2, b3),
{
    let (s0, c0) = fa(a0, b0, false);
    let (s1, c1) = fa(a1, b1, c0);
    let (s2, c2) = fa(a2, b2, c1);
    let (s3, c3) = fa(a3, b3, c2);
    (s0, s1, s2, s3, c3)
}

proof fn lemma_masked_val4(x0: bool, x1: bool, x2: bool, x3: bool, y: bool)
    ensures
        val4(x0 && y, x1 && y, x2 && y, x3 && y) == if y { val4(x0, x1, x2, x3) } else { 0 },
{
}

proof fn lemma_product_by_bits(x: int, y0: bool, y1: bool, y2: bool, y3: bool)
    ensures
        x * val4(y0, y1, y2, y3) == (if y0 { x } else { 0 }) + 2 * (if y1 { x } else { 0 })
            + 4 * (if y2 { x } else { 0 }) + 8 * (if y3 { x } else { 0 }),
{
    let v = val4(y0, y1, y2, y3);
    assert(x * v == x * bit(y0) + 2 * (x * bit(y1)) + 4 * (x * bit(y2)) + 8 * (x * bit(y3)))
        by (nonlinear_arith)
        requires
            v == bit(y0) + 2 * bit(y1) + 4 * bit(y2) + 8 * bit(y3),
    ;
}

/// Shift-and-add multiplication of two 4-bit numbers into an 8-bit product.
#[allow(clippy::too_many_arguments)]
pub fn mul4x4(
    x0: bool, x1: bool, x2: bool, x3: bool,
    y0: bool, y1: bool, y2: bool, y3: bool,
) -> (r: (bool, bool, bool, bool, bool, bool, bool, bool))
    ensures
        val8(r) == val4(x0, x1, x2, x3) * val4(y0, y1, y2, y3),
{
    let (s0, s1, s2, s3, c0) = add4(x0 && y0, x1 && y0, x2 && y0, x3 && y0, false, false, false, false);
    let (s1b, s2b, s3b, s4, c1) = add4(s1, s2, s3, c0, x0 && y1, x1 && y1, x2 && y1, x3 && y1);
    let (s2c, s3c, s4c, s5, c2) = add4(s2b, s3b, s4, c1, x0 && y2, x1 && y2, x2 && y2, x3 && y2);
    let (s3d, s4d, s5d, s6, c3) = add4(s3c, s4c, s5, c2, x0 && y3, x1 && y3, x2 && y3, x3 && y3);
    proof {
        lemma_masked_val4(x0, x1, x2, x3, y0);
        lemma_masked_val4(x0, x1, x2, x3, y1);
        lemma_masked_val4(x0, x1, x2, x3, y2);
        lemma_masked_val4(x0, x1, x2, x3, y3);
        lemma_product_by_bits(val4(x0, x1, x2, x3), y0, y1, y2, y3);
    }
    (s0, s1b, s2c, s3d, s4d, s5d, s6, c3)
}

/// Splits an integer below 16 into four bits, least significant first.
pub fn split4(x: u8) -> (r: (bool, bool, bool, bool))
    requires
        x < 16,
    ensures
        r == (bit_of(x, 1), bit_of(x, 2), bit_of(x, 4), bit_of(x, 8)),
        val4(r.0, r.1, r.2, r.3) == x,
{
    proof {
        lemma_split_value(x);
    }
    (x & 1 != 0, x & 2 != 0, x & 4 != 0, x & 8 != 0)
}

proof fn lemma_split_value(x: u8)
    requires
        x < 16,
    ensures
        val4(bit_of(x, 1), bit_of(x, 2), bit_of(x, 4), bit_of(x, 8)) == x,
{
    assert(x < 16 ==> x == (if x & 1 != 0 { 1u8 } else { 0 }) + (if x & 2 != 0 { 2u8 } else { 0 })
        + (if x & 4 != 0 { 4u8 } else { 0 }) + (if x & 8 != 0 { 8u8 } else { 0 })) by (bit_vector);
}

/// Merges four bits, least significant first, into an integer.
pub fn merge4(x0: bool, x1: bool, x2: bool, x3: bool) -> (r: u8)
    ensures
        r == val4(x0, x1, x2, x3),
        r < 16,
{
    (if x0 { 1 } else { 0 }) + (if x1 { 2 } else { 0 }) + (if x2 { 4 } else { 0 }) + (if x3 { 8 } else { 0 })
}

/// Merges eight bits, least significant first, into an integer.
pub fn merge8(x: (bool, bool, bool, bool, bool, bool, bool, bool)) -> (r: u8)
    ensures
        r == val8(x),
{
    merge4(x.0, x.1, x.2, x.3) + 16 * merge4(x.4, x.5, x.6, x.7)
}

/// Splitting a number below 16 and merging the bits gives the number back.
pub proof fn law_merge_split(x: u8)
    requires
        x < 16,
    ensures
        val4(bit_of(x, 1), bit_of(x, 2), bit_of(x, 4), bit_of(x, 8)) == x,
{
    lemma_split_value(x);
}

/// Merging four bits and splitting the result gives the bits back.
pub proof fn law_split_merge(b0: bool, b1: bool, b2: bool, b3: bool)
    ensures
        ({
            let x = val4(b0, b1, b2, b3) as u8;
            (bit_of(x, 1), bit_of(x, 2), bit_of(x, 4), bit_of(x, 8)) == (b0, b1, b2, b3)
        }),
{
    let x = val4(b0, b1, b2, b3) as u8;
    assert(x == (if b0 { 1u8 } else { 0 }) + (if b1 { 2u8 } else { 0 }) + (if b2 { 4u8 } else { 0 })
        + (if b3 { 8u8 } else { 0 }));
    assert(x == (if b0 { 1u8 } else { 0 }) + (if b1 { 2u8 } else { 0 }) + (if b2 { 4u8 } else { 0 })
        + (if b3 { 8u8 } else { 0 }) ==> (x & 1 != 0) == b0 && (x & 2 != 0) == b1 && (x & 4 != 0)
        == b2 && (x & 8 != 0) == b3) by (bit_vector);
}

} // verus!
