//! The per-block reconstruction primitive: dequantize one 8x8 coefficient
//! block and write the resulting samples into a plane buffer at a given line
//! stride.  The numeric contract is the flat-block (DC-only) reconstruction:
//! every sample of the block is the dequantized, rounded, level-shifted and
//! clamped DC coefficient.  The worker's placement logic is independent of
//! the per-block arithmetic, so its proofs only rely on the contract below.

use vstd::arithmetic::div_mod::lemma_div_is_ordered;
use vstd::arithmetic::div_mod::lemma_fundamental_div_mod;
use vstd::arithmetic::div_mod::lemma_fundamental_div_mod_converse;
use vstd::prelude::*;

verus! {

/// The sample value every cell of a block takes when the block is
/// reconstructed from its DC coefficient `dc` and the first entry `q` of the
/// quantization table: dequantize, shift up by 128 eighths plus rounding,
/// divide by 8 and clamp to a byte.
pub open spec fn flat_sample(dc: int, q: int) -> int {
    let t = (dc * q + 1028) / 8;
    if t < 0 {
        0
    } else if t > 255 {
        255
    } else {
        t
    }
}

/// A zero DC coefficient reconstructs to the mid-level sample 128, whatever
/// the quantization table holds.
pub proof fn lemma_flat_sample_zero(q: int)
    ensures
        flat_sample(0, q) == 128,
{
    assert(0 * q == 0) by (nonlinear_arith);
    assert((0 * q + 1028) / 8 == 128);
}

/// The destination byte offsets of one 8x8 block written at `base` into a
/// buffer with line stride `stride`: exactly the 64 offsets
/// `base + r * stride + c` with `0 <= r < 8` and `0 <= c < 8`.
pub open spec fn in_block(base: int, stride: int, k: int) -> bool
    recommends
        stride >= 8,
{
    let d = k - base;
    &&& 0 <= d < 8 * stride
    &&& d % stride < 8
}

/// Every cell `base + r * stride + c` of a block lies in that block's
/// destination set.
pub proof fn lemma_cell_in_block(base: int, stride: int, r: int, c: int)
    requires
        stride >= 8,
        0 <= r < 8,
        0 <= c < 8,
    ensures
        in_block(base, stride, base + r * stride + c),
{
    assert(0 <= r * stride + c < 8 * stride) by (nonlinear_arith)
        requires
            stride >= 8,
            0 <= r < 8,
            0 <= c < 8,
    ;
    lemma_fundamental_div_mod_converse(r * stride + c, stride, r, c);
}

/// Two distinct cells of one block have distinct destination offsets.
pub proof fn lemma_cells_distinct(base: int, stride: int, r1: int, c1: int, r2: int, c2: int)
    requires
        stride >= 8,
        0 <= r1 < 8,
        0 <= c1 < 8,
        0 <= r2 < 8,
        0 <= c2 < 8,
        r1 != r2 || c1 != c2,
    ensures
        base + r1 * stride + c1 != base + r2 * stride + c2,
{
    assert(r1 * stride + c1 != r2 * stride + c2) by (nonlinear_arith)
        requires
            stride >= 8,
            0 <= r1 < 8,
            0 <= c1 < 8,
            0 <= r2 < 8,
            0 <= c2 < 8,
            r1 != r2 || c1 != c2,
    ;
}

proof fn lemma_dequantized_dc_bounded(dc: int, q: int)
    requires
        -32768 <= dc <= 32767,
        0 <= q <= 65535,
    ensures
        -2147483648 < dc * q < 2147483647 - 1028,
{
    assert(-2147483648 < dc * q < 2147483647 - 1028) by (nonlinear_arith)
        requires
            -32768 <= dc <= 32767,
            0 <= q <= 65535,
    ;
}

proof fn lemma_line_offset_bounded(r: int, stride: int)
    requires
        0 <= r < 8,
        stride >= 8,
    ensures
        r * stride <= 7 * stride,
{
    assert(r * stride <= 7 * stride) by (nonlinear_arith)
        requires
            0 <= r < 8,
            stride >= 8,
    ;
}

/// Dequantize one 8x8 coefficient block and write its 64 reconstructed
/// samples into `output` starting at byte offset `output_base`, one line of 8
/// samples every `output_linestride` bytes.  Every cell of the block receives
/// the flat reconstruction of the DC coefficient; every byte outside the
/// block's destination set is left unchanged.
pub fn dequantize_and_idct_block(
    coefficients: &[i16],
    quantization_table: &[u16; 64],
    output_linestride: usize,
    output: &mut Vec<u8>,
    output_base: usize,
)
    requires
        coefficients@.len() == 64,
        output_linestride >= 8,
        output_base + 7 * output_linestride + 8 <= old(output)@.len(),
    ensures
        final(output)@.len() == old(output)@.len(),
        forall|r: int, c: int|
            0 <= r < 8 && 0 <= c < 8 ==> (#[trigger] final(output)@[output_base + r
                * output_linestride + c]) as int == flat_sample(
                coefficients@[0] as int,
                quantization_table@[0] as int,
            ),
        forall|k: int|
            0 <= k < old(output)@.len() && !in_block(
                output_base as int,
                output_linestride as int,
                k,
            ) ==> final(output)@[k] == old(output)@[k],
{
    let dc: i16 = coefficients[0];
    let q: u16 = quantization_table[0];
    proof {
        lemma_dequantized_dc_bounded(dc as int, q as int);
    }
    let t: i32 = (dc as i32) * (q as i32) + 1028;
    let value: u8 = if t < 0 {
        proof {
            lemma_div_is_ordered(t as int, -1, 8);
        }
        0u8
    } else {
        let d: u32 = (t as u32) / 8;
        if d > 255 {
            255u8
        } else {
            d as u8
        }
    };
    assert(value as int == flat_sample(dc as int, q as int));
    let olen: usize = output.len();
    let ghost pre = output@;
    let mut r: usize = 0;
    while r < 8
        invariant
            r <= 8,
            output_linestride >= 8,
            output_base + 7 * output_linestride + 8 <= pre.len(),
            output@.len() == pre.len(),
            olen == pre.len(),
            value as int == flat_sample(coefficients@[0] as int, quantization_table@[0] as int),
            forall|r2: int, c2: int|
                0 <= r2 < r && 0 <= c2 < 8 ==> #[trigger] output@[output_base + r2
                    * output_linestride + c2] == value,
            forall|k: int|
                0 <= k < pre.len() && !in_block(
                    output_base as int,
                    output_linestride as int,
                    k,
                ) ==> output@[k] == pre[k],
        decreases 8 - r,
    {
        let mut c: usize = 0;
        while c < 8
            invariant
                r < 8,
                c <= 8,
                output_linestride >= 8,
                output_base + 7 * output_linestride + 8 <= pre.len(),
                output@.len() == pre.len(),
                olen == pre.len(),
                value as int == flat_sample(
                    coefficients@[0] as int,
                    quantization_table@[0] as int,
                ),
                forall|r2: int, c2: int|
                    0 <= r2 < r && 0 <= c2 < 8 ==> #[trigger] output@[output_base + r2
                        * output_linestride + c2] == value,
                forall|c2: int|
                    0 <= c2 < c ==> #[trigger] output@[output_base + r as int
                        * output_linestride + c2] == value,
                forall|k: int|
                    0 <= k < pre.len() && !in_block(
                        output_base as int,
                        output_linestride as int,
                        k,
                    ) ==> output@[k] == pre[k],
            decreases 8 - c,
        {
            proof {
                lemma_line_offset_bounded(r as int, output_linestride as int);
            }
            let idx: usize = output_base + r * output_linestride + c;
            let ghost before = output@;
            output[idx] = value;
            proof {
                lemma_cell_in_block(
                    output_base as int,
                    output_linestride as int,
                    r as int,
                    c as int,
                );
                assert forall|r2: int, c2: int|
                    0 <= r2 < r as int && 0 <= c2 < 8 implies #[trigger] output@[output_base + r2
                    * output_linestride + c2] == value by {
                    lemma_line_offset_bounded(r2, output_linestride as int);
                    lemma_cells_distinct(
                        output_base as int,
                        output_linestride as int,
                        r2,
                        c2,
                        r as int,
                        c as int,
                    );
                    assert(output@[output_base + r2 * output_linestride + c2] == before[output_base
                        + r2 * output_linestride + c2]);
                }
                assert forall|c2: int|
                    0 <= c2 < c as int implies #[trigger] output@[output_base + r as int
                    * output_linestride + c2] == value by {
                    lemma_cells_distinct(
                        output_base as int,
                        output_linestride as int,
                        r as int,
                        c2,
                        r as int,
                        c as int,
                    );
                }
            }
            c += 1;
        }
        r += 1;
    }
}

} // verus!
