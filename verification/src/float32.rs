//! Code generation for `f32` values. A float is held in one memory cell as
//! its IEEE 754 bit pattern and taken apart on the stack into its sign bit,
//! its biased exponent and its mantissa with 32-bit integer instructions.
//!
//! Notation in the stack comments, top first: `x_sign^` is the sign bit of
//! `x` in place (`x & SIGN_MASK`), `x_exp` its biased exponent, `x_exp^` that
//! exponent shifted back into place, `x_mant` its 23 mantissa bits.

use vstd::prelude::*;

use crate::encoder::{Inst, Instruction, view_seq, lemma_view_seq_add, lemma_view_seq_map, push_inst};
use crate::machine::{flag, is_u32, lemma_run_add, lemma_run_from, pow2, run, step};
use crate::memory::{Memory, ValueSource, lemma_read_pushes_cells, read_insts, write_insts};

verus! {

/// Cells taken by one float.
pub const WIDTH: u32 = 1;

pub const SIGN_MASK: u32 = 0x8000_0000;

pub const EXP_MASK: u32 = 0x7f80_0000;

pub const EXP_SHIFT: u32 = 23;

pub const MANT_MASK: u32 = 0x007f_ffff;

/// The biased exponent of infinities and NaNs.
pub const EXP_MAX: u32 = 0xff;

pub const EXP_BIAS: u32 = 0x7f;

/// The quiet NaN that operations produce.
pub const NAN: u32 = EXP_MASK | 0x0040_0000;

pub const INFINITY: u32 = EXP_MASK;

/// The implicit leading bit of a normal mantissa.
pub const LEADING_ONE_BIT: u32 = 0x0080_0000;

/// `n` drops.
pub open spec fn drop_insts(n: nat) -> Seq<Inst> {
    Seq::new(n, |_k: int| Inst::Drop)
}

/// `[a] => [a_mant, a_sign^, a_exp]`.
pub open spec fn decompose_insts() -> Seq<Inst> {
    seq![
        Inst::Dup(None),
        Inst::Push(EXP_MASK),
        Inst::U32CheckedAnd,
        Inst::U32CheckedSHR(Some(EXP_SHIFT)),
        Inst::Dup(Some(1)),
        Inst::Push(SIGN_MASK),
        Inst::U32CheckedAnd,
        Inst::Dup(Some(2)),
        Inst::Push(MANT_MASK),
        Inst::U32CheckedAnd,
        Inst::MovUp(3),
        Inst::Drop,
    ]
}

/// `[b_mant, b_sign^, b_exp, a_mant, a_sign^, a_exp]` =>
/// `[a_exp, b_exp, a_sign^, b_sign^, a_mant, b_mant]`.
pub open spec fn arrange_insts() -> Seq<Inst> {
    seq![Inst::MovDown(5), Inst::MovDown(4), Inst::MovDown(3), Inst::MovDown(4), Inst::MovDown(2)]
}

/// The code of [`prepare_stack_for_arithmetic`].
pub open spec fn prepare_insts(a: u32, b: u32) -> Seq<Inst> {
    read_insts(a as int, WIDTH as nat) + decompose_insts() + read_insts(b as int, WIDTH as nat)
        + decompose_insts() + arrange_insts()
}

/// The code of [`add_is_zero`].
pub open spec fn is_zero_insts(offset: u32) -> Seq<Inst> {
    seq![
        Inst::Dup(Some((offset + 1) as u32)),
        Inst::Push(0),
        Inst::U32CheckedEq,
        Inst::Dup(Some((offset + 6) as u32)),
        Inst::Push(0),
        Inst::U32CheckedEq,
        Inst::U32CheckedAnd,
        Inst::Dup(Some((offset + 1) as u32)),
        Inst::Push(0),
        Inst::U32CheckedEq,
        Inst::Dup(Some((offset + 6) as u32)),
        Inst::Push(0),
        Inst::U32CheckedEq,
        Inst::U32CheckedAnd,
    ]
}

/// The code of [`add_is_inf`].
pub open spec fn is_inf_insts(offset: u32) -> Seq<Inst> {
    seq![
        Inst::Dup(Some((offset + 1) as u32)),
        Inst::Push(EXP_MAX),
        Inst::U32CheckedEq,
        Inst::Dup(Some((offset + 1) as u32)),
        Inst::Push(EXP_MAX),
        Inst::U32CheckedEq,
    ]
}

/// The code of [`add_is_nan`].
pub open spec fn is_nan_insts(offset: u32) -> Seq<Inst> {
    seq![
        Inst::Dup(Some((offset + 1) as u32)),
        Inst::Push(EXP_MAX),
        Inst::U32CheckedEq,
        Inst::Dup(Some((offset + 6) as u32)),
        Inst::Push(0),
        Inst::U32CheckedNeq,
        Inst::U32CheckedAnd,
        Inst::Dup(Some((offset + 1) as u32)),
        Inst::Push(EXP_MAX),
        Inst::U32CheckedEq,
        Inst::Dup(Some((offset + 6) as u32)),
        Inst::Push(0),
        Inst::U32CheckedNeq,
        Inst::U32CheckedAnd,
        Inst::U32CheckedOr,
    ]
}

/// The code of [`add_nan_inf_zero`].
pub open spec fn nan_inf_zero_insts() -> Seq<Inst> {
    is_zero_insts(0) + is_inf_insts(2) + is_nan_insts(4)
}

/// The sign bit of the float with bits `x`, in place.
pub open spec fn sign_bits(x: u32) -> u32 {
    x & SIGN_MASK
}

/// The biased exponent of the float with bits `x`.
pub open spec fn exponent(x: u32) -> u32 {
    (x & EXP_MASK) >> EXP_SHIFT
}

/// The 23 mantissa bits of the float with bits `x`.
pub open spec fn mantissa(x: u32) -> u32 {
    x & MANT_MASK
}

proof fn lemma_shift_is_division(x: u32)
    ensures
        ((x & EXP_MASK) as int) / pow2(EXP_SHIFT as nat) == exponent(x) as int,
        exponent(x) <= EXP_MAX,
{
    assert(pow2(23) == 0x800000) by {
        reveal_with_fuel(pow2, 24);
    }
    assert((x & 0x7f80_0000u32) / 0x800000u32 == (x & 0x7f80_0000u32) >> 23u32) by (bit_vector);
    assert((x & 0x7f80_0000u32) >> 23u32 <= 0xffu32) by (bit_vector);
}

/// The code of [`decompose`] takes the float with bits `x` on top of the
/// stack apart into its mantissa, its sign bit in place and its biased
/// exponent, and leaves the stack below as it was.
#[verifier::spinoff_prover]
#[verifier::rlimit(60)]
pub proof fn lemma_decompose(x: u32, mem: spec_fn(int) -> int, rest: Seq<int>, fuel: nat)
    ensures
        run(decompose_insts(), mem, seq![x as int] + rest, fuel) == Some(
            seq![mantissa(x) as int, sign_bits(x) as int, exponent(x) as int] + rest,
        ),
{
    let is = decompose_insts();
    let xi = x as int;
    let t0 = seq![xi] + rest;
    let t1 = seq![xi] + t0;
    let t2 = seq![EXP_MASK as int] + t1;
    let t3 = seq![(x & EXP_MASK) as int] + t0;
    let t4 = seq![exponent(x) as int] + t0;
    let t5 = seq![xi] + t4;
    let t6 = seq![SIGN_MASK as int] + t5;
    let t7 = seq![sign_bits(x) as int] + t4;
    let t8 = seq![xi] + t7;
    let t9 = seq![MANT_MASK as int] + t8;
    let t10 = seq![mantissa(x) as int] + t7;
    let t11 = seq![xi, mantissa(x) as int, sign_bits(x) as int, exponent(x) as int] + rest;
    let t12 = seq![mantissa(x) as int, sign_bits(x) as int, exponent(x) as int] + rest;
    lemma_shift_is_division(x);
    assert(x & EXP_MASK <= EXP_MASK) by (bit_vector);
    assert(t2.skip(2) =~= t0);
    assert(t6.skip(2) =~= t4);
    assert(t9.skip(2) =~= t7);
    assert(t3.skip(1) =~= t0);
    assert(t4[1] == xi);
    assert(t7[2] == xi);
    assert(seq![t10[3]] + t10.take(3) + t10.skip(4) =~= t11);
    assert(t11.drop_first() =~= t12);
    assert((xi as u32) == x);
    assert(step(is[0], mem, t0, fuel) == Some(t1));
    assert(step(is[1], mem, t1, fuel) == Some(t2));
    assert(step(is[2], mem, t2, fuel) == Some(t3));
    assert(step(is[3], mem, t3, fuel) == Some(t4));
    assert(step(is[4], mem, t4, fuel) == Some(t5));
    assert(step(is[5], mem, t5, fuel) == Some(t6));
    assert(step(is[6], mem, t6, fuel) == Some(t7));
    assert(step(is[7], mem, t7, fuel) == Some(t8));
    assert(step(is[8], mem, t8, fuel) == Some(t9));
    assert(step(is[9], mem, t9, fuel) == Some(t10));
    assert(step(is[10], mem, t10, fuel) == Some(t11));
    assert(step(is[11], mem, t11, fuel) == Some(t12));
    lemma_run_from(is, 11, mem, t11, fuel);
    lemma_run_from(is, 10, mem, t10, fuel);
    lemma_run_from(is, 9, mem, t9, fuel);
    lemma_run_from(is, 8, mem, t8, fuel);
    lemma_run_from(is, 7, mem, t7, fuel);
    lemma_run_from(is, 6, mem, t6, fuel);
    lemma_run_from(is, 5, mem, t5, fuel);
    lemma_run_from(is, 4, mem, t4, fuel);
    lemma_run_from(is, 3, mem, t3, fuel);
    lemma_run_from(is, 2, mem, t2, fuel);
    lemma_run_from(is, 1, mem, t1, fuel);
    lemma_run_from(is, 0, mem, t0, fuel);
    assert(is.skip(0) =~= is);
    assert(is.skip(12) =~= Seq::<Inst>::empty());
}

/// `&`, `|` and `^` of two flags are the flags of `&&`, `||` and `!=`.
pub(crate) proof fn lemma_flag_ops(p: bool, q: bool)
    ensures
        ((flag(p) as u32) & (flag(q) as u32)) as int == flag(p && q),
        ((flag(p) as u32) | (flag(q) as u32)) as int == flag(p || q),
        ((flag(p) as u32) ^ (flag(q) as u32)) as int == flag(p != q),
{
    assert(0u32 & 0u32 == 0u32 && 0u32 & 1u32 == 0u32 && 1u32 & 0u32 == 0u32 && 1u32 & 1u32 == 1u32)
        by (bit_vector);
    assert(0u32 | 0u32 == 0u32 && 0u32 | 1u32 == 1u32 && 1u32 | 0u32 == 1u32 && 1u32 | 1u32 == 1u32)
        by (bit_vector);
    assert(0u32 ^ 0u32 == 0u32 && 0u32 ^ 1u32 == 1u32 && 1u32 ^ 0u32 == 1u32 && 1u32 ^ 1u32 == 0u32)
        by (bit_vector);
}

/// The code of [`add_is_zero`] at offset 0 pushes whether `b`, then
/// whether `a` is zero: exponent and mantissa both 0.
#[verifier::spinoff_prover]
#[verifier::rlimit(60)]
proof fn lemma_is_zero(
    ex: int, ey: int, sx: int, sy: int, mx: int, my: int,
    mem: spec_fn(int) -> int, rest: Seq<int>, fuel: nat,
)
    requires
        is_u32(ex), is_u32(ey), is_u32(sx), is_u32(sy), is_u32(mx), is_u32(my),
    ensures
        run(is_zero_insts(0), mem, seq![ex, ey, sx, sy, mx, my] + rest, fuel) == Some(
            seq![flag(ex == 0 && mx == 0), flag(ey == 0 && my == 0)] + (seq![ex, ey, sx, sy, mx, my] + rest),
        ),
{
    let is = is_zero_insts(0);
    let t0 = seq![ex, ey, sx, sy, mx, my] + rest;
    let t1 = seq![ey] + t0;
    let t2 = seq![0int] + t1;
    let t3 = seq![flag(ey == 0)] + t0;
    let t4 = seq![my] + t3;
    let t5 = seq![0int] + t4;
    let t6 = seq![flag(my == 0)] + t3;
    let t7 = seq![flag(ey == 0 && my == 0)] + t0;
    let t8 = seq![ex] + t7;
    let t9 = seq![0int] + t8;
    let t10 = seq![flag(ex == 0)] + t7;
    let t11 = seq![mx] + t10;
    let t12 = seq![0int] + t11;
    let t13 = seq![flag(mx == 0)] + t10;
    let t14 = seq![flag(ex == 0 && mx == 0)] + t7;
    assert(t0[1] == ey);
    assert(t2.skip(2) =~= t0);
    assert(t3[6] == my);
    assert(t5.skip(2) =~= t3);
    assert(t6.skip(2) =~= t0);
    lemma_flag_ops(ey == 0, my == 0);
    assert(t7[1] == ex);
    assert(t9.skip(2) =~= t7);
    assert(t10[6] == mx);
    assert(t12.skip(2) =~= t10);
    assert(t13.skip(2) =~= t7);
    lemma_flag_ops(ex == 0, mx == 0);
    assert(step(is[0], mem, t0, fuel) == Some(t1));
    assert(step(is[1], mem, t1, fuel) == Some(t2));
    assert(step(is[2], mem, t2, fuel) == Some(t3));
    assert(step(is[3], mem, t3, fuel) == Some(t4));
    assert(step(is[4], mem, t4, fuel) == Some(t5));
    assert(step(is[5], mem, t5, fuel) == Some(t6));
    assert(step(is[6], mem, t6, fuel) == Some(t7));
    assert(step(is[7], mem, t7, fuel) == Some(t8));
    assert(step(is[8], mem, t8, fuel) == Some(t9));
    assert(step(is[9], mem, t9, fuel) == Some(t10));
    assert(step(is[10], mem, t10, fuel) == Some(t11));
    assert(step(is[11], mem, t11, fuel) == Some(t12));
    assert(step(is[12], mem, t12, fuel) == Some(t13));
    assert(step(is[13], mem, t13, fuel) == Some(t14));
    lemma_run_from(is, 13, mem, t13, fuel);
    lemma_run_from(is, 12, mem, t12, fuel);
    lemma_run_from(is, 11, mem, t11, fuel);
    lemma_run_from(is, 10, mem, t10, fuel);
    lemma_run_from(is, 9, mem, t9, fuel);
    lemma_run_from(is, 8, mem, t8, fuel);
    lemma_run_from(is, 7, mem, t7, fuel);
    lemma_run_from(is, 6, mem, t6, fuel);
    lemma_run_from(is, 5, mem, t5, fuel);
    lemma_run_from(is, 4, mem, t4, fuel);
    lemma_run_from(is, 3, mem, t3, fuel);
    lemma_run_from(is, 2, mem, t2, fuel);
    lemma_run_from(is, 1, mem, t1, fuel);
    lemma_run_from(is, 0, mem, t0, fuel);
    assert(is.skip(0) =~= is);
    assert(is.skip(14) =~= Seq::<Inst>::empty());
    assert(t14 =~= seq![flag(ex == 0 && mx == 0), flag(ey == 0 && my == 0)] + (seq![ex, ey, sx, sy, mx, my] + rest));
}

/// The code of [`add_is_inf`] at offset 2 pushes whether `b`, then whether
/// `a` has the exponent of infinities and NaNs.
#[verifier::spinoff_prover]
#[verifier::rlimit(60)]
proof fn lemma_is_inf(
    az: int, bz: int, ex: int, ey: int, sx: int, sy: int, mx: int, my: int,
    mem: spec_fn(int) -> int, rest: Seq<int>, fuel: nat,
)
    requires
        is_u32(ex), is_u32(ey),
    ensures
        run(is_inf_insts(2), mem, seq![az, bz, ex, ey, sx, sy, mx, my] + rest, fuel) == Some(
            seq![flag(ex == 255), flag(ey == 255)] + (seq![az, bz, ex, ey, sx, sy, mx, my] + rest),
        ),
{
    let is = is_inf_insts(2);
    let t0 = seq![az, bz, ex, ey, sx, sy, mx, my] + rest;
    let t1 = seq![ey] + t0;
    let t2 = seq![255int] + t1;
    let t3 = seq![flag(ey == 255)] + t0;
    let t4 = seq![ex] + t3;
    let t5 = seq![255int] + t4;
    let t6 = seq![flag(ex == 255)] + t3;
    assert(t0[3] == ey);
    assert(t2.skip(2) =~= t0);
    assert(t3[3] == ex);
    assert(t5.skip(2) =~= t3);
    assert(step(is[0], mem, t0, fuel) == Some(t1));
    assert(step(is[1], mem, t1, fuel) == Some(t2));
    assert(step(is[2], mem, t2, fuel) == Some(t3));
    assert(step(is[3], mem, t3, fuel) == Some(t4));
    assert(step(is[4], mem, t4, fuel) == Some(t5));
    assert(step(is[5], mem, t5, fuel) == Some(t6));
    lemma_run_from(is, 5, mem, t5, fuel);
    lemma_run_from(is, 4, mem, t4, fuel);
    lemma_run_from(is, 3, mem, t3, fuel);
    lemma_run_from(is, 2, mem, t2, fuel);
    lemma_run_from(is, 1, mem, t1, fuel);
    lemma_run_from(is, 0, mem, t0, fuel);
    assert(is.skip(0) =~= is);
    assert(is.skip(6) =~= Seq::<Inst>::empty());
    assert(t6 =~= seq![flag(ex == 255), flag(ey == 255)] + (seq![az, bz, ex, ey, sx, sy, mx, my] + rest));
}

/// The code of [`add_is_nan`] at offset 4 pushes whether either float is a
/// NaN: exponent 0xff and a mantissa other than 0.
#[verifier::spinoff_prover]
#[verifier::rlimit(60)]
proof fn lemma_is_nan(
    ai: int, bi: int, az: int, bz: int, ex: int, ey: int, sx: int, sy: int, mx: int, my: int,
    mem: spec_fn(int) -> int, rest: Seq<int>, fuel: nat,
)
    requires
        is_u32(ex), is_u32(ey), is_u32(mx), is_u32(my),
    ensures
        run(is_nan_insts(4), mem, seq![ai, bi, az, bz, ex, ey, sx, sy, mx, my] + rest, fuel) == Some(
            seq![flag((ey == 255 && my != 0) || (ex == 255 && mx != 0))] + (seq![ai, bi, az, bz, ex, ey, sx, sy, mx, my] + rest),
        ),
{
    let is = is_nan_insts(4);
    let t0 = seq![ai, bi, az, bz, ex, ey, sx, sy, mx, my] + rest;
    let t1 = seq![ey] + t0;
    let t2 = seq![255int] + t1;
    let t3 = seq![flag(ey == 255)] + t0;
    let t4 = seq![my] + t3;
    let t5 = seq![0int] + t4;
    let t6 = seq![flag(my != 0)] + t3;
    let t7 = seq![flag(ey == 255 && my != 0)] + t0;
    let t8 = seq![ex] + t7;
    let t9 = seq![255int] + t8;
    let t10 = seq![flag(ex == 255)] + t7;
    let t11 = seq![mx] + t10;
    let t12 = seq![0int] + t11;
    let t13 = seq![flag(mx != 0)] + t10;
    let t14 = seq![flag(ex == 255 && mx != 0)] + t7;
    let t15 = seq![flag((ey == 255 && my != 0) || (ex == 255 && mx != 0))] + t0;
    assert(t0[5] == ey);
    assert(t2.skip(2) =~= t0);
    assert(t3[10] == my);
    assert(t5.skip(2) =~= t3);
    assert(t6.skip(2) =~= t0);
    lemma_flag_ops(ey == 255, my != 0);
    assert(t7[5] == ex);
    assert(t9.skip(2) =~= t7);
    assert(t10[10] == mx);
    assert(t12.skip(2) =~= t10);
    assert(t13.skip(2) =~= t7);
    lemma_flag_ops(ex == 255, mx != 0);
    assert(t14.skip(2) =~= t0);
    lemma_flag_ops(ey == 255 && my != 0, ex == 255 && mx != 0);
    assert(step(is[0], mem, t0, fuel) == Some(t1));
    assert(step(is[1], mem, t1, fuel) == Some(t2));
    assert(step(is[2], mem, t2, fuel) == Some(t3));
    assert(step(is[3], mem, t3, fuel) == Some(t4));
    assert(step(is[4], mem, t4, fuel) == Some(t5));
    assert(step(is[5], mem, t5, fuel) == Some(t6));
    assert(step(is[6], mem, t6, fuel) == Some(t7));
    assert(step(is[7], mem, t7, fuel) == Some(t8));
    assert(step(is[8], mem, t8, fuel) == Some(t9));
    assert(step(is[9], mem, t9, fuel) == Some(t10));
    assert(step(is[10], mem, t10, fuel) == Some(t11));
    assert(step(is[11], mem, t11, fuel) == Some(t12));
    assert(step(is[12], mem, t12, fuel) == Some(t13));
    assert(step(is[13], mem, t13, fuel) == Some(t14));
    assert(step(is[14], mem, t14, fuel) == Some(t15));
    lemma_run_from(is, 14, mem, t14, fuel);
    lemma_run_from(is, 13, mem, t13, fuel);
    lemma_run_from(is, 12, mem, t12, fuel);
    lemma_run_from(is, 11, mem, t11, fuel);
    lemma_run_from(is, 10, mem, t10, fuel);
    lemma_run_from(is, 9, mem, t9, fuel);
    lemma_run_from(is, 8, mem, t8, fuel);
    lemma_run_from(is, 7, mem, t7, fuel);
    lemma_run_from(is, 6, mem, t6, fuel);
    lemma_run_from(is, 5, mem, t5, fuel);
    lemma_run_from(is, 4, mem, t4, fuel);
    lemma_run_from(is, 3, mem, t3, fuel);
    lemma_run_from(is, 2, mem, t2, fuel);
    lemma_run_from(is, 1, mem, t1, fuel);
    lemma_run_from(is, 0, mem, t0, fuel);
    assert(is.skip(0) =~= is);
    assert(is.skip(15) =~= Seq::<Inst>::empty());
}

#[verifier::spinoff_prover]
#[verifier::rlimit(60)]
proof fn lemma_arrange(
    ex: int, ey: int, sx: int, sy: int, mx: int, my: int,
    mem: spec_fn(int) -> int, rest: Seq<int>, fuel: nat,
)
    ensures
        run(arrange_insts(), mem, seq![my, sy, ey, mx, sx, ex] + rest, fuel) == Some(
            seq![ex, ey, sx, sy, mx, my] + rest,
        ),
{
    let is = arrange_insts();
    let t0 = seq![my, sy, ey, mx, sx, ex] + rest;
    let t1 = seq![sy, ey, mx, sx, ex, my] + rest;
    let t2 = seq![ey, mx, sx, ex, sy, my] + rest;
    let t3 = seq![mx, sx, ex, ey, sy, my] + rest;
    let t4 = seq![sx, ex, ey, sy, mx, my] + rest;
    let t5 = seq![ex, ey, sx, sy, mx, my] + rest;
    assert(t0.subrange(1, 6) + seq![t0[0]] + t0.skip(6) =~= t1);
    assert(t1.subrange(1, 5) + seq![t1[0]] + t1.skip(5) =~= t2);
    assert(t2.subrange(1, 4) + seq![t2[0]] + t2.skip(4) =~= t3);
    assert(t3.subrange(1, 5) + seq![t3[0]] + t3.skip(5) =~= t4);
    assert(t4.subrange(1, 3) + seq![t4[0]] + t4.skip(3) =~= t5);
    assert(step(is[0], mem, t0, fuel) == Some(t1));
    assert(step(is[1], mem, t1, fuel) == Some(t2));
    assert(step(is[2], mem, t2, fuel) == Some(t3));
    assert(step(is[3], mem, t3, fuel) == Some(t4));
    assert(step(is[4], mem, t4, fuel) == Some(t5));
    lemma_run_from(is, 4, mem, t4, fuel);
    lemma_run_from(is, 3, mem, t3, fuel);
    lemma_run_from(is, 2, mem, t2, fuel);
    lemma_run_from(is, 1, mem, t1, fuel);
    lemma_run_from(is, 0, mem, t0, fuel);
    assert(is.skip(0) =~= is);
    assert(is.skip(5) =~= Seq::<Inst>::empty());
}

/// The parts of the float with bits `x`, as the stack holds them.
pub open spec fn parts(x: u32) -> (int, int, int) {
    (exponent(x) as int, sign_bits(x) as int, mantissa(x) as int)
}

/// The code of [`prepare_stack_for_arithmetic`] pushes the parts of the
/// floats in the cells `a` and `b`: `[a_exp, b_exp, a_sign^, b_sign^,
/// a_mant, b_mant]` over the stack as it was.
#[verifier::spinoff_prover]
#[verifier::rlimit(60)]
pub proof fn lemma_prepare(a: u32, b: u32, mem: spec_fn(int) -> int, rest: Seq<int>, fuel: nat)
    requires
        a + WIDTH <= u32::MAX,
        b + WIDTH <= u32::MAX,
        is_u32(mem(a as int)),
        is_u32(mem(b as int)),
    ensures
        ({
            let x = mem(a as int) as u32;
            let y = mem(b as int) as u32;
            run(prepare_insts(a, b), mem, rest, fuel) == Some(
                seq![
                    exponent(x) as int,
                    exponent(y) as int,
                    sign_bits(x) as int,
                    sign_bits(y) as int,
                    mantissa(x) as int,
                    mantissa(y) as int,
                ] + rest,
            )
        }),
{
    let x = mem(a as int) as u32;
    let y = mem(b as int) as u32;
    let ra = read_insts(a as int, WIDTH as nat);
    let rb = read_insts(b as int, WIDTH as nat);
    let d = decompose_insts();
    lemma_read_pushes_cells(a as int, 1, mem, rest, fuel);
    let s1 = seq![x as int] + rest;
    assert(Seq::new(1, |i: int| mem(a + i)) + rest =~= s1);
    lemma_decompose(x, mem, rest, fuel);
    let s2 = seq![mantissa(x) as int, sign_bits(x) as int, exponent(x) as int] + rest;
    lemma_read_pushes_cells(b as int, 1, mem, s2, fuel);
    let s3 = seq![y as int] + s2;
    assert(Seq::new(1, |i: int| mem(b + i)) + s2 =~= s3);
    lemma_decompose(y, mem, s2, fuel);
    let s4 = seq![mantissa(y) as int, sign_bits(y) as int, exponent(y) as int] + s2;
    assert(s4 =~= seq![
        mantissa(y) as int,
        sign_bits(y) as int,
        exponent(y) as int,
        mantissa(x) as int,
        sign_bits(x) as int,
        exponent(x) as int,
    ] + rest);
    lemma_arrange(
        exponent(x) as int,
        exponent(y) as int,
        sign_bits(x) as int,
        sign_bits(y) as int,
        mantissa(x) as int,
        mantissa(y) as int,
        mem,
        rest,
        fuel,
    );
    lemma_run_add(ra, d, mem, rest, fuel);
    lemma_run_add(ra + d, rb, mem, rest, fuel);
    lemma_run_add(ra + d + rb, d, mem, rest, fuel);
    lemma_run_add(ra + d + rb + d, arrange_insts(), mem, rest, fuel);
}

/// The code of [`add_nan_inf_zero`] classifies the two floats whose parts
/// are on the stack: whether either is a NaN, whether `a`, then `b`, has
/// the exponent of infinities, whether `a`, then `b`, is zero.
#[verifier::spinoff_prover]
#[verifier::rlimit(60)]
pub proof fn lemma_classify(
    ex: int,
    ey: int,
    sx: int,
    sy: int,
    mx: int,
    my: int,
    mem: spec_fn(int) -> int,
    rest: Seq<int>,
    fuel: nat,
)
    requires
        is_u32(ex),
        is_u32(ey),
        is_u32(sx),
        is_u32(sy),
        is_u32(mx),
        is_u32(my),
    ensures
        run(nan_inf_zero_insts(), mem, seq![ex, ey, sx, sy, mx, my] + rest, fuel) == Some(
            seq![
                flag((ey == 255 && my != 0) || (ex == 255 && mx != 0)),
                flag(ex == 255),
                flag(ey == 255),
                flag(ex == 0 && mx == 0),
                flag(ey == 0 && my == 0),
                ex,
                ey,
                sx,
                sy,
                mx,
                my,
            ] + rest,
        ),
{
    let base = seq![ex, ey, sx, sy, mx, my] + rest;
    let az = flag(ex == 0 && mx == 0);
    let bz = flag(ey == 0 && my == 0);
    let ai = flag(ex == 255);
    let bi = flag(ey == 255);
    lemma_is_zero(ex, ey, sx, sy, mx, my, mem, rest, fuel);
    let c = seq![az, bz] + base;
    assert(c =~= seq![az, bz, ex, ey, sx, sy, mx, my] + rest);
    lemma_is_inf(az, bz, ex, ey, sx, sy, mx, my, mem, rest, fuel);
    let e = seq![ai, bi] + c;
    assert(e =~= seq![ai, bi, az, bz, ex, ey, sx, sy, mx, my] + rest);
    lemma_is_nan(ai, bi, az, bz, ex, ey, sx, sy, mx, my, mem, rest, fuel);
    lemma_run_add(is_zero_insts(0), is_inf_insts(2), mem, base, fuel);
    lemma_run_add(is_zero_insts(0) + is_inf_insts(2), is_nan_insts(4), mem, base, fuel);
    let nan = flag((ey == 255 && my != 0) || (ex == 255 && mx != 0));
    assert(seq![nan] + e =~= seq![nan, ai, bi, az, bz, ex, ey, sx, sy, mx, my] + rest);
}

/// `n` drops remove the top `n` elements.
proof fn lemma_drops(n: nat, mem: spec_fn(int) -> int, s: Seq<int>, fuel: nat)
    requires
        n <= s.len(),
    ensures
        run(drop_insts(n), mem, s, fuel) == Some(s.skip(n as int)),
    decreases n,
{
    if n == 0 {
        assert(drop_insts(0) =~= Seq::<Inst>::empty());
        assert(s.skip(0) =~= s);
    } else {
        lemma_drops((n - 1) as nat, mem, s, fuel);
        let is = drop_insts(n);
        assert(is.drop_last() =~= drop_insts((n - 1) as nat));
        assert(is.last() == Inst::Drop);
        assert(s.skip(n - 1).len() >= 1);
        assert(s.skip(n - 1).drop_first() =~= s.skip(n as int));
        assert(run(is, mem, s, fuel) == step(Inst::Drop, mem, s.skip(n - 1), fuel));
    }
}

/// The 31 bits of the float with bits `x` other than its sign: a float's
/// magnitudes are ordered as these numbers are.
pub open spec fn magnitude(x: u32) -> int {
    (x & 0x7fff_ffff) as int
}

/// Whether the float with bits `x` is a NaN.
pub open spec fn is_nan(x: u32) -> bool {
    exponent(x) == EXP_MAX && mantissa(x) != 0
}

/// The place of the float with bits `x` on the number line, for floats that
/// are not NaN: its magnitude, negated where the sign bit is set, so that
/// both zeros stand at 0.
pub open spec fn order_key(x: u32) -> int {
    if sign_bits(x) != 0 {
        -magnitude(x)
    } else {
        magnitude(x)
    }
}

/// IEEE 754 `x <= y` on bit patterns: false where either is a NaN.
pub open spec fn f32_le(x: u32, y: u32) -> bool {
    !is_nan(x) && !is_nan(y) && order_key(x) <= order_key(y)
}

/// IEEE 754 `x >= y` on bit patterns: false where either is a NaN.
pub open spec fn f32_ge(x: u32, y: u32) -> bool {
    !is_nan(x) && !is_nan(y) && order_key(x) >= order_key(y)
}

/// IEEE 754 `x < y` on bit patterns: false where either is a NaN.
pub open spec fn f32_lt(x: u32, y: u32) -> bool {
    !is_nan(x) && !is_nan(y) && order_key(x) < order_key(y)
}

/// IEEE 754 `x > y` on bit patterns: false where either is a NaN.
pub open spec fn f32_gt(x: u32, y: u32) -> bool {
    !is_nan(x) && !is_nan(y) && order_key(x) > order_key(y)
}

/// How the parts of a float make it up.
pub(crate) proof fn lemma_fields(x: u32)
    ensures
        sign_bits(x) == 0 || sign_bits(x) == SIGN_MASK,
        exponent(x) <= EXP_MAX,
        mantissa(x) < 0x80_0000,
        magnitude(x) == exponent(x) * 0x80_0000int + mantissa(x),
        x == sign_bits(x) + magnitude(x),
        ((mantissa(x) as int) as u32 | ((exponent(x) * 0x80_0000int) as u32)) as int == magnitude(x),
        (((exponent(x) * 0x80_0000int) as u32) | (mantissa(x) as int) as u32) as int == magnitude(x),
{
    let e = (x & 0x7f80_0000u32) >> 23u32;
    assert((x & 0x8000_0000u32) == 0u32 || (x & 0x8000_0000u32) == 0x8000_0000u32) by (bit_vector);
    assert((x & 0x7f80_0000u32) >> 23u32 <= 0xffu32) by (bit_vector);
    assert((x & 0x7f_ffffu32) < 0x80_0000u32) by (bit_vector);
    assert((x & 0x7fff_ffffu32) == ((x & 0x7f80_0000u32) >> 23u32) * 0x80_0000u32 + (x & 0x7f_ffffu32))
        by (bit_vector);
    assert(x == (x & 0x8000_0000u32) + (x & 0x7fff_ffffu32)) by (bit_vector);
    assert(((x & 0x7f80_0000u32) >> 23u32) * 0x80_0000u32 == ((x & 0x7f80_0000u32) >> 23u32) << 23u32)
        by (bit_vector);
    assert((x & 0x7f_ffffu32) | (((x & 0x7f80_0000u32) >> 23u32) << 23u32) == x & 0x7fff_ffffu32)
        by (bit_vector);
    assert((((x & 0x7f80_0000u32) >> 23u32) << 23u32) | (x & 0x7f_ffffu32) == x & 0x7fff_ffffu32)
        by (bit_vector);
    assert((exponent(x) * 0x80_0000int) as u32 == e * 0x80_0000u32);
}

/// Running one instruction.
pub(crate) proof fn lemma_run_one(i: Inst, mem: spec_fn(int) -> int, s: Seq<int>, fuel: nat)
    ensures
        run(seq![i], mem, s, fuel) == step(i, mem, s, fuel),
{
    assert(seq![i].drop_last() =~= Seq::<Inst>::empty());
    assert(seq![i].last() == i);
    assert(run(Seq::<Inst>::empty(), mem, s, fuel) == Some(s));
    assert(run(seq![i], mem, s, fuel) == match run(Seq::<Inst>::empty(), mem, s, fuel) {
        Some(t) => step(i, mem, t, fuel),
        None => None,
    });
}

/// The comparison of magnitudes at the end of [`lte_finite`].
#[verifier::spinoff_prover]
#[verifier::rlimit(60)]
proof fn lemma_lte_same_sign(x: u32, y: u32, mem: spec_fn(int) -> int, rest: Seq<int>, fuel: nat)
    ensures
        ({
            let (ex, sx, mx) = parts(x);
            let (ey, sy, my) = parts(y);
            step(
                lte_finite()[8],
                mem,
                seq![sx, sy, ex * 0x80_0000int, mx, my, ey * 0x80_0000int, flag(sx != 0)] + rest,
                fuel,
            ) == Some(
                seq![if sx == sy { flag((sx != 0) != (magnitude(x) < magnitude(y))) } else { flag(sx != 0) }] + rest,
            )
        }),
{
    let (ex, sx, mx) = parts(x);
    let (ey, sy, my) = parts(y);
    lemma_fields(x);
    lemma_fields(y);
    let u = seq![sx, sy, ex * 0x80_0000int, mx, my, ey * 0x80_0000int, flag(sx != 0)] + rest;
    let inner = lte_finite()[8];
    let v = u.skip(2);
    assert(v =~= seq![ex * 0x80_0000int, mx, my, ey * 0x80_0000int, flag(sx != 0)] + rest);
    lemma_run_one(Inst::U32CheckedEq, mem, u, fuel);
    assert(inner->If_condition =~= seq![Inst::U32CheckedEq]);
    assert((seq![flag(sy == sx)] + u.skip(2)).drop_first() =~= v);
    if sx == sy {
        let is = inner->If_then;
        let t0 = seq![ex * 0x80_0000int, mx, my, ey * 0x80_0000int, flag(sx != 0)] + rest;
        let t1 = seq![magnitude(x), my, ey * 0x80_0000int, flag(sx != 0)] + rest;
        let t2 = seq![my, ey * 0x80_0000int, magnitude(x), flag(sx != 0)] + rest;
        let t3 = seq![magnitude(y), magnitude(x), flag(sx != 0)] + rest;
        let t4 = seq![flag(magnitude(x) < magnitude(y)), flag(sx != 0)] + rest;
        let t5 = seq![flag((sx != 0) != (magnitude(x) < magnitude(y)))] + rest;
        assert(t0.skip(2) =~= seq![my, ey * 0x80_0000int, flag(sx != 0)] + rest);
        assert(t1.subrange(1, 3) + seq![t1[0]] + t1.skip(3) =~= t2);
        assert(t2.skip(2) =~= seq![magnitude(x), flag(sx != 0)] + rest);
        assert(t3.skip(2) =~= seq![flag(sx != 0)] + rest);
        assert(t4.skip(2) =~= rest);
        lemma_flag_ops(sx != 0, magnitude(x) < magnitude(y));
        assert(step(is[0], mem, t0, fuel) == Some(t1));
        assert(step(is[1], mem, t1, fuel) == Some(t2));
        assert(step(is[2], mem, t2, fuel) == Some(t3));
        assert(step(is[3], mem, t3, fuel) == Some(t4));
        assert(step(is[4], mem, t4, fuel) == Some(t5));
        lemma_run_from(is, 4, mem, t4, fuel);
        lemma_run_from(is, 3, mem, t3, fuel);
        lemma_run_from(is, 2, mem, t2, fuel);
        lemma_run_from(is, 1, mem, t1, fuel);
        lemma_run_from(is, 0, mem, t0, fuel);
        assert(is.skip(0) =~= is);
        assert(is.skip(5) =~= Seq::<Inst>::empty());
    } else {
        lemma_drops(4, mem, v, fuel);
        assert(v.skip(4) =~= seq![flag(sx != 0)] + rest);
    }
}

/// The code of [`lte_finite`] on the parts of `x` and `y`: with the same
/// sign, whether `x` is negative differs from whether its magnitude is the
/// smaller; with different signs, whether `x` is negative.
#[verifier::spinoff_prover]
#[verifier::rlimit(60)]
proof fn lemma_lte_finite(x: u32, y: u32, mem: spec_fn(int) -> int, rest: Seq<int>, fuel: nat)
    ensures
        ({
            let (ex, sx, mx) = parts(x);
            let (ey, sy, my) = parts(y);
            run(lte_finite(), mem, seq![ex, ey, sx, sy, mx, my] + rest, fuel) == Some(
                seq![if sx == sy { flag((sx != 0) != (magnitude(x) < magnitude(y))) } else { flag(sx != 0) }] + rest,
            )
        }),
{
    let (ex, sx, mx) = parts(x);
    let (ey, sy, my) = parts(y);
    lemma_fields(x);
    lemma_fields(y);
    let is = lte_finite();
    let t0 = seq![ex, ey, sx, sy, mx, my] + rest;
    let t1 = seq![ex * 0x80_0000int, ey, sx, sy, mx, my] + rest;
    let t2 = seq![ey, sx, sy, ex * 0x80_0000int, mx, my] + rest;
    let t3 = seq![ey * 0x80_0000int, sx, sy, ex * 0x80_0000int, mx, my] + rest;
    let t4 = seq![sx, sy, ex * 0x80_0000int, mx, my, ey * 0x80_0000int] + rest;
    let t5 = seq![sx] + t4;
    let t6 = seq![0int] + t5;
    let t7 = seq![flag(sx != 0)] + t4;
    let t8 = seq![sx, sy, ex * 0x80_0000int, mx, my, ey * 0x80_0000int, flag(sx != 0)] + rest;
    let t9 = seq![if sx == sy { flag((sx != 0) != (magnitude(x) < magnitude(y))) } else { flag(sx != 0) }] + rest;
    assert(pow2(23) == 0x80_0000) by { reveal_with_fuel(pow2, 24); }
    assert(t0.skip(1) =~= seq![ey, sx, sy, mx, my] + rest);
    assert(seq![t0[0] * pow2(23)] + t0.skip(1) =~= t1);
    assert(t1.subrange(1, 4) + seq![t1[0]] + t1.skip(4) =~= t2);
    assert(seq![t2[0] * pow2(23)] + t2.skip(1) =~= t3);
    assert(t3.subrange(1, 6) + seq![t3[0]] + t3.skip(6) =~= t4);
    assert(t6.skip(2) =~= t4);
    assert(t7.subrange(1, 7) + seq![t7[0]] + t7.skip(7) =~= t8);
    lemma_lte_same_sign(x, y, mem, rest, fuel);
    assert(step(is[0], mem, t0, fuel) == Some(t1));
    assert(step(is[1], mem, t1, fuel) == Some(t2));
    assert(step(is[2], mem, t2, fuel) == Some(t3));
    assert(step(is[3], mem, t3, fuel) == Some(t4));
    assert(step(is[4], mem, t4, fuel) == Some(t5));
    assert(step(is[5], mem, t5, fuel) == Some(t6));
    assert(step(is[6], mem, t6, fuel) == Some(t7));
    assert(step(is[7], mem, t7, fuel) == Some(t8));
    assert(step(is[8], mem, t8, fuel) == Some(t9));
    lemma_run_from(is, 8, mem, t8, fuel);
    lemma_run_from(is, 7, mem, t7, fuel);
    lemma_run_from(is, 6, mem, t6, fuel);
    lemma_run_from(is, 5, mem, t5, fuel);
    lemma_run_from(is, 4, mem, t4, fuel);
    lemma_run_from(is, 3, mem, t3, fuel);
    lemma_run_from(is, 2, mem, t2, fuel);
    lemma_run_from(is, 1, mem, t1, fuel);
    lemma_run_from(is, 0, mem, t0, fuel);
    assert(is.skip(0) =~= is);
    assert(is.skip(9) =~= Seq::<Inst>::empty());
}

/// The test for equal bits at the head of [`compare_tree`].
#[verifier::spinoff_prover]
#[verifier::rlimit(60)]
proof fn lemma_equal_parts(
    ai: int, bi: int, az: int, bz: int, ex: int, ey: int, sx: int, sy: int, mx: int, my: int,
    mem: spec_fn(int) -> int, rest: Seq<int>, fuel: nat,
)
    requires
        is_u32(ex), is_u32(ey), is_u32(sx), is_u32(sy), is_u32(mx), is_u32(my),
    ensures
        run(compare_tree(Seq::empty(), Seq::empty(), Seq::empty())->If_else_[0]->If_condition, mem, seq![ai, bi, az, bz, ex, ey, sx, sy, mx, my] + rest, fuel)
            == Some(seq![flag(ey == ex && sy == sx && my == mx)] + (seq![ai, bi, az, bz, ex, ey, sx, sy, mx, my] + rest)),
{
    let is = compare_tree(Seq::empty(), Seq::empty(), Seq::empty())->If_else_[0]->If_condition;
    let t0 = seq![ai, bi, az, bz, ex, ey, sx, sy, mx, my] + rest;
    let t1 = seq![ey] + t0;
    let t2 = seq![ex] + t1;
    let t3 = seq![flag(ey == ex)] + t0;
    let t4 = seq![sy] + t3;
    let t5 = seq![sx] + t4;
    let t6 = seq![flag(sy == sx)] + t3;
    let t7 = seq![flag(ey == ex && sy == sx)] + t0;
    let t8 = seq![my] + t7;
    let t9 = seq![mx] + t8;
    let t10 = seq![flag(my == mx)] + t7;
    let t11 = seq![flag(ey == ex && sy == sx && my == mx)] + t0;
    assert(t0[5] == ey);
    assert(t1[5] == ex);
    assert(t2.skip(2) =~= t0);
    assert(t3[8] == sy);
    assert(t4[8] == sx);
    assert(t5.skip(2) =~= t3);
    assert(t6.skip(2) =~= t0);
    lemma_flag_ops(ey == ex, sy == sx);
    assert(t7[10] == my);
    assert(t8[10] == mx);
    assert(t9.skip(2) =~= t7);
    assert(t10.skip(2) =~= t0);
    lemma_flag_ops(ey == ex && sy == sx, my == mx);
    assert(step(is[0], mem, t0, fuel) == Some(t1));
    assert(step(is[1], mem, t1, fuel) == Some(t2));
    assert(step(is[2], mem, t2, fuel) == Some(t3));
    assert(step(is[3], mem, t3, fuel) == Some(t4));
    assert(step(is[4], mem, t4, fuel) == Some(t5));
    assert(step(is[5], mem, t5, fuel) == Some(t6));
    assert(step(is[6], mem, t6, fuel) == Some(t7));
    assert(step(is[7], mem, t7, fuel) == Some(t8));
    assert(step(is[8], mem, t8, fuel) == Some(t9));
    assert(step(is[9], mem, t9, fuel) == Some(t10));
    assert(step(is[10], mem, t10, fuel) == Some(t11));
    lemma_run_from(is, 10, mem, t10, fuel);
    lemma_run_from(is, 9, mem, t9, fuel);
    lemma_run_from(is, 8, mem, t8, fuel);
    lemma_run_from(is, 7, mem, t7, fuel);
    lemma_run_from(is, 6, mem, t6, fuel);
    lemma_run_from(is, 5, mem, t5, fuel);
    lemma_run_from(is, 4, mem, t4, fuel);
    lemma_run_from(is, 3, mem, t3, fuel);
    lemma_run_from(is, 2, mem, t2, fuel);
    lemma_run_from(is, 1, mem, t1, fuel);
    lemma_run_from(is, 0, mem, t0, fuel);
    assert(is.skip(0) =~= is);
    assert(is.skip(11) =~= Seq::<Inst>::empty());
}

/// What [`lte_a_inf`] leaves after its drops: whether `a` is negative.
#[verifier::spinoff_prover]
#[verifier::rlimit(60)]
proof fn lemma_lte_a_inf_tail(sx: int, sy: int, mx: int, my: int, mem: spec_fn(int) -> int, rest: Seq<int>, fuel: nat)
    requires
        is_u32(sx),
    ensures
        run(lte_a_inf().skip(5), mem, seq![sx, sy, mx, my] + rest, fuel) == Some(seq![flag(sx != 0)] + rest),
{
    let is = lte_a_inf().skip(5);
    let t0 = seq![sx, sy, mx, my] + rest;
    let t1 = seq![sy, mx, my, sx] + rest;
    let t2 = seq![mx, my, sx] + rest;
    let t3 = seq![my, sx] + rest;
    let t4 = seq![sx] + rest;
    let t5 = seq![0int, sx] + rest;
    let t6 = seq![flag(sx != 0)] + rest;
    assert(t0.subrange(1, 4) + seq![t0[0]] + t0.skip(4) =~= t1);
    assert(t1.drop_first() =~= t2);
    assert(t2.drop_first() =~= t3);
    assert(t3.drop_first() =~= t4);
    assert(t5 =~= seq![0int] + t4);
    assert(t5.skip(2) =~= rest);
    assert(step(is[0], mem, t0, fuel) == Some(t1));
    assert(step(is[1], mem, t1, fuel) == Some(t2));
    assert(step(is[2], mem, t2, fuel) == Some(t3));
    assert(step(is[3], mem, t3, fuel) == Some(t4));
    assert(step(is[4], mem, t4, fuel) == Some(t5));
    assert(step(is[5], mem, t5, fuel) == Some(t6));
    lemma_run_from(is, 5, mem, t5, fuel);
    lemma_run_from(is, 4, mem, t4, fuel);
    lemma_run_from(is, 3, mem, t3, fuel);
    lemma_run_from(is, 2, mem, t2, fuel);
    lemma_run_from(is, 1, mem, t1, fuel);
    lemma_run_from(is, 0, mem, t0, fuel);
    assert(is.skip(0) =~= is);
    assert(is.skip(6) =~= Seq::<Inst>::empty());
}

/// What [`lte_b_inf`] leaves after its drops: whether `b` is positive.
#[verifier::spinoff_prover]
#[verifier::rlimit(60)]
proof fn lemma_lte_b_inf_tail(sy: int, mx: int, my: int, mem: spec_fn(int) -> int, rest: Seq<int>, fuel: nat)
    requires
        is_u32(sy),
    ensures
        run(lte_b_inf().skip(5), mem, seq![sy, mx, my] + rest, fuel) == Some(seq![flag(sy == 0)] + rest),
{
    let is = lte_b_inf().skip(5);
    let t0 = seq![sy, mx, my] + rest;
    let t1 = seq![mx, my, sy] + rest;
    let t2 = seq![my, sy] + rest;
    let t3 = seq![sy] + rest;
    let t4 = seq![0int, sy] + rest;
    let t5 = seq![flag(sy == 0)] + rest;
    assert(t0.subrange(1, 3) + seq![t0[0]] + t0.skip(3) =~= t1);
    assert(t1.drop_first() =~= t2);
    assert(t2.drop_first() =~= t3);
    assert(t4 =~= seq![0int] + t3);
    assert(t4.skip(2) =~= rest);
    assert(step(is[0], mem, t0, fuel) == Some(t1));
    assert(step(is[1], mem, t1, fuel) == Some(t2));
    assert(step(is[2], mem, t2, fuel) == Some(t3));
    assert(step(is[3], mem, t3, fuel) == Some(t4));
    assert(step(is[4], mem, t4, fuel) == Some(t5));
    lemma_run_from(is, 4, mem, t4, fuel);
    lemma_run_from(is, 3, mem, t3, fuel);
    lemma_run_from(is, 2, mem, t2, fuel);
    lemma_run_from(is, 1, mem, t1, fuel);
    lemma_run_from(is, 0, mem, t0, fuel);
    assert(is.skip(0) =~= is);
    assert(is.skip(5) =~= Seq::<Inst>::empty());
}

/// What the code of [`lte_tree`] leaves, for the parts of `x` and `y` and
/// their classification, case by case.
pub open spec fn lte_tree_result(x: u32, y: u32) -> Seq<int> {
    let (ex, sx, mx) = parts(x);
    let (ey, sy, my) = parts(y);
    if (ey == 255 && my != 0) || (ex == 255 && mx != 0) {
        seq![0]
    } else if ey == ex && sy == sx && my == mx {
        seq![1]
    } else if ex == 255 {
        seq![flag(sx != 0)]
    } else if ey == 255 {
        seq![flag(sy == 0)]
    } else if ex == 0 && mx == 0 && ey == 0 && my == 0 {
        seq![1]
    } else if sx == sy {
        seq![flag((sx != 0) != (magnitude(x) < magnitude(y)))]
    } else {
        seq![flag(sx != 0)]
    }
}

#[verifier::spinoff_prover]
#[verifier::rlimit(60)]
proof fn lemma_lte_tree(x: u32, y: u32, mem: spec_fn(int) -> int, rest: Seq<int>, fuel: nat)
    ensures
        ({
            let (ex, sx, mx) = parts(x);
            let (ey, sy, my) = parts(y);
            step(
                lte_tree(),
                mem,
                seq![
                    flag((ey == 255 && my != 0) || (ex == 255 && mx != 0)),
                    flag(ex == 255),
                    flag(ey == 255),
                    flag(ex == 0 && mx == 0),
                    flag(ey == 0 && my == 0),
                    ex,
                    ey,
                    sx,
                    sy,
                    mx,
                    my,
                ] + rest,
                fuel,
            ) == Some(lte_tree_result(x, y) + rest)
        }),
{
    let (ex, sx, mx) = parts(x);
    let (ey, sy, my) = parts(y);
    lemma_fields(x);
    lemma_fields(y);
    let nan = flag((ey == 255 && my != 0) || (ex == 255 && mx != 0));
    let ai = flag(ex == 255);
    let bi = flag(ey == 255);
    let az = flag(ex == 0 && mx == 0);
    let bz = flag(ey == 0 && my == 0);
    let t = seq![nan, ai, bi, az, bz, ex, ey, sx, sy, mx, my] + rest;
    let t1 = seq![ai, bi, az, bz, ex, ey, sx, sy, mx, my] + rest;
    let t2 = seq![bi, az, bz, ex, ey, sx, sy, mx, my] + rest;
    let t3 = seq![az, bz, ex, ey, sx, sy, mx, my] + rest;
    let t4 = seq![ex, ey, sx, sy, mx, my] + rest;
    let tree = lte_tree();
    assert(run(Seq::<Inst>::empty(), mem, t, fuel) == Some(t));
    assert(t.drop_first() =~= t1);
    if nan == 1 {
        lemma_run_add(drop_insts(10), seq![Inst::Push(0)], mem, t1, fuel);
        lemma_drops(10, mem, t1, fuel);
        assert(t1.skip(10) =~= rest);
        lemma_run_one(Inst::Push(0), mem, rest, fuel);
        assert(seq![0int] + rest =~= lte_tree_result(x, y) + rest);
        assert(tree->If_then == drop_insts(10) + seq![Inst::Push(0)]);
        assert(run(tree->If_then, mem, t1, fuel) == Some(seq![0int] + rest));
        assert(step(tree, mem, t, fuel) == Some(lte_tree_result(x, y) + rest));
    } else {
        let eq_if = tree->If_else_[0];
        lemma_run_one(eq_if, mem, t1, fuel);
        lemma_equal_parts(ai, bi, az, bz, ex, ey, sx, sy, mx, my, mem, rest, fuel);
        let eqf = flag(ey == ex && sy == sx && my == mx);
        assert((seq![eqf] + t1).drop_first() =~= t1);
        if eqf == 1 {
            lemma_run_add(drop_insts(10), seq![Inst::Push(1)], mem, t1, fuel);
            lemma_drops(10, mem, t1, fuel);
            assert(t1.skip(10) =~= rest);
            lemma_run_one(Inst::Push(1), mem, rest, fuel);
            assert(seq![1int] + rest =~= lte_tree_result(x, y) + rest);
            assert(step(eq_if, mem, t1, fuel) == Some(lte_tree_result(x, y) + rest));
        } else {
            let a_if = eq_if->If_else_[0];
            lemma_run_one(a_if, mem, t1, fuel);
            assert(run(Seq::<Inst>::empty(), mem, t1, fuel) == Some(t1));
            assert(t1.drop_first() =~= t2);
            if ai == 1 {
                assert(lte_a_inf() =~= drop_insts(5) + lte_a_inf().skip(5));
                lemma_run_add(drop_insts(5), lte_a_inf().skip(5), mem, t2, fuel);
                lemma_drops(5, mem, t2, fuel);
                assert(t2.skip(5) =~= seq![sx, sy, mx, my] + rest);
                lemma_lte_a_inf_tail(sx, sy, mx, my, mem, rest, fuel);
                assert(seq![flag(sx != 0)] + rest =~= lte_tree_result(x, y) + rest);
                assert(step(a_if, mem, t1, fuel) == Some(lte_tree_result(x, y) + rest));
            } else {
                let b_if = a_if->If_else_[0];
                lemma_run_one(b_if, mem, t2, fuel);
                assert(run(Seq::<Inst>::empty(), mem, t2, fuel) == Some(t2));
                assert(t2.drop_first() =~= t3);
                if bi == 1 {
                    assert(lte_b_inf() =~= drop_insts(5) + lte_b_inf().skip(5));
                    lemma_run_add(drop_insts(5), lte_b_inf().skip(5), mem, t3, fuel);
                    lemma_drops(5, mem, t3, fuel);
                    assert(t3.skip(5) =~= seq![sy, mx, my] + rest);
                    lemma_lte_b_inf_tail(sy, mx, my, mem, rest, fuel);
                    assert(seq![flag(sy == 0)] + rest =~= lte_tree_result(x, y) + rest);
                } else {
                    let z_if = b_if->If_else_[0];
                    lemma_run_one(z_if, mem, t3, fuel);
                    lemma_run_one(Inst::U32CheckedAnd, mem, t3, fuel);
                    assert(z_if->If_condition =~= seq![Inst::U32CheckedAnd]);
                    lemma_flag_ops(ey == 0 && my == 0, ex == 0 && mx == 0);
                    let zf = flag(ex == 0 && mx == 0 && ey == 0 && my == 0);
                    assert(t3.skip(2) =~= t4);
                    assert((seq![zf] + t3.skip(2)).drop_first() =~= t4);
                    if zf == 1 {
                        lemma_run_add(drop_insts(6), seq![Inst::Push(1)], mem, t4, fuel);
                        lemma_drops(6, mem, t4, fuel);
                        assert(t4.skip(6) =~= rest);
                        lemma_run_one(Inst::Push(1), mem, rest, fuel);
                        assert(seq![1int] + rest =~= lte_tree_result(x, y) + rest);
                    } else {
                        lemma_lte_finite(x, y, mem, rest, fuel);
                        assert(z_if->If_else_ == lte_finite());
                        let r = if sx == sy {
                            flag((sx != 0) != (magnitude(x) < magnitude(y)))
                        } else {
                            flag(sx != 0)
                        };
                        assert(seq![r] + rest =~= lte_tree_result(x, y) + rest);
                    }
                    assert(step(z_if, mem, t3, fuel) == Some(lte_tree_result(x, y) + rest));
                }
                assert(step(b_if, mem, t2, fuel) == Some(lte_tree_result(x, y) + rest));
            }
            assert(step(a_if, mem, t1, fuel) == Some(lte_tree_result(x, y) + rest));
        }
        assert(step(eq_if, mem, t1, fuel) == Some(lte_tree_result(x, y) + rest));
    }
}

/// The comparison of magnitudes at the end of [`gte_finite`].
#[verifier::spinoff_prover]
#[verifier::rlimit(60)]
proof fn lemma_gte_same_sign(x: u32, y: u32, mem: spec_fn(int) -> int, rest: Seq<int>, fuel: nat)
    ensures
        ({
            let (ex, sx, mx) = parts(x);
            let (ey, sy, my) = parts(y);
            step(
                gte_finite()[6],
                mem,
                seq![sx, sy, ex * 0x80_0000int, mx, my, ey * 0x80_0000int, sx] + rest,
                fuel,
            ) == Some(
                seq![if sx == sy { flag((magnitude(x) > magnitude(y)) != (sx != 0)) } else { flag(sx == 0) }] + rest,
            )
        }),
{
    let (ex, sx, mx) = parts(x);
    let (ey, sy, my) = parts(y);
    lemma_fields(x);
    lemma_fields(y);
    let u = seq![sx, sy, ex * 0x80_0000int, mx, my, ey * 0x80_0000int, sx] + rest;
    let inner = gte_finite()[6];
    let v = u.skip(2);
    assert(v =~= seq![ex * 0x80_0000int, mx, my, ey * 0x80_0000int, sx] + rest);
    lemma_run_one(Inst::U32CheckedEq, mem, u, fuel);
    assert(inner->If_condition =~= seq![Inst::U32CheckedEq]);
    assert((seq![flag(sy == sx)] + u.skip(2)).drop_first() =~= v);
    if sx == sy {
        let is = inner->If_then;
        let t0 = seq![ex * 0x80_0000int, mx, my, ey * 0x80_0000int, sx] + rest;
        let t1 = seq![magnitude(x), my, ey * 0x80_0000int, sx] + rest;
        let t2 = seq![my, ey * 0x80_0000int, magnitude(x), sx] + rest;
        let t3 = seq![magnitude(y), magnitude(x), sx] + rest;
        let t4 = seq![flag(magnitude(x) > magnitude(y)), sx] + rest;
        let t5 = seq![sx, flag(magnitude(x) > magnitude(y))] + rest;
        let t6 = seq![0int, sx, flag(magnitude(x) > magnitude(y))] + rest;
        let t7 = seq![flag(sx != 0), flag(magnitude(x) > magnitude(y))] + rest;
        let t8 = seq![flag((magnitude(x) > magnitude(y)) != (sx != 0))] + rest;
        assert(t0.skip(2) =~= seq![my, ey * 0x80_0000int, sx] + rest);
        assert(t1.subrange(1, 3) + seq![t1[0]] + t1.skip(3) =~= t2);
        assert(t2.skip(2) =~= seq![magnitude(x), sx] + rest);
        assert(t3.skip(2) =~= seq![sx] + rest);
        assert(seq![t4[1], t4[0]] + t4.skip(2) =~= t5);
        assert(t6 =~= seq![0int] + t5);
        assert(t6.skip(2) =~= seq![flag(magnitude(x) > magnitude(y))] + rest);
        assert(t7.skip(2) =~= rest);
        lemma_flag_ops(magnitude(x) > magnitude(y), sx != 0);
        assert(step(is[0], mem, t0, fuel) == Some(t1));
        assert(step(is[1], mem, t1, fuel) == Some(t2));
        assert(step(is[2], mem, t2, fuel) == Some(t3));
        assert(step(is[3], mem, t3, fuel) == Some(t4));
        assert(step(is[4], mem, t4, fuel) == Some(t5));
        assert(step(is[5], mem, t5, fuel) == Some(t6));
        assert(step(is[6], mem, t6, fuel) == Some(t7));
        assert(step(is[7], mem, t7, fuel) == Some(t8));
        lemma_run_from(is, 7, mem, t7, fuel);
        lemma_run_from(is, 6, mem, t6, fuel);
        lemma_run_from(is, 5, mem, t5, fuel);
        lemma_run_from(is, 4, mem, t4, fuel);
        lemma_run_from(is, 3, mem, t3, fuel);
        lemma_run_from(is, 2, mem, t2, fuel);
        lemma_run_from(is, 1, mem, t1, fuel);
        lemma_run_from(is, 0, mem, t0, fuel);
        assert(is.skip(0) =~= is);
        assert(is.skip(8) =~= Seq::<Inst>::empty());
    } else {
        assert(inner->If_else_ =~= drop_insts(4) + inner->If_else_.skip(4));
        lemma_run_add(drop_insts(4), inner->If_else_.skip(4), mem, v, fuel);
        lemma_drops(4, mem, v, fuel);
        assert(v.skip(4) =~= seq![sx] + rest);
        {
            let is = inner->If_else_.skip(4);
            let t0 = seq![sx] + rest;
            let t1 = seq![0int, sx] + rest;
            let t2 = seq![flag(sx == 0)] + rest;
            assert(t1 =~= seq![0int] + t0);
            assert(t1.skip(2) =~= rest);
            assert(step(is[0], mem, t0, fuel) == Some(t1));
            assert(step(is[1], mem, t1, fuel) == Some(t2));
            lemma_run_from(is, 1, mem, t1, fuel);
            lemma_run_from(is, 0, mem, t0, fuel);
            assert(is.skip(0) =~= is);
            assert(is.skip(2) =~= Seq::<Inst>::empty());
        }
    }
}

/// The code of [`gte_finite`] on the parts of `x` and `y`: with the same
/// sign, whether the magnitude of `x` is the larger differs from whether `x`
/// is negative; with different signs, whether `x` is positive.
#[verifier::spinoff_prover]
#[verifier::rlimit(60)]
proof fn lemma_gte_finite(x: u32, y: u32, mem: spec_fn(int) -> int, rest: Seq<int>, fuel: nat)
    ensures
        ({
            let (ex, sx, mx) = parts(x);
            let (ey, sy, my) = parts(y);
            run(gte_finite(), mem, seq![ex, ey, sx, sy, mx, my] + rest, fuel) == Some(
                seq![if sx == sy { flag((magnitude(x) > magnitude(y)) != (sx != 0)) } else { flag(sx == 0) }] + rest,
            )
        }),
{
    let (ex, sx, mx) = parts(x);
    let (ey, sy, my) = parts(y);
    lemma_fields(x);
    lemma_fields(y);
    let is = gte_finite();
    let t0 = seq![ex, ey, sx, sy, mx, my] + rest;
    let t1 = seq![ex * 0x80_0000int, ey, sx, sy, mx, my] + rest;
    let t2 = seq![ey, sx, sy, ex * 0x80_0000int, mx, my] + rest;
    let t3 = seq![ey * 0x80_0000int, sx, sy, ex * 0x80_0000int, mx, my] + rest;
    let t4 = seq![sx, sy, ex * 0x80_0000int, mx, my, ey * 0x80_0000int] + rest;
    let t5 = seq![sx] + t4;
    let t6 = seq![sx, sy, ex * 0x80_0000int, mx, my, ey * 0x80_0000int, sx] + rest;
    let t7 = seq![if sx == sy { flag((magnitude(x) > magnitude(y)) != (sx != 0)) } else { flag(sx == 0) }] + rest;
    assert(pow2(23) == 0x80_0000) by { reveal_with_fuel(pow2, 24); }
    assert(seq![t0[0] * pow2(23)] + t0.skip(1) =~= t1);
    assert(t1.subrange(1, 4) + seq![t1[0]] + t1.skip(4) =~= t2);
    assert(seq![t2[0] * pow2(23)] + t2.skip(1) =~= t3);
    assert(t3.subrange(1, 6) + seq![t3[0]] + t3.skip(6) =~= t4);
    assert(t5.subrange(1, 7) + seq![t5[0]] + t5.skip(7) =~= t6);
    lemma_gte_same_sign(x, y, mem, rest, fuel);
    assert(step(is[0], mem, t0, fuel) == Some(t1));
    assert(step(is[1], mem, t1, fuel) == Some(t2));
    assert(step(is[2], mem, t2, fuel) == Some(t3));
    assert(step(is[3], mem, t3, fuel) == Some(t4));
    assert(step(is[4], mem, t4, fuel) == Some(t5));
    assert(step(is[5], mem, t5, fuel) == Some(t6));
    assert(step(is[6], mem, t6, fuel) == Some(t7));
    lemma_run_from(is, 6, mem, t6, fuel);
    lemma_run_from(is, 5, mem, t5, fuel);
    lemma_run_from(is, 4, mem, t4, fuel);
    lemma_run_from(is, 3, mem, t3, fuel);
    lemma_run_from(is, 2, mem, t2, fuel);
    lemma_run_from(is, 1, mem, t1, fuel);
    lemma_run_from(is, 0, mem, t0, fuel);
    assert(is.skip(0) =~= is);
    assert(is.skip(7) =~= Seq::<Inst>::empty());
}

/// What [`gte_a_inf`] leaves after its drops: whether `a` is positive.
#[verifier::spinoff_prover]
#[verifier::rlimit(60)]
proof fn lemma_gte_a_inf_tail(sx: int, sy: int, mx: int, my: int, mem: spec_fn(int) -> int, rest: Seq<int>, fuel: nat)
    requires
        is_u32(sx),
    ensures
        run(gte_a_inf().skip(5), mem, seq![sx, sy, mx, my] + rest, fuel) == Some(seq![flag(sx == 0)] + rest),
{
    let is = gte_a_inf().skip(5);
    let t0 = seq![sx, sy, mx, my] + rest;
    let t1 = seq![sy, mx, my, sx] + rest;
    let t2 = seq![mx, my, sx] + rest;
    let t3 = seq![my, sx] + rest;
    let t4 = seq![sx] + rest;
    let t5 = seq![0int, sx] + rest;
    let t6 = seq![flag(sx == 0)] + rest;
    assert(t0.subrange(1, 4) + seq![t0[0]] + t0.skip(4) =~= t1);
    assert(t1.drop_first() =~= t2);
    assert(t2.drop_first() =~= t3);
    assert(t3.drop_first() =~= t4);
    assert(t5 =~= seq![0int] + t4);
    assert(t5.skip(2) =~= rest);
    assert(step(is[0], mem, t0, fuel) == Some(t1));
    assert(step(is[1], mem, t1, fuel) == Some(t2));
    assert(step(is[2], mem, t2, fuel) == Some(t3));
    assert(step(is[3], mem, t3, fuel) == Some(t4));
    assert(step(is[4], mem, t4, fuel) == Some(t5));
    assert(step(is[5], mem, t5, fuel) == Some(t6));
    lemma_run_from(is, 5, mem, t5, fuel);
    lemma_run_from(is, 4, mem, t4, fuel);
    lemma_run_from(is, 3, mem, t3, fuel);
    lemma_run_from(is, 2, mem, t2, fuel);
    lemma_run_from(is, 1, mem, t1, fuel);
    lemma_run_from(is, 0, mem, t0, fuel);
    assert(is.skip(0) =~= is);
    assert(is.skip(6) =~= Seq::<Inst>::empty());
}

/// What [`gte_b_inf`] leaves after its drops: whether `b` is negative.
#[verifier::spinoff_prover]
#[verifier::rlimit(60)]
proof fn lemma_gte_b_inf_tail(sy: int, mx: int, my: int, mem: spec_fn(int) -> int, rest: Seq<int>, fuel: nat)
    requires
        is_u32(sy),
    ensures
        run(gte_b_inf().skip(5), mem, seq![sy, mx, my] + rest, fuel) == Some(seq![flag(sy != 0)] + rest),
{
    let is = gte_b_inf().skip(5);
    let t0 = seq![sy, mx, my] + rest;
    let t1 = seq![mx, my, sy] + rest;
    let t2 = seq![my, sy] + rest;
    let t3 = seq![sy] + rest;
    let t4 = seq![0int, sy] + rest;
    let t5 = seq![flag(sy != 0)] + rest;
    assert(t0.subrange(1, 3) + seq![t0[0]] + t0.skip(3) =~= t1);
    assert(t1.drop_first() =~= t2);
    assert(t2.drop_first() =~= t3);
    assert(t4 =~= seq![0int] + t3);
    assert(t4.skip(2) =~= rest);
    assert(step(is[0], mem, t0, fuel) == Some(t1));
    assert(step(is[1], mem, t1, fuel) == Some(t2));
    assert(step(is[2], mem, t2, fuel) == Some(t3));
    assert(step(is[3], mem, t3, fuel) == Some(t4));
    assert(step(is[4], mem, t4, fuel) == Some(t5));
    lemma_run_from(is, 4, mem, t4, fuel);
    lemma_run_from(is, 3, mem, t3, fuel);
    lemma_run_from(is, 2, mem, t2, fuel);
    lemma_run_from(is, 1, mem, t1, fuel);
    lemma_run_from(is, 0, mem, t0, fuel);
    assert(is.skip(0) =~= is);
    assert(is.skip(5) =~= Seq::<Inst>::empty());
}

/// What the code of [`gte_tree`] leaves, for the parts of `x` and `y` and
/// their classification, case by case.
pub open spec fn gte_tree_result(x: u32, y: u32) -> Seq<int> {
    let (ex, sx, mx) = parts(x);
    let (ey, sy, my) = parts(y);
    if (ey == 255 && my != 0) || (ex == 255 && mx != 0) {
        seq![0]
    } else if ey == ex && sy == sx && my == mx {
        seq![1]
    } else if ex == 255 {
        seq![flag(sx == 0)]
    } else if ey == 255 {
        seq![flag(sy != 0)]
    } else if ex == 0 && mx == 0 && ey == 0 && my == 0 {
        seq![1]
    } else if sx == sy {
        seq![flag((magnitude(x) > magnitude(y)) != (sx != 0))]
    } else {
        seq![flag(sx == 0)]
    }
}

#[verifier::spinoff_prover]
#[verifier::rlimit(60)]
proof fn lemma_gte_tree(x: u32, y: u32, mem: spec_fn(int) -> int, rest: Seq<int>, fuel: nat)
    ensures
        ({
            let (ex, sx, mx) = parts(x);
            let (ey, sy, my) = parts(y);
            step(
                gte_tree(),
                mem,
                seq![
                    flag((ey == 255 && my != 0) || (ex == 255 && mx != 0)),
                    flag(ex == 255),
                    flag(ey == 255),
                    flag(ex == 0 && mx == 0),
                    flag(ey == 0 && my == 0),
                    ex,
                    ey,
                    sx,
                    sy,
                    mx,
                    my,
                ] + rest,
                fuel,
            ) == Some(gte_tree_result(x, y) + rest)
        }),
{
    let (ex, sx, mx) = parts(x);
    let (ey, sy, my) = parts(y);
    lemma_fields(x);
    lemma_fields(y);
    let nan = flag((ey == 255 && my != 0) || (ex == 255 && mx != 0));
    let ai = flag(ex == 255);
    let bi = flag(ey == 255);
    let az = flag(ex == 0 && mx == 0);
    let bz = flag(ey == 0 && my == 0);
    let t = seq![nan, ai, bi, az, bz, ex, ey, sx, sy, mx, my] + rest;
    let t1 = seq![ai, bi, az, bz, ex, ey, sx, sy, mx, my] + rest;
    let t2 = seq![bi, az, bz, ex, ey, sx, sy, mx, my] + rest;
    let t3 = seq![az, bz, ex, ey, sx, sy, mx, my] + rest;
    let t4 = seq![ex, ey, sx, sy, mx, my] + rest;
    let tree = gte_tree();
    assert(run(Seq::<Inst>::empty(), mem, t, fuel) == Some(t));
    assert(t.drop_first() =~= t1);
    if nan == 1 {
        lemma_run_add(drop_insts(10), seq![Inst::Push(0)], mem, t1, fuel);
        lemma_drops(10, mem, t1, fuel);
        assert(t1.skip(10) =~= rest);
        lemma_run_one(Inst::Push(0), mem, rest, fuel);
        assert(seq![0int] + rest =~= gte_tree_result(x, y) + rest);
        assert(tree->If_then == drop_insts(10) + seq![Inst::Push(0)]);
        assert(run(tree->If_then, mem, t1, fuel) == Some(seq![0int] + rest));
        assert(step(tree, mem, t, fuel) == Some(gte_tree_result(x, y) + rest));
    } else {
        let eq_if = tree->If_else_[0];
        lemma_run_one(eq_if, mem, t1, fuel);
        lemma_equal_parts(ai, bi, az, bz, ex, ey, sx, sy, mx, my, mem, rest, fuel);
        let eqf = flag(ey == ex && sy == sx && my == mx);
        assert((seq![eqf] + t1).drop_first() =~= t1);
        if eqf == 1 {
            lemma_run_add(drop_insts(10), seq![Inst::Push(1)], mem, t1, fuel);
            lemma_drops(10, mem, t1, fuel);
            assert(t1.skip(10) =~= rest);
            lemma_run_one(Inst::Push(1), mem, rest, fuel);
            assert(seq![1int] + rest =~= gte_tree_result(x, y) + rest);
            assert(step(eq_if, mem, t1, fuel) == Some(gte_tree_result(x, y) + rest));
        } else {
            let a_if = eq_if->If_else_[0];
            lemma_run_one(a_if, mem, t1, fuel);
            assert(run(Seq::<Inst>::empty(), mem, t1, fuel) == Some(t1));
            assert(t1.drop_first() =~= t2);
            if ai == 1 {
                assert(gte_a_inf() =~= drop_insts(5) + gte_a_inf().skip(5));
                lemma_run_add(drop_insts(5), gte_a_inf().skip(5), mem, t2, fuel);
                lemma_drops(5, mem, t2, fuel);
                assert(t2.skip(5) =~= seq![sx, sy, mx, my] + rest);
                lemma_gte_a_inf_tail(sx, sy, mx, my, mem, rest, fuel);
                assert(seq![flag(sx == 0)] + rest =~= gte_tree_result(x, y) + rest);
                assert(step(a_if, mem, t1, fuel) == Some(gte_tree_result(x, y) + rest));
            } else {
                let b_if = a_if->If_else_[0];
                lemma_run_one(b_if, mem, t2, fuel);
                assert(run(Seq::<Inst>::empty(), mem, t2, fuel) == Some(t2));
                assert(t2.drop_first() =~= t3);
                if bi == 1 {
                    assert(gte_b_inf() =~= drop_insts(5) + gte_b_inf().skip(5));
                    lemma_run_add(drop_insts(5), gte_b_inf().skip(5), mem, t3, fuel);
                    lemma_drops(5, mem, t3, fuel);
                    assert(t3.skip(5) =~= seq![sy, mx, my] + rest);
                    lemma_gte_b_inf_tail(sy, mx, my, mem, rest, fuel);
                    assert(seq![flag(sy != 0)] + rest =~= gte_tree_result(x, y) + rest);
                } else {
                    let z_if = b_if->If_else_[0];
                    lemma_run_one(z_if, mem, t3, fuel);
                    lemma_run_one(Inst::U32CheckedAnd, mem, t3, fuel);
                    assert(z_if->If_condition =~= seq![Inst::U32CheckedAnd]);
                    lemma_flag_ops(ey == 0 && my == 0, ex == 0 && mx == 0);
                    let zf = flag(ex == 0 && mx == 0 && ey == 0 && my == 0);
                    assert(t3.skip(2) =~= t4);
                    assert((seq![zf] + t3.skip(2)).drop_first() =~= t4);
                    if zf == 1 {
                        lemma_run_add(drop_insts(6), seq![Inst::Push(1)], mem, t4, fuel);
                        lemma_drops(6, mem, t4, fuel);
                        assert(t4.skip(6) =~= rest);
                        lemma_run_one(Inst::Push(1), mem, rest, fuel);
                        assert(seq![1int] + rest =~= gte_tree_result(x, y) + rest);
                    } else {
                        lemma_gte_finite(x, y, mem, rest, fuel);
                        assert(z_if->If_else_ == gte_finite());
                        let r = if sx == sy {
                            flag((magnitude(x) > magnitude(y)) != (sx != 0))
                        } else {
                            flag(sx == 0)
                        };
                        assert(seq![r] + rest =~= gte_tree_result(x, y) + rest);
                    }
                    assert(step(z_if, mem, t3, fuel) == Some(gte_tree_result(x, y) + rest));
                }
                assert(step(b_if, mem, t2, fuel) == Some(gte_tree_result(x, y) + rest));
            }
            assert(step(a_if, mem, t1, fuel) == Some(gte_tree_result(x, y) + rest));
        }
        assert(step(eq_if, mem, t1, fuel) == Some(gte_tree_result(x, y) + rest));
    }
}

/// Two floats have the same bits exactly when their parts agree, and the
/// same magnitude exactly when their exponents and mantissas agree.
proof fn lemma_same_parts(x: u32, y: u32)
    ensures
        (x == y) == (exponent(x) == exponent(y) && sign_bits(x) == sign_bits(y) && mantissa(x)
            == mantissa(y)),
        (magnitude(x) == magnitude(y)) == (exponent(x) == exponent(y) && mantissa(x) == mantissa(y)),
{
    assert((x == y) == ((x & 0x7f80_0000u32) >> 23u32 == (y & 0x7f80_0000u32) >> 23u32 && x
        & 0x8000_0000u32 == y & 0x8000_0000u32 && x & 0x7f_ffffu32 == y & 0x7f_ffffu32))
        by (bit_vector);
    assert((x & 0x7fff_ffffu32 == y & 0x7fff_ffffu32) == ((x & 0x7f80_0000u32) >> 23u32 == (y
        & 0x7f80_0000u32) >> 23u32 && x & 0x7f_ffffu32 == y & 0x7f_ffffu32)) by (bit_vector);
}

/// What the code of [`lte_tree`] leaves is the flag of IEEE 754 `x <= y`,
/// over the stack below the operands.
#[verifier::spinoff_prover]
#[verifier::rlimit(60)]
proof fn lemma_lte_result(x: u32, y: u32)
    ensures
        lte_tree_result(x, y) == seq![flag(f32_le(x, y))],
{
    lemma_fields(x);
    lemma_fields(y);
    lemma_same_parts(x, y);
    let (ex, sx, mx) = parts(x);
    let (ey, sy, my) = parts(y);
    assert(magnitude(x) == 0 <==> ex == 0 && mx == 0);
    assert(magnitude(y) == 0 <==> ey == 0 && my == 0);
    assert(!is_nan(x) ==> magnitude(x) <= 0x7f80_0000);
    assert(!is_nan(y) ==> magnitude(y) <= 0x7f80_0000);
    assert(ex == 255 && mx == 0 ==> magnitude(x) == 0x7f80_0000);
    assert(ey == 255 && my == 0 ==> magnitude(y) == 0x7f80_0000);
    assert(ex < 255 ==> magnitude(x) < 0x7f80_0000);
    assert(ey < 255 ==> magnitude(y) < 0x7f80_0000);
    assert(lte_tree_result(x, y) =~= seq![flag(f32_le(x, y))]);
}

/// The code that [`lte`] emits, up to the store of its result, computes
/// IEEE 754 `<=` of the floats in the cells `a` and `b`: it pushes 1 where
/// neither is a NaN and the first is not above the second (both zeros
/// counting as equal), 0 otherwise, over the stack as it was.
#[verifier::spinoff_prover]
#[verifier::rlimit(60)]
pub proof fn lemma_lte_computes(a: u32, b: u32, mem: spec_fn(int) -> int, rest: Seq<int>, fuel: nat)
    requires
        a + WIDTH <= u32::MAX,
        b + WIDTH <= u32::MAX,
        is_u32(mem(a as int)),
        is_u32(mem(b as int)),
    ensures
        ({
            let x = mem(a as int) as u32;
            let y = mem(b as int) as u32;
            run(prepare_insts(a, b) + nan_inf_zero_insts() + seq![lte_tree()], mem, rest, fuel)
                == Some(
                seq![flag(f32_le(x, y))] + rest,
            )
        }),
{
    let x = mem(a as int) as u32;
    let y = mem(b as int) as u32;
    let (ex, sx, mx) = parts(x);
    let (ey, sy, my) = parts(y);
    lemma_fields(x);
    lemma_fields(y);
    lemma_prepare(a, b, mem, rest, fuel);
    let base = seq![ex, ey, sx, sy, mx, my] + rest;
    lemma_classify(ex, ey, sx, sy, mx, my, mem, rest, fuel);
    let classified = seq![
        flag((ey == 255 && my != 0) || (ex == 255 && mx != 0)),
        flag(ex == 255),
        flag(ey == 255),
        flag(ex == 0 && mx == 0),
        flag(ey == 0 && my == 0),
        ex,
        ey,
        sx,
        sy,
        mx,
        my,
    ] + rest;
    lemma_lte_tree(x, y, mem, rest, fuel);
    lemma_run_one(lte_tree(), mem, classified, fuel);
    lemma_run_add(prepare_insts(a, b), nan_inf_zero_insts(), mem, rest, fuel);
    lemma_run_add(prepare_insts(a, b) + nan_inf_zero_insts(), seq![lte_tree()], mem, rest, fuel);
    lemma_lte_result(x, y);
}

/// What the code of [`gte_tree`] leaves is the flag of IEEE 754 `x >= y`,
/// over the stack below the operands.
#[verifier::spinoff_prover]
#[verifier::rlimit(60)]
proof fn lemma_gte_result(x: u32, y: u32)
    ensures
        gte_tree_result(x, y) == seq![flag(f32_ge(x, y))],
{
    lemma_fields(x);
    lemma_fields(y);
    lemma_same_parts(x, y);
    let (ex, sx, mx) = parts(x);
    let (ey, sy, my) = parts(y);
    assert(magnitude(x) == 0 <==> ex == 0 && mx == 0);
    assert(magnitude(y) == 0 <==> ey == 0 && my == 0);
    assert(!is_nan(x) ==> magnitude(x) <= 0x7f80_0000);
    assert(!is_nan(y) ==> magnitude(y) <= 0x7f80_0000);
    assert(ex == 255 && mx == 0 ==> magnitude(x) == 0x7f80_0000);
    assert(ey == 255 && my == 0 ==> magnitude(y) == 0x7f80_0000);
    assert(ex < 255 ==> magnitude(x) < 0x7f80_0000);
    assert(ey < 255 ==> magnitude(y) < 0x7f80_0000);
    assert(gte_tree_result(x, y) =~= seq![flag(f32_ge(x, y))]);
}

/// The code that [`gte`] emits, up to the store of its result, computes
/// IEEE 754 `>=` of the floats in the cells `a` and `b`: it pushes 1 where
/// neither is a NaN and the first is not below the second (both zeros
/// counting as equal), 0 otherwise, over the stack as it was.
#[verifier::spinoff_prover]
#[verifier::rlimit(60)]
pub proof fn lemma_gte_computes(a: u32, b: u32, mem: spec_fn(int) -> int, rest: Seq<int>, fuel: nat)
    requires
        a + WIDTH <= u32::MAX,
        b + WIDTH <= u32::MAX,
        is_u32(mem(a as int)),
        is_u32(mem(b as int)),
    ensures
        ({
            let x = mem(a as int) as u32;
            let y = mem(b as int) as u32;
            run(prepare_insts(a, b) + nan_inf_zero_insts() + seq![gte_tree()], mem, rest, fuel)
                == Some(
                seq![flag(f32_ge(x, y))] + rest,
            )
        }),
{
    let x = mem(a as int) as u32;
    let y = mem(b as int) as u32;
    let (ex, sx, mx) = parts(x);
    let (ey, sy, my) = parts(y);
    lemma_fields(x);
    lemma_fields(y);
    lemma_prepare(a, b, mem, rest, fuel);
    let base = seq![ex, ey, sx, sy, mx, my] + rest;
    lemma_classify(ex, ey, sx, sy, mx, my, mem, rest, fuel);
    let classified = seq![
        flag((ey == 255 && my != 0) || (ex == 255 && mx != 0)),
        flag(ex == 255),
        flag(ey == 255),
        flag(ex == 0 && mx == 0),
        flag(ey == 0 && my == 0),
        ex,
        ey,
        sx,
        sy,
        mx,
        my,
    ] + rest;
    lemma_gte_tree(x, y, mem, rest, fuel);
    lemma_run_one(gte_tree(), mem, classified, fuel);
    lemma_run_add(prepare_insts(a, b), nan_inf_zero_insts(), mem, rest, fuel);
    lemma_run_add(prepare_insts(a, b) + nan_inf_zero_insts(), seq![gte_tree()], mem, rest, fuel);
    lemma_gte_result(x, y);
}

/// The first test of [`strict_tree`]: a NaN, or both floats zero.
#[verifier::spinoff_prover]
#[verifier::rlimit(60)]
proof fn lemma_strict_invalid(
    nanb: bool, ai: int, bi: int, azb: bool, bzb: bool, ex: int, ey: int, sx: int, sy: int, mx: int, my: int,
    mem: spec_fn(int) -> int, rest: Seq<int>, fuel: nat,
)
    ensures
        ({
            let nan = flag(nanb);
            let az = flag(azb);
            let bz = flag(bzb);
            run(strict_tree(Seq::empty(), Seq::empty(), Seq::empty())->If_condition, mem, seq![nan, ai, bi, az, bz, ex, ey, sx, sy, mx, my] + rest, fuel)
                == Some(seq![flag(nanb || (bzb && azb)), ai, bi, ex, ey, sx, sy, mx, my] + rest)
        }),
{
    let nan = flag(nanb);
    let az = flag(azb);
    let bz = flag(bzb);
    let is = strict_tree(Seq::empty(), Seq::empty(), Seq::empty())->If_condition;
    let t0 = seq![nan, ai, bi, az, bz, ex, ey, sx, sy, mx, my] + rest;
    let t1 = seq![bz, nan, ai, bi, az, ex, ey, sx, sy, mx, my] + rest;
    let t2 = seq![az, bz, nan, ai, bi, ex, ey, sx, sy, mx, my] + rest;
    let t3 = seq![flag(bzb && azb), nan, ai, bi, ex, ey, sx, sy, mx, my] + rest;
    let t4 = seq![flag(nanb || (bzb && azb)), ai, bi, ex, ey, sx, sy, mx, my] + rest;
    assert(seq![t0[4]] + t0.take(4) + t0.skip(5) =~= t1);
    assert(seq![t1[4]] + t1.take(4) + t1.skip(5) =~= t2);
    assert(t2.skip(2) =~= seq![nan, ai, bi, ex, ey, sx, sy, mx, my] + rest);
    lemma_flag_ops(bzb, azb);
    assert(t3.skip(2) =~= seq![ai, bi, ex, ey, sx, sy, mx, my] + rest);
    lemma_flag_ops(nanb, bzb && azb);
    assert(step(is[0], mem, t0, fuel) == Some(t1));
    assert(step(is[1], mem, t1, fuel) == Some(t2));
    assert(step(is[2], mem, t2, fuel) == Some(t3));
    assert(step(is[3], mem, t3, fuel) == Some(t4));
    lemma_run_from(is, 3, mem, t3, fuel);
    lemma_run_from(is, 2, mem, t2, fuel);
    lemma_run_from(is, 1, mem, t1, fuel);
    lemma_run_from(is, 0, mem, t0, fuel);
    assert(is.skip(0) =~= is);
    assert(is.skip(4) =~= Seq::<Inst>::empty());
}

/// The test for equal bits in [`strict_tree`].
#[verifier::spinoff_prover]
#[verifier::rlimit(60)]
proof fn lemma_strict_equal_parts(
    ai: int, bi: int, ex: int, ey: int, sx: int, sy: int, mx: int, my: int,
    mem: spec_fn(int) -> int, rest: Seq<int>, fuel: nat,
)
    requires
        is_u32(ex), is_u32(ey), is_u32(sx), is_u32(sy), is_u32(mx), is_u32(my),
    ensures
        run(strict_tree(Seq::empty(), Seq::empty(), Seq::empty())->If_else_[0]->If_condition, mem, seq![ai, bi, ex, ey, sx, sy, mx, my] + rest, fuel)
            == Some(seq![flag(ey == ex && sy == sx && my == mx)] + (seq![ai, bi, ex, ey, sx, sy, mx, my] + rest)),
{
    let is = strict_tree(Seq::empty(), Seq::empty(), Seq::empty())->If_else_[0]->If_condition;
    let t0 = seq![ai, bi, ex, ey, sx, sy, mx, my] + rest;
    let t1 = seq![ey] + t0;
    let t2 = seq![ex] + t1;
    let t3 = seq![flag(ey == ex)] + t0;
    let t4 = seq![sy] + t3;
    let t5 = seq![sx] + t4;
    let t6 = seq![flag(sy == sx)] + t3;
    let t7 = seq![flag(ey == ex && sy == sx)] + t0;
    let t8 = seq![my] + t7;
    let t9 = seq![mx] + t8;
    let t10 = seq![flag(my == mx)] + t7;
    let t11 = seq![flag(ey == ex && sy == sx && my == mx)] + t0;
    assert(t0[3] == ey);
    assert(t1[3] == ex);
    assert(t2.skip(2) =~= t0);
    assert(t3[6] == sy);
    assert(t4[6] == sx);
    assert(t5.skip(2) =~= t3);
    assert(t6.skip(2) =~= t0);
    lemma_flag_ops(ey == ex, sy == sx);
    assert(t7[8] == my);
    assert(t8[8] == mx);
    assert(t9.skip(2) =~= t7);
    assert(t10.skip(2) =~= t0);
    lemma_flag_ops(ey == ex && sy == sx, my == mx);
    assert(step(is[0], mem, t0, fuel) == Some(t1));
    assert(step(is[1], mem, t1, fuel) == Some(t2));
    assert(step(is[2], mem, t2, fuel) == Some(t3));
    assert(step(is[3], mem, t3, fuel) == Some(t4));
    assert(step(is[4], mem, t4, fuel) == Some(t5));
    assert(step(is[5], mem, t5, fuel) == Some(t6));
    assert(step(is[6], mem, t6, fuel) == Some(t7));
    assert(step(is[7], mem, t7, fuel) == Some(t8));
    assert(step(is[8], mem, t8, fuel) == Some(t9));
    assert(step(is[9], mem, t9, fuel) == Some(t10));
    assert(step(is[10], mem, t10, fuel) == Some(t11));
    lemma_run_from(is, 10, mem, t10, fuel);
    lemma_run_from(is, 9, mem, t9, fuel);
    lemma_run_from(is, 8, mem, t8, fuel);
    lemma_run_from(is, 7, mem, t7, fuel);
    lemma_run_from(is, 6, mem, t6, fuel);
    lemma_run_from(is, 5, mem, t5, fuel);
    lemma_run_from(is, 4, mem, t4, fuel);
    lemma_run_from(is, 3, mem, t3, fuel);
    lemma_run_from(is, 2, mem, t2, fuel);
    lemma_run_from(is, 1, mem, t1, fuel);
    lemma_run_from(is, 0, mem, t0, fuel);
    assert(is.skip(0) =~= is);
    assert(is.skip(11) =~= Seq::<Inst>::empty());
}

/// What the code of [`lt_tree`] leaves, for the parts of `x` and `y` and
/// their classification, case by case.
pub open spec fn lt_tree_result(x: u32, y: u32) -> int {
    let (ex, sx, mx) = parts(x);
    let (ey, sy, my) = parts(y);
    if (ey == 255 && my != 0) || (ex == 255 && mx != 0) || (ey == 0 && my == 0 && ex == 0 && mx == 0) {
        0
    } else if ey == ex && sy == sx && my == mx {
        0
    } else if ex == 255 {
        flag(sx != 0)
    } else if ey == 255 {
        flag(sy == 0)
    } else if sx == sy {
        flag((sx != 0) != (magnitude(x) < magnitude(y)))
    } else {
        flag(sx != 0)
    }
}

#[verifier::spinoff_prover]
#[verifier::rlimit(60)]
proof fn lemma_lt_tree(x: u32, y: u32, mem: spec_fn(int) -> int, rest: Seq<int>, fuel: nat)
    ensures
        ({
            let (ex, sx, mx) = parts(x);
            let (ey, sy, my) = parts(y);
            step(
                lt_tree(),
                mem,
                seq![
                    flag((ey == 255 && my != 0) || (ex == 255 && mx != 0)),
                    flag(ex == 255),
                    flag(ey == 255),
                    flag(ex == 0 && mx == 0),
                    flag(ey == 0 && my == 0),
                    ex,
                    ey,
                    sx,
                    sy,
                    mx,
                    my,
                ] + rest,
                fuel,
            ) == Some(seq![lt_tree_result(x, y)] + rest)
        }),
{
    let (ex, sx, mx) = parts(x);
    let (ey, sy, my) = parts(y);
    lemma_fields(x);
    lemma_fields(y);
    let nanb = (ey == 255 && my != 0) || (ex == 255 && mx != 0);
    let azb = ex == 0 && mx == 0;
    let bzb = ey == 0 && my == 0;
    let ai = flag(ex == 255);
    let bi = flag(ey == 255);
    let tree = lt_tree();
    lemma_strict_invalid(nanb, ai, bi, azb, bzb, ex, ey, sx, sy, mx, my, mem, rest, fuel);
    assert(tree->If_condition == strict_tree(Seq::empty(), Seq::empty(), Seq::empty())->If_condition);
    let cf = flag(nanb || (bzb && azb));
    let u1 = seq![ai, bi, ex, ey, sx, sy, mx, my] + rest;
    let u2 = seq![bi, ex, ey, sx, sy, mx, my] + rest;
    let u3 = seq![ex, ey, sx, sy, mx, my] + rest;
    assert((seq![cf] + u1).drop_first() =~= u1);
    assert(seq![cf, ai, bi, ex, ey, sx, sy, mx, my] + rest =~= seq![cf] + u1);
    let r = lt_tree_result(x, y);
    if cf == 1 {
        lemma_run_add(drop_insts(8), seq![Inst::Push(0)], mem, u1, fuel);
        lemma_drops(8, mem, u1, fuel);
        assert(u1.skip(8) =~= rest);
        lemma_run_one(Inst::Push(0), mem, rest, fuel);
    } else {
        let eq_if = tree->If_else_[0];
        lemma_run_one(eq_if, mem, u1, fuel);
        lemma_strict_equal_parts(ai, bi, ex, ey, sx, sy, mx, my, mem, rest, fuel);
        let eqf = flag(ey == ex && sy == sx && my == mx);
        assert((seq![eqf] + u1).drop_first() =~= u1);
        if eqf == 1 {
        lemma_run_add(drop_insts(8), seq![Inst::Push(0)], mem, u1, fuel);
        lemma_drops(8, mem, u1, fuel);
        assert(u1.skip(8) =~= rest);
        lemma_run_one(Inst::Push(0), mem, rest, fuel);
        } else {
        let a_if = eq_if->If_else_[0];
        lemma_run_one(a_if, mem, u1, fuel);
        assert(run(Seq::<Inst>::empty(), mem, u1, fuel) == Some(u1));
        assert(u1.drop_first() =~= u2);
        if ai == 1 {
            lemma_run_add(drop_insts(3), lte_a_inf().skip(5), mem, u2, fuel);
            lemma_drops(3, mem, u2, fuel);
            assert(u2.skip(3) =~= seq![sx, sy, mx, my] + rest);
            lemma_lte_a_inf_tail(sx, sy, mx, my, mem, rest, fuel);
        } else {
            let b_if = a_if->If_else_[0];
            lemma_run_one(b_if, mem, u2, fuel);
            assert(run(Seq::<Inst>::empty(), mem, u2, fuel) == Some(u2));
            assert(u2.drop_first() =~= u3);
            if bi == 1 {
                lemma_run_add(drop_insts(3), lte_b_inf().skip(5), mem, u3, fuel);
                lemma_drops(3, mem, u3, fuel);
                assert(u3.skip(3) =~= seq![sy, mx, my] + rest);
                lemma_lte_b_inf_tail(sy, mx, my, mem, rest, fuel);
            } else {
                lemma_lte_finite(x, y, mem, rest, fuel);
                assert(b_if->If_else_ == lte_finite());
            }
            assert(step(b_if, mem, u2, fuel) == Some(seq![r] + rest));
        }
        assert(step(a_if, mem, u1, fuel) == Some(seq![r] + rest));
        }
        assert(step(eq_if, mem, u1, fuel) == Some(seq![r] + rest));
    }
}

/// What the code of [`lt_tree`] leaves is the flag of IEEE 754 `x < y`.
#[verifier::spinoff_prover]
#[verifier::rlimit(60)]
proof fn lemma_lt_result(x: u32, y: u32)
    ensures
        lt_tree_result(x, y) == flag(f32_lt(x, y)),
{
    lemma_fields(x);
    lemma_fields(y);
    lemma_same_parts(x, y);
    let (ex, sx, mx) = parts(x);
    let (ey, sy, my) = parts(y);
    assert(magnitude(x) == 0 <==> ex == 0 && mx == 0);
    assert(magnitude(y) == 0 <==> ey == 0 && my == 0);
    assert(!is_nan(x) ==> magnitude(x) <= 0x7f80_0000);
    assert(!is_nan(y) ==> magnitude(y) <= 0x7f80_0000);
    assert(ex == 255 && mx == 0 ==> magnitude(x) == 0x7f80_0000);
    assert(ey == 255 && my == 0 ==> magnitude(y) == 0x7f80_0000);
    assert(ex < 255 ==> magnitude(x) < 0x7f80_0000);
    assert(ey < 255 ==> magnitude(y) < 0x7f80_0000);
}

/// The code that [`lt`] emits, up to the store of its result, computes
/// IEEE 754 `<` of the floats in the cells `a` and `b`: it pushes 1 where
/// neither is a NaN and the first is below the second, 0 otherwise, over the
/// stack as it was.
#[verifier::spinoff_prover]
#[verifier::rlimit(60)]
pub proof fn lemma_lt_computes(a: u32, b: u32, mem: spec_fn(int) -> int, rest: Seq<int>, fuel: nat)
    requires
        a + WIDTH <= u32::MAX,
        b + WIDTH <= u32::MAX,
        is_u32(mem(a as int)),
        is_u32(mem(b as int)),
    ensures
        ({
            let x = mem(a as int) as u32;
            let y = mem(b as int) as u32;
            run(prepare_insts(a, b) + nan_inf_zero_insts() + seq![lt_tree()], mem, rest, fuel)
                == Some(seq![flag(f32_lt(x, y))] + rest)
        }),
{
    let x = mem(a as int) as u32;
    let y = mem(b as int) as u32;
    let (ex, sx, mx) = parts(x);
    let (ey, sy, my) = parts(y);
    lemma_fields(x);
    lemma_fields(y);
    lemma_prepare(a, b, mem, rest, fuel);
    lemma_classify(ex, ey, sx, sy, mx, my, mem, rest, fuel);
    let classified = seq![
        flag((ey == 255 && my != 0) || (ex == 255 && mx != 0)),
        flag(ex == 255),
        flag(ey == 255),
        flag(ex == 0 && mx == 0),
        flag(ey == 0 && my == 0),
        ex,
        ey,
        sx,
        sy,
        mx,
        my,
    ] + rest;
    lemma_lt_tree(x, y, mem, rest, fuel);
    lemma_run_one(lt_tree(), mem, classified, fuel);
    lemma_run_add(prepare_insts(a, b), nan_inf_zero_insts(), mem, rest, fuel);
    lemma_run_add(prepare_insts(a, b) + nan_inf_zero_insts(), seq![lt_tree()], mem, rest, fuel);
    lemma_lt_result(x, y);
}

/// What the code of [`gt_tree`] leaves, for the parts of `x` and `y` and
/// their classification, case by case.
pub open spec fn gt_tree_result(x: u32, y: u32) -> int {
    let (ex, sx, mx) = parts(x);
    let (ey, sy, my) = parts(y);
    if (ey == 255 && my != 0) || (ex == 255 && mx != 0) || (ey == 0 && my == 0 && ex == 0 && mx == 0) {
        0
    } else if ey == ex && sy == sx && my == mx {
        0
    } else if ex == 255 {
        flag(sx == 0)
    } else if ey == 255 {
        flag(sy != 0)
    } else if sx == sy {
        flag((magnitude(x) > magnitude(y)) != (sx != 0))
    } else {
        flag(sx == 0)
    }
}

#[verifier::spinoff_prover]
#[verifier::rlimit(60)]
proof fn lemma_gt_tree(x: u32, y: u32, mem: spec_fn(int) -> int, rest: Seq<int>, fuel: nat)
    ensures
        ({
            let (ex, sx, mx) = parts(x);
            let (ey, sy, my) = parts(y);
            step(
                gt_tree(),
                mem,
                seq![
                    flag((ey == 255 && my != 0) || (ex == 255 && mx != 0)),
                    flag(ex == 255),
                    flag(ey == 255),
                    flag(ex == 0 && mx == 0),
                    flag(ey == 0 && my == 0),
                    ex,
                    ey,
                    sx,
                    sy,
                    mx,
                    my,
                ] + rest,
                fuel,
            ) == Some(seq![gt_tree_result(x, y)] + rest)
        }),
{
    let (ex, sx, mx) = parts(x);
    let (ey, sy, my) = parts(y);
    lemma_fields(x);
    lemma_fields(y);
    let nanb = (ey == 255 && my != 0) || (ex == 255 && mx != 0);
    let azb = ex == 0 && mx == 0;
    let bzb = ey == 0 && my == 0;
    let ai = flag(ex == 255);
    let bi = flag(ey == 255);
    let tree = gt_tree();
    lemma_strict_invalid(nanb, ai, bi, azb, bzb, ex, ey, sx, sy, mx, my, mem, rest, fuel);
    assert(tree->If_condition == strict_tree(Seq::empty(), Seq::empty(), Seq::empty())->If_condition);
    let cf = flag(nanb || (bzb && azb));
    let u1 = seq![ai, bi, ex, ey, sx, sy, mx, my] + rest;
    let u2 = seq![bi, ex, ey, sx, sy, mx, my] + rest;
    let u3 = seq![ex, ey, sx, sy, mx, my] + rest;
    assert((seq![cf] + u1).drop_first() =~= u1);
    assert(seq![cf, ai, bi, ex, ey, sx, sy, mx, my] + rest =~= seq![cf] + u1);
    let r = gt_tree_result(x, y);
    if cf == 1 {
        lemma_run_add(drop_insts(8), seq![Inst::Push(0)], mem, u1, fuel);
        lemma_drops(8, mem, u1, fuel);
        assert(u1.skip(8) =~= rest);
        lemma_run_one(Inst::Push(0), mem, rest, fuel);
    } else {
        let eq_if = tree->If_else_[0];
        lemma_run_one(eq_if, mem, u1, fuel);
        lemma_strict_equal_parts(ai, bi, ex, ey, sx, sy, mx, my, mem, rest, fuel);
        let eqf = flag(ey == ex && sy == sx && my == mx);
        assert((seq![eqf] + u1).drop_first() =~= u1);
        if eqf == 1 {
        lemma_run_add(drop_insts(8), seq![Inst::Push(0)], mem, u1, fuel);
        lemma_drops(8, mem, u1, fuel);
        assert(u1.skip(8) =~= rest);
        lemma_run_one(Inst::Push(0), mem, rest, fuel);
        } else {
        let a_if = eq_if->If_else_[0];
        lemma_run_one(a_if, mem, u1, fuel);
        assert(run(Seq::<Inst>::empty(), mem, u1, fuel) == Some(u1));
        assert(u1.drop_first() =~= u2);
        if ai == 1 {
            lemma_run_add(drop_insts(3), gte_a_inf().skip(5), mem, u2, fuel);
            lemma_drops(3, mem, u2, fuel);
            assert(u2.skip(3) =~= seq![sx, sy, mx, my] + rest);
            lemma_gte_a_inf_tail(sx, sy, mx, my, mem, rest, fuel);
        } else {
            let b_if = a_if->If_else_[0];
            lemma_run_one(b_if, mem, u2, fuel);
            assert(run(Seq::<Inst>::empty(), mem, u2, fuel) == Some(u2));
            assert(u2.drop_first() =~= u3);
            if bi == 1 {
                lemma_run_add(drop_insts(3), gte_b_inf().skip(5), mem, u3, fuel);
                lemma_drops(3, mem, u3, fuel);
                assert(u3.skip(3) =~= seq![sy, mx, my] + rest);
                lemma_gte_b_inf_tail(sy, mx, my, mem, rest, fuel);
            } else {
                lemma_gte_finite(x, y, mem, rest, fuel);
                assert(b_if->If_else_ == gte_finite());
            }
            assert(step(b_if, mem, u2, fuel) == Some(seq![r] + rest));
        }
        assert(step(a_if, mem, u1, fuel) == Some(seq![r] + rest));
        }
        assert(step(eq_if, mem, u1, fuel) == Some(seq![r] + rest));
    }
}

/// What the code of [`gt_tree`] leaves is the flag of IEEE 754 `x > y`.
#[verifier::spinoff_prover]
#[verifier::rlimit(60)]
proof fn lemma_gt_result(x: u32, y: u32)
    ensures
        gt_tree_result(x, y) == flag(f32_gt(x, y)),
{
    lemma_fields(x);
    lemma_fields(y);
    lemma_same_parts(x, y);
    let (ex, sx, mx) = parts(x);
    let (ey, sy, my) = parts(y);
    assert(magnitude(x) == 0 <==> ex == 0 && mx == 0);
    assert(magnitude(y) == 0 <==> ey == 0 && my == 0);
    assert(!is_nan(x) ==> magnitude(x) <= 0x7f80_0000);
    assert(!is_nan(y) ==> magnitude(y) <= 0x7f80_0000);
    assert(ex == 255 && mx == 0 ==> magnitude(x) == 0x7f80_0000);
    assert(ey == 255 && my == 0 ==> magnitude(y) == 0x7f80_0000);
    assert(ex < 255 ==> magnitude(x) < 0x7f80_0000);
    assert(ey < 255 ==> magnitude(y) < 0x7f80_0000);
}

/// The code that [`gt`] emits, up to the store of its result, computes
/// IEEE 754 `>` of the floats in the cells `a` and `b`: it pushes 1 where
/// neither is a NaN and the first is above the second, 0 otherwise, over the
/// stack as it was.
#[verifier::spinoff_prover]
#[verifier::rlimit(60)]
pub proof fn lemma_gt_computes(a: u32, b: u32, mem: spec_fn(int) -> int, rest: Seq<int>, fuel: nat)
    requires
        a + WIDTH <= u32::MAX,
        b + WIDTH <= u32::MAX,
        is_u32(mem(a as int)),
        is_u32(mem(b as int)),
    ensures
        ({
            let x = mem(a as int) as u32;
            let y = mem(b as int) as u32;
            run(prepare_insts(a, b) + nan_inf_zero_insts() + seq![gt_tree()], mem, rest, fuel)
                == Some(seq![flag(f32_gt(x, y))] + rest)
        }),
{
    let x = mem(a as int) as u32;
    let y = mem(b as int) as u32;
    let (ex, sx, mx) = parts(x);
    let (ey, sy, my) = parts(y);
    lemma_fields(x);
    lemma_fields(y);
    lemma_prepare(a, b, mem, rest, fuel);
    lemma_classify(ex, ey, sx, sy, mx, my, mem, rest, fuel);
    let classified = seq![
        flag((ey == 255 && my != 0) || (ex == 255 && mx != 0)),
        flag(ex == 255),
        flag(ey == 255),
        flag(ex == 0 && mx == 0),
        flag(ey == 0 && my == 0),
        ex,
        ey,
        sx,
        sy,
        mx,
        my,
    ] + rest;
    lemma_gt_tree(x, y, mem, rest, fuel);
    lemma_run_one(gt_tree(), mem, classified, fuel);
    lemma_run_add(prepare_insts(a, b), nan_inf_zero_insts(), mem, rest, fuel);
    lemma_run_add(prepare_insts(a, b) + nan_inf_zero_insts(), seq![gt_tree()], mem, rest, fuel);
    lemma_gt_result(x, y);
}

/// The first test of [`mul_tree`]: a NaN, or an infinity times a zero.
#[verifier::spinoff_prover]
#[verifier::rlimit(60)]
pub(crate) proof fn lemma_mul_invalid(
    nanb: bool, aib: bool, bib: bool, azb: bool, bzb: bool, ex: int, ey: int, sx: int, sy: int, mx: int, my: int,
    mem: spec_fn(int) -> int, rest: Seq<int>, fuel: nat,
)
    ensures
        ({
            let nan = flag(nanb);
            let ai = flag(aib);
            let bi = flag(bib);
            let az = flag(azb);
            let bz = flag(bzb);
            run(mul_tree()->If_condition, mem, seq![nan, ai, bi, az, bz, ex, ey, sx, sy, mx, my] + rest, fuel) == Some(
                seq![flag((nanb || (azb && bib)) || (bzb && aib))] + (seq![ai, bi, az, bz, ex, ey, sx, sy, mx, my] + rest),
            )
        }),
{
    let nan = flag(nanb);
    let ai = flag(aib);
    let bi = flag(bib);
    let az = flag(azb);
    let bz = flag(bzb);
    let is = mul_tree()->If_condition;
    let t0 = seq![nan, ai, bi, az, bz, ex, ey, sx, sy, mx, my] + rest;
    let t1 = seq![az] + t0;
    let t2 = seq![bi] + t1;
    let t3 = seq![flag(azb && bib)] + t0;
    let t4 = seq![flag(nanb || (azb && bib))] + (seq![ai, bi, az, bz, ex, ey, sx, sy, mx, my] + rest);
    let t5 = seq![bz] + t4;
    let t6 = seq![ai] + t5;
    let t7 = seq![flag(bzb && aib)] + t4;
    let t8 = seq![flag((nanb || (azb && bib)) || (bzb && aib))] + (seq![ai, bi, az, bz, ex, ey, sx, sy, mx, my] + rest);
    assert(t0[3] == az);
    assert(t1[3] == bi);
    assert(t2.skip(2) =~= t0);
    lemma_flag_ops(azb, bib);
    assert(t3.skip(2) =~= seq![ai, bi, az, bz, ex, ey, sx, sy, mx, my] + rest);
    lemma_flag_ops(nanb, azb && bib);
    assert(t4[4] == bz);
    assert(t5[2] == ai);
    assert(t6.skip(2) =~= t4);
    lemma_flag_ops(bzb, aib);
    assert(t7.skip(2) =~= seq![ai, bi, az, bz, ex, ey, sx, sy, mx, my] + rest);
    lemma_flag_ops(nanb || (azb && bib), bzb && aib);
    assert(step(is[0], mem, t0, fuel) == Some(t1));
    assert(step(is[1], mem, t1, fuel) == Some(t2));
    assert(step(is[2], mem, t2, fuel) == Some(t3));
    assert(step(is[3], mem, t3, fuel) == Some(t4));
    assert(step(is[4], mem, t4, fuel) == Some(t5));
    assert(step(is[5], mem, t5, fuel) == Some(t6));
    assert(step(is[6], mem, t6, fuel) == Some(t7));
    assert(step(is[7], mem, t7, fuel) == Some(t8));
    lemma_run_from(is, 7, mem, t7, fuel);
    lemma_run_from(is, 6, mem, t6, fuel);
    lemma_run_from(is, 5, mem, t5, fuel);
    lemma_run_from(is, 4, mem, t4, fuel);
    lemma_run_from(is, 3, mem, t3, fuel);
    lemma_run_from(is, 2, mem, t2, fuel);
    lemma_run_from(is, 1, mem, t1, fuel);
    lemma_run_from(is, 0, mem, t0, fuel);
    assert(is.skip(0) =~= is);
    assert(is.skip(8) =~= Seq::<Inst>::empty());
}

/// The first test of [`div_body`]: a NaN, two infinities or two zeros.
#[verifier::spinoff_prover]
#[verifier::rlimit(60)]
pub(crate) proof fn lemma_div_invalid(
    nanb: bool, aib: bool, bib: bool, azb: bool, bzb: bool, ex: int, ey: int, sx: int, sy: int, mx: int, my: int,
    mem: spec_fn(int) -> int, rest: Seq<int>, fuel: nat,
)
    ensures
        ({
            let nan = flag(nanb);
            let ai = flag(aib);
            let bi = flag(bib);
            let az = flag(azb);
            let bz = flag(bzb);
            run(div_body()[0]->If_condition, mem, seq![nan, ai, bi, az, bz, ex, ey, sx, sy, mx, my] + rest, fuel) == Some(
                seq![flag((nanb || (bib && aib)) || (bzb && azb))] + (seq![ai, bi, az, bz, ex, ey, sx, sy, mx, my] + rest),
            )
        }),
{
    reveal(div_body);
    let nan = flag(nanb);
    let ai = flag(aib);
    let bi = flag(bib);
    let az = flag(azb);
    let bz = flag(bzb);
    let is = div_body()[0]->If_condition;
    let t0 = seq![nan, ai, bi, az, bz, ex, ey, sx, sy, mx, my] + rest;
    let t1 = seq![bi] + t0;
    let t2 = seq![ai] + t1;
    let t3 = seq![flag(bib && aib)] + t0;
    let t4 = seq![flag(nanb || (bib && aib))] + (seq![ai, bi, az, bz, ex, ey, sx, sy, mx, my] + rest);
    let t5 = seq![bz] + t4;
    let t6 = seq![az] + t5;
    let t7 = seq![flag(bzb && azb)] + t4;
    let t8 = seq![flag((nanb || (bib && aib)) || (bzb && azb))] + (seq![ai, bi, az, bz, ex, ey, sx, sy, mx, my] + rest);
    assert(t0[2] == bi);
    assert(t1[2] == ai);
    assert(t2.skip(2) =~= t0);
    lemma_flag_ops(bib, aib);
    assert(t3.skip(2) =~= seq![ai, bi, az, bz, ex, ey, sx, sy, mx, my] + rest);
    lemma_flag_ops(nanb, bib && aib);
    assert(t4[4] == bz);
    assert(t5[4] == az);
    assert(t6.skip(2) =~= t4);
    lemma_flag_ops(bzb, azb);
    assert(t7.skip(2) =~= seq![ai, bi, az, bz, ex, ey, sx, sy, mx, my] + rest);
    lemma_flag_ops(nanb || (bib && aib), bzb && azb);
    assert(step(is[0], mem, t0, fuel) == Some(t1));
    assert(step(is[1], mem, t1, fuel) == Some(t2));
    assert(step(is[2], mem, t2, fuel) == Some(t3));
    assert(step(is[3], mem, t3, fuel) == Some(t4));
    assert(step(is[4], mem, t4, fuel) == Some(t5));
    assert(step(is[5], mem, t5, fuel) == Some(t6));
    assert(step(is[6], mem, t6, fuel) == Some(t7));
    assert(step(is[7], mem, t7, fuel) == Some(t8));
    lemma_run_from(is, 7, mem, t7, fuel);
    lemma_run_from(is, 6, mem, t6, fuel);
    lemma_run_from(is, 5, mem, t5, fuel);
    lemma_run_from(is, 4, mem, t4, fuel);
    lemma_run_from(is, 3, mem, t3, fuel);
    lemma_run_from(is, 2, mem, t2, fuel);
    lemma_run_from(is, 1, mem, t1, fuel);
    lemma_run_from(is, 0, mem, t0, fuel);
    assert(is.skip(0) =~= is);
    assert(is.skip(8) =~= Seq::<Inst>::empty());
}

/// What the infinite case of [`mul_tree`] leaves after its drops: an
/// infinity with the sign of the product.
#[verifier::spinoff_prover]
#[verifier::rlimit(60)]
proof fn lemma_mul_inf_tail(sx: int, sy: int, mx: int, my: int, mem: spec_fn(int) -> int, rest: Seq<int>, fuel: nat)
    requires
        is_u32(sx),
        is_u32(sy),
    ensures
        run(mul_tree()->If_else_[0]->If_then.skip(4), mem, seq![sx, sy, mx, my] + rest, fuel) == Some(
            seq![(((((sy as u32) ^ (sx as u32)) as int) as u32) | INFINITY) as int] + rest,
        ),
{
    let is = mul_tree()->If_else_[0]->If_then.skip(4);
    let t0 = seq![sx, sy, mx, my] + rest;
    let t1 = seq![((sy as u32) ^ (sx as u32)) as int, mx, my] + rest;
    let t2 = seq![mx, my, ((sy as u32) ^ (sx as u32)) as int] + rest;
    let t3 = seq![my, ((sy as u32) ^ (sx as u32)) as int] + rest;
    let t4 = seq![((sy as u32) ^ (sx as u32)) as int] + rest;
    let t5 = seq![INFINITY as int, ((sy as u32) ^ (sx as u32)) as int] + rest;
    let t6 = seq![(((((sy as u32) ^ (sx as u32)) as int) as u32) | INFINITY) as int] + rest;
    assert(t0.skip(2) =~= seq![mx, my] + rest);
    assert(t1.subrange(1, 3) + seq![t1[0]] + t1.skip(3) =~= t2);
    assert(t2.drop_first() =~= t3);
    assert(t3.drop_first() =~= t4);
    assert(t5 =~= seq![INFINITY as int] + t4);
    assert(t5.skip(2) =~= rest);
    assert(step(is[0], mem, t0, fuel) == Some(t1));
    assert(step(is[1], mem, t1, fuel) == Some(t2));
    assert(step(is[2], mem, t2, fuel) == Some(t3));
    assert(step(is[3], mem, t3, fuel) == Some(t4));
    assert(step(is[4], mem, t4, fuel) == Some(t5));
    assert(step(is[5], mem, t5, fuel) == Some(t6));
    lemma_run_from(is, 5, mem, t5, fuel);
    lemma_run_from(is, 4, mem, t4, fuel);
    lemma_run_from(is, 3, mem, t3, fuel);
    lemma_run_from(is, 2, mem, t2, fuel);
    lemma_run_from(is, 1, mem, t1, fuel);
    lemma_run_from(is, 0, mem, t0, fuel);
    assert(is.skip(0) =~= is);
    assert(is.skip(6) =~= Seq::<Inst>::empty());
}

/// The zero case of [`mul_tree`]: a zero with the sign of the product.
#[verifier::spinoff_prover]
#[verifier::rlimit(60)]
proof fn lemma_mul_zero(ex: int, ey: int, sx: int, sy: int, mx: int, my: int, mem: spec_fn(int) -> int, rest: Seq<int>, fuel: nat)
    requires
        is_u32(sx),
        is_u32(sy),
    ensures
        run(mul_tree()->If_else_[0]->If_else_[0]->If_then, mem, seq![ex, ey, sx, sy, mx, my] + rest, fuel) == Some(
            seq![((sy as u32) ^ (sx as u32)) as int] + rest,
        ),
{
    let is = mul_tree()->If_else_[0]->If_else_[0]->If_then;
    let t0 = seq![ex, ey, sx, sy, mx, my] + rest;
    let t1 = seq![ey, sx, sy, mx, my] + rest;
    let t2 = seq![sx, sy, mx, my] + rest;
    let t3 = seq![mx, sx, sy, my] + rest;
    let t4 = seq![sx, sy, my] + rest;
    let t5 = seq![my, sx, sy] + rest;
    let t6 = seq![sx, sy] + rest;
    let t7 = seq![((sy as u32) ^ (sx as u32)) as int] + rest;
    assert(t0.drop_first() =~= t1);
    assert(t1.drop_first() =~= t2);
    assert(seq![t2[2]] + t2.take(2) + t2.skip(3) =~= t3);
    assert(t3.drop_first() =~= t4);
    assert(seq![t4[2]] + t4.take(2) + t4.skip(3) =~= t5);
    assert(t5.drop_first() =~= t6);
    assert(t6.skip(2) =~= rest);
    assert(step(is[0], mem, t0, fuel) == Some(t1));
    assert(step(is[1], mem, t1, fuel) == Some(t2));
    assert(step(is[2], mem, t2, fuel) == Some(t3));
    assert(step(is[3], mem, t3, fuel) == Some(t4));
    assert(step(is[4], mem, t4, fuel) == Some(t5));
    assert(step(is[5], mem, t5, fuel) == Some(t6));
    assert(step(is[6], mem, t6, fuel) == Some(t7));
    lemma_run_from(is, 6, mem, t6, fuel);
    lemma_run_from(is, 5, mem, t5, fuel);
    lemma_run_from(is, 4, mem, t4, fuel);
    lemma_run_from(is, 3, mem, t3, fuel);
    lemma_run_from(is, 2, mem, t2, fuel);
    lemma_run_from(is, 1, mem, t1, fuel);
    lemma_run_from(is, 0, mem, t0, fuel);
    assert(is.skip(0) =~= is);
    assert(is.skip(7) =~= Seq::<Inst>::empty());
}

/// What the infinite case of [`div_body`] leaves after its drops: an
/// infinity with the sign of the quotient.
#[verifier::spinoff_prover]
#[verifier::rlimit(60)]
proof fn lemma_div_inf_tail(sx: int, sy: int, mx: int, my: int, mem: spec_fn(int) -> int, rest: Seq<int>, fuel: nat)
    requires
        sx == 0 || sx == SIGN_MASK,
        sy == 0 || sy == SIGN_MASK,
    ensures
        run(div_body()[0]->If_else_[0]->If_then.skip(4), mem, seq![sx, sy, mx, my] + rest, fuel) == Some(
            seq![((sy as u32) ^ (sx as u32)) as int + INFINITY] + rest,
        ),
{
    reveal(div_body);
    assert((((sy as u32) ^ (sx as u32)) as int) == 0 || (((sy as u32) ^ (sx as u32)) as int) == SIGN_MASK) by {
        let a = sx as u32;
        let b = sy as u32;
        assert((a == 0u32 || a == 0x8000_0000u32) && (b == 0u32 || b == 0x8000_0000u32) ==> (b ^ a == 0u32
            || b ^ a == 0x8000_0000u32)) by (bit_vector);
    }
    let is = div_body()[0]->If_else_[0]->If_then.skip(4);
    let t0 = seq![sx, sy, mx, my] + rest;
    let t1 = seq![((sy as u32) ^ (sx as u32)) as int, mx, my] + rest;
    let t2 = seq![mx, my, ((sy as u32) ^ (sx as u32)) as int] + rest;
    let t3 = seq![my, ((sy as u32) ^ (sx as u32)) as int] + rest;
    let t4 = seq![((sy as u32) ^ (sx as u32)) as int] + rest;
    let t5 = seq![INFINITY as int, ((sy as u32) ^ (sx as u32)) as int] + rest;
    let t6 = seq![((sy as u32) ^ (sx as u32)) as int + INFINITY] + rest;
    assert(t0.skip(2) =~= seq![mx, my] + rest);
    assert(t1.subrange(1, 3) + seq![t1[0]] + t1.skip(3) =~= t2);
    assert(t2.drop_first() =~= t3);
    assert(t3.drop_first() =~= t4);
    assert(t5 =~= seq![INFINITY as int] + t4);
    assert(t5.skip(2) =~= rest);
    assert(step(is[0], mem, t0, fuel) == Some(t1));
    assert(step(is[1], mem, t1, fuel) == Some(t2));
    assert(step(is[2], mem, t2, fuel) == Some(t3));
    assert(step(is[3], mem, t3, fuel) == Some(t4));
    assert(step(is[4], mem, t4, fuel) == Some(t5));
    assert(step(is[5], mem, t5, fuel) == Some(t6));
    lemma_run_from(is, 5, mem, t5, fuel);
    lemma_run_from(is, 4, mem, t4, fuel);
    lemma_run_from(is, 3, mem, t3, fuel);
    lemma_run_from(is, 2, mem, t2, fuel);
    lemma_run_from(is, 1, mem, t1, fuel);
    lemma_run_from(is, 0, mem, t0, fuel);
    assert(is.skip(0) =~= is);
    assert(is.skip(6) =~= Seq::<Inst>::empty());
}

/// The zero case of [`div_body`]: a zero with the sign of the quotient.
#[verifier::spinoff_prover]
#[verifier::rlimit(60)]
proof fn lemma_div_zero(ex: int, ey: int, sx: int, sy: int, mx: int, my: int, mem: spec_fn(int) -> int, rest: Seq<int>, fuel: nat)
    requires
        is_u32(sx),
        is_u32(sy),
    ensures
        run(div_body()[0]->If_else_[0]->If_else_[0]->If_then, mem, seq![ex, ey, sx, sy, mx, my] + rest, fuel) == Some(
            seq![((sy as u32) ^ (sx as u32)) as int] + rest,
        ),
{
    reveal(div_body);
    let is = div_body()[0]->If_else_[0]->If_else_[0]->If_then;
    let t0 = seq![ex, ey, sx, sy, mx, my] + rest;
    let t1 = seq![ey, sx, sy, mx, my] + rest;
    let t2 = seq![sx, sy, mx, my] + rest;
    let t3 = seq![((sy as u32) ^ (sx as u32)) as int, mx, my] + rest;
    let t4 = seq![mx, my, ((sy as u32) ^ (sx as u32)) as int] + rest;
    let t5 = seq![my, ((sy as u32) ^ (sx as u32)) as int] + rest;
    let t6 = seq![((sy as u32) ^ (sx as u32)) as int] + rest;
    assert(t0.drop_first() =~= t1);
    assert(t1.drop_first() =~= t2);
    assert(t2.skip(2) =~= seq![mx, my] + rest);
    assert(t3.subrange(1, 3) + seq![t3[0]] + t3.skip(3) =~= t4);
    assert(t4.drop_first() =~= t5);
    assert(t5.drop_first() =~= t6);
    assert(step(is[0], mem, t0, fuel) == Some(t1));
    assert(step(is[1], mem, t1, fuel) == Some(t2));
    assert(step(is[2], mem, t2, fuel) == Some(t3));
    assert(step(is[3], mem, t3, fuel) == Some(t4));
    assert(step(is[4], mem, t4, fuel) == Some(t5));
    assert(step(is[5], mem, t5, fuel) == Some(t6));
    lemma_run_from(is, 5, mem, t5, fuel);
    lemma_run_from(is, 4, mem, t4, fuel);
    lemma_run_from(is, 3, mem, t3, fuel);
    lemma_run_from(is, 2, mem, t2, fuel);
    lemma_run_from(is, 1, mem, t1, fuel);
    lemma_run_from(is, 0, mem, t0, fuel);
    assert(is.skip(0) =~= is);
    assert(is.skip(6) =~= Seq::<Inst>::empty());
}

/// Whether the float with bits `x` is an infinity.
pub open spec fn is_infinite(x: u32) -> bool {
    exponent(x) == EXP_MAX && mantissa(x) == 0
}

/// Whether the float with bits `x` is a zero, of either sign.
pub open spec fn is_zero(x: u32) -> bool {
    exponent(x) == 0 && mantissa(x) == 0
}

/// The sign bit of a product or quotient of `x` and `y`, in place.
pub open spec fn product_sign(x: u32, y: u32) -> u32 {
    sign_bits(x) ^ sign_bits(y)
}

/// IEEE 754 `x * y` where one of the two is a NaN, an infinity or a zero:
/// NaN where a NaN is involved or an infinity meets a zero, otherwise an
/// infinity where either is infinite and a zero where either is zero, with
/// the sign of the product.
pub open spec fn mul_special(x: u32, y: u32) -> u32 {
    if is_nan(x) || is_nan(y) || (is_infinite(x) && is_zero(y)) || (is_zero(x) && is_infinite(y)) {
        NAN
    } else if is_infinite(x) || is_infinite(y) {
        product_sign(x, y) | INFINITY
    } else {
        product_sign(x, y)
    }
}

/// IEEE 754 `x / y` where one of the two is a NaN, an infinity or a zero:
/// NaN where a NaN is involved, both are infinite or both are zero;
/// otherwise an infinity where `x` is infinite or `y` is zero and a zero
/// where `x` is zero or `y` is infinite, with the sign of the quotient.
pub open spec fn div_special(x: u32, y: u32) -> u32 {
    if is_nan(x) || is_nan(y) || (is_infinite(x) && is_infinite(y)) || (is_zero(x) && is_zero(y)) {
        NAN
    } else if is_infinite(x) || is_zero(y) {
        product_sign(x, y) | INFINITY
    } else {
        product_sign(x, y)
    }
}

/// How the classification flags and the sign of the result relate to the
/// floats.
pub(crate) proof fn lemma_special_parts(x: u32, y: u32)
    ensures
        ({
            let (ex, sx, mx) = parts(x);
            let (ey, sy, my) = parts(y);
            &&& ((ey == 255 && my != 0) || (ex == 255 && mx != 0)) == (is_nan(x) || is_nan(y))
            &&& !is_nan(x) ==> ((ex == 255) == is_infinite(x))
            &&& !is_nan(y) ==> ((ey == 255) == is_infinite(y))
            &&& (ex == 0 && mx == 0) == is_zero(x)
            &&& (ey == 0 && my == 0) == is_zero(y)
            &&& ((sy as u32) ^ (sx as u32)) == product_sign(x, y)
            &&& (product_sign(x, y) == 0 || product_sign(x, y) == SIGN_MASK)
            &&& (product_sign(x, y) | INFINITY) as int == product_sign(x, y) + INFINITY
        }),
{
    lemma_fields(x);
    lemma_fields(y);
    let a = x & 0x8000_0000u32;
    let b = y & 0x8000_0000u32;
    assert((y & 0x8000_0000u32) ^ (x & 0x8000_0000u32) == (x & 0x8000_0000u32) ^ (y & 0x8000_0000u32))
        by (bit_vector);
    assert(((x & 0x8000_0000u32) ^ (y & 0x8000_0000u32) == 0u32) || ((x & 0x8000_0000u32) ^ (y
        & 0x8000_0000u32) == 0x8000_0000u32)) by (bit_vector);
    assert((0u32 | 0x7f80_0000u32) == 0x7f80_0000u32 && (0x8000_0000u32 | 0x7f80_0000u32)
        == 0xff80_0000u32) by (bit_vector);
}

/// What the code of [`mul_tree`] leaves where one of the floats is a NaN,
/// an infinity or a zero.
#[verifier::spinoff_prover]
#[verifier::rlimit(60)]
proof fn lemma_mul_tree_special(x: u32, y: u32, mem: spec_fn(int) -> int, rest: Seq<int>, fuel: nat)
    requires
        is_nan(x) || is_nan(y) || is_infinite(x) || is_infinite(y) || is_zero(x) || is_zero(y),
    ensures
        ({
            let (ex, sx, mx) = parts(x);
            let (ey, sy, my) = parts(y);
            step(
                mul_tree(),
                mem,
                seq![
                    flag((ey == 255 && my != 0) || (ex == 255 && mx != 0)),
                    flag(ex == 255),
                    flag(ey == 255),
                    flag(ex == 0 && mx == 0),
                    flag(ey == 0 && my == 0),
                    ex,
                    ey,
                    sx,
                    sy,
                    mx,
                    my,
                ] + rest,
                fuel,
            ) == Some(seq![mul_special(x, y) as int] + rest)
        }),
{
    let (ex, sx, mx) = parts(x);
    let (ey, sy, my) = parts(y);
    lemma_fields(x);
    lemma_fields(y);
    lemma_special_parts(x, y);
    let nanb = (ey == 255 && my != 0) || (ex == 255 && mx != 0);
    let aib = ex == 255;
    let bib = ey == 255;
    let azb = ex == 0 && mx == 0;
    let bzb = ey == 0 && my == 0;
    let u = seq![flag(aib), flag(bib), flag(azb), flag(bzb), ex, ey, sx, sy, mx, my] + rest;
    let v = seq![flag(azb), flag(bzb), ex, ey, sx, sy, mx, my] + rest;
    let w = seq![ex, ey, sx, sy, mx, my] + rest;
    let tree = mul_tree();
    let r = mul_special(x, y) as int;
    lemma_mul_invalid(nanb, aib, bib, azb, bzb, ex, ey, sx, sy, mx, my, mem, rest, fuel);
    let cf = flag((nanb || (azb && bib)) || (bzb && aib));
    assert((seq![cf] + u).drop_first() =~= u);
    if cf == 1 {
        lemma_run_add(drop_insts(10), seq![Inst::Push(NAN)], mem, u, fuel);
        lemma_drops(10, mem, u, fuel);
        assert(u.skip(10) =~= rest);
        lemma_run_one(Inst::Push(NAN), mem, rest, fuel);
    } else {
        let inf_if = tree->If_else_[0];
        lemma_run_one(inf_if, mem, u, fuel);
        lemma_run_one(Inst::U32CheckedOr, mem, u, fuel);
        assert(inf_if->If_condition =~= seq![Inst::U32CheckedOr]);
        lemma_flag_ops(bib, aib);
        assert(u.skip(2) =~= v);
        assert((seq![flag(bib || aib)] + u.skip(2)).drop_first() =~= v);
        if aib || bib {
            let then = inf_if->If_then;
            assert(then =~= drop_insts(4) + then.skip(4));
            lemma_run_add(drop_insts(4), then.skip(4), mem, v, fuel);
            lemma_drops(4, mem, v, fuel);
            assert(v.skip(4) =~= seq![sx, sy, mx, my] + rest);
            lemma_mul_inf_tail(sx, sy, mx, my, mem, rest, fuel);
        } else {
            let zero_if = inf_if->If_else_[0];
            lemma_run_one(zero_if, mem, v, fuel);
            lemma_run_one(Inst::U32CheckedOr, mem, v, fuel);
            assert(zero_if->If_condition =~= seq![Inst::U32CheckedOr]);
            lemma_flag_ops(bzb, azb);
            assert(v.skip(2) =~= w);
            assert((seq![flag(bzb || azb)] + v.skip(2)).drop_first() =~= w);
            lemma_mul_zero(ex, ey, sx, sy, mx, my, mem, rest, fuel);
            assert(step(zero_if, mem, v, fuel) == Some(seq![r] + rest));
        }
        assert(step(inf_if, mem, u, fuel) == Some(seq![r] + rest));
    }
}

/// What the code of [`div_body`] leaves where one of the floats is a NaN,
/// an infinity or a zero.
#[verifier::spinoff_prover]
#[verifier::rlimit(60)]
proof fn lemma_div_tree_special(x: u32, y: u32, mem: spec_fn(int) -> int, rest: Seq<int>, fuel: nat)
    requires
        is_nan(x) || is_nan(y) || is_infinite(x) || is_infinite(y) || is_zero(x) || is_zero(y),
    ensures
        ({
            let (ex, sx, mx) = parts(x);
            let (ey, sy, my) = parts(y);
            step(
                div_body()[0],
                mem,
                seq![
                    flag((ey == 255 && my != 0) || (ex == 255 && mx != 0)),
                    flag(ex == 255),
                    flag(ey == 255),
                    flag(ex == 0 && mx == 0),
                    flag(ey == 0 && my == 0),
                    ex,
                    ey,
                    sx,
                    sy,
                    mx,
                    my,
                ] + rest,
                fuel,
            ) == Some(seq![div_special(x, y) as int] + rest)
        }),
{
    reveal(div_body);
    let (ex, sx, mx) = parts(x);
    let (ey, sy, my) = parts(y);
    lemma_fields(x);
    lemma_fields(y);
    lemma_special_parts(x, y);
    let nanb = (ey == 255 && my != 0) || (ex == 255 && mx != 0);
    let aib = ex == 255;
    let bib = ey == 255;
    let azb = ex == 0 && mx == 0;
    let bzb = ey == 0 && my == 0;
    let u = seq![flag(aib), flag(bib), flag(azb), flag(bzb), ex, ey, sx, sy, mx, my] + rest;
    let v = seq![flag(bib), flag(azb), ex, ey, sx, sy, mx, my] + rest;
    let w = seq![ex, ey, sx, sy, mx, my] + rest;
    let tree = div_body()[0];
    let r = div_special(x, y) as int;
    lemma_div_invalid(nanb, aib, bib, azb, bzb, ex, ey, sx, sy, mx, my, mem, rest, fuel);
    let cf = flag((nanb || (bib && aib)) || (bzb && azb));
    assert((seq![cf] + u).drop_first() =~= u);
    assert(run(tree->If_condition, mem, seq![
        flag(nanb), flag(aib), flag(bib), flag(azb), flag(bzb), ex, ey, sx, sy, mx, my] + rest, fuel) == Some(seq![cf] + u));
    if cf == 1 {
        lemma_run_add(drop_insts(10), seq![Inst::Push(NAN)], mem, u, fuel);
        lemma_drops(10, mem, u, fuel);
        assert(u.skip(10) =~= rest);
        lemma_run_one(Inst::Push(NAN), mem, rest, fuel);
        assert(tree->If_then == drop_insts(10) + seq![Inst::Push(NAN)]);
        assert(r == NAN);
    } else {
        let inf_if = tree->If_else_[0];
        lemma_run_one(inf_if, mem, u, fuel);
        // MovUp(3), then Or: `a` infinite or `b` zero
        let u1 = seq![flag(bzb), flag(aib), flag(bib), flag(azb), ex, ey, sx, sy, mx, my] + rest;
        assert(seq![u[3]] + u.take(3) + u.skip(4) =~= u1);
        lemma_flag_ops(aib, bzb);
        assert(u1.skip(2) =~= v);
        let c2 = seq![flag(aib || bzb)] + v;
        assert(inf_if->If_condition =~= seq![Inst::MovUp(3), Inst::U32CheckedOr]);
        lemma_run_from(inf_if->If_condition, 1, mem, u1, fuel);
        lemma_run_from(inf_if->If_condition, 0, mem, u, fuel);
        assert(inf_if->If_condition.skip(0) =~= inf_if->If_condition);
        assert(inf_if->If_condition.skip(2) =~= Seq::<Inst>::empty());
        assert(run(inf_if->If_condition, mem, u, fuel) == Some(c2));
        assert(c2.drop_first() =~= v);
        if aib || bzb {
            let then = inf_if->If_then;
            assert(then =~= drop_insts(4) + then.skip(4));
            lemma_run_add(drop_insts(4), then.skip(4), mem, v, fuel);
            lemma_drops(4, mem, v, fuel);
            assert(v.skip(4) =~= seq![sx, sy, mx, my] + rest);
            lemma_div_inf_tail(sx, sy, mx, my, mem, rest, fuel);
            assert(run(then, mem, v, fuel) == Some(seq![r] + rest));
        } else {
            let zero_if = inf_if->If_else_[0];
            lemma_run_one(zero_if, mem, v, fuel);
            lemma_run_one(Inst::U32CheckedOr, mem, v, fuel);
            assert(zero_if->If_condition =~= seq![Inst::U32CheckedOr]);
            lemma_flag_ops(azb, bib);
            assert(v.skip(2) =~= w);
            assert((seq![flag(azb || bib)] + v.skip(2)).drop_first() =~= w);
            lemma_div_zero(ex, ey, sx, sy, mx, my, mem, rest, fuel);
            assert(step(zero_if, mem, v, fuel) == Some(seq![r] + rest));
        }
        assert(step(inf_if, mem, u, fuel) == Some(seq![r] + rest));
    }
}

/// The code that [`mul`] emits, up to the store of its result, gives the
/// IEEE 754 product where one of the floats in the cells `a` and `b` is a NaN,
/// an infinity or a zero: see [`mul_special`].
#[verifier::spinoff_prover]
#[verifier::rlimit(60)]
pub proof fn lemma_mul_special_values(a: u32, b: u32, mem: spec_fn(int) -> int, rest: Seq<int>, fuel: nat)
    requires
        a + WIDTH <= u32::MAX,
        b + WIDTH <= u32::MAX,
        is_u32(mem(a as int)),
        is_u32(mem(b as int)),
        ({
            let x = mem(a as int) as u32;
            let y = mem(b as int) as u32;
            is_nan(x) || is_nan(y) || is_infinite(x) || is_infinite(y) || is_zero(x) || is_zero(y)
        }),
    ensures
        ({
            let x = mem(a as int) as u32;
            let y = mem(b as int) as u32;
            run(prepare_insts(a, b) + nan_inf_zero_insts() + seq![mul_tree()], mem, rest, fuel) == Some(
                seq![mul_special(x, y) as int] + rest,
            )
        }),
{
    let x = mem(a as int) as u32;
    let y = mem(b as int) as u32;
    let (ex, sx, mx) = parts(x);
    let (ey, sy, my) = parts(y);
    lemma_fields(x);
    lemma_fields(y);
    lemma_prepare(a, b, mem, rest, fuel);
    lemma_classify(ex, ey, sx, sy, mx, my, mem, rest, fuel);
    let classified = seq![
        flag((ey == 255 && my != 0) || (ex == 255 && mx != 0)),
        flag(ex == 255),
        flag(ey == 255),
        flag(ex == 0 && mx == 0),
        flag(ey == 0 && my == 0),
        ex,
        ey,
        sx,
        sy,
        mx,
        my,
    ] + rest;
    lemma_mul_tree_special(x, y, mem, rest, fuel);
    lemma_run_one(mul_tree(), mem, classified, fuel);
    lemma_run_add(prepare_insts(a, b), nan_inf_zero_insts(), mem, rest, fuel);
    lemma_run_add(prepare_insts(a, b) + nan_inf_zero_insts(), seq![mul_tree()], mem, rest, fuel);
}

/// The code that [`div`] emits, up to the store of its result, gives the
/// IEEE 754 quotient where one of the floats in the cells `a` and `b` is a NaN,
/// an infinity or a zero: see [`div_special`].
#[verifier::spinoff_prover]
#[verifier::rlimit(60)]
pub proof fn lemma_div_special_values(a: u32, b: u32, mem: spec_fn(int) -> int, rest: Seq<int>, fuel: nat)
    requires
        a + WIDTH <= u32::MAX,
        b + WIDTH <= u32::MAX,
        is_u32(mem(a as int)),
        is_u32(mem(b as int)),
        ({
            let x = mem(a as int) as u32;
            let y = mem(b as int) as u32;
            is_nan(x) || is_nan(y) || is_infinite(x) || is_infinite(y) || is_zero(x) || is_zero(y)
        }),
    ensures
        ({
            let x = mem(a as int) as u32;
            let y = mem(b as int) as u32;
            run(prepare_insts(a, b) + nan_inf_zero_insts() + div_body(), mem, rest, fuel) == Some(
                seq![div_special(x, y) as int] + rest,
            )
        }),
{
    let x = mem(a as int) as u32;
    let y = mem(b as int) as u32;
    let (ex, sx, mx) = parts(x);
    let (ey, sy, my) = parts(y);
    lemma_fields(x);
    lemma_fields(y);
    lemma_prepare(a, b, mem, rest, fuel);
    lemma_classify(ex, ey, sx, sy, mx, my, mem, rest, fuel);
    let classified = seq![
        flag((ey == 255 && my != 0) || (ex == 255 && mx != 0)),
        flag(ex == 255),
        flag(ey == 255),
        flag(ex == 0 && mx == 0),
        flag(ey == 0 && my == 0),
        ex,
        ey,
        sx,
        sy,
        mx,
        my,
    ] + rest;
    reveal(div_body);
    assert(div_body() =~= seq![div_body()[0]]);
    lemma_div_tree_special(x, y, mem, rest, fuel);
    lemma_run_one(div_body()[0], mem, classified, fuel);
    lemma_run_add(prepare_insts(a, b), nan_inf_zero_insts(), mem, rest, fuel);
    lemma_run_add(prepare_insts(a, b) + nan_inf_zero_insts(), div_body(), mem, rest, fuel);
}

/// The first test of [`add_body`]: a NaN, or infinities of opposite signs.
#[verifier::spinoff_prover]
#[verifier::rlimit(60)]
pub(crate) proof fn lemma_add_invalid(
    nanb: bool, aib: bool, bib: bool, azb: bool, bzb: bool, ex: int, ey: int, sx: int, sy: int, mx: int, my: int,
    mem: spec_fn(int) -> int, rest: Seq<int>, fuel: nat,
)
    requires
        is_u32(sx), is_u32(sy),
    ensures
        ({
            let nan = flag(nanb);
            let ai = flag(aib);
            let bi = flag(bib);
            let az = flag(azb);
            let bz = flag(bzb);
            run(add_body()[0]->If_condition, mem, seq![nan, ai, bi, az, bz, ex, ey, sx, sy, mx, my] + rest, fuel) == Some(
                seq![flag(nanb || ((bib && aib) && sy != sx))] + (seq![ai, bi, az, bz, ex, ey, sx, sy, mx, my] + rest),
            )
        }),
{
    reveal(add_body);
    let nan = flag(nanb);
    let ai = flag(aib);
    let bi = flag(bib);
    let az = flag(azb);
    let bz = flag(bzb);
    let is = add_body()[0]->If_condition;
    let t0 = seq![nan, ai, bi, az, bz, ex, ey, sx, sy, mx, my] + rest;
    let t1 = seq![bi] + t0;
    let t2 = seq![ai] + t1;
    let t3 = seq![flag(bib && aib)] + t0;
    let t4 = seq![sy] + t3;
    let t5 = seq![sx] + t4;
    let t6 = seq![flag(sy != sx)] + t3;
    let t7 = seq![flag((bib && aib) && sy != sx)] + t0;
    let t8 = seq![flag(nanb || ((bib && aib) && sy != sx))] + (seq![ai, bi, az, bz, ex, ey, sx, sy, mx, my] + rest);
    assert(t0[2] == bi);
    assert(t1[2] == ai);
    assert(t2.skip(2) =~= t0);
    lemma_flag_ops(bib, aib);
    assert(t3[9] == sy);
    assert(t4[9] == sx);
    assert(t5.skip(2) =~= t3);
    assert(t6.skip(2) =~= t0);
    lemma_flag_ops(bib && aib, sy != sx);
    assert(t7.skip(2) =~= seq![ai, bi, az, bz, ex, ey, sx, sy, mx, my] + rest);
    lemma_flag_ops(nanb, (bib && aib) && sy != sx);
    assert(step(is[0], mem, t0, fuel) == Some(t1));
    assert(step(is[1], mem, t1, fuel) == Some(t2));
    assert(step(is[2], mem, t2, fuel) == Some(t3));
    assert(step(is[3], mem, t3, fuel) == Some(t4));
    assert(step(is[4], mem, t4, fuel) == Some(t5));
    assert(step(is[5], mem, t5, fuel) == Some(t6));
    assert(step(is[6], mem, t6, fuel) == Some(t7));
    assert(step(is[7], mem, t7, fuel) == Some(t8));
    lemma_run_from(is, 7, mem, t7, fuel);
    lemma_run_from(is, 6, mem, t6, fuel);
    lemma_run_from(is, 5, mem, t5, fuel);
    lemma_run_from(is, 4, mem, t4, fuel);
    lemma_run_from(is, 3, mem, t3, fuel);
    lemma_run_from(is, 2, mem, t2, fuel);
    lemma_run_from(is, 1, mem, t1, fuel);
    lemma_run_from(is, 0, mem, t0, fuel);
    assert(is.skip(0) =~= is);
    assert(is.skip(8) =~= Seq::<Inst>::empty());
}

/// What the case of an infinite `a` in [`add_body`] leaves after its drops.
#[verifier::spinoff_prover]
#[verifier::rlimit(60)]
proof fn lemma_add_a_inf_tail(sx: int, sy: int, mx: int, my: int, mem: spec_fn(int) -> int, rest: Seq<int>, fuel: nat)
    requires
        is_u32(sx),
    ensures
        run(add_body()[0]->If_else_[0]->If_then.skip(5), mem, seq![sx, sy, mx, my] + rest, fuel) == Some(
            seq![((sx as u32) | INFINITY) as int] + rest,
        ),
{
    reveal(add_body);
    let is = add_body()[0]->If_else_[0]->If_then.skip(5);
    let t0 = seq![sx, sy, mx, my] + rest;
    let t1 = seq![sy, mx, my, sx] + rest;
    let t2 = seq![mx, my, sx] + rest;
    let t3 = seq![my, sx] + rest;
    let t4 = seq![sx] + rest;
    let t5 = seq![INFINITY as int, sx] + rest;
    let t6 = seq![((sx as u32) | INFINITY) as int] + rest;
    assert(t0.subrange(1, 4) + seq![t0[0]] + t0.skip(4) =~= t1);
    assert(t1.drop_first() =~= t2);
    assert(t2.drop_first() =~= t3);
    assert(t3.drop_first() =~= t4);
    assert(t5 =~= seq![INFINITY as int] + t4);
    assert(t5.skip(2) =~= rest);
    assert(step(is[0], mem, t0, fuel) == Some(t1));
    assert(step(is[1], mem, t1, fuel) == Some(t2));
    assert(step(is[2], mem, t2, fuel) == Some(t3));
    assert(step(is[3], mem, t3, fuel) == Some(t4));
    assert(step(is[4], mem, t4, fuel) == Some(t5));
    assert(step(is[5], mem, t5, fuel) == Some(t6));
    lemma_run_from(is, 5, mem, t5, fuel);
    lemma_run_from(is, 4, mem, t4, fuel);
    lemma_run_from(is, 3, mem, t3, fuel);
    lemma_run_from(is, 2, mem, t2, fuel);
    lemma_run_from(is, 1, mem, t1, fuel);
    lemma_run_from(is, 0, mem, t0, fuel);
    assert(is.skip(0) =~= is);
    assert(is.skip(6) =~= Seq::<Inst>::empty());
}

/// What the case of an infinite `b` in [`add_body`] leaves after its drops.
#[verifier::spinoff_prover]
#[verifier::rlimit(60)]
proof fn lemma_add_b_inf_tail(sy: int, mx: int, my: int, mem: spec_fn(int) -> int, rest: Seq<int>, fuel: nat)
    requires
        is_u32(sy),
    ensures
        run(add_body()[0]->If_else_[0]->If_else_[0]->If_then.skip(5), mem, seq![sy, mx, my] + rest, fuel) == Some(
            seq![((sy as u32) | INFINITY) as int] + rest,
        ),
{
    reveal(add_body);
    let is = add_body()[0]->If_else_[0]->If_else_[0]->If_then.skip(5);
    let t0 = seq![sy, mx, my] + rest;
    let t1 = seq![mx, my, sy] + rest;
    let t2 = seq![my, sy] + rest;
    let t3 = seq![sy] + rest;
    let t4 = seq![INFINITY as int, sy] + rest;
    let t5 = seq![((sy as u32) | INFINITY) as int] + rest;
    assert(t0.subrange(1, 3) + seq![t0[0]] + t0.skip(3) =~= t1);
    assert(t1.drop_first() =~= t2);
    assert(t2.drop_first() =~= t3);
    assert(t4 =~= seq![INFINITY as int] + t3);
    assert(t4.skip(2) =~= rest);
    assert(step(is[0], mem, t0, fuel) == Some(t1));
    assert(step(is[1], mem, t1, fuel) == Some(t2));
    assert(step(is[2], mem, t2, fuel) == Some(t3));
    assert(step(is[3], mem, t3, fuel) == Some(t4));
    assert(step(is[4], mem, t4, fuel) == Some(t5));
    lemma_run_from(is, 4, mem, t4, fuel);
    lemma_run_from(is, 3, mem, t3, fuel);
    lemma_run_from(is, 2, mem, t2, fuel);
    lemma_run_from(is, 1, mem, t1, fuel);
    lemma_run_from(is, 0, mem, t0, fuel);
    assert(is.skip(0) =~= is);
    assert(is.skip(5) =~= Seq::<Inst>::empty());
}

/// The case of a zero `a` in [`add_body`]: `b`, put back together.
#[verifier::spinoff_prover]
#[verifier::rlimit(60)]
proof fn lemma_add_a_zero(bz: int, ex: int, ey: int, sx: int, sy: int, mx: int, my: int, mem: spec_fn(int) -> int, rest: Seq<int>, fuel: nat)
    requires
        0 <= ey <= 255, is_u32(sy), is_u32(my),
    ensures
        run(add_body()[0]->If_else_[0]->If_else_[0]->If_else_[0]->If_then, mem, seq![bz, ex, ey, sx, sy, mx, my] + rest, fuel) == Some(
            seq![(((ey * 0x80_0000int) as u32) | (((my as u32) | (sy as u32)) as int as u32)) as int] + rest,
        ),
{
    reveal(add_body);
    let is = add_body()[0]->If_else_[0]->If_else_[0]->If_else_[0]->If_then;
    let t0 = seq![bz, ex, ey, sx, sy, mx, my] + rest;
    let t1 = seq![ex, ey, sx, sy, mx, my] + rest;
    let t2 = seq![ey, sx, sy, mx, my] + rest;
    let t3 = seq![ey * 0x80_0000int, sx, sy, mx, my] + rest;
    let t4 = seq![sx, sy, mx, my, ey * 0x80_0000int] + rest;
    let t5 = seq![sy, mx, my, ey * 0x80_0000int] + rest;
    let t6 = seq![mx, sy, my, ey * 0x80_0000int] + rest;
    let t7 = seq![sy, my, ey * 0x80_0000int] + rest;
    let t8 = seq![((my as u32) | (sy as u32)) as int, ey * 0x80_0000int] + rest;
    let t9 = seq![(((ey * 0x80_0000int) as u32) | (((my as u32) | (sy as u32)) as int as u32)) as int] + rest;
    assert(pow2(23) == 0x80_0000) by { reveal_with_fuel(pow2, 24); }
    assert(t0.drop_first() =~= t1);
    assert(t1.drop_first() =~= t2);
    assert(seq![t2[0] * pow2(23)] + t2.skip(1) =~= t3);
    assert(t3.subrange(1, 5) + seq![t3[0]] + t3.skip(5) =~= t4);
    assert(t4.drop_first() =~= t5);
    assert(seq![t5[1], t5[0]] + t5.skip(2) =~= t6);
    assert(t6.drop_first() =~= t7);
    assert(t7.skip(2) =~= seq![ey * 0x80_0000int] + rest);
    assert(t8.skip(2) =~= rest);
    assert(step(is[0], mem, t0, fuel) == Some(t1));
    assert(step(is[1], mem, t1, fuel) == Some(t2));
    assert(step(is[2], mem, t2, fuel) == Some(t3));
    assert(step(is[3], mem, t3, fuel) == Some(t4));
    assert(step(is[4], mem, t4, fuel) == Some(t5));
    assert(step(is[5], mem, t5, fuel) == Some(t6));
    assert(step(is[6], mem, t6, fuel) == Some(t7));
    assert(step(is[7], mem, t7, fuel) == Some(t8));
    assert(step(is[8], mem, t8, fuel) == Some(t9));
    lemma_run_from(is, 8, mem, t8, fuel);
    lemma_run_from(is, 7, mem, t7, fuel);
    lemma_run_from(is, 6, mem, t6, fuel);
    lemma_run_from(is, 5, mem, t5, fuel);
    lemma_run_from(is, 4, mem, t4, fuel);
    lemma_run_from(is, 3, mem, t3, fuel);
    lemma_run_from(is, 2, mem, t2, fuel);
    lemma_run_from(is, 1, mem, t1, fuel);
    lemma_run_from(is, 0, mem, t0, fuel);
    assert(is.skip(0) =~= is);
    assert(is.skip(9) =~= Seq::<Inst>::empty());
}

/// The case of a zero `b` in [`add_body`]: `a`, put back together.
#[verifier::spinoff_prover]
#[verifier::rlimit(60)]
proof fn lemma_add_b_zero(ex: int, ey: int, sx: int, sy: int, mx: int, my: int, mem: spec_fn(int) -> int, rest: Seq<int>, fuel: nat)
    requires
        0 <= ex <= 255, is_u32(sx), is_u32(mx),
    ensures
        run(add_body()[0]->If_else_[0]->If_else_[0]->If_else_[0]->If_else_[0]->If_then, mem, seq![ex, ey, sx, sy, mx, my] + rest, fuel) == Some(
            seq![((mx as u32) | ((((ex * 0x80_0000int) as u32) | (sx as u32)) as int as u32)) as int] + rest,
        ),
{
    reveal(add_body);
    let is = add_body()[0]->If_else_[0]->If_else_[0]->If_else_[0]->If_else_[0]->If_then;
    let t0 = seq![ex, ey, sx, sy, mx, my] + rest;
    let t1 = seq![ex * 0x80_0000int, ey, sx, sy, mx, my] + rest;
    let t2 = seq![ey, sx, sy, ex * 0x80_0000int, mx, my] + rest;
    let t3 = seq![sx, sy, ex * 0x80_0000int, mx, my] + rest;
    let t4 = seq![sy, sx, ex * 0x80_0000int, mx, my] + rest;
    let t5 = seq![sx, ex * 0x80_0000int, mx, my] + rest;
    let t6 = seq![(((ex * 0x80_0000int) as u32) | (sx as u32)) as int, mx, my] + rest;
    let t7 = seq![((mx as u32) | ((((ex * 0x80_0000int) as u32) | (sx as u32)) as int as u32)) as int, my] + rest;
    let t8 = seq![my, ((mx as u32) | ((((ex * 0x80_0000int) as u32) | (sx as u32)) as int as u32)) as int] + rest;
    let t9 = seq![((mx as u32) | ((((ex * 0x80_0000int) as u32) | (sx as u32)) as int as u32)) as int] + rest;
    assert(pow2(23) == 0x80_0000) by { reveal_with_fuel(pow2, 24); }
    assert(seq![t0[0] * pow2(23)] + t0.skip(1) =~= t1);
    assert(t1.subrange(1, 4) + seq![t1[0]] + t1.skip(4) =~= t2);
    assert(t2.drop_first() =~= t3);
    assert(seq![t3[1], t3[0]] + t3.skip(2) =~= t4);
    assert(t4.drop_first() =~= t5);
    assert(t5.skip(2) =~= seq![mx, my] + rest);
    assert(t6.skip(2) =~= seq![my] + rest);
    assert(seq![t7[1], t7[0]] + t7.skip(2) =~= t8);
    assert(t8.drop_first() =~= t9);
    assert(step(is[0], mem, t0, fuel) == Some(t1));
    assert(step(is[1], mem, t1, fuel) == Some(t2));
    assert(step(is[2], mem, t2, fuel) == Some(t3));
    assert(step(is[3], mem, t3, fuel) == Some(t4));
    assert(step(is[4], mem, t4, fuel) == Some(t5));
    assert(step(is[5], mem, t5, fuel) == Some(t6));
    assert(step(is[6], mem, t6, fuel) == Some(t7));
    assert(step(is[7], mem, t7, fuel) == Some(t8));
    assert(step(is[8], mem, t8, fuel) == Some(t9));
    lemma_run_from(is, 8, mem, t8, fuel);
    lemma_run_from(is, 7, mem, t7, fuel);
    lemma_run_from(is, 6, mem, t6, fuel);
    lemma_run_from(is, 5, mem, t5, fuel);
    lemma_run_from(is, 4, mem, t4, fuel);
    lemma_run_from(is, 3, mem, t3, fuel);
    lemma_run_from(is, 2, mem, t2, fuel);
    lemma_run_from(is, 1, mem, t1, fuel);
    lemma_run_from(is, 0, mem, t0, fuel);
    assert(is.skip(0) =~= is);
    assert(is.skip(9) =~= Seq::<Inst>::empty());
}

/// IEEE 754 `x + y` where one of the two is a NaN, an infinity or a zero:
/// NaN where a NaN is involved or infinities of opposite signs meet, the
/// infinite one where either is infinite, and the other operand where one is
/// zero (for two zeros of different signs that is the second, which
/// compares equal to the `+0` that IEEE 754 gives).
pub open spec fn add_special(x: u32, y: u32) -> u32 {
    if is_nan(x) || is_nan(y) || (is_infinite(x) && is_infinite(y) && sign_bits(x) != sign_bits(y)) {
        NAN
    } else if is_infinite(x) {
        x
    } else if is_infinite(y) {
        y
    } else if is_zero(x) {
        y
    } else {
        x
    }
}

/// A float is its parts put back together.
pub(crate) proof fn lemma_recompose(x: u32)
    ensures
        (((exponent(x) * 0x80_0000int) as u32) | ((((mantissa(x) as int) as u32) | ((sign_bits(x)
            as int) as u32)) as int) as u32) == x,
        (((mantissa(x) as int) as u32) | ((((exponent(x) * 0x80_0000int) as u32) | ((sign_bits(x)
            as int) as u32)) as int) as u32) == x,
        is_infinite(x) ==> (((sign_bits(x) as int) as u32) | INFINITY) == x,
{
    lemma_fields(x);
    assert((((x & 0x7f80_0000u32) >> 23u32) << 23u32) | ((x & 0x7f_ffffu32) | (x & 0x8000_0000u32)) == x)
        by (bit_vector);
    assert((x & 0x7f_ffffu32) | ((((x & 0x7f80_0000u32) >> 23u32) << 23u32) | (x & 0x8000_0000u32)) == x)
        by (bit_vector);
    assert(((x & 0x7f80_0000u32) >> 23u32 == 0xffu32 && x & 0x7f_ffffu32 == 0u32) ==> ((x
        & 0x8000_0000u32) | 0x7f80_0000u32) == x) by (bit_vector);
    assert(((x & 0x7f80_0000u32) >> 23u32) * 0x80_0000u32 == ((x & 0x7f80_0000u32) >> 23u32) << 23u32)
        by (bit_vector);
}

/// What the code of [`add_body`] leaves where one of the floats is a NaN,
/// an infinity or a zero.
#[verifier::spinoff_prover]
#[verifier::rlimit(80)]
proof fn lemma_add_tree_special(x: u32, y: u32, mem: spec_fn(int) -> int, rest: Seq<int>, fuel: nat)
    requires
        is_nan(x) || is_nan(y) || is_infinite(x) || is_infinite(y) || is_zero(x) || is_zero(y),
    ensures
        ({
            let (ex, sx, mx) = parts(x);
            let (ey, sy, my) = parts(y);
            step(
                add_body()[0],
                mem,
                seq![
                    flag((ey == 255 && my != 0) || (ex == 255 && mx != 0)),
                    flag(ex == 255),
                    flag(ey == 255),
                    flag(ex == 0 && mx == 0),
                    flag(ey == 0 && my == 0),
                    ex,
                    ey,
                    sx,
                    sy,
                    mx,
                    my,
                ] + rest,
                fuel,
            ) == Some(seq![add_special(x, y) as int] + rest)
        }),
{
    reveal(add_body);
    let (ex, sx, mx) = parts(x);
    let (ey, sy, my) = parts(y);
    lemma_fields(x);
    lemma_fields(y);
    lemma_special_parts(x, y);
    lemma_recompose(x);
    lemma_recompose(y);
    let nanb = (ey == 255 && my != 0) || (ex == 255 && mx != 0);
    let aib = ex == 255;
    let bib = ey == 255;
    let azb = ex == 0 && mx == 0;
    let bzb = ey == 0 && my == 0;
    let u = seq![flag(aib), flag(bib), flag(azb), flag(bzb), ex, ey, sx, sy, mx, my] + rest;
    let v1 = seq![flag(bib), flag(azb), flag(bzb), ex, ey, sx, sy, mx, my] + rest;
    let v2 = seq![flag(azb), flag(bzb), ex, ey, sx, sy, mx, my] + rest;
    let v3 = seq![flag(bzb), ex, ey, sx, sy, mx, my] + rest;
    let v4 = seq![ex, ey, sx, sy, mx, my] + rest;
    let tree = add_body()[0];
    let r = add_special(x, y) as int;
    lemma_add_invalid(nanb, aib, bib, azb, bzb, ex, ey, sx, sy, mx, my, mem, rest, fuel);
    let cf = flag(nanb || ((bib && aib) && sy != sx));
    assert((seq![cf] + u).drop_first() =~= u);
    if cf == 1 {
        lemma_run_add(drop_insts(10), seq![Inst::Push(NAN)], mem, u, fuel);
        lemma_drops(10, mem, u, fuel);
        assert(u.skip(10) =~= rest);
        lemma_run_one(Inst::Push(NAN), mem, rest, fuel);
        assert(tree->If_then == drop_insts(10) + seq![Inst::Push(NAN)]);
    } else {
        let a_if = tree->If_else_[0];
        lemma_run_one(a_if, mem, u, fuel);
        assert(run(Seq::<Inst>::empty(), mem, u, fuel) == Some(u));
        assert(u.drop_first() =~= v1);
        if aib {
            let then = a_if->If_then;
            assert(then =~= drop_insts(5) + then.skip(5));
            lemma_run_add(drop_insts(5), then.skip(5), mem, v1, fuel);
            lemma_drops(5, mem, v1, fuel);
            assert(v1.skip(5) =~= seq![sx, sy, mx, my] + rest);
            lemma_add_a_inf_tail(sx, sy, mx, my, mem, rest, fuel);
        } else {
            let b_if = a_if->If_else_[0];
            lemma_run_one(b_if, mem, v1, fuel);
            assert(run(Seq::<Inst>::empty(), mem, v1, fuel) == Some(v1));
            assert(v1.drop_first() =~= v2);
            if bib {
                let then = b_if->If_then;
                assert(then =~= drop_insts(5) + then.skip(5));
                lemma_run_add(drop_insts(5), then.skip(5), mem, v2, fuel);
                lemma_drops(5, mem, v2, fuel);
                assert(v2.skip(5) =~= seq![sy, mx, my] + rest);
                lemma_add_b_inf_tail(sy, mx, my, mem, rest, fuel);
            } else {
                let az_if = b_if->If_else_[0];
                lemma_run_one(az_if, mem, v2, fuel);
                assert(run(Seq::<Inst>::empty(), mem, v2, fuel) == Some(v2));
                assert(v2.drop_first() =~= v3);
                if azb {
                    lemma_add_a_zero(flag(bzb), ex, ey, sx, sy, mx, my, mem, rest, fuel);
                } else {
                    let bz_if = az_if->If_else_[0];
                    lemma_run_one(bz_if, mem, v3, fuel);
                    assert(run(Seq::<Inst>::empty(), mem, v3, fuel) == Some(v3));
                    assert(v3.drop_first() =~= v4);
                    lemma_add_b_zero(ex, ey, sx, sy, mx, my, mem, rest, fuel);
                    assert(step(bz_if, mem, v3, fuel) == Some(seq![r] + rest));
                }
                assert(step(az_if, mem, v2, fuel) == Some(seq![r] + rest));
            }
            assert(step(b_if, mem, v1, fuel) == Some(seq![r] + rest));
        }
        assert(step(a_if, mem, u, fuel) == Some(seq![r] + rest));
    }
}

/// The code that [`add`] emits, up to the store of its result, gives the
/// IEEE 754 sum where one of the floats in the cells `a` and `b` is a NaN,
/// an infinity or a zero: see [`add_special`].
#[verifier::spinoff_prover]
#[verifier::rlimit(60)]
pub proof fn lemma_add_special_values(a: u32, b: u32, mem: spec_fn(int) -> int, rest: Seq<int>, fuel: nat)
    requires
        a + WIDTH <= u32::MAX,
        b + WIDTH <= u32::MAX,
        is_u32(mem(a as int)),
        is_u32(mem(b as int)),
        ({
            let x = mem(a as int) as u32;
            let y = mem(b as int) as u32;
            is_nan(x) || is_nan(y) || is_infinite(x) || is_infinite(y) || is_zero(x) || is_zero(y)
        }),
    ensures
        ({
            let x = mem(a as int) as u32;
            let y = mem(b as int) as u32;
            run(prepare_insts(a, b) + nan_inf_zero_insts() + add_body(), mem, rest, fuel) == Some(
                seq![add_special(x, y) as int] + rest,
            )
        }),
{
    let x = mem(a as int) as u32;
    let y = mem(b as int) as u32;
    let (ex, sx, mx) = parts(x);
    let (ey, sy, my) = parts(y);
    lemma_fields(x);
    lemma_fields(y);
    lemma_prepare(a, b, mem, rest, fuel);
    lemma_classify(ex, ey, sx, sy, mx, my, mem, rest, fuel);
    let classified = seq![
        flag((ey == 255 && my != 0) || (ex == 255 && mx != 0)),
        flag(ex == 255),
        flag(ey == 255),
        flag(ex == 0 && mx == 0),
        flag(ey == 0 && my == 0),
        ex,
        ey,
        sx,
        sy,
        mx,
        my,
    ] + rest;
    reveal(add_body);
    assert(add_body() =~= seq![add_body()[0]]);
    lemma_add_tree_special(x, y, mem, rest, fuel);
    lemma_run_one(add_body()[0], mem, classified, fuel);
    lemma_run_add(prepare_insts(a, b), nan_inf_zero_insts(), mem, rest, fuel);
    lemma_run_add(prepare_insts(a, b) + nan_inf_zero_insts(), add_body(), mem, rest, fuel);
}

/// `n` drops, then `tail`.
fn drops_then(n: usize, tail: Vec<Instruction<'static>>) -> (v: Vec<Instruction<'static>>)
    ensures
        view_seq(v@) == drop_insts(n as nat) + view_seq(tail@),
{
    let mut v: Vec<Instruction<'static>> = Vec::new();
    let mut k: usize = 0;
    while k < n
        invariant
            k <= n,
            view_seq(v@) == drop_insts(k as nat),
        decreases n - k,
    {
        push_inst(&mut v, Instruction::Drop);
        k = k + 1;
        proof {
            assert(view_seq(v@) =~= drop_insts(k as nat));
        }
    }
    let mut tail = tail;
    proof {
        lemma_view_seq_add(v@, tail@);
    }
    v.append(&mut tail);
    v
}

/// Appends `code` to `instructions`.
fn extend(instructions: &mut Vec<Instruction>, code: Vec<Instruction<'static>>)
    ensures
        view_seq(final(instructions)@) == view_seq(old(instructions)@) + view_seq(code@),
{
    let mut code = code;
    proof {
        lemma_view_seq_add(instructions@, code@);
    }
    instructions.append(&mut code);
}

/// Appends the code that takes the float on top of the stack apart.
///
/// Stack transition: `[a] => [a_mant, a_sign^, a_exp]`.
pub fn decompose(instructions: &mut Vec<Instruction>)
    ensures
        view_seq(final(instructions)@) == view_seq(old(instructions)@) + decompose_insts(),
{
    let code = vec![
        // [a]
        Instruction::Dup(None),
        // [a, a]
        Instruction::Push(EXP_MASK),
        Instruction::U32CheckedAnd,
        // [a_exp^, a]
        Instruction::U32CheckedSHR(Some(EXP_SHIFT)),
        // [a_exp, a]
        Instruction::Dup(Some(1)),
        Instruction::Push(SIGN_MASK),
        Instruction::U32CheckedAnd,
        // [a_sign^, a_exp, a]
        Instruction::Dup(Some(2)),
        Instruction::Push(MANT_MASK),
        Instruction::U32CheckedAnd,
        // [a_mant, a_sign^, a_exp, a]
        Instruction::MovUp(3),
        Instruction::Drop,
        // [a_mant, a_sign^, a_exp]
    ];
    proof {
        lemma_view_seq_map(code@);
        assert(view_seq(code@) =~= decompose_insts());
    }
    extend(instructions, code);
}

/// Appends the code that loads the floats at `a` and `b` and takes both
/// apart.
///
/// Stack transition: `[] => [a_exp, b_exp, a_sign^, b_sign^, a_mant, b_mant]`.
pub fn prepare_stack_for_arithmetic(instructions: &mut Vec<Instruction>, memory: &Memory, a: u32, b: u32)
    requires
        a + WIDTH <= u32::MAX,
        b + WIDTH <= u32::MAX,
    ensures
        view_seq(final(instructions)@) == view_seq(old(instructions)@) + prepare_insts(a, b),
{
    memory.read(instructions, a, WIDTH);
    decompose(instructions);
    // [a_mant, a_sign^, a_exp]
    memory.read(instructions, b, WIDTH);
    decompose(instructions);
    // [b_mant, b_sign^, b_exp, a_mant, a_sign^, a_exp]
    let code = vec![
        Instruction::MovDown(5),
        // [b_sign^, b_exp, a_mant, a_sign^, a_exp, b_mant]
        Instruction::MovDown(4),
        // [b_exp, a_mant, a_sign^, a_exp, b_sign^, b_mant]
        Instruction::MovDown(3),
        // [a_mant, a_sign^, a_exp, b_exp, b_sign^, b_mant]
        Instruction::MovDown(4),
        // [a_sign^, a_exp, b_exp, b_sign^, a_mant, b_mant]
        Instruction::MovDown(2),
        // [a_exp, b_exp, a_sign^, b_sign^, a_mant, b_mant]
    ];
    proof {
        lemma_view_seq_map(code@);
        assert(view_seq(code@) =~= arrange_insts());
    }
    extend(instructions, code);
    proof {
        assert(view_seq(instructions@) =~= view_seq(old(instructions)@) + prepare_insts(a, b));
    }
}

/// Appends the code that tests both floats for zero, `stack_offset` cells
/// below the top.
///
/// Stack transition: `[.., a_exp, b_exp, a_sign^, b_sign^, a_mant, b_mant]`
/// (`a_exp` at depth `stack_offset`) `=> [a_is_zero, b_is_zero, ..]`.
pub fn add_is_zero(instructions: &mut Vec<Instruction>, stack_offset: u32)
    requires
        stack_offset + 6 <= u32::MAX,
    ensures
        view_seq(final(instructions)@) == view_seq(old(instructions)@) + is_zero_insts(stack_offset),
{
    let code = vec![
        Instruction::Dup(Some(stack_offset + 1)),
        Instruction::Push(0),
        Instruction::U32CheckedEq,
        // [b_exp == 0, ..]
        Instruction::Dup(Some(stack_offset + 6)),
        Instruction::Push(0),
        Instruction::U32CheckedEq,
        Instruction::U32CheckedAnd,
        // [b_exp == 0 & b_mant == 0, ..]
        Instruction::Dup(Some(stack_offset + 1)),
        Instruction::Push(0),
        Instruction::U32CheckedEq,
        // [a_exp == 0, b_is_zero, ..]
        Instruction::Dup(Some(stack_offset + 6)),
        Instruction::Push(0),
        Instruction::U32CheckedEq,
        Instruction::U32CheckedAnd,
        // [a_exp == 0 & a_mant == 0, b_is_zero, ..]
    ];
    proof {
        lemma_view_seq_map(code@);
        assert(view_seq(code@) =~= is_zero_insts(stack_offset));
    }
    extend(instructions, code);
}

/// Appends the code that tests both floats for an infinite exponent,
/// `stack_offset` cells below the top.
///
/// Stack transition: `[.., a_exp, b_exp, ..]` (`a_exp` at depth
/// `stack_offset`) `=> [a_is_inf, b_is_inf, ..]`.
pub fn add_is_inf(instructions: &mut Vec<Instruction>, stack_offset: u32)
    requires
        stack_offset + 1 <= u32::MAX,
    ensures
        view_seq(final(instructions)@) == view_seq(old(instructions)@) + is_inf_insts(stack_offset),
{
    let code = vec![
        Instruction::Dup(Some(stack_offset + 1)),
        Instruction::Push(EXP_MAX),
        Instruction::U32CheckedEq,
        // [b_exp == 0xff, ..]
        Instruction::Dup(Some(stack_offset + 1)),
        Instruction::Push(EXP_MAX),
        Instruction::U32CheckedEq,
        // [a_exp == 0xff, b_is_inf, ..]
    ];
    proof {
        lemma_view_seq_map(code@);
        assert(view_seq(code@) =~= is_inf_insts(stack_offset));
    }
    extend(instructions, code);
}

/// Appends the code that tests whether either float is a NaN,
/// `stack_offset` cells below the top.
///
/// Stack transition: `[.., a_exp, b_exp, a_sign^, b_sign^, a_mant, b_mant]`
/// (`a_exp` at depth `stack_offset`) `=> [a_is_nan | b_is_nan, ..]`.
pub fn add_is_nan(instructions: &mut Vec<Instruction>, stack_offset: u32)
    requires
        stack_offset + 6 <= u32::MAX,
    ensures
        view_seq(final(instructions)@) == view_seq(old(instructions)@) + is_nan_insts(stack_offset),
{
    let code = vec![
        Instruction::Dup(Some(stack_offset + 1)),
        Instruction::Push(EXP_MAX),
        Instruction::U32CheckedEq,
        // [b_exp == 0xff, ..]
        Instruction::Dup(Some(stack_offset + 6)),
        Instruction::Push(0),
        Instruction::U32CheckedNeq,
        Instruction::U32CheckedAnd,
        // [b_is_nan, ..]
        Instruction::Dup(Some(stack_offset + 1)),
        Instruction::Push(EXP_MAX),
        Instruction::U32CheckedEq,
        Instruction::Dup(Some(stack_offset + 6)),
        Instruction::Push(0),
        Instruction::U32CheckedNeq,
        Instruction::U32CheckedAnd,
        // [a_is_nan, b_is_nan, ..]
        Instruction::U32CheckedOr,
        // [a_is_nan | b_is_nan, ..]
    ];
    proof {
        lemma_view_seq_map(code@);
        assert(view_seq(code@) =~= is_nan_insts(stack_offset));
    }
    extend(instructions, code);
}

/// Appends the code that classifies both floats.
///
/// Stack transition: `[a_exp, b_exp, a_sign^, b_sign^, a_mant, b_mant] =>
/// [a_is_nan | b_is_nan, a_is_inf, b_is_inf, a_is_zero, b_is_zero, a_exp,
/// b_exp, a_sign^, b_sign^, a_mant, b_mant]`.
pub fn add_nan_inf_zero(instructions: &mut Vec<Instruction>)
    ensures
        view_seq(final(instructions)@) == view_seq(old(instructions)@) + nan_inf_zero_insts(),
{
    add_is_zero(instructions, 0);
    add_is_inf(instructions, 2);
    add_is_nan(instructions, 4);
    proof {
        assert(view_seq(instructions@) =~= view_seq(old(instructions)@) + nan_inf_zero_insts());
    }
}


/// The test shared by the comparisons: on `[a_is_nan | b_is_nan, a_is_inf,
/// b_is_inf, a_is_zero, b_is_zero, a_exp, b_exp, a_sign^, b_sign^, a_mant,
/// b_mant]` it leaves 0 where a NaN is involved, 1 where the two floats have
/// the same bits, the result of `a_inf` where `a` is infinite, of `b_inf`
/// where `b` is, 1 where both are zero, and the result of `finite` on
/// `[a_exp, b_exp, a_sign^, b_sign^, a_mant, b_mant]` otherwise.
pub open spec fn compare_tree(a_inf: Seq<Inst>, b_inf: Seq<Inst>, finite: Seq<Inst>) -> Inst {
    Inst::If {
        condition: Seq::empty(),
        then: drop_insts(10) + seq![Inst::Push(0)],
        else_: seq![
            Inst::If {
                condition: seq![
                    Inst::Dup(Some(5)),
                    Inst::Dup(Some(5)),
                    Inst::U32CheckedEq,
                    Inst::Dup(Some(8)),
                    Inst::Dup(Some(8)),
                    Inst::U32CheckedEq,
                    Inst::U32CheckedAnd,
                    Inst::Dup(Some(10)),
                    Inst::Dup(Some(10)),
                    Inst::U32CheckedEq,
                    Inst::U32CheckedAnd,
                ],
                then: drop_insts(10) + seq![Inst::Push(1)],
                else_: seq![
                    Inst::If {
                        condition: Seq::empty(),
                        then: a_inf,
                        else_: seq![
                            Inst::If {
                                condition: Seq::empty(),
                                then: b_inf,
                                else_: seq![
                                    Inst::If {
                                        condition: seq![Inst::U32CheckedAnd],
                                        then: drop_insts(6) + seq![Inst::Push(1)],
                                        else_: finite,
                                    },
                                ],
                            },
                        ],
                    },
                ],
            },
        ],
    }
}

/// `a <= b` where `a` is infinite: whether `a` is negative.
pub open spec fn lte_a_inf() -> Seq<Inst> {
    drop_insts(5) + seq![
        Inst::MovDown(3),
        Inst::Drop,
        Inst::Drop,
        Inst::Drop,
        Inst::Push(0),
        Inst::U32CheckedNeq,
    ]
}

/// `a <= b` where `b` is infinite: whether `b` is positive.
pub open spec fn lte_b_inf() -> Seq<Inst> {
    drop_insts(5) + seq![Inst::MovDown(2), Inst::Drop, Inst::Drop, Inst::Push(0), Inst::U32CheckedEq]
}

/// `a <= b` for finite floats that are not both zero and differ.
pub open spec fn lte_finite() -> Seq<Inst> {
    seq![
        Inst::U32CheckedSHL(Some(EXP_SHIFT)),
        Inst::MovDown(3),
        Inst::U32CheckedSHL(Some(EXP_SHIFT)),
        Inst::MovDown(5),
        Inst::Dup(Some(0)),
        Inst::Push(0),
        Inst::U32CheckedNeq,
        Inst::MovDown(6),
        Inst::If {
            condition: seq![Inst::U32CheckedEq],
            then: seq![
                Inst::U32CheckedOr,
                Inst::MovDown(2),
                Inst::U32CheckedOr,
                Inst::U32CheckedLT,
                Inst::U32CheckedXOR,
            ],
            else_: drop_insts(4),
        },
    ]
}

/// `a >= b` where `a` is infinite: whether `a` is positive.
pub open spec fn gte_a_inf() -> Seq<Inst> {
    drop_insts(5) + seq![
        Inst::MovDown(3),
        Inst::Drop,
        Inst::Drop,
        Inst::Drop,
        Inst::Push(0),
        Inst::U32CheckedEq,
    ]
}

/// `a >= b` where `b` is infinite: whether `b` is negative.
pub open spec fn gte_b_inf() -> Seq<Inst> {
    drop_insts(5) + seq![Inst::MovDown(2), Inst::Drop, Inst::Drop, Inst::Push(0), Inst::U32CheckedNeq]
}

/// `a >= b` for finite floats that are not both zero and differ.
pub open spec fn gte_finite() -> Seq<Inst> {
    seq![
        Inst::U32CheckedSHL(Some(EXP_SHIFT)),
        Inst::MovDown(3),
        Inst::U32CheckedSHL(Some(EXP_SHIFT)),
        Inst::MovDown(5),
        Inst::Dup(Some(0)),
        Inst::MovDown(6),
        Inst::If {
            condition: seq![Inst::U32CheckedEq],
            then: seq![
                Inst::U32CheckedOr,
                Inst::MovDown(2),
                Inst::U32CheckedOr,
                Inst::U32CheckedGT,
                Inst::Swap,
                Inst::Push(0),
                Inst::U32CheckedNeq,
                Inst::U32CheckedXOR,
            ],
            else_: drop_insts(4) + seq![Inst::Push(0), Inst::U32CheckedEq],
        },
    ]
}

/// The code of [`lte`]'s test.
pub open spec fn lte_tree() -> Inst {
    compare_tree(lte_a_inf(), lte_b_inf(), lte_finite())
}

/// The code of [`gte`]'s test.
pub open spec fn gte_tree() -> Inst {
    compare_tree(gte_a_inf(), gte_b_inf(), gte_finite())
}


/// The product of two finite nonzero floats from `[a_exp, b_exp, a_sign^,
/// b_sign^, a_mant, b_mant]`: the exponents are added and the 24-bit
/// significands multiplied; a carry into bit 24 shifts the product right and
/// raises the exponent; an exponent that wrapped below zero gives a zero of
/// the product's sign, one of 0xff or more an infinity.
pub open spec fn mul_finite() -> Seq<Inst> {
    seq![
        Inst::U32CheckedAdd,
        Inst::Push(EXP_BIAS),
        Inst::U32WrappingSub,
        Inst::MovUp(4),
        Inst::Push(LEADING_ONE_BIT),
        Inst::U32CheckedAdd,
        Inst::MovUp(4),
        Inst::Push(LEADING_ONE_BIT),
        Inst::U32CheckedAdd,
        Inst::U32OverflowingMul,
        Inst::U32CheckedSHL(Some(9)),
        Inst::Swap,
        Inst::U32CheckedSHR(Some(EXP_SHIFT)),
        Inst::U32WrappingAdd,
        Inst::If {
            condition: seq![
                Inst::Dup(None),
                Inst::Push(0x0100_0000),
                Inst::U32CheckedAnd,
                Inst::Push(0),
                Inst::U32CheckedNeq,
            ],
            then: seq![Inst::U32CheckedSHR(Some(1)), Inst::Swap, Inst::Push(1), Inst::U32CheckedAdd],
            else_: seq![Inst::Swap],
        },
        Inst::If {
            condition: seq![
                Inst::Dup(None),
                Inst::Push(SIGN_MASK),
                Inst::U32CheckedAnd,
                Inst::Push(SIGN_MASK),
                Inst::U32CheckedEq,
            ],
            then: seq![Inst::Drop, Inst::Drop, Inst::U32CheckedXOR],
            else_: seq![
                Inst::If {
                    condition: seq![Inst::Dup(None), Inst::Push(EXP_MAX), Inst::U32CheckedGTE],
                    then: seq![
                        Inst::Drop,
                        Inst::Drop,
                        Inst::U32CheckedXOR,
                        Inst::Push(INFINITY),
                        Inst::U32CheckedAdd,
                    ],
                    else_: seq![
                        Inst::U32CheckedSHL(Some(EXP_SHIFT)),
                        Inst::Swap,
                        Inst::Push(MANT_MASK),
                        Inst::U32CheckedAnd,
                        Inst::U32CheckedAdd,
                        Inst::MovDown(2),
                        Inst::U32CheckedXOR,
                        Inst::U32CheckedAdd,
                    ],
                },
            ],
        },
    ]
}

/// The code of [`mul`]'s computation: NaN where a NaN is involved or an
/// infinity meets a zero, an infinity of the product's sign where either is
/// infinite, a zero of that sign where either is zero, [`mul_finite`]
/// otherwise.
pub open spec fn mul_tree() -> Inst {
    Inst::If {
        condition: seq![
            Inst::Dup(Some(3)),
            Inst::Dup(Some(3)),
            Inst::U32CheckedAnd,
            Inst::U32CheckedOr,
            Inst::Dup(Some(4)),
            Inst::Dup(Some(2)),
            Inst::U32CheckedAnd,
            Inst::U32CheckedOr,
        ],
        then: drop_insts(10) + seq![Inst::Push(NAN)],
        else_: seq![
            Inst::If {
                condition: seq![Inst::U32CheckedOr],
                then: drop_insts(4) + seq![
                    Inst::U32CheckedXOR,
                    Inst::MovDown(2),
                    Inst::Drop,
                    Inst::Drop,
                    Inst::Push(INFINITY),
                    Inst::U32CheckedOr,
                ],
                else_: seq![
                    Inst::If {
                        condition: seq![Inst::U32CheckedOr],
                        then: seq![
                            Inst::Drop,
                            Inst::Drop,
                            Inst::MovUp(2),
                            Inst::Drop,
                            Inst::MovUp(2),
                            Inst::Drop,
                            Inst::U32CheckedXOR,
                        ],
                        else_: mul_finite(),
                    },
                ],
            },
        ],
    }
}

/// The test shared by the strict comparisons: on `[a_is_nan | b_is_nan,
/// a_is_inf, b_is_inf, a_is_zero, b_is_zero, a_exp, b_exp, a_sign^, b_sign^,
/// a_mant, b_mant]` it leaves 0 where a NaN is involved, both floats are
/// zero or they have the same bits, the result of `a_inf` where `a` is
/// infinite, of `b_inf` where `b` is, and the result of `finite` on `[a_exp, b_exp, a_sign^, b_sign^,
/// a_mant, b_mant]` otherwise.
pub open spec fn strict_tree(a_inf: Seq<Inst>, b_inf: Seq<Inst>, finite: Seq<Inst>) -> Inst {
    Inst::If {
        condition: seq![Inst::MovUp(4), Inst::MovUp(4), Inst::U32CheckedAnd, Inst::U32CheckedOr],
        then: drop_insts(8) + seq![Inst::Push(0)],
        else_: seq![
            Inst::If {
                condition: seq![
                    Inst::Dup(Some(3)),
                    Inst::Dup(Some(3)),
                    Inst::U32CheckedEq,
                    Inst::Dup(Some(6)),
                    Inst::Dup(Some(6)),
                    Inst::U32CheckedEq,
                    Inst::U32CheckedAnd,
                    Inst::Dup(Some(8)),
                    Inst::Dup(Some(8)),
                    Inst::U32CheckedEq,
                    Inst::U32CheckedAnd,
                ],
                then: drop_insts(8) + seq![Inst::Push(0)],
                else_: seq![
                    Inst::If {
                        condition: Seq::empty(),
                        then: a_inf,
                        else_: seq![Inst::If { condition: Seq::empty(), then: b_inf, else_: finite }],
                    },
                ],
            },
        ],
    }
}

/// The code of [`lt`]'s test.
pub open spec fn lt_tree() -> Inst {
    strict_tree(
        drop_insts(3) + lte_a_inf().skip(5),
        drop_insts(3) + lte_b_inf().skip(5),
        lte_finite(),
    )
}

/// The code of [`gt`]'s test.
pub open spec fn gt_tree() -> Inst {
    strict_tree(
        drop_insts(3) + gte_a_inf().skip(5),
        drop_insts(3) + gte_b_inf().skip(5),
        gte_finite(),
    )
}

/// The code of [`add_impl`]'s computation on the classified parts of two
/// floats: NaN where a NaN is involved or infinities of opposite signs
/// meet, an infinity where either is infinite, the other float where one is
/// zero; otherwise the significands are aligned to the larger exponent,
/// added or subtracted by sign, renormalized by a loop of shifts, and the
/// result is assembled, overflowing to infinity.
#[verifier::opaque]
pub open spec fn add_body() -> Seq<Inst> {
    seq![
        Inst::If {
            condition: seq![
                Inst::Dup(Some(2)),
                Inst::Dup(Some(2)),
                Inst::U32CheckedAnd,
                Inst::Dup(Some(9)),
                Inst::Dup(Some(9)),
                Inst::U32CheckedNeq,
                Inst::U32CheckedAnd,
                Inst::U32CheckedOr,
            ],
            then: seq![
                Inst::Drop,
                Inst::Drop,
                Inst::Drop,
                Inst::Drop,
                Inst::Drop,
                Inst::Drop,
                Inst::Drop,
                Inst::Drop,
                Inst::Drop,
                Inst::Drop,
                Inst::Push(NAN),
            ],
            else_: seq![
                Inst::If {
                    condition: Seq::empty(),
                    then: seq![
                        Inst::Drop,
                        Inst::Drop,
                        Inst::Drop,
                        Inst::Drop,
                        Inst::Drop,
                        Inst::MovDown(3),
                        Inst::Drop,
                        Inst::Drop,
                        Inst::Drop,
                        Inst::Push(INFINITY),
                        Inst::U32CheckedOr,
                    ],
                    else_: seq![
                        Inst::If {
                            condition: Seq::empty(),
                            then: seq![
                                Inst::Drop,
                                Inst::Drop,
                                Inst::Drop,
                                Inst::Drop,
                                Inst::Drop,
                                Inst::MovDown(2),
                                Inst::Drop,
                                Inst::Drop,
                                Inst::Push(INFINITY),
                                Inst::U32CheckedOr,
                            ],
                            else_: seq![
                                Inst::If {
                                    condition: Seq::empty(),
                                    then: seq![
                                        Inst::Drop,
                                        Inst::Drop,
                                        Inst::U32CheckedSHL(Some(23)),
                                        Inst::MovDown(4),
                                        Inst::Drop,
                                        Inst::Swap,
                                        Inst::Drop,
                                        Inst::U32CheckedOr,
                                        Inst::U32CheckedOr,
                                    ],
                                    else_: seq![
                                        Inst::If {
                                            condition: Seq::empty(),
                                            then: seq![
                                                Inst::U32CheckedSHL(Some(23)),
                                                Inst::MovDown(3),
                                                Inst::Drop,
                                                Inst::Swap,
                                                Inst::Drop,
                                                Inst::U32CheckedOr,
                                                Inst::U32CheckedOr,
                                                Inst::Swap,
                                                Inst::Drop,
                                            ],
                                            else_: seq![
                                                Inst::If {
                                                    condition: seq![
                                                        Inst::Dup(Some(1)),
                                                        Inst::Dup(Some(1)),
                                                        Inst::U32CheckedGT,
                                                    ],
                                                    then: seq![
                                                        Inst::MovDown(5),
                                                        Inst::MovDown(4),
                                                        Inst::MovDown(5),
                                                        Inst::MovDown(4),
                                                        Inst::MovDown(5),
                                                        Inst::MovDown(4),
                                                    ],
                                                    else_: Seq::empty(),
                                                },
                                                Inst::If {
                                                    condition: seq![
                                                        Inst::Dup(Some(0)),
                                                        Inst::MovUp(2),
                                                        Inst::U32CheckedSub,
                                                        Inst::Dup(Some(0)),
                                                        Inst::Push(24),
                                                        Inst::U32CheckedGT,
                                                    ],
                                                    then: seq![
                                                        Inst::Drop,
                                                        Inst::U32CheckedSHL(Some(23)),
                                                        Inst::U32CheckedOr,
                                                        Inst::Swap,
                                                        Inst::Drop,
                                                        Inst::U32CheckedOr,
                                                        Inst::Swap,
                                                        Inst::Drop,
                                                    ],
                                                    else_: seq![
                                                        Inst::Swap,
                                                        Inst::MovDown(5),
                                                        Inst::MovUp(4),
                                                        Inst::Push(LEADING_ONE_BIT),
                                                        Inst::U32CheckedOr,
                                                        Inst::Swap,
                                                        Inst::U32CheckedSHR(None),
                                                        Inst::If {
                                                            condition: seq![
                                                                Inst::Dup(Some(0)),
                                                                Inst::Push(0),
                                                                Inst::U32CheckedEq,
                                                            ],
                                                            then: seq![
                                                                Inst::Push(1),
                                                                Inst::U32CheckedOr,
                                                            ],
                                                            else_: Seq::empty(),
                                                        },
                                                        Inst::MovDown(3),
                                                        Inst::MovUp(2),
                                                        Inst::Push(LEADING_ONE_BIT),
                                                        Inst::U32CheckedOr,
                                                        Inst::MovDown(2),
                                                        Inst::If {
                                                            condition: seq![
                                                                Inst::Dup(Some(1)),
                                                                Inst::Dup(Some(1)),
                                                                Inst::U32CheckedEq,
                                                            ],
                                                            then: seq![
                                                                Inst::MovDown(3),
                                                                Inst::Drop,
                                                                Inst::U32CheckedAdd,
                                                            ],
                                                            else_: seq![
                                                                Inst::If {
                                                                    condition: seq![
                                                                        Inst::Dup(Some(3)),
                                                                        Inst::Dup(Some(3)),
                                                                        Inst::U32CheckedLTE,
                                                                    ],
                                                                    then: seq![
                                                                        Inst::MovDown(3),
                                                                        Inst::Drop,
                                                                        Inst::Swap,
                                                                        Inst::U32CheckedSub,
                                                                    ],
                                                                    else_: seq![
                                                                        Inst::Drop,
                                                                        Inst::MovDown(2),
                                                                        Inst::U32CheckedSub,
                                                                    ],
                                                                },
                                                            ],
                                                        },
                                                        Inst::If {
                                                            condition: seq![
                                                                Inst::Dup(Some(0)),
                                                                Inst::Push(0),
                                                                Inst::U32CheckedEq,
                                                            ],
                                                            then: seq![
                                                                Inst::Drop,
                                                                Inst::Drop,
                                                                Inst::Drop,
                                                                Inst::Push(0),
                                                            ],
                                                            else_: seq![
                                                                Inst::Push(32),
                                                                Inst::Dup(Some(1)),
                                                                Inst::While {
                                                                    condition: seq![
                                                                        Inst::Dup(Some(0)),
                                                                        Inst::Push(0),
                                                                        Inst::U32CheckedNeq,
                                                                    ],
                                                                    body: seq![
                                                                        Inst::U32CheckedSHR(Some(1)),
                                                                        Inst::Swap,
                                                                        Inst::Push(1),
                                                                        Inst::U32CheckedSub,
                                                                        Inst::Swap,
                                                                    ],
                                                                },
                                                                Inst::Drop,
                                                                Inst::If {
                                                                    condition: seq![
                                                                        Inst::Dup(Some(0)),
                                                                        Inst::Push(8),
                                                                        Inst::U32CheckedLTE,
                                                                    ],
                                                                    then: seq![
                                                                        Inst::Push(8),
                                                                        Inst::Swap,
                                                                        Inst::U32CheckedSub,
                                                                        Inst::Swap,
                                                                        Inst::Dup(Some(1)),
                                                                        Inst::U32CheckedSHR(None),
                                                                        Inst::Push(MANT_MASK),
                                                                        Inst::U32CheckedAnd,
                                                                        Inst::Swap,
                                                                        Inst::MovUp(3),
                                                                        Inst::U32CheckedAdd,
                                                                    ],
                                                                    else_: seq![
                                                                        Inst::Push(8),
                                                                        Inst::U32CheckedSub,
                                                                        Inst::Swap,
                                                                        Inst::Dup(Some(1)),
                                                                        Inst::U32CheckedSHL(None),
                                                                        Inst::Push(MANT_MASK),
                                                                        Inst::U32CheckedAnd,
                                                                        Inst::Swap,
                                                                        Inst::MovUp(3),
                                                                        Inst::Swap,
                                                                        Inst::U32WrappingSub,
                                                                    ],
                                                                },
                                                                Inst::If {
                                                                    condition: seq![
                                                                        Inst::Dup(Some(0)),
                                                                        Inst::Push(SIGN_MASK),
                                                                        Inst::U32CheckedAnd,
                                                                        Inst::Push(SIGN_MASK),
                                                                        Inst::U32CheckedEq,
                                                                    ],
                                                                    then: seq![
                                                                        Inst::Drop,
                                                                        Inst::Drop,
                                                                    ],
                                                                    else_: seq![
                                                                        Inst::If {
                                                                            condition: seq![
                                                                                Inst::Dup(Some(0)),
                                                                                Inst::Push(0xff),
                                                                                Inst::U32CheckedGTE,
                                                                            ],
                                                                            then: seq![
                                                                                Inst::Drop,
                                                                                Inst::Drop,
                                                                                Inst::Push(INFINITY),
                                                                                Inst::U32CheckedOr,
                                                                            ],
                                                                            else_: seq![
                                                                                Inst::U32CheckedSHL(Some(23)),
                                                                                Inst::U32CheckedOr,
                                                                                Inst::U32CheckedOr,
                                                                            ],
                                                                        },
                                                                    ],
                                                                },
                                                            ],
                                                        },
                                                    ],
                                                },
                                            ],
                                        },
                                    ],
                                },
                            ],
                        },
                    ],
                },
            ],
        },
    ]
}

/// The code of [`div`]'s computation on the classified parts of two floats:
/// NaN where a NaN is involved, both are infinite or both are zero; an
/// infinity of the quotient's sign where `a` is infinite or `b` is zero; a
/// zero of that sign where `a` is zero or `b` is infinite; otherwise the
/// significands are divided bit by bit over 24 rounds, the quotient is
/// normalized by a loop of shifts and assembled with the difference of the
/// exponents, overflowing to infinity.
#[verifier::opaque]
pub open spec fn div_body() -> Seq<Inst> {
    seq![
        Inst::If {
            condition: seq![
                Inst::Dup(Some(2)),
                Inst::Dup(Some(2)),
                Inst::U32CheckedAnd,
                Inst::U32CheckedOr,
                Inst::Dup(Some(4)),
                Inst::Dup(Some(4)),
                Inst::U32CheckedAnd,
                Inst::U32CheckedOr,
            ],
            then: seq![
                Inst::Drop,
                Inst::Drop,
                Inst::Drop,
                Inst::Drop,
                Inst::Drop,
                Inst::Drop,
                Inst::Drop,
                Inst::Drop,
                Inst::Drop,
                Inst::Drop,
                Inst::Push(NAN),
            ],
            else_: seq![
                Inst::If {
                    condition: seq![
                        Inst::MovUp(3),
                        Inst::U32CheckedOr,
                    ],
                    then: seq![
                        Inst::Drop,
                        Inst::Drop,
                        Inst::Drop,
                        Inst::Drop,
                        Inst::U32CheckedXOR,
                        Inst::MovDown(2),
                        Inst::Drop,
                        Inst::Drop,
                        Inst::Push(INFINITY),
                        Inst::U32CheckedAdd,
                    ],
                    else_: seq![
                        Inst::If {
                            condition: seq![
                                Inst::U32CheckedOr,
                            ],
                            then: seq![
                                Inst::Drop,
                                Inst::Drop,
                                Inst::U32CheckedXOR,
                                Inst::MovDown(2),
                                Inst::Drop,
                                Inst::Drop,
                            ],
                            else_: seq![
                                Inst::Push(EXP_BIAS),
                                Inst::U32CheckedAdd,
                                Inst::Swap,
                                Inst::U32WrappingSub,
                                Inst::MovDown(4),
                                Inst::U32CheckedXOR,
                                Inst::MovDown(3),
                                Inst::Push(LEADING_ONE_BIT),
                                Inst::U32CheckedAdd,
                                Inst::U32CheckedSHL(Some(8)),
                                Inst::Swap,
                                Inst::Push(LEADING_ONE_BIT),
                                Inst::U32CheckedAdd,
                                Inst::U32CheckedSHL(Some(8)),
                                Inst::Push(0),
                                Inst::Repeat {
                                    count: 24,
                                    body: seq![
                                        Inst::U32CheckedSHL(Some(1)),
                                        Inst::If {
                                            condition: seq![
                                                Inst::Dup(Some(2)),
                                                Inst::Dup(Some(2)),
                                                Inst::U32CheckedGTE,
                                            ],
                                            then: seq![
                                                Inst::MovUp(2),
                                                Inst::Dup(Some(2)),
                                                Inst::U32CheckedSub,
                                                Inst::MovDown(2),
                                                Inst::Push(1),
                                                Inst::U32CheckedAdd,
                                            ],
                                            else_: Seq::empty(),
                                        },
                                        Inst::Swap,
                                        Inst::U32CheckedSHR(Some(1)),
                                        Inst::Swap,
                                    ],
                                },
                                Inst::MovDown(2),
                                Inst::Drop,
                                Inst::Drop,
                                Inst::While {
                                    condition: seq![
                                        Inst::Dup(Some(0)),
                                        Inst::Push(LEADING_ONE_BIT),
                                        Inst::U32CheckedAnd,
                                        Inst::Push(LEADING_ONE_BIT),
                                        Inst::U32CheckedNeq,
                                    ],
                                    body: seq![
                                        Inst::U32CheckedSHL(Some(1)),
                                        Inst::Swap,
                                        Inst::Push(1),
                                        Inst::U32WrappingSub,
                                        Inst::Swap,
                                    ],
                                },
                                Inst::Push(MANT_MASK),
                                Inst::U32CheckedAnd,
                                Inst::Swap,
                                Inst::If {
                                    condition: seq![
                                        Inst::Dup(Some(0)),
                                        Inst::Push(SIGN_MASK),
                                        Inst::U32CheckedAnd,
                                        Inst::Push(SIGN_MASK),
                                        Inst::U32CheckedEq,
                                    ],
                                    then: seq![
                                        Inst::Drop,
                                        Inst::Drop,
                                    ],
                                    else_: seq![
                                        Inst::If {
                                            condition: seq![
                                                Inst::Dup(Some(0)),
                                                Inst::Push(0xff),
                                                Inst::U32CheckedGTE,
                                            ],
                                            then: seq![
                                                Inst::Drop,
                                                Inst::Drop,
                                                Inst::Push(INFINITY),
                                                Inst::U32CheckedOr,
                                            ],
                                            else_: seq![
                                                Inst::U32CheckedSHL(Some(23)),
                                                Inst::U32CheckedOr,
                                                Inst::U32CheckedOr,
                                            ],
                                        },
                                    ],
                                },
                            ],
                        },
                    ],
                },
            ],
        },
    ]
}

/// The code of an operation on the floats at `a` and `b` whose result
/// `tree` computes from their parts and that is stored at `result`.
pub open spec fn binary_insts(a: u32, b: u32, result: u32, tree: Inst) -> Seq<Inst> {
    prepare_insts(a, b) + nan_inf_zero_insts() + seq![tree] + write_insts(
        result as int,
        seq![ValueSource::Stack],
    )
}

/// One instruction as a sequence.
fn single(i: Instruction<'static>) -> (v: Vec<Instruction<'static>>)
    ensures
        view_seq(v@) == seq![i@],
{
    let mut v: Vec<Instruction<'static>> = Vec::new();
    push_inst(&mut v, i);
    proof {
        assert(view_seq(v@) =~= seq![i@]);
    }
    v
}

/// Builds [`compare_tree`].
fn compare_tree_code(
    a_inf: Vec<Instruction<'static>>,
    b_inf: Vec<Instruction<'static>>,
    finite: Vec<Instruction<'static>>,
) -> (r: Instruction<'static>)
    ensures
        r@ == compare_tree(view_seq(a_inf@), view_seq(b_inf@), view_seq(finite@)),
{
    let both_zero = Instruction::If {
        condition: single(Instruction::U32CheckedAnd),
        then: drops_then(6, single(Instruction::Push(1))),
        // [a_exp, b_exp, a_sign^, b_sign^, a_mant, b_mant]
        else_: finite,
    };
    let b_is_inf = Instruction::If { condition: Vec::new(), then: b_inf, else_: single(both_zero) };
    let a_is_inf = Instruction::If { condition: Vec::new(), then: a_inf, else_: single(b_is_inf) };
    let equal_bits = vec![
        Instruction::Dup(Some(5)),
        Instruction::Dup(Some(5)),
        Instruction::U32CheckedEq,
        // [a_exp == b_exp]
        Instruction::Dup(Some(8)),
        Instruction::Dup(Some(8)),
        Instruction::U32CheckedEq,
        Instruction::U32CheckedAnd,
        // [a_sign^ == b_sign^ & a_exp == b_exp]
        Instruction::Dup(Some(10)),
        Instruction::Dup(Some(10)),
        Instruction::U32CheckedEq,
        Instruction::U32CheckedAnd,
        // [a_mant == b_mant & a_sign^ == b_sign^ & a_exp == b_exp]
    ];
    proof {
        lemma_view_seq_map(equal_bits@);
    }
    let equal = Instruction::If {
        condition: equal_bits,
        then: drops_then(10, single(Instruction::Push(1))),
        else_: single(a_is_inf),
    };
    let r = Instruction::If {
        condition: Vec::new(),
        then: drops_then(10, single(Instruction::Push(0))),
        else_: single(equal),
    };
    proof {
        assert(view_seq(r->If_condition@) =~= Seq::<Inst>::empty());
        assert(view_seq(equal->If_condition@) =~= compare_tree(
            view_seq(a_inf@),
            view_seq(b_inf@),
            view_seq(finite@),
        )->If_else_[0]->If_condition);
        assert(r@ =~= compare_tree(view_seq(a_inf@), view_seq(b_inf@), view_seq(finite@)));
    }
    r
}


/// Appends the code of an operation on the floats at `a` and `b` whose
/// result `tree` computes from their parts, storing it in a fresh cell.
fn binary_op(
    instructions: &mut Vec<Instruction>,
    memory: &mut Memory,
    a: u32,
    b: u32,
    tree: Instruction<'static>,
) -> (result: u32)
    requires
        old(memory).next_addr() + WIDTH <= u32::MAX,
        a + WIDTH <= u32::MAX,
        b + WIDTH <= u32::MAX,
    ensures
        result == old(memory).next_addr(),
        final(memory).next_addr() == old(memory).next_addr() + WIDTH,
        view_seq(final(instructions)@) == view_seq(old(instructions)@) + binary_insts(
            a,
            b,
            result,
            tree@,
        ),
{
    let result = memory.allocate(WIDTH);
    prepare_stack_for_arithmetic(instructions, memory, a, b);
    // [a_exp, b_exp, a_sign^, b_sign^, a_mant, b_mant]
    add_nan_inf_zero(instructions);
    // [a_is_nan || b_is_nan, a_is_inf, b_is_inf, a_is_zero, b_is_zero, a_exp, b_exp, a_sign^, b_sign^, a_mant, b_mant]
    push_inst(instructions, tree);
    let from_stack = [ValueSource::Stack];
    proof {
        assert(from_stack@ =~= seq![ValueSource::Stack]);
    }
    memory.write(instructions, result, &from_stack);
    proof {
        assert(view_seq(instructions@) =~= view_seq(old(instructions)@) + binary_insts(
            a,
            b,
            result,
            tree@,
        ));
    }
    result
}

/// Builds [`lte_finite`].
fn lte_finite_code() -> (v: Vec<Instruction<'static>>)
    ensures
        view_seq(v@) == lte_finite(),
{
    let same_sign = Instruction::If {
        condition: single(Instruction::U32CheckedEq),
        then: vec![
            Instruction::U32CheckedOr,
            Instruction::MovDown(2),
            Instruction::U32CheckedOr,
            // [b_mant | b_exp^, a_mant | a_exp^, a_sign^ != 0]
            Instruction::U32CheckedLT,
            Instruction::U32CheckedXOR,
            // a_sign^ != 0 ^ a < b
        ],
        // signs differ: a <= b iff a is negative
        else_: drops_then(4, Vec::new()),
    };
    let finite = vec![
        // [a_exp, b_exp, a_sign^, b_sign^, a_mant, b_mant]
        Instruction::U32CheckedSHL(Some(EXP_SHIFT)),
        Instruction::MovDown(3),
        Instruction::U32CheckedSHL(Some(EXP_SHIFT)),
        Instruction::MovDown(5),
        // [a_sign^, b_sign^, a_mant, a_exp^, b_mant, b_exp^]
        Instruction::Dup(Some(0)),
        Instruction::Push(0),
        Instruction::U32CheckedNeq,
        Instruction::MovDown(6),
        // [a_sign^, b_sign^, a_mant, a_exp^, b_mant, b_exp^, a_sign^ != 0]
        same_sign,
    ];
    proof {
        lemma_view_seq_map(finite@);
        lemma_view_seq_map(same_sign->If_then@);
        assert(view_seq(same_sign->If_then@) =~= lte_finite()[8]->If_then);
        assert(view_seq(finite@) =~= lte_finite());
    }
    finite
}

/// Builds [`gte_finite`].
fn gte_finite_code() -> (v: Vec<Instruction<'static>>)
    ensures
        view_seq(v@) == gte_finite(),
{
    let differ_tail = vec![Instruction::Push(0), Instruction::U32CheckedEq];
    proof {
        lemma_view_seq_map(differ_tail@);
    }
    let same_sign = Instruction::If {
        condition: single(Instruction::U32CheckedEq),
        then: vec![
            Instruction::U32CheckedOr,
            Instruction::MovDown(2),
            Instruction::U32CheckedOr,
            Instruction::U32CheckedGT,
            // [a > b, a_sign^]
            Instruction::Swap,
            Instruction::Push(0),
            Instruction::U32CheckedNeq,
            Instruction::U32CheckedXOR,
            // a_sign^ != 0 ^ a > b
        ],
        // signs differ: a >= b iff a is positive
        else_: drops_then(4, differ_tail),
    };
    let finite = vec![
        Instruction::U32CheckedSHL(Some(EXP_SHIFT)),
        Instruction::MovDown(3),
        Instruction::U32CheckedSHL(Some(EXP_SHIFT)),
        Instruction::MovDown(5),
        // [a_sign^, b_sign^, a_mant, a_exp^, b_mant, b_exp^]
        Instruction::Dup(Some(0)),
        Instruction::MovDown(6),
        // [a_sign^, b_sign^, a_mant, a_exp^, b_mant, b_exp^, a_sign^]
        same_sign,
    ];
    proof {
        lemma_view_seq_map(finite@);
        lemma_view_seq_map(same_sign->If_then@);
        assert(view_seq(same_sign->If_then@) =~= gte_finite()[6]->If_then);
        assert(view_seq(same_sign->If_else_@) =~= gte_finite()[6]->If_else_);
        assert(same_sign@ == gte_finite()[6]);
        assert(view_seq(finite@) =~= gte_finite());
    }
    finite
}

/// Appends the code that computes `a <= b` for the floats in the cells `a`
/// and `b`, and returns the fresh cell that holds the result, 1 or 0.
pub fn lte(instructions: &mut Vec<Instruction>, memory: &mut Memory, a: u32, b: u32) -> (result: u32)
    requires
        old(memory).next_addr() + WIDTH <= u32::MAX,
        a + WIDTH <= u32::MAX,
        b + WIDTH <= u32::MAX,
    ensures
        result == old(memory).next_addr(),
        final(memory).next_addr() == old(memory).next_addr() + WIDTH,
        view_seq(final(instructions)@) == view_seq(old(instructions)@) + binary_insts(
            a,
            b,
            result,
            lte_tree(),
        ),
{
    // a is infinite: a <= b iff a is negative
    let a_inf_tail = vec![
        Instruction::MovDown(3),
        Instruction::Drop,
        Instruction::Drop,
        Instruction::Drop,
        Instruction::Push(0),
        Instruction::U32CheckedNeq,
    ];
    proof {
        lemma_view_seq_map(a_inf_tail@);
    }
    let a_inf = drops_then(5, a_inf_tail);
    // b is infinite: a <= b iff b is positive
    let b_inf_tail = vec![
        Instruction::MovDown(2),
        // [a_mant, b_mant, b_sign^]
        Instruction::Drop,
        Instruction::Drop,
        Instruction::Push(0),
        Instruction::U32CheckedEq,
    ];
    proof {
        lemma_view_seq_map(b_inf_tail@);
    }
    let b_inf = drops_then(5, b_inf_tail);
    let finite = lte_finite_code();
    let tree = compare_tree_code(a_inf, b_inf, finite);
    proof {
        assert(view_seq(a_inf@) =~= lte_a_inf());
        assert(view_seq(b_inf@) =~= lte_b_inf());
    }
    binary_op(instructions, memory, a, b, tree)
}

/// Appends the code that computes `a >= b` for the floats in the cells `a`
/// and `b`, and returns the fresh cell that holds the result, 1 or 0.
pub fn gte(instructions: &mut Vec<Instruction>, memory: &mut Memory, a: u32, b: u32) -> (result: u32)
    requires
        old(memory).next_addr() + WIDTH <= u32::MAX,
        a + WIDTH <= u32::MAX,
        b + WIDTH <= u32::MAX,
    ensures
        result == old(memory).next_addr(),
        final(memory).next_addr() == old(memory).next_addr() + WIDTH,
        view_seq(final(instructions)@) == view_seq(old(instructions)@) + binary_insts(
            a,
            b,
            result,
            gte_tree(),
        ),
{
    // a is infinite: a >= b iff a is positive
    let a_inf_tail = vec![
        Instruction::MovDown(3),
        Instruction::Drop,
        Instruction::Drop,
        Instruction::Drop,
        Instruction::Push(0),
        Instruction::U32CheckedEq,
    ];
    proof {
        lemma_view_seq_map(a_inf_tail@);
    }
    let a_inf = drops_then(5, a_inf_tail);
    // b is infinite: a >= b iff b is negative
    let b_inf_tail = vec![
        Instruction::MovDown(2),
        Instruction::Drop,
        Instruction::Drop,
        Instruction::Push(0),
        Instruction::U32CheckedNeq,
    ];
    proof {
        lemma_view_seq_map(b_inf_tail@);
    }
    let b_inf = drops_then(5, b_inf_tail);
    let finite = gte_finite_code();
    let tree = compare_tree_code(a_inf, b_inf, finite);
    proof {
        assert(view_seq(a_inf@) =~= gte_a_inf());
        assert(view_seq(b_inf@) =~= gte_b_inf());
    }
    binary_op(instructions, memory, a, b, tree)
}


/// Builds [`mul_finite`].
fn mul_finite_code() -> (v: Vec<Instruction<'static>>)
    ensures
        view_seq(v@) == mul_finite(),
{
    let carry = Instruction::If {
        condition: vec![
            Instruction::Dup(None),
            Instruction::Push(0x0100_0000),
            Instruction::U32CheckedAnd,
            Instruction::Push(0),
            Instruction::U32CheckedNeq,
        ],
        // the product has 25 bits: shift it back and raise the exponent
        then: vec![
            Instruction::U32CheckedSHR(Some(1)),
            Instruction::Swap,
            Instruction::Push(1),
            Instruction::U32CheckedAdd,
        ],
        else_: single(Instruction::Swap),
    };
    // [exp, mant, a_sign^, b_sign^]
    let overflow = Instruction::If {
        condition: vec![Instruction::Dup(None), Instruction::Push(EXP_MAX), Instruction::U32CheckedGTE],
        // too large: infinity
        then: vec![
            Instruction::Drop,
            Instruction::Drop,
            Instruction::U32CheckedXOR,
            Instruction::Push(INFINITY),
            Instruction::U32CheckedAdd,
        ],
        else_: vec![
            Instruction::U32CheckedSHL(Some(EXP_SHIFT)),
            Instruction::Swap,
            Instruction::Push(MANT_MASK),
            Instruction::U32CheckedAnd,
            Instruction::U32CheckedAdd,
            Instruction::MovDown(2),
            Instruction::U32CheckedXOR,
            Instruction::U32CheckedAdd,
        ],
    };
    let underflow = Instruction::If {
        condition: vec![
            Instruction::Dup(None),
            Instruction::Push(SIGN_MASK),
            Instruction::U32CheckedAnd,
            Instruction::Push(SIGN_MASK),
            Instruction::U32CheckedEq,
        ],
        // the exponent wrapped below zero: a zero of the product's sign
        then: vec![Instruction::Drop, Instruction::Drop, Instruction::U32CheckedXOR],
        else_: single(overflow),
    };
    proof {
        lemma_view_seq_map(carry->If_condition@);
        lemma_view_seq_map(carry->If_then@);
        lemma_view_seq_map(overflow->If_condition@);
        lemma_view_seq_map(overflow->If_then@);
        lemma_view_seq_map(overflow->If_else_@);
        lemma_view_seq_map(underflow->If_condition@);
        lemma_view_seq_map(underflow->If_then@);
        let spec_carry = mul_finite()[14];
        assert(view_seq(carry->If_condition@) =~= spec_carry->If_condition);
        assert(view_seq(carry->If_then@) =~= spec_carry->If_then);
        assert(view_seq(carry->If_else_@) =~= spec_carry->If_else_);
        assert(carry@ == spec_carry);
        let spec_overflow = mul_finite()[15]->If_else_[0];
        assert(view_seq(overflow->If_condition@) =~= spec_overflow->If_condition);
        assert(view_seq(overflow->If_then@) =~= spec_overflow->If_then);
        assert(view_seq(overflow->If_else_@) =~= spec_overflow->If_else_);
        assert(overflow@ == spec_overflow);
        let spec_underflow = mul_finite()[15];
        assert(view_seq(underflow->If_condition@) =~= spec_underflow->If_condition);
        assert(view_seq(underflow->If_then@) =~= spec_underflow->If_then);
        assert(view_seq(underflow->If_else_@) =~= spec_underflow->If_else_);
        assert(underflow@ == spec_underflow);
    }
    let v = vec![
        // [a_exp, b_exp, a_sign^, b_sign^, a_mant, b_mant]
        Instruction::U32CheckedAdd,
        Instruction::Push(EXP_BIAS),
        Instruction::U32WrappingSub,
        // [exp, a_sign^, b_sign^, a_mant, b_mant]
        Instruction::MovUp(4),
        Instruction::Push(LEADING_ONE_BIT),
        Instruction::U32CheckedAdd,
        Instruction::MovUp(4),
        Instruction::Push(LEADING_ONE_BIT),
        Instruction::U32CheckedAdd,
        // [b_sig, a_sig, exp, a_sign^, b_sign^]
        Instruction::U32OverflowingMul,
        // [hi, lo, exp, a_sign^, b_sign^]
        Instruction::U32CheckedSHL(Some(9)),
        Instruction::Swap,
        Instruction::U32CheckedSHR(Some(EXP_SHIFT)),
        Instruction::U32WrappingAdd,
        // [product >> 23, exp, a_sign^, b_sign^]
        carry,
        underflow,
    ];
    proof {
        lemma_view_seq_map(v@);
        assert(view_seq(v@) =~= mul_finite());
    }
    v
}

/// Appends the code that multiplies the floats in the cells `a` and `b`,
/// and returns the fresh cell that holds the product.
pub fn mul(instructions: &mut Vec<Instruction>, memory: &mut Memory, a: u32, b: u32) -> (result: u32)
    requires
        old(memory).next_addr() + WIDTH <= u32::MAX,
        a + WIDTH <= u32::MAX,
        b + WIDTH <= u32::MAX,
    ensures
        result == old(memory).next_addr(),
        final(memory).next_addr() == old(memory).next_addr() + WIDTH,
        view_seq(final(instructions)@) == view_seq(old(instructions)@) + binary_insts(
            a,
            b,
            result,
            mul_tree(),
        ),
{
    let invalid = vec![
        // [a_is_nan || b_is_nan, a_is_inf, b_is_inf, a_is_zero, b_is_zero, ..]
        Instruction::Dup(Some(3)),
        Instruction::Dup(Some(3)),
        Instruction::U32CheckedAnd,
        Instruction::U32CheckedOr,
        // [nan | a_is_inf & a_is_zero .. ]
        Instruction::Dup(Some(4)),
        Instruction::Dup(Some(2)),
        Instruction::U32CheckedAnd,
        Instruction::U32CheckedOr,
        // [nan | inf * zero, ..]
    ];
    let inf_tail = vec![
        // [a_exp, b_exp, a_sign^, b_sign^, ..] after the flags
        Instruction::U32CheckedXOR,
        Instruction::MovDown(2),
        Instruction::Drop,
        Instruction::Drop,
        Instruction::Push(INFINITY),
        Instruction::U32CheckedOr,
    ];
    let zero = vec![
        // [a_exp, b_exp, a_sign^, b_sign^, a_mant, b_mant]
        Instruction::Drop,
        Instruction::Drop,
        Instruction::MovUp(2),
        Instruction::Drop,
        Instruction::MovUp(2),
        Instruction::Drop,
        // [a_sign^, b_sign^]
        Instruction::U32CheckedXOR,
    ];
    proof {
        lemma_view_seq_map(invalid@);
        lemma_view_seq_map(inf_tail@);
        lemma_view_seq_map(zero@);
    }
    let finite = mul_finite_code();
    let either_zero = Instruction::If {
        condition: single(Instruction::U32CheckedOr),
        then: zero,
        else_: finite,
    };
    let either_inf = Instruction::If {
        condition: single(Instruction::U32CheckedOr),
        then: drops_then(4, inf_tail),
        else_: single(either_zero),
    };
    let tree = Instruction::If {
        condition: invalid,
        then: drops_then(10, single(Instruction::Push(NAN))),
        else_: single(either_inf),
    };
    proof {
        let spec_zero = mul_tree()->If_else_[0]->If_else_[0];
        assert(view_seq(either_zero->If_condition@) =~= spec_zero->If_condition);
        assert(view_seq(either_zero->If_then@) =~= spec_zero->If_then);
        assert(view_seq(either_zero->If_else_@) =~= spec_zero->If_else_);
        assert(either_zero@ == spec_zero);
        let spec_inf = mul_tree()->If_else_[0];
        assert(view_seq(either_inf->If_condition@) =~= spec_inf->If_condition);
        assert(view_seq(either_inf->If_then@) =~= spec_inf->If_then);
        assert(view_seq(either_inf->If_else_@) =~= spec_inf->If_else_);
        assert(either_inf@ == spec_inf);
        assert(view_seq(tree->If_condition@) =~= mul_tree()->If_condition);
        assert(view_seq(tree->If_then@) =~= mul_tree()->If_then);
        assert(view_seq(tree->If_else_@) =~= mul_tree()->If_else_);
        assert(tree@ =~= mul_tree());
    }
    binary_op(instructions, memory, a, b, tree)
}


/// Builds [`strict_tree`].
fn strict_tree_code(
    a_inf: Vec<Instruction<'static>>,
    b_inf: Vec<Instruction<'static>>,
    finite: Vec<Instruction<'static>>,
) -> (r: Instruction<'static>)
    ensures
        r@ == strict_tree(view_seq(a_inf@), view_seq(b_inf@), view_seq(finite@)),
{
    let b_is_inf = Instruction::If { condition: Vec::new(), then: b_inf, else_: finite };
    let a_is_inf = Instruction::If { condition: Vec::new(), then: a_inf, else_: single(b_is_inf) };
    let invalid = vec![
        // [a_is_nan || b_is_nan, a_is_inf, b_is_inf, a_is_zero, b_is_zero, ..]
        Instruction::MovUp(4),
        Instruction::MovUp(4),
        Instruction::U32CheckedAnd,
        Instruction::U32CheckedOr,
        // [nan | a_is_zero & b_is_zero, a_is_inf, b_is_inf, ..]
    ];
    let equal_bits = vec![
        // [a_is_inf, b_is_inf, a_exp, b_exp, a_sign^, b_sign^, a_mant, b_mant]
        Instruction::Dup(Some(3)),
        Instruction::Dup(Some(3)),
        Instruction::U32CheckedEq,
        Instruction::Dup(Some(6)),
        Instruction::Dup(Some(6)),
        Instruction::U32CheckedEq,
        Instruction::U32CheckedAnd,
        Instruction::Dup(Some(8)),
        Instruction::Dup(Some(8)),
        Instruction::U32CheckedEq,
        Instruction::U32CheckedAnd,
        // [a_exp == b_exp & a_sign^ == b_sign^ & a_mant == b_mant, ..]
    ];
    proof {
        lemma_view_seq_map(invalid@);
        lemma_view_seq_map(equal_bits@);
    }
    // equal floats are neither below nor above each other
    let equal = Instruction::If {
        condition: equal_bits,
        then: drops_then(8, single(Instruction::Push(0))),
        else_: single(a_is_inf),
    };
    let r = Instruction::If {
        condition: invalid,
        then: drops_then(8, single(Instruction::Push(0))),
        else_: single(equal),
    };
    proof {
        assert(view_seq(r->If_condition@) =~= strict_tree(
            view_seq(a_inf@),
            view_seq(b_inf@),
            view_seq(finite@),
        )->If_condition);
        assert(view_seq(equal->If_condition@) =~= strict_tree(
            view_seq(a_inf@),
            view_seq(b_inf@),
            view_seq(finite@),
        )->If_else_[0]->If_condition);
        assert(r@ =~= strict_tree(view_seq(a_inf@), view_seq(b_inf@), view_seq(finite@)));
    }
    r
}

/// Appends the code that computes `a < b` for the floats in the cells `a`
/// and `b`, and returns the fresh cell that holds the result, 1 or 0.
pub fn lt(instructions: &mut Vec<Instruction>, memory: &mut Memory, a: u32, b: u32) -> (result: u32)
    requires
        old(memory).next_addr() + WIDTH <= u32::MAX,
        a + WIDTH <= u32::MAX,
        b + WIDTH <= u32::MAX,
    ensures
        result == old(memory).next_addr(),
        final(memory).next_addr() == old(memory).next_addr() + WIDTH,
        view_seq(final(instructions)@) == view_seq(old(instructions)@) + binary_insts(
            a,
            b,
            result,
            lt_tree(),
        ),
{
    // a is infinite: a < b iff a is negative
    let a_inf_tail = vec![
        Instruction::MovDown(3),
        Instruction::Drop,
        Instruction::Drop,
        Instruction::Drop,
        Instruction::Push(0),
        Instruction::U32CheckedNeq,
    ];
    // b is infinite: a < b iff b is positive
    let b_inf_tail = vec![
        Instruction::MovDown(2),
        Instruction::Drop,
        Instruction::Drop,
        Instruction::Push(0),
        Instruction::U32CheckedEq,
    ];
    proof {
        lemma_view_seq_map(a_inf_tail@);
        lemma_view_seq_map(b_inf_tail@);
        assert(view_seq(a_inf_tail@) =~= lte_a_inf().skip(5));
        assert(view_seq(b_inf_tail@) =~= lte_b_inf().skip(5));
    }
    let a_inf = drops_then(3, a_inf_tail);
    let b_inf = drops_then(3, b_inf_tail);
    let tree = strict_tree_code(a_inf, b_inf, lte_finite_code());
    binary_op(instructions, memory, a, b, tree)
}

/// Appends the code that computes `a > b` for the floats in the cells `a`
/// and `b`, and returns the fresh cell that holds the result, 1 or 0.
pub fn gt(instructions: &mut Vec<Instruction>, memory: &mut Memory, a: u32, b: u32) -> (result: u32)
    requires
        old(memory).next_addr() + WIDTH <= u32::MAX,
        a + WIDTH <= u32::MAX,
        b + WIDTH <= u32::MAX,
    ensures
        result == old(memory).next_addr(),
        final(memory).next_addr() == old(memory).next_addr() + WIDTH,
        view_seq(final(instructions)@) == view_seq(old(instructions)@) + binary_insts(
            a,
            b,
            result,
            gt_tree(),
        ),
{
    // a is infinite: a > b iff a is positive
    let a_inf_tail = vec![
        Instruction::MovDown(3),
        Instruction::Drop,
        Instruction::Drop,
        Instruction::Drop,
        Instruction::Push(0),
        Instruction::U32CheckedEq,
    ];
    // b is infinite: a > b iff b is negative
    let b_inf_tail = vec![
        Instruction::MovDown(2),
        Instruction::Drop,
        Instruction::Drop,
        Instruction::Push(0),
        Instruction::U32CheckedNeq,
    ];
    proof {
        lemma_view_seq_map(a_inf_tail@);
        lemma_view_seq_map(b_inf_tail@);
        assert(view_seq(a_inf_tail@) =~= gte_a_inf().skip(5));
        assert(view_seq(b_inf_tail@) =~= gte_b_inf().skip(5));
    }
    let a_inf = drops_then(3, a_inf_tail);
    let b_inf = drops_then(3, b_inf_tail);
    let tree = strict_tree_code(a_inf, b_inf, gte_finite_code());
    binary_op(instructions, memory, a, b, tree)
}


/// Builds [`add_body`].
#[verifier::rlimit(100)]
fn add_body_code() -> (v: Vec<Instruction<'static>>)
    ensures
        view_seq(v@) == add_body(),
{
    reveal(add_body);
    let c1 = vec![
        Instruction::Dup(Some(2)),
        Instruction::Dup(Some(2)),
        Instruction::U32CheckedAnd,
        Instruction::Dup(Some(9)),
        Instruction::Dup(Some(9)),
        Instruction::U32CheckedNeq,
        Instruction::U32CheckedAnd,
        Instruction::U32CheckedOr,
    ];
    proof {
        lemma_view_seq_map(c1@);
        assert(view_seq(c1@) =~= add_body()[0]->If_condition);
    }
    let c2 = vec![
        Instruction::Drop,
        Instruction::Drop,
        Instruction::Drop,
        Instruction::Drop,
        Instruction::Drop,
        Instruction::Drop,
        Instruction::Drop,
        Instruction::Drop,
        Instruction::Drop,
        Instruction::Drop,
        Instruction::Push(NAN),
    ];
    proof {
        lemma_view_seq_map(c2@);
        assert(view_seq(c2@) =~= add_body()[0]->If_then);
    }
    let c3: Vec<Instruction<'static>> = Vec::new();
    proof {
        lemma_view_seq_map(c3@);
        assert(view_seq(c3@) =~= add_body()[0]->If_else_[0]->If_condition);
    }
    let c4 = vec![
        Instruction::Drop,
        Instruction::Drop,
        Instruction::Drop,
        Instruction::Drop,
        Instruction::Drop,
        Instruction::MovDown(3),
        Instruction::Drop,
        Instruction::Drop,
        Instruction::Drop,
        Instruction::Push(INFINITY),
        Instruction::U32CheckedOr,
    ];
    proof {
        lemma_view_seq_map(c4@);
        assert(view_seq(c4@) =~= add_body()[0]->If_else_[0]->If_then);
    }
    let c5: Vec<Instruction<'static>> = Vec::new();
    proof {
        lemma_view_seq_map(c5@);
        assert(view_seq(c5@) =~= add_body()[0]->If_else_[0]->If_else_[0]->If_condition);
    }
    let c6 = vec![
        Instruction::Drop,
        Instruction::Drop,
        Instruction::Drop,
        Instruction::Drop,
        Instruction::Drop,
        Instruction::MovDown(2),
        Instruction::Drop,
        Instruction::Drop,
        Instruction::Push(INFINITY),
        Instruction::U32CheckedOr,
    ];
    proof {
        lemma_view_seq_map(c6@);
        assert(view_seq(c6@) =~= add_body()[0]->If_else_[0]->If_else_[0]->If_then);
    }
    let c7: Vec<Instruction<'static>> = Vec::new();
    proof {
        lemma_view_seq_map(c7@);
        assert(view_seq(c7@) =~= add_body()[0]->If_else_[0]->If_else_[0]->If_else_[0]->If_condition);
    }
    let c8 = vec![
        Instruction::Drop,
        Instruction::Drop,
        Instruction::U32CheckedSHL(Some(23)),
        Instruction::MovDown(4),
        Instruction::Drop,
        Instruction::Swap,
        Instruction::Drop,
        Instruction::U32CheckedOr,
        Instruction::U32CheckedOr,
    ];
    proof {
        lemma_view_seq_map(c8@);
        assert(view_seq(c8@) =~= add_body()[0]->If_else_[0]->If_else_[0]->If_else_[0]->If_then);
    }
    let c9: Vec<Instruction<'static>> = Vec::new();
    proof {
        lemma_view_seq_map(c9@);
        assert(view_seq(c9@) =~= add_body()[0]->If_else_[0]->If_else_[0]->If_else_[0]->If_else_[0]->If_condition);
    }
    let c10 = vec![
        Instruction::U32CheckedSHL(Some(23)),
        Instruction::MovDown(3),
        Instruction::Drop,
        Instruction::Swap,
        Instruction::Drop,
        Instruction::U32CheckedOr,
        Instruction::U32CheckedOr,
        Instruction::Swap,
        Instruction::Drop,
    ];
    proof {
        lemma_view_seq_map(c10@);
        assert(view_seq(c10@) =~= add_body()[0]->If_else_[0]->If_else_[0]->If_else_[0]->If_else_[0]->If_then);
    }
    let c11 = vec![
        Instruction::Dup(Some(1)),
        Instruction::Dup(Some(1)),
        Instruction::U32CheckedGT,
    ];
    proof {
        lemma_view_seq_map(c11@);
        assert(view_seq(c11@) =~= add_body()[0]->If_else_[0]->If_else_[0]->If_else_[0]->If_else_[0]->If_else_[0]->If_condition);
    }
    let c12 = vec![
        Instruction::MovDown(5),
        Instruction::MovDown(4),
        Instruction::MovDown(5),
        Instruction::MovDown(4),
        Instruction::MovDown(5),
        Instruction::MovDown(4),
    ];
    proof {
        lemma_view_seq_map(c12@);
        assert(view_seq(c12@) =~= add_body()[0]->If_else_[0]->If_else_[0]->If_else_[0]->If_else_[0]->If_else_[0]->If_then);
    }
    let c13: Vec<Instruction<'static>> = Vec::new();
    proof {
        lemma_view_seq_map(c13@);
        assert(view_seq(c13@) =~= add_body()[0]->If_else_[0]->If_else_[0]->If_else_[0]->If_else_[0]->If_else_[0]->If_else_);
    }
    let c14 = vec![
        Instruction::Dup(Some(0)),
        Instruction::MovUp(2),
        Instruction::U32CheckedSub,
        Instruction::Dup(Some(0)),
        Instruction::Push(24),
        Instruction::U32CheckedGT,
    ];
    proof {
        lemma_view_seq_map(c14@);
        assert(view_seq(c14@) =~= add_body()[0]->If_else_[0]->If_else_[0]->If_else_[0]->If_else_[0]->If_else_[1]->If_condition);
    }
    let c15 = vec![
        Instruction::Drop,
        Instruction::U32CheckedSHL(Some(23)),
        Instruction::U32CheckedOr,
        Instruction::Swap,
        Instruction::Drop,
        Instruction::U32CheckedOr,
        Instruction::Swap,
        Instruction::Drop,
    ];
    proof {
        lemma_view_seq_map(c15@);
        assert(view_seq(c15@) =~= add_body()[0]->If_else_[0]->If_else_[0]->If_else_[0]->If_else_[0]->If_else_[1]->If_then);
    }
    let c16 = vec![
        Instruction::Dup(Some(0)),
        Instruction::Push(0),
        Instruction::U32CheckedEq,
    ];
    proof {
        lemma_view_seq_map(c16@);
        assert(view_seq(c16@) =~= add_body()[0]->If_else_[0]->If_else_[0]->If_else_[0]->If_else_[0]->If_else_[1]->If_else_[7]->If_condition);
    }
    let c17 = vec![
        Instruction::Push(1),
        Instruction::U32CheckedOr,
    ];
    proof {
        lemma_view_seq_map(c17@);
        assert(view_seq(c17@) =~= add_body()[0]->If_else_[0]->If_else_[0]->If_else_[0]->If_else_[0]->If_else_[1]->If_else_[7]->If_then);
    }
    let c18: Vec<Instruction<'static>> = Vec::new();
    proof {
        lemma_view_seq_map(c18@);
        assert(view_seq(c18@) =~= add_body()[0]->If_else_[0]->If_else_[0]->If_else_[0]->If_else_[0]->If_else_[1]->If_else_[7]->If_else_);
    }
    let c19 = vec![
        Instruction::Dup(Some(1)),
        Instruction::Dup(Some(1)),
        Instruction::U32CheckedEq,
    ];
    proof {
        lemma_view_seq_map(c19@);
        assert(view_seq(c19@) =~= add_body()[0]->If_else_[0]->If_else_[0]->If_else_[0]->If_else_[0]->If_else_[1]->If_else_[13]->If_condition);
    }
    let c20 = vec![
        Instruction::MovDown(3),
        Instruction::Drop,
        Instruction::U32CheckedAdd,
    ];
    proof {
        lemma_view_seq_map(c20@);
        assert(view_seq(c20@) =~= add_body()[0]->If_else_[0]->If_else_[0]->If_else_[0]->If_else_[0]->If_else_[1]->If_else_[13]->If_then);
    }
    let c21 = vec![
        Instruction::Dup(Some(3)),
        Instruction::Dup(Some(3)),
        Instruction::U32CheckedLTE,
    ];
    proof {
        lemma_view_seq_map(c21@);
        assert(view_seq(c21@) =~= add_body()[0]->If_else_[0]->If_else_[0]->If_else_[0]->If_else_[0]->If_else_[1]->If_else_[13]->If_else_[0]->If_condition);
    }
    let c22 = vec![
        Instruction::MovDown(3),
        Instruction::Drop,
        Instruction::Swap,
        Instruction::U32CheckedSub,
    ];
    proof {
        lemma_view_seq_map(c22@);
        assert(view_seq(c22@) =~= add_body()[0]->If_else_[0]->If_else_[0]->If_else_[0]->If_else_[0]->If_else_[1]->If_else_[13]->If_else_[0]->If_then);
    }
    let c23 = vec![
        Instruction::Drop,
        Instruction::MovDown(2),
        Instruction::U32CheckedSub,
    ];
    proof {
        lemma_view_seq_map(c23@);
        assert(view_seq(c23@) =~= add_body()[0]->If_else_[0]->If_else_[0]->If_else_[0]->If_else_[0]->If_else_[1]->If_else_[13]->If_else_[0]->If_else_);
    }
    let c24 = vec![
        Instruction::If { condition: c21, then: c22, else_: c23 },
    ];
    proof {
        lemma_view_seq_map(c24@);
        assert(view_seq(c24@) =~= add_body()[0]->If_else_[0]->If_else_[0]->If_else_[0]->If_else_[0]->If_else_[1]->If_else_[13]->If_else_);
    }
    let c25 = vec![
        Instruction::Dup(Some(0)),
        Instruction::Push(0),
        Instruction::U32CheckedEq,
    ];
    proof {
        lemma_view_seq_map(c25@);
        assert(view_seq(c25@) =~= add_body()[0]->If_else_[0]->If_else_[0]->If_else_[0]->If_else_[0]->If_else_[1]->If_else_[14]->If_condition);
    }
    let c26 = vec![
        Instruction::Drop,
        Instruction::Drop,
        Instruction::Drop,
        Instruction::Push(0),
    ];
    proof {
        lemma_view_seq_map(c26@);
        assert(view_seq(c26@) =~= add_body()[0]->If_else_[0]->If_else_[0]->If_else_[0]->If_else_[0]->If_else_[1]->If_else_[14]->If_then);
    }
    let c27 = vec![
        Instruction::Dup(Some(0)),
        Instruction::Push(0),
        Instruction::U32CheckedNeq,
    ];
    proof {
        lemma_view_seq_map(c27@);
        assert(view_seq(c27@) =~= add_body()[0]->If_else_[0]->If_else_[0]->If_else_[0]->If_else_[0]->If_else_[1]->If_else_[14]->If_else_[2]->While_condition);
    }
    let c28 = vec![
        Instruction::U32CheckedSHR(Some(1)),
        Instruction::Swap,
        Instruction::Push(1),
        Instruction::U32CheckedSub,
        Instruction::Swap,
    ];
    proof {
        lemma_view_seq_map(c28@);
        assert(view_seq(c28@) =~= add_body()[0]->If_else_[0]->If_else_[0]->If_else_[0]->If_else_[0]->If_else_[1]->If_else_[14]->If_else_[2]->While_body);
    }
    let c29 = vec![
        Instruction::Dup(Some(0)),
        Instruction::Push(8),
        Instruction::U32CheckedLTE,
    ];
    proof {
        lemma_view_seq_map(c29@);
        assert(view_seq(c29@) =~= add_body()[0]->If_else_[0]->If_else_[0]->If_else_[0]->If_else_[0]->If_else_[1]->If_else_[14]->If_else_[4]->If_condition);
    }
    let c30 = vec![
        Instruction::Push(8),
        Instruction::Swap,
        Instruction::U32CheckedSub,
        Instruction::Swap,
        Instruction::Dup(Some(1)),
        Instruction::U32CheckedSHR(None),
        Instruction::Push(MANT_MASK),
        Instruction::U32CheckedAnd,
        Instruction::Swap,
        Instruction::MovUp(3),
        Instruction::U32CheckedAdd,
    ];
    proof {
        lemma_view_seq_map(c30@);
        assert(view_seq(c30@) =~= add_body()[0]->If_else_[0]->If_else_[0]->If_else_[0]->If_else_[0]->If_else_[1]->If_else_[14]->If_else_[4]->If_then);
    }
    let c31 = vec![
        Instruction::Push(8),
        Instruction::U32CheckedSub,
        Instruction::Swap,
        Instruction::Dup(Some(1)),
        Instruction::U32CheckedSHL(None),
        Instruction::Push(MANT_MASK),
        Instruction::U32CheckedAnd,
        Instruction::Swap,
        Instruction::MovUp(3),
        Instruction::Swap,
        Instruction::U32WrappingSub,
    ];
    proof {
        lemma_view_seq_map(c31@);
        assert(view_seq(c31@) =~= add_body()[0]->If_else_[0]->If_else_[0]->If_else_[0]->If_else_[0]->If_else_[1]->If_else_[14]->If_else_[4]->If_else_);
    }
    let c32 = vec![
        Instruction::Dup(Some(0)),
        Instruction::Push(SIGN_MASK),
        Instruction::U32CheckedAnd,
        Instruction::Push(SIGN_MASK),
        Instruction::U32CheckedEq,
    ];
    proof {
        lemma_view_seq_map(c32@);
        assert(view_seq(c32@) =~= add_body()[0]->If_else_[0]->If_else_[0]->If_else_[0]->If_else_[0]->If_else_[1]->If_else_[14]->If_else_[5]->If_condition);
    }
    let c33 = vec![
        Instruction::Drop,
        Instruction::Drop,
    ];
    proof {
        lemma_view_seq_map(c33@);
        assert(view_seq(c33@) =~= add_body()[0]->If_else_[0]->If_else_[0]->If_else_[0]->If_else_[0]->If_else_[1]->If_else_[14]->If_else_[5]->If_then);
    }
    let c34 = vec![
        Instruction::Dup(Some(0)),
        Instruction::Push(0xff),
        Instruction::U32CheckedGTE,
    ];
    proof {
        lemma_view_seq_map(c34@);
        assert(view_seq(c34@) =~= add_body()[0]->If_else_[0]->If_else_[0]->If_else_[0]->If_else_[0]->If_else_[1]->If_else_[14]->If_else_[5]->If_else_[0]->If_condition);
    }
    let c35 = vec![
        Instruction::Drop,
        Instruction::Drop,
        Instruction::Push(INFINITY),
        Instruction::U32CheckedOr,
    ];
    proof {
        lemma_view_seq_map(c35@);
        assert(view_seq(c35@) =~= add_body()[0]->If_else_[0]->If_else_[0]->If_else_[0]->If_else_[0]->If_else_[1]->If_else_[14]->If_else_[5]->If_else_[0]->If_then);
    }
    let c36 = vec![
        Instruction::U32CheckedSHL(Some(23)),
        Instruction::U32CheckedOr,
        Instruction::U32CheckedOr,
    ];
    proof {
        lemma_view_seq_map(c36@);
        assert(view_seq(c36@) =~= add_body()[0]->If_else_[0]->If_else_[0]->If_else_[0]->If_else_[0]->If_else_[1]->If_else_[14]->If_else_[5]->If_else_[0]->If_else_);
    }
    let c37 = vec![
        Instruction::If { condition: c34, then: c35, else_: c36 },
    ];
    proof {
        lemma_view_seq_map(c37@);
        assert(view_seq(c37@) =~= add_body()[0]->If_else_[0]->If_else_[0]->If_else_[0]->If_else_[0]->If_else_[1]->If_else_[14]->If_else_[5]->If_else_);
    }
    let c38 = vec![
        Instruction::Push(32),
        Instruction::Dup(Some(1)),
        Instruction::While { condition: c27, body: c28 },
        Instruction::Drop,
        Instruction::If { condition: c29, then: c30, else_: c31 },
        Instruction::If { condition: c32, then: c33, else_: c37 },
    ];
    proof {
        lemma_view_seq_map(c38@);
        assert(view_seq(c38@) =~= add_body()[0]->If_else_[0]->If_else_[0]->If_else_[0]->If_else_[0]->If_else_[1]->If_else_[14]->If_else_);
    }
    let c39 = vec![
        Instruction::Swap,
        Instruction::MovDown(5),
        Instruction::MovUp(4),
        Instruction::Push(LEADING_ONE_BIT),
        Instruction::U32CheckedOr,
        Instruction::Swap,
        Instruction::U32CheckedSHR(None),
        Instruction::If { condition: c16, then: c17, else_: c18 },
        Instruction::MovDown(3),
        Instruction::MovUp(2),
        Instruction::Push(LEADING_ONE_BIT),
        Instruction::U32CheckedOr,
        Instruction::MovDown(2),
        Instruction::If { condition: c19, then: c20, else_: c24 },
        Instruction::If { condition: c25, then: c26, else_: c38 },
    ];
    proof {
        lemma_view_seq_map(c39@);
        assert(view_seq(c39@) =~= add_body()[0]->If_else_[0]->If_else_[0]->If_else_[0]->If_else_[0]->If_else_[1]->If_else_);
    }
    let c40 = vec![
        Instruction::If { condition: c11, then: c12, else_: c13 },
        Instruction::If { condition: c14, then: c15, else_: c39 },
    ];
    proof {
        lemma_view_seq_map(c40@);
        assert(view_seq(c40@) =~= add_body()[0]->If_else_[0]->If_else_[0]->If_else_[0]->If_else_[0]->If_else_);
    }
    let c41 = vec![
        Instruction::If { condition: c9, then: c10, else_: c40 },
    ];
    proof {
        lemma_view_seq_map(c41@);
        assert(view_seq(c41@) =~= add_body()[0]->If_else_[0]->If_else_[0]->If_else_[0]->If_else_);
    }
    let c42 = vec![
        Instruction::If { condition: c7, then: c8, else_: c41 },
    ];
    proof {
        lemma_view_seq_map(c42@);
        assert(view_seq(c42@) =~= add_body()[0]->If_else_[0]->If_else_[0]->If_else_);
    }
    let c43 = vec![
        Instruction::If { condition: c5, then: c6, else_: c42 },
    ];
    proof {
        lemma_view_seq_map(c43@);
        assert(view_seq(c43@) =~= add_body()[0]->If_else_[0]->If_else_);
    }
    let c44 = vec![
        Instruction::If { condition: c3, then: c4, else_: c43 },
    ];
    proof {
        lemma_view_seq_map(c44@);
        assert(view_seq(c44@) =~= add_body()[0]->If_else_);
    }
    let c45 = vec![
        Instruction::If { condition: c1, then: c2, else_: c44 },
    ];
    proof {
        lemma_view_seq_map(c45@);
        assert(view_seq(c45@) =~= add_body());
    }
    c45
}

/// Appends the code that adds the two floats whose parts are on the stack
/// and returns the fresh cell that holds the sum.
///
/// Stack transition: `[a_exp, b_exp, a_sign^, b_sign^, a_mant, b_mant] => []`.
pub fn add_impl(instructions: &mut Vec<Instruction>, memory: &mut Memory) -> (result: u32)
    requires
        old(memory).next_addr() + WIDTH <= u32::MAX,
    ensures
        result == old(memory).next_addr(),
        final(memory).next_addr() == old(memory).next_addr() + WIDTH,
        view_seq(final(instructions)@) == view_seq(old(instructions)@) + nan_inf_zero_insts()
            + add_body() + write_insts(result as int, seq![ValueSource::Stack]),
{
    let result = memory.allocate(WIDTH);
    add_nan_inf_zero(instructions);
    // [a_is_nan || b_is_nan, a_is_inf, b_is_inf, a_is_zero, b_is_zero, a_exp, b_exp, a_sign^, b_sign^, a_mant, b_mant]
    extend(instructions, add_body_code());
    let from_stack = [ValueSource::Stack];
    proof {
        assert(from_stack@ =~= seq![ValueSource::Stack]);
    }
    memory.write(instructions, result, &from_stack);
    proof {
        assert(view_seq(instructions@) =~= view_seq(old(instructions)@) + nan_inf_zero_insts()
            + add_body() + write_insts(result as int, seq![ValueSource::Stack]));
    }
    result
}

/// Appends the code that adds the floats in the cells `a` and `b`, and
/// returns the fresh cell that holds the sum.
pub fn add(instructions: &mut Vec<Instruction>, memory: &mut Memory, a: u32, b: u32) -> (result: u32)
    requires
        old(memory).next_addr() + WIDTH <= u32::MAX,
        a + WIDTH <= u32::MAX,
        b + WIDTH <= u32::MAX,
    ensures
        result == old(memory).next_addr(),
        final(memory).next_addr() == old(memory).next_addr() + WIDTH,
        view_seq(final(instructions)@) == view_seq(old(instructions)@) + prepare_insts(a, b)
            + nan_inf_zero_insts() + add_body() + write_insts(result as int, seq![ValueSource::Stack]),
{
    prepare_stack_for_arithmetic(instructions, memory, a, b);
    // [a_exp, b_exp, a_sign^, b_sign^, a_mant, b_mant]
    let result = add_impl(instructions, memory);
    proof {
        assert(view_seq(instructions@) =~= view_seq(old(instructions)@) + prepare_insts(a, b)
            + nan_inf_zero_insts() + add_body() + write_insts(result as int, seq![ValueSource::Stack]));
    }
    result
}

/// The code that flips the sign of the second float, whose parts are on
/// the stack.
pub open spec fn negate_b_insts() -> Seq<Inst> {
    seq![Inst::MovUp(3), Inst::Push(SIGN_MASK), Inst::U32CheckedXOR, Inst::MovDown(3)]
}

/// Appends the code that subtracts the float in the cell `b` from the one
/// in `a`, and returns the fresh cell that holds the difference.
pub fn sub(instructions: &mut Vec<Instruction>, memory: &mut Memory, a: u32, b: u32) -> (result: u32)
    requires
        old(memory).next_addr() + WIDTH <= u32::MAX,
        a + WIDTH <= u32::MAX,
        b + WIDTH <= u32::MAX,
    ensures
        result == old(memory).next_addr(),
        final(memory).next_addr() == old(memory).next_addr() + WIDTH,
        view_seq(final(instructions)@) == view_seq(old(instructions)@) + prepare_insts(a, b)
            + negate_b_insts() + nan_inf_zero_insts() + add_body() + write_insts(
            result as int,
            seq![ValueSource::Stack],
        ),
{
    prepare_stack_for_arithmetic(instructions, memory, a, b);
    // [a_exp, b_exp, a_sign^, b_sign^, a_mant, b_mant]
    let negate = vec![
        Instruction::MovUp(3),
        Instruction::Push(SIGN_MASK),
        Instruction::U32CheckedXOR,
        Instruction::MovDown(3),
    ];
    proof {
        lemma_view_seq_map(negate@);
        assert(view_seq(negate@) =~= negate_b_insts());
    }
    extend(instructions, negate);
    // [a_exp, b_exp, a_sign^, -b_sign^, a_mant, b_mant]
    let result = add_impl(instructions, memory);
    proof {
        assert(view_seq(instructions@) =~= view_seq(old(instructions)@) + prepare_insts(a, b)
            + negate_b_insts() + nan_inf_zero_insts() + add_body() + write_insts(
            result as int,
            seq![ValueSource::Stack],
        ));
    }
    result
}


/// Builds [`div_body`].
#[verifier::rlimit(100)]
fn div_body_code() -> (v: Vec<Instruction<'static>>)
    ensures
        view_seq(v@) == div_body(),
{
    reveal(div_body);
    let c1 = vec![
        Instruction::Dup(Some(2)),
        Instruction::Dup(Some(2)),
        Instruction::U32CheckedAnd,
        Instruction::U32CheckedOr,
        Instruction::Dup(Some(4)),
        Instruction::Dup(Some(4)),
        Instruction::U32CheckedAnd,
        Instruction::U32CheckedOr,
    ];
    proof {
        lemma_view_seq_map(c1@);
        assert(view_seq(c1@) =~= div_body()[0]->If_condition);
    }
    let c2 = vec![
        Instruction::Drop,
        Instruction::Drop,
        Instruction::Drop,
        Instruction::Drop,
        Instruction::Drop,
        Instruction::Drop,
        Instruction::Drop,
        Instruction::Drop,
        Instruction::Drop,
        Instruction::Drop,
        Instruction::Push(NAN),
    ];
    proof {
        lemma_view_seq_map(c2@);
        assert(view_seq(c2@) =~= div_body()[0]->If_then);
    }
    let c3 = vec![
        Instruction::MovUp(3),
        Instruction::U32CheckedOr,
    ];
    proof {
        lemma_view_seq_map(c3@);
        assert(view_seq(c3@) =~= div_body()[0]->If_else_[0]->If_condition);
    }
    let c4 = vec![
        Instruction::Drop,
        Instruction::Drop,
        Instruction::Drop,
        Instruction::Drop,
        Instruction::U32CheckedXOR,
        Instruction::MovDown(2),
        Instruction::Drop,
        Instruction::Drop,
        Instruction::Push(INFINITY),
        Instruction::U32CheckedAdd,
    ];
    proof {
        lemma_view_seq_map(c4@);
        assert(view_seq(c4@) =~= div_body()[0]->If_else_[0]->If_then);
    }
    let c5 = vec![
        Instruction::U32CheckedOr,
    ];
    proof {
        lemma_view_seq_map(c5@);
        assert(view_seq(c5@) =~= div_body()[0]->If_else_[0]->If_else_[0]->If_condition);
    }
    let c6 = vec![
        Instruction::Drop,
        Instruction::Drop,
        Instruction::U32CheckedXOR,
        Instruction::MovDown(2),
        Instruction::Drop,
        Instruction::Drop,
    ];
    proof {
        lemma_view_seq_map(c6@);
        assert(view_seq(c6@) =~= div_body()[0]->If_else_[0]->If_else_[0]->If_then);
    }
    let c7 = vec![
        Instruction::Dup(Some(2)),
        Instruction::Dup(Some(2)),
        Instruction::U32CheckedGTE,
    ];
    proof {
        lemma_view_seq_map(c7@);
        assert(view_seq(c7@) =~= div_body()[0]->If_else_[0]->If_else_[0]->If_else_[15]->Repeat_body[1]->If_condition);
    }
    let c8 = vec![
        Instruction::MovUp(2),
        Instruction::Dup(Some(2)),
        Instruction::U32CheckedSub,
        Instruction::MovDown(2),
        Instruction::Push(1),
        Instruction::U32CheckedAdd,
    ];
    proof {
        lemma_view_seq_map(c8@);
        assert(view_seq(c8@) =~= div_body()[0]->If_else_[0]->If_else_[0]->If_else_[15]->Repeat_body[1]->If_then);
    }
    let c9: Vec<Instruction<'static>> = Vec::new();
    proof {
        lemma_view_seq_map(c9@);
        assert(view_seq(c9@) =~= div_body()[0]->If_else_[0]->If_else_[0]->If_else_[15]->Repeat_body[1]->If_else_);
    }
    let c10 = vec![
        Instruction::U32CheckedSHL(Some(1)),
        Instruction::If { condition: c7, then: c8, else_: c9 },
        Instruction::Swap,
        Instruction::U32CheckedSHR(Some(1)),
        Instruction::Swap,
    ];
    proof {
        lemma_view_seq_map(c10@);
        assert(view_seq(c10@) =~= div_body()[0]->If_else_[0]->If_else_[0]->If_else_[15]->Repeat_body);
    }
    let c11 = vec![
        Instruction::Dup(Some(0)),
        Instruction::Push(LEADING_ONE_BIT),
        Instruction::U32CheckedAnd,
        Instruction::Push(LEADING_ONE_BIT),
        Instruction::U32CheckedNeq,
    ];
    proof {
        lemma_view_seq_map(c11@);
        assert(view_seq(c11@) =~= div_body()[0]->If_else_[0]->If_else_[0]->If_else_[19]->While_condition);
    }
    let c12 = vec![
        Instruction::U32CheckedSHL(Some(1)),
        Instruction::Swap,
        Instruction::Push(1),
        Instruction::U32WrappingSub,
        Instruction::Swap,
    ];
    proof {
        lemma_view_seq_map(c12@);
        assert(view_seq(c12@) =~= div_body()[0]->If_else_[0]->If_else_[0]->If_else_[19]->While_body);
    }
    let c13 = vec![
        Instruction::Dup(Some(0)),
        Instruction::Push(SIGN_MASK),
        Instruction::U32CheckedAnd,
        Instruction::Push(SIGN_MASK),
        Instruction::U32CheckedEq,
    ];
    proof {
        lemma_view_seq_map(c13@);
        assert(view_seq(c13@) =~= div_body()[0]->If_else_[0]->If_else_[0]->If_else_[23]->If_condition);
    }
    let c14 = vec![
        Instruction::Drop,
        Instruction::Drop,
    ];
    proof {
        lemma_view_seq_map(c14@);
        assert(view_seq(c14@) =~= div_body()[0]->If_else_[0]->If_else_[0]->If_else_[23]->If_then);
    }
    let c15 = vec![
        Instruction::Dup(Some(0)),
        Instruction::Push(0xff),
        Instruction::U32CheckedGTE,
    ];
    proof {
        lemma_view_seq_map(c15@);
        assert(view_seq(c15@) =~= div_body()[0]->If_else_[0]->If_else_[0]->If_else_[23]->If_else_[0]->If_condition);
    }
    let c16 = vec![
        Instruction::Drop,
        Instruction::Drop,
        Instruction::Push(INFINITY),
        Instruction::U32CheckedOr,
    ];
    proof {
        lemma_view_seq_map(c16@);
        assert(view_seq(c16@) =~= div_body()[0]->If_else_[0]->If_else_[0]->If_else_[23]->If_else_[0]->If_then);
    }
    let c17 = vec![
        Instruction::U32CheckedSHL(Some(23)),
        Instruction::U32CheckedOr,
        Instruction::U32CheckedOr,
    ];
    proof {
        lemma_view_seq_map(c17@);
        assert(view_seq(c17@) =~= div_body()[0]->If_else_[0]->If_else_[0]->If_else_[23]->If_else_[0]->If_else_);
    }
    let c18 = vec![
        Instruction::If { condition: c15, then: c16, else_: c17 },
    ];
    proof {
        lemma_view_seq_map(c18@);
        assert(view_seq(c18@) =~= div_body()[0]->If_else_[0]->If_else_[0]->If_else_[23]->If_else_);
    }
    let c19 = vec![
        Instruction::Push(EXP_BIAS),
        Instruction::U32CheckedAdd,
        Instruction::Swap,
        Instruction::U32WrappingSub,
        Instruction::MovDown(4),
        Instruction::U32CheckedXOR,
        Instruction::MovDown(3),
        Instruction::Push(LEADING_ONE_BIT),
        Instruction::U32CheckedAdd,
        Instruction::U32CheckedSHL(Some(8)),
        Instruction::Swap,
        Instruction::Push(LEADING_ONE_BIT),
        Instruction::U32CheckedAdd,
        Instruction::U32CheckedSHL(Some(8)),
        Instruction::Push(0),
        Instruction::Repeat { count: 24, body: c10 },
        Instruction::MovDown(2),
        Instruction::Drop,
        Instruction::Drop,
        Instruction::While { condition: c11, body: c12 },
        Instruction::Push(MANT_MASK),
        Instruction::U32CheckedAnd,
        Instruction::Swap,
        Instruction::If { condition: c13, then: c14, else_: c18 },
    ];
    proof {
        lemma_view_seq_map(c19@);
        assert(view_seq(c19@) =~= div_body()[0]->If_else_[0]->If_else_[0]->If_else_);
    }
    let c20 = vec![
        Instruction::If { condition: c5, then: c6, else_: c19 },
    ];
    proof {
        lemma_view_seq_map(c20@);
        assert(view_seq(c20@) =~= div_body()[0]->If_else_[0]->If_else_);
    }
    let c21 = vec![
        Instruction::If { condition: c3, then: c4, else_: c20 },
    ];
    proof {
        lemma_view_seq_map(c21@);
        assert(view_seq(c21@) =~= div_body()[0]->If_else_);
    }
    let c22 = vec![
        Instruction::If { condition: c1, then: c2, else_: c21 },
    ];
    proof {
        lemma_view_seq_map(c22@);
        assert(view_seq(c22@) =~= div_body());
    }
    c22
}

/// Appends the code that divides the float in the cell `a` by the one in
/// `b`, and returns the fresh cell that holds the quotient.
pub fn div(instructions: &mut Vec<Instruction>, memory: &mut Memory, a: u32, b: u32) -> (result: u32)
    requires
        old(memory).next_addr() + WIDTH <= u32::MAX,
        a + WIDTH <= u32::MAX,
        b + WIDTH <= u32::MAX,
    ensures
        result == old(memory).next_addr(),
        final(memory).next_addr() == old(memory).next_addr() + WIDTH,
        view_seq(final(instructions)@) == view_seq(old(instructions)@) + prepare_insts(a, b)
            + nan_inf_zero_insts() + div_body() + write_insts(result as int, seq![ValueSource::Stack]),
{
    let result = memory.allocate(WIDTH);
    prepare_stack_for_arithmetic(instructions, memory, a, b);
    // [a_exp, b_exp, a_sign^, b_sign^, a_mant, b_mant]
    add_nan_inf_zero(instructions);
    // [a_is_nan || b_is_nan, a_is_inf, b_is_inf, a_is_zero, b_is_zero, a_exp, b_exp, a_sign^, b_sign^, a_mant, b_mant]
    extend(instructions, div_body_code());
    let from_stack = [ValueSource::Stack];
    proof {
        assert(from_stack@ =~= seq![ValueSource::Stack]);
    }
    memory.write(instructions, result, &from_stack);
    proof {
        assert(view_seq(instructions@) =~= view_seq(old(instructions)@) + prepare_insts(a, b)
            + nan_inf_zero_insts() + div_body() + write_insts(result as int, seq![ValueSource::Stack]));
    }
    result
}


/// Allocates a float cell and appends the code that stores the float with
/// bits `bits` in it; returns the cell.
pub fn new(instructions: &mut Vec<Instruction>, memory: &mut Memory, bits: u32) -> (symbol: u32)
    requires
        old(memory).next_addr() + WIDTH <= u32::MAX,
    ensures
        symbol == old(memory).next_addr(),
        final(memory).next_addr() == old(memory).next_addr() + WIDTH,
        view_seq(final(instructions)@) == view_seq(old(instructions)@) + write_insts(
            symbol as int,
            seq![ValueSource::Immediate(bits)],
        ),
{
    let symbol = memory.allocate(WIDTH);
    let value = [ValueSource::Immediate(bits)];
    proof {
        assert(value@ =~= seq![ValueSource::Immediate(bits)]);
    }
    memory.write(instructions, symbol, &value);
    symbol
}

} // verus!
