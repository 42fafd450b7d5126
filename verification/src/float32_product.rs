//! What the code of [`mul`](crate::float32::mul) computes where both floats
//! are finite and nonzero: the product of the two 24-bit significands, cut
//! back to 24 bits, under the sum of the exponents.

use vstd::prelude::*;

use crate::encoder::Inst;
use crate::float32::{
    EXP_BIAS, EXP_MAX, INFINITY, WIDTH, exponent, is_infinite, is_nan, is_zero, lemma_classify,
    lemma_fields, lemma_flag_ops, lemma_mul_invalid, lemma_prepare, lemma_run_one, lemma_special_parts,
    mantissa, mul_finite, mul_tree, nan_inf_zero_insts, parts, prepare_insts, product_sign,
    sign_bits,
};
use crate::machine::{flag, is_u32, lemma_run_add, lemma_run_from, pow2, run, step, u32_bound};

verus! {

/// The 24-bit significand of a float: its mantissa under the leading one.
/// The code gives every float the leading one, also a subnormal one.
pub open spec fn significand(x: u32) -> int {
    mantissa(x) + 0x80_0000
}

/// What the code of [`mul_finite`] leaves for two finite nonzero floats,
/// or `None` where it faults. The product `p` of the significands lies in
/// `[2^46, 2^48)`; its top 24 bits are taken, from bit 23 on, or from bit 24
/// where `p` carries into bit 47, which raises the exponent by one. The
/// exponent is the sum of the biased exponents less the bias: below zero it
/// gives a zero of the product's sign, at `0xff` or more an infinity. The
/// raise of the exponent faults where the sum less the bias is `-1`.
pub open spec fn mul_finite_result(x: u32, y: u32) -> Option<u32> {
    let p = significand(x) * significand(y);
    let q = p / 0x80_0000;
    let carry: int = if q >= 0x100_0000 { 1 } else { 0 };
    let m = if carry == 1 { q / 2 } else { q };
    let e = exponent(x) + exponent(y) - EXP_BIAS;
    if e == -1 && carry == 1 {
        None
    } else if e + carry < 0 {
        Some(product_sign(x, y))
    } else if e + carry >= EXP_MAX {
        Some(product_sign(x, y) | INFINITY)
    } else {
        Some((product_sign(x, y) + (e + carry) * 0x80_0000 + (m - 0x80_0000)) as u32)
    }
}

/// The bit tests of [`mul_finite`]: bit 24 of a value below `2^25`, bit 31,
/// and the 23 bits below the leading one of a 24-bit significand.
proof fn lemma_product_bits(q: u32, e: u32, m: u32)
    by (bit_vector)
    ensures
        q < 0x200_0000u32 ==> (((q & 0x100_0000u32) != 0u32) == (q >= 0x100_0000u32)),
        ((e & 0x8000_0000u32) == 0x8000_0000u32) == (e >= 0x8000_0000u32),
        0x80_0000u32 <= m < 0x100_0000u32 ==> (m & 0x7f_ffffu32) + 0x80_0000u32 == m,
{
}

/// The `^` of two sign bits in place is a sign bit in place.
proof fn lemma_sign_xor(a: u32, b: u32)
    by (bit_vector)
    requires
        a == 0u32 || a == 0x8000_0000u32,
        b == 0u32 || b == 0x8000_0000u32,
    ensures
        b ^ a == 0u32 || b ^ a == 0x8000_0000u32,
{
}

/// `(p / 2^32) * 2^9 + (p mod 2^32) / 2^23` is `p / 2^23` for a product of
/// two 24-bit significands: how the code takes the product's top bits from
/// its two halves.
proof fn lemma_split_product(p: u64)
    by (bit_vector)
    requires
        p < 0x1_0000_0000_0000u64,
    ensures
        (p / 0x1_0000_0000u64) * 512u64 + (p % 0x1_0000_0000u64) / 0x80_0000u64 == p / 0x80_0000u64,
        p / 0x1_0000_0000u64 < 0x1_0000u64,
{
}

/// The first part of [`mul_finite`]: the unbiased exponent sum, wrapped to
/// 32 bits, and the product of the significands shifted right by 23 bits.
#[verifier::spinoff_prover]
#[verifier::rlimit(60)]
proof fn lemma_mul_significands(ex: int, ey: int, sx: int, sy: int, mx: int, my: int, mem: spec_fn(int) -> int, rest: Seq<int>, fuel: nat)
    requires
        0 <= ex < 0xff,
        0 <= ey < 0xff,
        0 <= mx < 0x80_0000,
        0 <= my < 0x80_0000,
        is_u32(sx),
        is_u32(sy),
    ensures
        run(mul_finite().take(14), mem, seq![ex, ey, sx, sy, mx, my] + rest, fuel) == Some(
            seq![((my + 0x80_0000int) * (mx + 0x80_0000int)) / 0x80_0000int, (ey + ex - 127 + 0x1_0000_0000int) % 0x1_0000_0000int, sx, sy] + rest,
        ),
{
    let is = mul_finite().take(14);
    let t0 = seq![ex, ey, sx, sy, mx, my] + rest;
    let t1 = seq![ey + ex, sx, sy, mx, my] + rest;
    let t2 = seq![127int] + t1;
    let t3 = seq![(ey + ex - 127 + 0x1_0000_0000int) % 0x1_0000_0000int, sx, sy, mx, my] + rest;
    let t4 = seq![my, (ey + ex - 127 + 0x1_0000_0000int) % 0x1_0000_0000int, sx, sy, mx] + rest;
    let t5 = seq![0x80_0000int] + t4;
    let t6 = seq![(my + 0x80_0000int), (ey + ex - 127 + 0x1_0000_0000int) % 0x1_0000_0000int, sx, sy, mx] + rest;
    let t7 = seq![mx, (my + 0x80_0000int), (ey + ex - 127 + 0x1_0000_0000int) % 0x1_0000_0000int, sx, sy] + rest;
    let t8 = seq![0x80_0000int] + t7;
    let t9 = seq![(mx + 0x80_0000int), (my + 0x80_0000int), (ey + ex - 127 + 0x1_0000_0000int) % 0x1_0000_0000int, sx, sy] + rest;
    let t10 = seq![(((my + 0x80_0000int) * (mx + 0x80_0000int)) / 0x1_0000_0000int), (((my + 0x80_0000int) * (mx + 0x80_0000int)) % 0x1_0000_0000int), (ey + ex - 127 + 0x1_0000_0000int) % 0x1_0000_0000int, sx, sy] + rest;
    let t11 = seq![(((my + 0x80_0000int) * (mx + 0x80_0000int)) / 0x1_0000_0000int) * 512, (((my + 0x80_0000int) * (mx + 0x80_0000int)) % 0x1_0000_0000int), (ey + ex - 127 + 0x1_0000_0000int) % 0x1_0000_0000int, sx, sy] + rest;
    let t12 = seq![(((my + 0x80_0000int) * (mx + 0x80_0000int)) % 0x1_0000_0000int), (((my + 0x80_0000int) * (mx + 0x80_0000int)) / 0x1_0000_0000int) * 512, (ey + ex - 127 + 0x1_0000_0000int) % 0x1_0000_0000int, sx, sy] + rest;
    let t13 = seq![(((my + 0x80_0000int) * (mx + 0x80_0000int)) % 0x1_0000_0000int) / 0x80_0000int, (((my + 0x80_0000int) * (mx + 0x80_0000int)) / 0x1_0000_0000int) * 512, (ey + ex - 127 + 0x1_0000_0000int) % 0x1_0000_0000int, sx, sy] + rest;
    let t14 = seq![((my + 0x80_0000int) * (mx + 0x80_0000int)) / 0x80_0000int, (ey + ex - 127 + 0x1_0000_0000int) % 0x1_0000_0000int, sx, sy] + rest;
    assert(u32_bound() == 0x1_0000_0000int);
    assert(pow2(9) == 512 && pow2(23) == 0x80_0000) by { reveal_with_fuel(pow2, 24); }
    assert(0x4000_0000_0000int <= ((my + 0x80_0000int) * (mx + 0x80_0000int)) < 0x1_0000_0000_0000int) by (nonlinear_arith) requires 0 <= mx < 0x80_0000, 0 <= my < 0x80_0000;
    lemma_split_product(((my + 0x80_0000int) * (mx + 0x80_0000int)) as u64);
    assert((((my + 0x80_0000int) * (mx + 0x80_0000int)) as u64) as int == ((my + 0x80_0000int) * (mx + 0x80_0000int)));
    assert((((my + 0x80_0000int) * (mx + 0x80_0000int)) / 0x1_0000_0000int) < 0x1_0000);
    assert((((my + 0x80_0000int) * (mx + 0x80_0000int)) / 0x1_0000_0000int) * 512 + (((my + 0x80_0000int) * (mx + 0x80_0000int)) % 0x1_0000_0000int) / 0x80_0000int == ((my + 0x80_0000int) * (mx + 0x80_0000int)) / 0x80_0000int);
    assert((((my + 0x80_0000int) * (mx + 0x80_0000int)) / 0x80_0000int) < 0x200_0000);
    assert(t0.skip(2) =~= seq![sx, sy, mx, my] + rest);
    assert(t2.skip(2) =~= seq![sx, sy, mx, my] + rest);
    assert(seq![t3[4]] + t3.take(4) + t3.skip(5) =~= t4);
    assert(t5.skip(2) =~= seq![(ey + ex - 127 + 0x1_0000_0000int) % 0x1_0000_0000int, sx, sy, mx] + rest);
    assert(seq![t6[4]] + t6.take(4) + t6.skip(5) =~= t7);
    assert(t8.skip(2) =~= seq![(my + 0x80_0000int), (ey + ex - 127 + 0x1_0000_0000int) % 0x1_0000_0000int, sx, sy] + rest);
    assert(t9.skip(2) =~= seq![(ey + ex - 127 + 0x1_0000_0000int) % 0x1_0000_0000int, sx, sy] + rest);
    assert(t10.skip(1) =~= t11.skip(1));
    assert(t11.skip(2) =~= t12.skip(2));
    assert(t12.skip(1) =~= t13.skip(1));
    assert(t13.skip(2) =~= seq![(ey + ex - 127 + 0x1_0000_0000int) % 0x1_0000_0000int, sx, sy] + rest);
    assert(step(is[0], mem, t0, fuel) == Some(t1));
    assert(step(is[1], mem, t1, fuel) == Some(t2));
    assert(step(is[2], mem, t2, fuel) == Some(t3));
    assert(step(is[3], mem, t3, fuel) == Some(t4));
    assert(step(is[4], mem, t4, fuel) == Some(t5));
    assert(step(is[5], mem, t5, fuel) == Some(t6));
    assert(step(is[6], mem, t6, fuel) == Some(t7));
    assert(step(is[7], mem, t7, fuel) == Some(t8));
    assert(step(is[8], mem, t8, fuel) == Some(t9));
    assert(step(is[9], mem, t9, fuel) == Some(t10));
    assert(step(is[10], mem, t10, fuel) == Some(t11));
    assert(step(is[11], mem, t11, fuel) == Some(t12));
    assert(step(is[12], mem, t12, fuel) == Some(t13));
    assert(step(is[13], mem, t13, fuel) == Some(t14));
    lemma_run_from(is, 13, mem, t13, fuel);
    lemma_run_from(is, 12, mem, t12, fuel);
    lemma_run_from(is, 11, mem, t11, fuel);
    lemma_run_from(is, 10, mem, t10, fuel);
    lemma_run_from(is, 9, mem, t9, fuel);
    lemma_run_from(is, 8, mem, t8, fuel);
    lemma_run_from(is, 7, mem, t7, fuel);
    lemma_run_from(is, 6, mem, t6, fuel);
    lemma_run_from(is, 5, mem, t5, fuel);
    lemma_run_from(is, 4, mem, t4, fuel);
    lemma_run_from(is, 3, mem, t3, fuel);
    lemma_run_from(is, 2, mem, t2, fuel);
    lemma_run_from(is, 1, mem, t1, fuel);
    lemma_run_from(is, 0, mem, t0, fuel);
    assert(is.skip(0) =~= is);
    assert(is.skip(14) =~= Seq::<Inst>::empty());
}

/// The test of the carry out of the significand product.
#[verifier::spinoff_prover]
#[verifier::rlimit(60)]
proof fn lemma_carry_test(q: int, e0: int, sx: int, sy: int, mem: spec_fn(int) -> int, rest: Seq<int>, fuel: nat)
    requires
        0x80_0000 <= q < 0x200_0000,
    ensures
        run(mul_finite()[14]->If_condition, mem, seq![q, e0, sx, sy] + rest, fuel) == Some(seq![flag(q >= 0x100_0000)] + (seq![q, e0, sx, sy] + rest)),
{
    let is = mul_finite()[14]->If_condition;
    let t0 = seq![q, e0, sx, sy] + rest;
    let t1 = seq![q] + t0;
    let t2 = seq![0x100_0000int] + t1;
    let t3 = seq![((q as u32) & 0x100_0000u32) as int] + t0;
    let t4 = seq![0int] + t3;
    let t5 = seq![flag(q >= 0x100_0000)] + t0;
    assert(u32_bound() == 0x1_0000_0000int);
    lemma_product_bits(q as u32, 0, 0x80_0000);
    assert((q as u32) as int == q);
    assert(t2.skip(2) =~= t0);
    assert(t4.skip(2) =~= t0);
    assert(step(is[0], mem, t0, fuel) == Some(t1));
    assert(step(is[1], mem, t1, fuel) == Some(t2));
    assert(step(is[2], mem, t2, fuel) == Some(t3));
    assert(step(is[3], mem, t3, fuel) == Some(t4));
    assert(step(is[4], mem, t4, fuel) == Some(t5));
    lemma_run_from(is, 4, mem, t4, fuel);
    lemma_run_from(is, 3, mem, t3, fuel);
    lemma_run_from(is, 2, mem, t2, fuel);
    lemma_run_from(is, 1, mem, t1, fuel);
    lemma_run_from(is, 0, mem, t0, fuel);
    assert(is.skip(0) =~= is);
    assert(is.skip(5) =~= Seq::<Inst>::empty());
}

/// The carry case of [`mul_finite`] up to the increment of the exponent.
#[verifier::spinoff_prover]
#[verifier::rlimit(60)]
proof fn lemma_carry_shift(q: int, e0: int, sx: int, sy: int, mem: spec_fn(int) -> int, rest: Seq<int>, fuel: nat)
    requires
        0x80_0000 <= q < 0x200_0000,
        is_u32(e0),
    ensures
        run(mul_finite()[14]->If_then.take(3), mem, seq![q, e0, sx, sy] + rest, fuel) == Some(seq![1int, e0, q / 2, sx, sy] + rest),
{
    let is = mul_finite()[14]->If_then.take(3);
    let t0 = seq![q, e0, sx, sy] + rest;
    let t1 = seq![q / 2, e0, sx, sy] + rest;
    let t2 = seq![e0, q / 2, sx, sy] + rest;
    let t3 = seq![1int] + t2;
    assert(pow2(1) == 2) by { reveal_with_fuel(pow2, 2); }
    assert(t0.skip(1) =~= t1.skip(1));
    assert(t1.skip(2) =~= t2.skip(2));
    assert(step(is[0], mem, t0, fuel) == Some(t1));
    assert(step(is[1], mem, t1, fuel) == Some(t2));
    assert(step(is[2], mem, t2, fuel) == Some(t3));
    lemma_run_from(is, 2, mem, t2, fuel);
    lemma_run_from(is, 1, mem, t1, fuel);
    lemma_run_from(is, 0, mem, t0, fuel);
    assert(is.skip(0) =~= is);
    assert(is.skip(3) =~= Seq::<Inst>::empty());
}

/// The test for an exponent that wrapped below zero.
#[verifier::spinoff_prover]
#[verifier::rlimit(60)]
proof fn lemma_underflow_test(e1: int, m: int, sx: int, sy: int, mem: spec_fn(int) -> int, rest: Seq<int>, fuel: nat)
    requires
        is_u32(e1),
    ensures
        run(mul_finite()[15]->If_condition, mem, seq![e1, m, sx, sy] + rest, fuel) == Some(seq![flag(e1 >= 0x8000_0000)] + (seq![e1, m, sx, sy] + rest)),
{
    let is = mul_finite()[15]->If_condition;
    let t0 = seq![e1, m, sx, sy] + rest;
    let t1 = seq![e1] + t0;
    let t2 = seq![0x8000_0000int] + t1;
    let t3 = seq![((e1 as u32) & 0x8000_0000u32) as int] + t0;
    let t4 = seq![0x8000_0000int] + t3;
    let t5 = seq![flag(e1 >= 0x8000_0000)] + t0;
    assert(u32_bound() == 0x1_0000_0000int);
    lemma_product_bits(0x80_0000, e1 as u32, 0x80_0000);
    assert((e1 as u32) as int == e1);
    assert(t2.skip(2) =~= t0);
    assert(t4.skip(2) =~= t0);
    assert(step(is[0], mem, t0, fuel) == Some(t1));
    assert(step(is[1], mem, t1, fuel) == Some(t2));
    assert(step(is[2], mem, t2, fuel) == Some(t3));
    assert(step(is[3], mem, t3, fuel) == Some(t4));
    assert(step(is[4], mem, t4, fuel) == Some(t5));
    lemma_run_from(is, 4, mem, t4, fuel);
    lemma_run_from(is, 3, mem, t3, fuel);
    lemma_run_from(is, 2, mem, t2, fuel);
    lemma_run_from(is, 1, mem, t1, fuel);
    lemma_run_from(is, 0, mem, t0, fuel);
    assert(is.skip(0) =~= is);
    assert(is.skip(5) =~= Seq::<Inst>::empty());
}

/// The underflow case of [`mul_finite`]: a zero of the product's sign.
#[verifier::spinoff_prover]
#[verifier::rlimit(60)]
proof fn lemma_underflow_zero(e1: int, m: int, sx: int, sy: int, mem: spec_fn(int) -> int, rest: Seq<int>, fuel: nat)
    requires
        is_u32(sx),
        is_u32(sy),
    ensures
        run(mul_finite()[15]->If_then, mem, seq![e1, m, sx, sy] + rest, fuel) == Some(seq![((sy as u32) ^ (sx as u32)) as int] + rest),
{
    let is = mul_finite()[15]->If_then;
    let t0 = seq![e1, m, sx, sy] + rest;
    let t1 = seq![m, sx, sy] + rest;
    let t2 = seq![sx, sy] + rest;
    let t3 = seq![((sy as u32) ^ (sx as u32)) as int] + rest;
    assert(u32_bound() == 0x1_0000_0000int);
    assert(t0.drop_first() =~= t1);
    assert(t1.drop_first() =~= t2);
    assert(t2.skip(2) =~= rest);
    assert(step(is[0], mem, t0, fuel) == Some(t1));
    assert(step(is[1], mem, t1, fuel) == Some(t2));
    assert(step(is[2], mem, t2, fuel) == Some(t3));
    lemma_run_from(is, 2, mem, t2, fuel);
    lemma_run_from(is, 1, mem, t1, fuel);
    lemma_run_from(is, 0, mem, t0, fuel);
    assert(is.skip(0) =~= is);
    assert(is.skip(3) =~= Seq::<Inst>::empty());
}

/// The test for an exponent too large for a finite float.
#[verifier::spinoff_prover]
#[verifier::rlimit(60)]
proof fn lemma_overflow_test(e1: int, m: int, sx: int, sy: int, mem: spec_fn(int) -> int, rest: Seq<int>, fuel: nat)
    requires
        is_u32(e1),
    ensures
        run(mul_finite()[15]->If_else_[0]->If_condition, mem, seq![e1, m, sx, sy] + rest, fuel) == Some(seq![flag(e1 >= 0xff)] + (seq![e1, m, sx, sy] + rest)),
{
    let is = mul_finite()[15]->If_else_[0]->If_condition;
    let t0 = seq![e1, m, sx, sy] + rest;
    let t1 = seq![e1] + t0;
    let t2 = seq![0xffint] + t1;
    let t3 = seq![flag(e1 >= 0xff)] + t0;
    assert(u32_bound() == 0x1_0000_0000int);
    assert(t2.skip(2) =~= t0);
    assert(step(is[0], mem, t0, fuel) == Some(t1));
    assert(step(is[1], mem, t1, fuel) == Some(t2));
    assert(step(is[2], mem, t2, fuel) == Some(t3));
    lemma_run_from(is, 2, mem, t2, fuel);
    lemma_run_from(is, 1, mem, t1, fuel);
    lemma_run_from(is, 0, mem, t0, fuel);
    assert(is.skip(0) =~= is);
    assert(is.skip(3) =~= Seq::<Inst>::empty());
}

/// The overflow case of [`mul_finite`]: an infinity of the product's sign.
#[verifier::spinoff_prover]
#[verifier::rlimit(60)]
proof fn lemma_overflow_infinity(e1: int, m: int, sx: int, sy: int, mem: spec_fn(int) -> int, rest: Seq<int>, fuel: nat)
    requires
        sx == 0 || sx == 0x8000_0000,
        sy == 0 || sy == 0x8000_0000,
    ensures
        run(mul_finite()[15]->If_else_[0]->If_then, mem, seq![e1, m, sx, sy] + rest, fuel) == Some(seq![((sy as u32) ^ (sx as u32)) as int + 0x7f80_0000int] + rest),
{
    let is = mul_finite()[15]->If_else_[0]->If_then;
    let t0 = seq![e1, m, sx, sy] + rest;
    let t1 = seq![m, sx, sy] + rest;
    let t2 = seq![sx, sy] + rest;
    let t3 = seq![((sy as u32) ^ (sx as u32)) as int] + rest;
    let t4 = seq![0x7f80_0000int, ((sy as u32) ^ (sx as u32)) as int] + rest;
    let t5 = seq![((sy as u32) ^ (sx as u32)) as int + 0x7f80_0000int] + rest;
    assert(u32_bound() == 0x1_0000_0000int);
    lemma_sign_xor(sx as u32, sy as u32);
    assert(t0.drop_first() =~= t1);
    assert(t1.drop_first() =~= t2);
    assert(t2.skip(2) =~= rest);
    assert(t4.skip(2) =~= rest);
    assert(step(is[0], mem, t0, fuel) == Some(t1));
    assert(step(is[1], mem, t1, fuel) == Some(t2));
    assert(step(is[2], mem, t2, fuel) == Some(t3));
    assert(step(is[3], mem, t3, fuel) == Some(t4));
    assert(step(is[4], mem, t4, fuel) == Some(t5));
    lemma_run_from(is, 4, mem, t4, fuel);
    lemma_run_from(is, 3, mem, t3, fuel);
    lemma_run_from(is, 2, mem, t2, fuel);
    lemma_run_from(is, 1, mem, t1, fuel);
    lemma_run_from(is, 0, mem, t0, fuel);
    assert(is.skip(0) =~= is);
    assert(is.skip(5) =~= Seq::<Inst>::empty());
}

/// The normal case of [`mul_finite`]: sign, exponent and the 23 bits below the leading one.
#[verifier::spinoff_prover]
#[verifier::rlimit(60)]
proof fn lemma_assemble_float(e1: int, m: int, sx: int, sy: int, mem: spec_fn(int) -> int, rest: Seq<int>, fuel: nat)
    requires
        0 <= e1 < 0xff,
        0x80_0000 <= m < 0x100_0000,
        sx == 0 || sx == 0x8000_0000,
        sy == 0 || sy == 0x8000_0000,
    ensures
        run(mul_finite()[15]->If_else_[0]->If_else_, mem, seq![e1, m, sx, sy] + rest, fuel) == Some(seq![(e1 * 0x80_0000 + (m - 0x80_0000)) + ((sy as u32) ^ (sx as u32)) as int] + rest),
{
    let is = mul_finite()[15]->If_else_[0]->If_else_;
    let t0 = seq![e1, m, sx, sy] + rest;
    let t1 = seq![e1 * 0x80_0000, m, sx, sy] + rest;
    let t2 = seq![m, e1 * 0x80_0000, sx, sy] + rest;
    let t3 = seq![0x7f_ffffint] + t2;
    let t4 = seq![((m as u32) & 0x7f_ffffu32) as int, e1 * 0x80_0000, sx, sy] + rest;
    let t5 = seq![(e1 * 0x80_0000 + (m - 0x80_0000)), sx, sy] + rest;
    let t6 = seq![sx, sy, (e1 * 0x80_0000 + (m - 0x80_0000))] + rest;
    let t7 = seq![((sy as u32) ^ (sx as u32)) as int, (e1 * 0x80_0000 + (m - 0x80_0000))] + rest;
    let t8 = seq![(e1 * 0x80_0000 + (m - 0x80_0000)) + ((sy as u32) ^ (sx as u32)) as int] + rest;
    assert(u32_bound() == 0x1_0000_0000int);
    assert(pow2(23) == 0x80_0000) by { reveal_with_fuel(pow2, 24); }
    lemma_sign_xor(sx as u32, sy as u32);
    lemma_product_bits(0x80_0000, 0, m as u32);
    assert((m as u32) as int == m);
    assert(t0.skip(1) =~= t1.skip(1));
    assert(t1.skip(2) =~= t2.skip(2));
    assert(t3.skip(2) =~= t2.skip(1));
    assert(t4.skip(2) =~= seq![sx, sy] + rest);
    assert(t5.subrange(1, 3) + seq![t5[0]] + t5.skip(3) =~= t6);
    assert(t6.skip(2) =~= seq![(e1 * 0x80_0000 + (m - 0x80_0000))] + rest);
    assert(t7.skip(2) =~= rest);
    assert(step(is[0], mem, t0, fuel) == Some(t1));
    assert(step(is[1], mem, t1, fuel) == Some(t2));
    assert(step(is[2], mem, t2, fuel) == Some(t3));
    assert(step(is[3], mem, t3, fuel) == Some(t4));
    assert(step(is[4], mem, t4, fuel) == Some(t5));
    assert(step(is[5], mem, t5, fuel) == Some(t6));
    assert(step(is[6], mem, t6, fuel) == Some(t7));
    assert(step(is[7], mem, t7, fuel) == Some(t8));
    lemma_run_from(is, 7, mem, t7, fuel);
    lemma_run_from(is, 6, mem, t6, fuel);
    lemma_run_from(is, 5, mem, t5, fuel);
    lemma_run_from(is, 4, mem, t4, fuel);
    lemma_run_from(is, 3, mem, t3, fuel);
    lemma_run_from(is, 2, mem, t2, fuel);
    lemma_run_from(is, 1, mem, t1, fuel);
    lemma_run_from(is, 0, mem, t0, fuel);
    assert(is.skip(0) =~= is);
    assert(is.skip(8) =~= Seq::<Inst>::empty());
}

/// The carry step of [`mul_finite`]: a product of `2^24` or more is halved
/// and the exponent raised, which faults at `2^32 - 1`.
#[verifier::spinoff_prover]
#[verifier::rlimit(60)]
proof fn lemma_mul_carry(q: int, e0: int, sx: int, sy: int, mem: spec_fn(int) -> int, rest: Seq<int>, fuel: nat)
    requires
        0x80_0000 <= q < 0x200_0000,
        is_u32(e0),
    ensures
        step(mul_finite()[14], mem, seq![q, e0, sx, sy] + rest, fuel) == if q >= 0x100_0000 {
            if e0 + 1 < 0x1_0000_0000 {
                Some(seq![e0 + 1, q / 2, sx, sy] + rest)
            } else {
                None
            }
        } else {
            Some(seq![e0, q, sx, sy] + rest)
        },
{
    let i = mul_finite()[14];
    let s = seq![q, e0, sx, sy] + rest;
    assert(u32_bound() == 0x1_0000_0000int);
    lemma_carry_test(q, e0, sx, sy, mem, rest, fuel);
    assert((seq![flag(q >= 0x100_0000)] + s).drop_first() =~= s);
    if q >= 0x100_0000 {
        let then = i->If_then;
        let u = seq![1int, e0, q / 2, sx, sy] + rest;
        lemma_carry_shift(q, e0, sx, sy, mem, rest, fuel);
        assert(then =~= then.take(3) + seq![then[3]]);
        lemma_run_add(then.take(3), seq![then[3]], mem, s, fuel);
        lemma_run_one(then[3], mem, u, fuel);
        assert(u.skip(2) =~= seq![q / 2, sx, sy] + rest);
    } else {
        lemma_run_one(Inst::Swap, mem, s, fuel);
        assert(i->If_else_ =~= seq![Inst::Swap]);
        assert(s.skip(2) =~= seq![sx, sy] + rest);
    }
}

/// The last step of [`mul_finite`]: a zero where the exponent wrapped below
/// zero, an infinity where it is `0xff` or more, the float otherwise, with
/// the product's sign.
#[verifier::spinoff_prover]
#[verifier::rlimit(60)]
proof fn lemma_mul_round(e1: int, m: int, sx: int, sy: int, mem: spec_fn(int) -> int, rest: Seq<int>, fuel: nat)
    requires
        is_u32(e1),
        0x80_0000 <= m < 0x100_0000,
        sx == 0 || sx == 0x8000_0000,
        sy == 0 || sy == 0x8000_0000,
    ensures
        ({
            let g = ((sy as u32) ^ (sx as u32)) as int;
            step(mul_finite()[15], mem, seq![e1, m, sx, sy] + rest, fuel) == Some(
                seq![
                    if e1 >= 0x8000_0000 {
                        g
                    } else if e1 >= 0xff {
                        g + 0x7f80_0000int
                    } else {
                        (e1 * 0x80_0000 + (m - 0x80_0000)) + g
                    },
                ] + rest,
            )
        }),
{
    let i = mul_finite()[15];
    let s = seq![e1, m, sx, sy] + rest;
    lemma_underflow_test(e1, m, sx, sy, mem, rest, fuel);
    assert((seq![flag(e1 >= 0x8000_0000)] + s).drop_first() =~= s);
    if e1 >= 0x8000_0000 {
        lemma_underflow_zero(e1, m, sx, sy, mem, rest, fuel);
    } else {
        let inner = i->If_else_[0];
        lemma_overflow_test(e1, m, sx, sy, mem, rest, fuel);
        assert((seq![flag(e1 >= 0xff)] + s).drop_first() =~= s);
        if e1 >= 0xff {
            lemma_overflow_infinity(e1, m, sx, sy, mem, rest, fuel);
        } else {
            lemma_assemble_float(e1, m, sx, sy, mem, rest, fuel);
        }
        lemma_run_one(inner, mem, s, fuel);
        assert(i->If_else_ =~= seq![inner]);
    }
}

/// [`mul_finite`] on the parts of two floats whose exponents are below
/// `0xff` leaves [`mul_finite_result`].
#[verifier::spinoff_prover]
#[verifier::rlimit(80)]
pub proof fn lemma_mul_finite_run(x: u32, y: u32, mem: spec_fn(int) -> int, rest: Seq<int>, fuel: nat)
    requires
        exponent(x) < EXP_MAX,
        exponent(y) < EXP_MAX,
    ensures
        ({
            let (ex, sx, mx) = parts(x);
            let (ey, sy, my) = parts(y);
            run(mul_finite(), mem, seq![ex, ey, sx, sy, mx, my] + rest, fuel) == match mul_finite_result(x, y) {
                Some(r) => Some(seq![r as int] + rest),
                None => None,
            }
        }),
{
    let (ex, sx, mx) = parts(x);
    let (ey, sy, my) = parts(y);
    lemma_fields(x);
    lemma_fields(y);
    lemma_special_parts(x, y);
    let w = seq![ex, ey, sx, sy, mx, my] + rest;
    let p = significand(x) * significand(y);
    assert((my + 0x80_0000int) * (mx + 0x80_0000int) == p) by (nonlinear_arith)
        requires
            significand(x) == mx + 0x80_0000,
            significand(y) == my + 0x80_0000,
            p == significand(x) * significand(y),
    ;
    assert(0x4000_0000_0000int <= p < 0x1_0000_0000_0000int) by (nonlinear_arith)
        requires
            0x80_0000 <= significand(x) < 0x100_0000,
            0x80_0000 <= significand(y) < 0x100_0000,
            p == significand(x) * significand(y),
    ;
    let q = p / 0x80_0000;
    assert(0x80_0000 <= q < 0x200_0000);
    let e = ex + ey - 127;
    let e0 = (ey + ex - 127 + 0x1_0000_0000int) % 0x1_0000_0000int;
    assert(e >= 0 ==> e0 == e);
    assert(e < 0 ==> e0 == e + 0x1_0000_0000int);
    lemma_mul_significands(ex, ey, sx, sy, mx, my, mem, rest, fuel);
    let f = mul_finite();
    assert(f =~= f.take(14) + seq![f[14]] + seq![f[15]]);
    lemma_run_add(f.take(14) + seq![f[14]], seq![f[15]], mem, w, fuel);
    lemma_run_add(f.take(14), seq![f[14]], mem, w, fuel);
    let s14 = seq![q, e0, sx, sy] + rest;
    lemma_run_one(f[14], mem, s14, fuel);
    lemma_mul_carry(q, e0, sx, sy, mem, rest, fuel);
    let carry: int = if q >= 0x100_0000 { 1 } else { 0 };
    let m = if carry == 1 { q / 2 } else { q };
    if e == -1 && carry == 1 {
        assert(e0 + 1 == 0x1_0000_0000int);
    } else {
        let e1 = e0 + carry;
        let s15 = seq![e1, m, sx, sy] + rest;
        assert(step(f[14], mem, s14, fuel) == Some(s15));
        lemma_run_one(f[15], mem, s15, fuel);
        lemma_mul_round(e1, m, sx, sy, mem, rest, fuel);
        assert(e + carry < 0 <==> e1 >= 0x8000_0000);
        assert(e + carry >= 0 ==> e1 == e + carry);
        let g = product_sign(x, y) as int;
        let v = (e + carry) * 0x80_0000 + (m - 0x80_0000) + g;
        assert(e + carry >= 0 && e + carry < 0xff ==> 0 <= v < 0x1_0000_0000int && (v as u32) as int == v);
    }
}

/// What the code of [`mul_tree`] leaves where both floats are finite and
/// nonzero: it passes the three tests and runs [`mul_finite`].
#[verifier::spinoff_prover]
#[verifier::rlimit(60)]
proof fn lemma_mul_tree_finite(x: u32, y: u32, mem: spec_fn(int) -> int, rest: Seq<int>, fuel: nat)
    requires
        exponent(x) < EXP_MAX,
        exponent(y) < EXP_MAX,
        !is_zero(x),
        !is_zero(y),
    ensures
        ({
            let (ex, sx, mx) = parts(x);
            let (ey, sy, my) = parts(y);
            step(
                mul_tree(),
                mem,
                seq![
                    flag((ey == 255 && my != 0) || (ex == 255 && mx != 0)),
                    flag(ex == 255),
                    flag(ey == 255),
                    flag(ex == 0 && mx == 0),
                    flag(ey == 0 && my == 0),
                    ex,
                    ey,
                    sx,
                    sy,
                    mx,
                    my,
                ] + rest,
                fuel,
            ) == match mul_finite_result(x, y) {
                Some(r) => Some(seq![r as int] + rest),
                None => None,
            }
        }),
{
    let (ex, sx, mx) = parts(x);
    let (ey, sy, my) = parts(y);
    lemma_fields(x);
    lemma_fields(y);
    let nanb = (ey == 255 && my != 0) || (ex == 255 && mx != 0);
    let aib = ex == 255;
    let bib = ey == 255;
    let azb = ex == 0 && mx == 0;
    let bzb = ey == 0 && my == 0;
    assert(!nanb && !aib && !bib && !azb && !bzb);
    let u = seq![flag(aib), flag(bib), flag(azb), flag(bzb), ex, ey, sx, sy, mx, my] + rest;
    let v = seq![flag(azb), flag(bzb), ex, ey, sx, sy, mx, my] + rest;
    let w = seq![ex, ey, sx, sy, mx, my] + rest;
    let tree = mul_tree();
    lemma_mul_invalid(nanb, aib, bib, azb, bzb, ex, ey, sx, sy, mx, my, mem, rest, fuel);
    assert((seq![flag(false)] + u).drop_first() =~= u);
    let inf_if = tree->If_else_[0];
    lemma_run_one(inf_if, mem, u, fuel);
    lemma_run_one(Inst::U32CheckedOr, mem, u, fuel);
    assert(inf_if->If_condition =~= seq![Inst::U32CheckedOr]);
    lemma_flag_ops(bib, aib);
    assert(u.skip(2) =~= v);
    assert((seq![flag(bib || aib)] + u.skip(2)).drop_first() =~= v);
    let zero_if = inf_if->If_else_[0];
    lemma_run_one(zero_if, mem, v, fuel);
    lemma_run_one(Inst::U32CheckedOr, mem, v, fuel);
    assert(zero_if->If_condition =~= seq![Inst::U32CheckedOr]);
    lemma_flag_ops(bzb, azb);
    assert(v.skip(2) =~= w);
    assert((seq![flag(bzb || azb)] + v.skip(2)).drop_first() =~= w);
    lemma_mul_finite_run(x, y, mem, rest, fuel);
    assert(zero_if->If_else_ == mul_finite());
}

/// The code that [`mul`](crate::float32::mul) emits, up to the store of its result, gives
/// [`mul_finite_result`] where the floats in the cells `a` and `b` are
/// finite and nonzero.
#[verifier::spinoff_prover]
#[verifier::rlimit(60)]
pub proof fn lemma_mul_finite_values(a: u32, b: u32, mem: spec_fn(int) -> int, rest: Seq<int>, fuel: nat)
    requires
        a + WIDTH <= u32::MAX,
        b + WIDTH <= u32::MAX,
        is_u32(mem(a as int)),
        is_u32(mem(b as int)),
        ({
            let x = mem(a as int) as u32;
            let y = mem(b as int) as u32;
            !is_nan(x) && !is_nan(y) && !is_infinite(x) && !is_infinite(y) && !is_zero(x) && !is_zero(y)
        }),
    ensures
        ({
            let x = mem(a as int) as u32;
            let y = mem(b as int) as u32;
            run(prepare_insts(a, b) + nan_inf_zero_insts() + seq![mul_tree()], mem, rest, fuel)
                == match mul_finite_result(x, y) {
                Some(r) => Some(seq![r as int] + rest),
                None => None,
            }
        }),
{
    let x = mem(a as int) as u32;
    let y = mem(b as int) as u32;
    let (ex, sx, mx) = parts(x);
    let (ey, sy, my) = parts(y);
    lemma_fields(x);
    lemma_fields(y);
    lemma_prepare(a, b, mem, rest, fuel);
    lemma_classify(ex, ey, sx, sy, mx, my, mem, rest, fuel);
    let classified = seq![
        flag((ey == 255 && my != 0) || (ex == 255 && mx != 0)),
        flag(ex == 255),
        flag(ey == 255),
        flag(ex == 0 && mx == 0),
        flag(ey == 0 && my == 0),
        ex,
        ey,
        sx,
        sy,
        mx,
        my,
    ] + rest;
    lemma_mul_tree_finite(x, y, mem, rest, fuel);
    lemma_run_one(mul_tree(), mem, classified, fuel);
    lemma_run_add(prepare_insts(a, b), nan_inf_zero_insts(), mem, rest, fuel);
    lemma_run_add(prepare_insts(a, b) + nan_inf_zero_insts(), seq![mul_tree()], mem, rest, fuel);
}

/// A float put together from a sign bit in place, a biased exponent and 23
/// mantissa bits has those parts.
pub(crate) proof fn lemma_assembled_fields(v: u32, s: u32, e: u32, m: u32)
    by (bit_vector)
    requires
        s == 0u32 || s == 0x8000_0000u32,
        e < 0x100u32,
        m < 0x80_0000u32,
        v == s + e * 0x80_0000u32 + m,
    ensures
        v & 0x8000_0000u32 == s,
        (v & 0x7f80_0000u32) >> 23u32 == e,
        v & 0x7f_ffffu32 == m,
{
}

/// For normal floats `x` and `y` whose product [`mul_finite_result`] is a
/// normal float `r`, `r` is the exact product `x * y` cut toward zero to 24
/// significant bits: it has the product's sign, and with `k` 0 or 1 its
/// exponent is `exponent(x) + exponent(y) - 127 + k` and
/// `significand(r) * 2^(23 + k) <= significand(x) * significand(y) <
/// (significand(r) + 1) * 2^(23 + k)`. So `|x * y| - |r|` is less than one
/// unit in the last place of `r`, and `r` differs from `x * y` by less than
/// `2^-23` of `|x * y|`.
#[verifier::spinoff_prover]
#[verifier::rlimit(60)]
pub proof fn lemma_mul_truncates(x: u32, y: u32, r: u32)
    requires
        1 <= exponent(x) < EXP_MAX,
        1 <= exponent(y) < EXP_MAX,
        mul_finite_result(x, y) == Some(r),
        1 <= exponent(r) < EXP_MAX,
    ensures
        sign_bits(r) == product_sign(x, y),
        ({
            let p = significand(x) * significand(y);
            ||| exponent(r) == exponent(x) + exponent(y) - EXP_BIAS && significand(r) * 0x80_0000 <= p
                < (significand(r) + 1) * 0x80_0000
            ||| exponent(r) == exponent(x) + exponent(y) - EXP_BIAS + 1 && significand(r) * 0x100_0000
                <= p < (significand(r) + 1) * 0x100_0000
        }),
{
    lemma_fields(x);
    lemma_fields(y);
    lemma_fields(r);
    lemma_special_parts(x, y);
    let p = significand(x) * significand(y);
    assert(0x4000_0000_0000int <= p < 0x1_0000_0000_0000int) by (nonlinear_arith)
        requires
            0x80_0000 <= significand(x) < 0x100_0000,
            0x80_0000 <= significand(y) < 0x100_0000,
            p == significand(x) * significand(y),
    ;
    let q = p / 0x80_0000;
    vstd::arithmetic::div_mod::lemma_fundamental_div_mod(p, 0x80_0000);
    vstd::arithmetic::div_mod::lemma_div_denominator(p, 0x80_0000, 2);
    vstd::arithmetic::div_mod::lemma_fundamental_div_mod(p, 0x100_0000);
    assert(0x80_0000 <= q < 0x200_0000);
    let carry: int = if q >= 0x100_0000 { 1 } else { 0 };
    let m = if carry == 1 { q / 2 } else { q };
    let e = exponent(x) + exponent(y) - EXP_BIAS;
    let g = product_sign(x, y);
    // The zero and the infinity have the exponents 0 and 0xff.
    assert(!(e + carry < 0)) by {
        if e + carry < 0 {
            assert(r == g);
            lemma_fields(g);
            assert(exponent(g) == 0) by {
                assert(g == 0 || g == 0x8000_0000u32);
                assert((0u32 & 0x7f80_0000u32) >> 23u32 == 0u32 && (0x8000_0000u32 & 0x7f80_0000u32) >> 23u32
                    == 0u32) by (bit_vector);
            }
        }
    }
    assert(!(e + carry >= EXP_MAX)) by {
        if e + carry >= EXP_MAX {
            assert(r == g | INFINITY);
            assert(exponent(r) == EXP_MAX) by {
                assert(g == 0 || g == 0x8000_0000u32);
                assert(((0u32 | 0x7f80_0000u32) & 0x7f80_0000u32) >> 23u32 == 0xffu32 && ((0x8000_0000u32
                    | 0x7f80_0000u32) & 0x7f80_0000u32) >> 23u32 == 0xffu32) by (bit_vector);
            }
        }
    }
    let e1 = e + carry;
    let v = g + e1 * 0x80_0000 + (m - 0x80_0000);
    assert(0 <= v < 0x1_0000_0000int);
    assert(r as int == v);
    lemma_assembled_fields(r, g, e1 as u32, (m - 0x80_0000) as u32);
}

} // verus!
