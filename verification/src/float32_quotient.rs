//! What the code of [`div`](crate::float32::div) computes where both
//! floats are finite and nonzero: 24 rounds of long division of the two
//! significands, whose divisor is halved by a shift in each round.

use vstd::prelude::*;

use crate::encoder::Inst;
use crate::float32::{
    EXP_BIAS, EXP_MAX, INFINITY, WIDTH, div_body, exponent, is_infinite, is_nan, is_zero,
    lemma_classify, lemma_div_invalid, lemma_fields, lemma_flag_ops, lemma_prepare, lemma_run_one,
    lemma_special_parts, nan_inf_zero_insts, parts, prepare_insts, product_sign, sign_bits,
};
use crate::float32_product::{lemma_assembled_fields, significand};
use crate::machine::{
    flag, is_u32, lemma_pow2_positive, lemma_repeat, lemma_run_add, lemma_run_from, lemma_while, pow2, run,
    step, u32_bound,
};

verus! {

/// The code of [`div_body`] for two finite nonzero floats, on `[a_exp,
/// b_exp, a_sign^, b_sign^, a_mant, b_mant]`.
pub open spec fn div_finite() -> Seq<Inst> {
    div_body()[0]->If_else_[0]->If_else_[0]->If_else_
}

/// One round of the long division in [`div_finite`], on `[quotient,
/// divisor, remainder]`: the quotient is doubled; where the divisor fits
/// into the remainder it comes off and the quotient's new digit is 1; the
/// divisor is halved.
pub open spec fn quotient_round() -> Seq<Inst> {
    seq![
        Inst::U32CheckedSHL(Some(1)),
        Inst::If {
            condition: seq![Inst::Dup(Some(2)), Inst::Dup(Some(2)), Inst::U32CheckedGTE],
            then: seq![
                Inst::MovUp(2),
                Inst::Dup(Some(2)),
                Inst::U32CheckedSub,
                Inst::MovDown(2),
                Inst::Push(1),
                Inst::U32CheckedAdd,
            ],
            else_: Seq::empty(),
        },
        Inst::Swap,
        Inst::U32CheckedSHR(Some(1)),
        Inst::Swap,
    ]
}

/// `(quotient, divisor, remainder)` after `k` rounds of [`quotient_round`]
/// from `(0, d, a)`.
pub open spec fn quotient_digits(a: int, d: int, k: nat) -> (int, int, int)
    decreases k,
{
    if k == 0 {
        (0, d, a)
    } else {
        let (q, dd, r) = quotient_digits(a, d, (k - 1) as nat);
        if r >= dd {
            (2 * q + 1, dd / 2, r - dd)
        } else {
            (2 * q, dd / 2, r)
        }
    }
}

/// The long division in [`div_finite`] is the 24 rounds of
/// [`quotient_round`].
proof fn lemma_div_finite_loop()
    ensures
        div_finite()[15] == (Inst::Repeat { count: 24, body: quotient_round() }),
        div_finite().len() == 24,
{
    reveal(div_body);
    assert(div_finite()[15]->Repeat_body =~= quotient_round());
}

/// The bit tests of [`div_finite`]: bit 23 of a value below `2^24`, bit 31,
/// the 23 bits below the leading one of a 24-bit significand, and the
/// infinity of a sign.
pub(crate) proof fn lemma_quotient_bits(v: u32, e: u32, m: u32, g: u32)
    by (bit_vector)
    ensures
        v < 0x100_0000u32 ==> (((v & 0x80_0000u32) != 0x80_0000u32) == (v < 0x80_0000u32)),
        ((e & 0x8000_0000u32) == 0x8000_0000u32) == (e >= 0x8000_0000u32),
        0x80_0000u32 <= m < 0x100_0000u32 ==> (m & 0x7f_ffffu32) + 0x80_0000u32 == m,
        (g == 0u32 || g == 0x8000_0000u32) ==> (g | 0x7f80_0000u32) == g + 0x7f80_0000u32,
{
}

/// A sign bit, an exponent shifted into place and 23 mantissa bits, put
/// together with `|`, are their sum.
proof fn lemma_float_or(g: u32, mm: u32, w: u32, e: u32)
    by (bit_vector)
    requires
        g == 0u32 || g == 0x8000_0000u32,
        e < 0xffu32,
        mm < 0x80_0000u32,
        w == e * 0x80_0000u32,
    ensures
        (mm | w) == mm + w,
        (mm | w) < 0x8000_0000u32,
        (g | (mm | w)) == g + (mm | w),
{
}

/// The start of [`div_finite`]: the biased difference of the exponents, the sign of the quotient, and the two significands shifted left by 8 bits, under a quotient of 0.
#[verifier::spinoff_prover]
#[verifier::rlimit(60)]
proof fn lemma_div_prefix(ex: int, ey: int, sx: int, sy: int, mx: int, my: int, mem: spec_fn(int) -> int, rest: Seq<int>, fuel: nat)
    requires
        0 <= ex < 0xff,
        0 <= ey < 0xff,
        0 <= mx < 0x80_0000,
        0 <= my < 0x80_0000,
        is_u32(sx),
        is_u32(sy),
    ensures
        run(div_finite().take(15), mem, seq![ex, ey, sx, sy, mx, my] + rest, fuel) == Some(seq![0int, (my + 0x80_0000int) * 256, (mx + 0x80_0000int) * 256, (ex + 127 - ey + 0x1_0000_0000int) % 0x1_0000_0000int, ((sy as u32) ^ (sx as u32)) as int] + rest),
{
    let is = div_finite().take(15);
    let t0 = seq![ex, ey, sx, sy, mx, my] + rest;
    let t1 = seq![127int] + t0;
    let t2 = seq![ex + 127, ey, sx, sy, mx, my] + rest;
    let t3 = seq![ey, ex + 127, sx, sy, mx, my] + rest;
    let t4 = seq![(ex + 127 - ey + 0x1_0000_0000int) % 0x1_0000_0000int, sx, sy, mx, my] + rest;
    let t5 = seq![sx, sy, mx, my, (ex + 127 - ey + 0x1_0000_0000int) % 0x1_0000_0000int] + rest;
    let t6 = seq![((sy as u32) ^ (sx as u32)) as int, mx, my, (ex + 127 - ey + 0x1_0000_0000int) % 0x1_0000_0000int] + rest;
    let t7 = seq![mx, my, (ex + 127 - ey + 0x1_0000_0000int) % 0x1_0000_0000int, ((sy as u32) ^ (sx as u32)) as int] + rest;
    let t8 = seq![0x80_0000int] + t7;
    let t9 = seq![mx + 0x80_0000int, my, (ex + 127 - ey + 0x1_0000_0000int) % 0x1_0000_0000int, ((sy as u32) ^ (sx as u32)) as int] + rest;
    let t10 = seq![(mx + 0x80_0000int) * 256, my, (ex + 127 - ey + 0x1_0000_0000int) % 0x1_0000_0000int, ((sy as u32) ^ (sx as u32)) as int] + rest;
    let t11 = seq![my, (mx + 0x80_0000int) * 256, (ex + 127 - ey + 0x1_0000_0000int) % 0x1_0000_0000int, ((sy as u32) ^ (sx as u32)) as int] + rest;
    let t12 = seq![0x80_0000int] + t11;
    let t13 = seq![my + 0x80_0000int, (mx + 0x80_0000int) * 256, (ex + 127 - ey + 0x1_0000_0000int) % 0x1_0000_0000int, ((sy as u32) ^ (sx as u32)) as int] + rest;
    let t14 = seq![(my + 0x80_0000int) * 256, (mx + 0x80_0000int) * 256, (ex + 127 - ey + 0x1_0000_0000int) % 0x1_0000_0000int, ((sy as u32) ^ (sx as u32)) as int] + rest;
    let t15 = seq![0int] + t14;
    reveal(div_body);
    assert(u32_bound() == 0x1_0000_0000int);
    assert(pow2(8) == 256) by { reveal_with_fuel(pow2, 9); }
    assert(t1.skip(2) =~= seq![ey, sx, sy, mx, my] + rest);
    assert(t2.skip(2) =~= seq![sx, sy, mx, my] + rest);
    assert(t4.subrange(1, 5) + seq![t4[0]] + t4.skip(5) =~= t5);
    assert(t5.skip(2) =~= seq![mx, my, (ex + 127 - ey + 0x1_0000_0000int) % 0x1_0000_0000int] + rest);
    assert(t6.subrange(1, 4) + seq![t6[0]] + t6.skip(4) =~= t7);
    assert(t8.skip(2) =~= seq![my, (ex + 127 - ey + 0x1_0000_0000int) % 0x1_0000_0000int, ((sy as u32) ^ (sx as u32)) as int] + rest);
    assert(t9.skip(1) =~= t10.skip(1));
    assert(t10.skip(2) =~= seq![(ex + 127 - ey + 0x1_0000_0000int) % 0x1_0000_0000int, ((sy as u32) ^ (sx as u32)) as int] + rest);
    assert(t12.skip(2) =~= seq![(mx + 0x80_0000int) * 256, (ex + 127 - ey + 0x1_0000_0000int) % 0x1_0000_0000int, ((sy as u32) ^ (sx as u32)) as int] + rest);
    assert(t13.skip(1) =~= t14.skip(1));
    assert(step(is[0], mem, t0, fuel) == Some(t1));
    assert(step(is[1], mem, t1, fuel) == Some(t2));
    assert(step(is[2], mem, t2, fuel) == Some(t3));
    assert(step(is[3], mem, t3, fuel) == Some(t4));
    assert(step(is[4], mem, t4, fuel) == Some(t5));
    assert(step(is[5], mem, t5, fuel) == Some(t6));
    assert(step(is[6], mem, t6, fuel) == Some(t7));
    assert(step(is[7], mem, t7, fuel) == Some(t8));
    assert(step(is[8], mem, t8, fuel) == Some(t9));
    assert(step(is[9], mem, t9, fuel) == Some(t10));
    assert(step(is[10], mem, t10, fuel) == Some(t11));
    assert(step(is[11], mem, t11, fuel) == Some(t12));
    assert(step(is[12], mem, t12, fuel) == Some(t13));
    assert(step(is[13], mem, t13, fuel) == Some(t14));
    assert(step(is[14], mem, t14, fuel) == Some(t15));
    lemma_run_from(is, 14, mem, t14, fuel);
    lemma_run_from(is, 13, mem, t13, fuel);
    lemma_run_from(is, 12, mem, t12, fuel);
    lemma_run_from(is, 11, mem, t11, fuel);
    lemma_run_from(is, 10, mem, t10, fuel);
    lemma_run_from(is, 9, mem, t9, fuel);
    lemma_run_from(is, 8, mem, t8, fuel);
    lemma_run_from(is, 7, mem, t7, fuel);
    lemma_run_from(is, 6, mem, t6, fuel);
    lemma_run_from(is, 5, mem, t5, fuel);
    lemma_run_from(is, 4, mem, t4, fuel);
    lemma_run_from(is, 3, mem, t3, fuel);
    lemma_run_from(is, 2, mem, t2, fuel);
    lemma_run_from(is, 1, mem, t1, fuel);
    lemma_run_from(is, 0, mem, t0, fuel);
    assert(is.skip(0) =~= is);
    assert(is.skip(15) =~= Seq::<Inst>::empty());
}

/// After the long division of [`div_finite`]: the divisor and the remainder are dropped.
#[verifier::spinoff_prover]
#[verifier::rlimit(60)]
proof fn lemma_div_drop_remainder(q: int, d: int, r: int, e: int, g: int, mem: spec_fn(int) -> int, rest: Seq<int>, fuel: nat)
    ensures
        run(div_finite().subrange(16, 19), mem, seq![q, d, r, e, g] + rest, fuel) == Some(seq![q, e, g] + rest),
{
    let is = div_finite().subrange(16, 19);
    let t0 = seq![q, d, r, e, g] + rest;
    let t1 = seq![d, r, q, e, g] + rest;
    let t2 = seq![r, q, e, g] + rest;
    let t3 = seq![q, e, g] + rest;
    reveal(div_body);
    assert(t0.subrange(1, 3) + seq![t0[0]] + t0.skip(3) =~= t1);
    assert(t1.drop_first() =~= t2);
    assert(t2.drop_first() =~= t3);
    assert(step(is[0], mem, t0, fuel) == Some(t1));
    assert(step(is[1], mem, t1, fuel) == Some(t2));
    assert(step(is[2], mem, t2, fuel) == Some(t3));
    lemma_run_from(is, 2, mem, t2, fuel);
    lemma_run_from(is, 1, mem, t1, fuel);
    lemma_run_from(is, 0, mem, t0, fuel);
    assert(is.skip(0) =~= is);
    assert(is.skip(3) =~= Seq::<Inst>::empty());
}

/// The test of the loop that brings the quotient's top bit to bit 23.
#[verifier::spinoff_prover]
#[verifier::rlimit(60)]
proof fn lemma_normalize_test(v: int, e: int, g: int, mem: spec_fn(int) -> int, rest: Seq<int>, fuel: nat)
    requires
        0 <= v < 0x100_0000,
    ensures
        run(div_finite()[19]->While_condition, mem, seq![v, e, g] + rest, fuel) == Some(seq![flag(v < 0x80_0000)] + (seq![v, e, g] + rest)),
{
    let is = div_finite()[19]->While_condition;
    let t0 = seq![v, e, g] + rest;
    let t1 = seq![v] + t0;
    let t2 = seq![0x80_0000int] + t1;
    let t3 = seq![((v as u32) & 0x80_0000u32) as int] + t0;
    let t4 = seq![0x80_0000int] + t3;
    let t5 = seq![flag(v < 0x80_0000)] + t0;
    reveal(div_body);
    assert(u32_bound() == 0x1_0000_0000int);
    lemma_quotient_bits(v as u32, 0, 0, 0);
    assert((v as u32) as int == v);
    assert(t2.skip(2) =~= t0);
    assert(t4.skip(2) =~= t0);
    assert(step(is[0], mem, t0, fuel) == Some(t1));
    assert(step(is[1], mem, t1, fuel) == Some(t2));
    assert(step(is[2], mem, t2, fuel) == Some(t3));
    assert(step(is[3], mem, t3, fuel) == Some(t4));
    assert(step(is[4], mem, t4, fuel) == Some(t5));
    lemma_run_from(is, 4, mem, t4, fuel);
    lemma_run_from(is, 3, mem, t3, fuel);
    lemma_run_from(is, 2, mem, t2, fuel);
    lemma_run_from(is, 1, mem, t1, fuel);
    lemma_run_from(is, 0, mem, t0, fuel);
    assert(is.skip(0) =~= is);
    assert(is.skip(5) =~= Seq::<Inst>::empty());
}

/// A round of the loop that brings the quotient's top bit to bit 23: the quotient doubles and the exponent drops by one.
#[verifier::spinoff_prover]
#[verifier::rlimit(60)]
proof fn lemma_normalize_shift(v: int, e: int, g: int, mem: spec_fn(int) -> int, rest: Seq<int>, fuel: nat)
    requires
        0 <= v < 0x8000_0000,
        is_u32(e),
    ensures
        run(div_finite()[19]->While_body, mem, seq![v, e, g] + rest, fuel) == Some(seq![2 * v, (e - 1 + 0x1_0000_0000int) % 0x1_0000_0000int, g] + rest),
{
    let is = div_finite()[19]->While_body;
    let t0 = seq![v, e, g] + rest;
    let t1 = seq![2 * v, e, g] + rest;
    let t2 = seq![e, 2 * v, g] + rest;
    let t3 = seq![1int] + t2;
    let t4 = seq![(e - 1 + 0x1_0000_0000int) % 0x1_0000_0000int, 2 * v, g] + rest;
    let t5 = seq![2 * v, (e - 1 + 0x1_0000_0000int) % 0x1_0000_0000int, g] + rest;
    reveal(div_body);
    assert(u32_bound() == 0x1_0000_0000int);
    assert(pow2(1) == 2) by { reveal_with_fuel(pow2, 2); }
    assert(t0.skip(1) =~= t1.skip(1));
    assert(t1.skip(2) =~= t2.skip(2));
    assert(t3.skip(2) =~= seq![2 * v, g] + rest);
    assert(t4.skip(2) =~= t5.skip(2));
    assert(step(is[0], mem, t0, fuel) == Some(t1));
    assert(step(is[1], mem, t1, fuel) == Some(t2));
    assert(step(is[2], mem, t2, fuel) == Some(t3));
    assert(step(is[3], mem, t3, fuel) == Some(t4));
    assert(step(is[4], mem, t4, fuel) == Some(t5));
    lemma_run_from(is, 4, mem, t4, fuel);
    lemma_run_from(is, 3, mem, t3, fuel);
    lemma_run_from(is, 2, mem, t2, fuel);
    lemma_run_from(is, 1, mem, t1, fuel);
    lemma_run_from(is, 0, mem, t0, fuel);
    assert(is.skip(0) =~= is);
    assert(is.skip(5) =~= Seq::<Inst>::empty());
}

/// After the normalizing loop of [`div_finite`]: the 23 bits below the leading one, under the exponent.
#[verifier::spinoff_prover]
#[verifier::rlimit(60)]
proof fn lemma_div_mantissa(m: int, e: int, g: int, mem: spec_fn(int) -> int, rest: Seq<int>, fuel: nat)
    requires
        0x80_0000 <= m < 0x100_0000,
        is_u32(e),
    ensures
        run(div_finite().subrange(20, 23), mem, seq![m, e, g] + rest, fuel) == Some(seq![e, m - 0x80_0000, g] + rest),
{
    let is = div_finite().subrange(20, 23);
    let t0 = seq![m, e, g] + rest;
    let t1 = seq![0x7f_ffffint] + t0;
    let t2 = seq![m - 0x80_0000, e, g] + rest;
    let t3 = seq![e, m - 0x80_0000, g] + rest;
    reveal(div_body);
    assert(u32_bound() == 0x1_0000_0000int);
    lemma_quotient_bits(0, 0, m as u32, 0);
    assert((m as u32) as int == m);
    assert(t1.skip(2) =~= seq![e, g] + rest);
    assert(t2.skip(2) =~= seq![g] + rest);
    assert(step(is[0], mem, t0, fuel) == Some(t1));
    assert(step(is[1], mem, t1, fuel) == Some(t2));
    assert(step(is[2], mem, t2, fuel) == Some(t3));
    lemma_run_from(is, 2, mem, t2, fuel);
    lemma_run_from(is, 1, mem, t1, fuel);
    lemma_run_from(is, 0, mem, t0, fuel);
    assert(is.skip(0) =~= is);
    assert(is.skip(3) =~= Seq::<Inst>::empty());
}

/// The test for an exponent that wrapped below zero in [`div_finite`].
#[verifier::spinoff_prover]
#[verifier::rlimit(60)]
proof fn lemma_div_underflow_test(e: int, mm: int, g: int, mem: spec_fn(int) -> int, rest: Seq<int>, fuel: nat)
    requires
        is_u32(e),
    ensures
        run(div_finite()[23]->If_condition, mem, seq![e, mm, g] + rest, fuel) == Some(seq![flag(e >= 0x8000_0000)] + (seq![e, mm, g] + rest)),
{
    let is = div_finite()[23]->If_condition;
    let t0 = seq![e, mm, g] + rest;
    let t1 = seq![e] + t0;
    let t2 = seq![0x8000_0000int] + t1;
    let t3 = seq![((e as u32) & 0x8000_0000u32) as int] + t0;
    let t4 = seq![0x8000_0000int] + t3;
    let t5 = seq![flag(e >= 0x8000_0000)] + t0;
    reveal(div_body);
    assert(u32_bound() == 0x1_0000_0000int);
    lemma_quotient_bits(0, e as u32, 0, 0);
    assert((e as u32) as int == e);
    assert(t2.skip(2) =~= t0);
    assert(t4.skip(2) =~= t0);
    assert(step(is[0], mem, t0, fuel) == Some(t1));
    assert(step(is[1], mem, t1, fuel) == Some(t2));
    assert(step(is[2], mem, t2, fuel) == Some(t3));
    assert(step(is[3], mem, t3, fuel) == Some(t4));
    assert(step(is[4], mem, t4, fuel) == Some(t5));
    lemma_run_from(is, 4, mem, t4, fuel);
    lemma_run_from(is, 3, mem, t3, fuel);
    lemma_run_from(is, 2, mem, t2, fuel);
    lemma_run_from(is, 1, mem, t1, fuel);
    lemma_run_from(is, 0, mem, t0, fuel);
    assert(is.skip(0) =~= is);
    assert(is.skip(5) =~= Seq::<Inst>::empty());
}

/// The underflow case of [`div_finite`]: a zero of the quotient's sign.
#[verifier::spinoff_prover]
#[verifier::rlimit(60)]
proof fn lemma_div_underflow_zero(e: int, mm: int, g: int, mem: spec_fn(int) -> int, rest: Seq<int>, fuel: nat)
    ensures
        run(div_finite()[23]->If_then, mem, seq![e, mm, g] + rest, fuel) == Some(seq![g] + rest),
{
    let is = div_finite()[23]->If_then;
    let t0 = seq![e, mm, g] + rest;
    let t1 = seq![mm, g] + rest;
    let t2 = seq![g] + rest;
    reveal(div_body);
    assert(t0.drop_first() =~= t1);
    assert(t1.drop_first() =~= t2);
    assert(step(is[0], mem, t0, fuel) == Some(t1));
    assert(step(is[1], mem, t1, fuel) == Some(t2));
    lemma_run_from(is, 1, mem, t1, fuel);
    lemma_run_from(is, 0, mem, t0, fuel);
    assert(is.skip(0) =~= is);
    assert(is.skip(2) =~= Seq::<Inst>::empty());
}

/// The test for an exponent too large for a finite float in [`div_finite`].
#[verifier::spinoff_prover]
#[verifier::rlimit(60)]
proof fn lemma_div_overflow_test(e: int, mm: int, g: int, mem: spec_fn(int) -> int, rest: Seq<int>, fuel: nat)
    requires
        is_u32(e),
    ensures
        run(div_finite()[23]->If_else_[0]->If_condition, mem, seq![e, mm, g] + rest, fuel) == Some(seq![flag(e >= 0xff)] + (seq![e, mm, g] + rest)),
{
    let is = div_finite()[23]->If_else_[0]->If_condition;
    let t0 = seq![e, mm, g] + rest;
    let t1 = seq![e] + t0;
    let t2 = seq![0xffint] + t1;
    let t3 = seq![flag(e >= 0xff)] + t0;
    reveal(div_body);
    assert(u32_bound() == 0x1_0000_0000int);
    assert(t2.skip(2) =~= t0);
    assert(step(is[0], mem, t0, fuel) == Some(t1));
    assert(step(is[1], mem, t1, fuel) == Some(t2));
    assert(step(is[2], mem, t2, fuel) == Some(t3));
    lemma_run_from(is, 2, mem, t2, fuel);
    lemma_run_from(is, 1, mem, t1, fuel);
    lemma_run_from(is, 0, mem, t0, fuel);
    assert(is.skip(0) =~= is);
    assert(is.skip(3) =~= Seq::<Inst>::empty());
}

/// The overflow case of [`div_finite`]: an infinity of the quotient's sign.
#[verifier::spinoff_prover]
#[verifier::rlimit(60)]
proof fn lemma_div_overflow_infinity(e: int, mm: int, g: int, mem: spec_fn(int) -> int, rest: Seq<int>, fuel: nat)
    requires
        g == 0 || g == 0x8000_0000,
    ensures
        run(div_finite()[23]->If_else_[0]->If_then, mem, seq![e, mm, g] + rest, fuel) == Some(seq![g + 0x7f80_0000int] + rest),
{
    let is = div_finite()[23]->If_else_[0]->If_then;
    let t0 = seq![e, mm, g] + rest;
    let t1 = seq![mm, g] + rest;
    let t2 = seq![g] + rest;
    let t3 = seq![0x7f80_0000int, g] + rest;
    let t4 = seq![g + 0x7f80_0000int] + rest;
    reveal(div_body);
    assert(u32_bound() == 0x1_0000_0000int);
    lemma_quotient_bits(0, 0, 0x80_0000, g as u32);
    assert((g as u32) as int == g);
    assert(t0.drop_first() =~= t1);
    assert(t1.drop_first() =~= t2);
    assert(t3.skip(2) =~= rest);
    assert(step(is[0], mem, t0, fuel) == Some(t1));
    assert(step(is[1], mem, t1, fuel) == Some(t2));
    assert(step(is[2], mem, t2, fuel) == Some(t3));
    assert(step(is[3], mem, t3, fuel) == Some(t4));
    lemma_run_from(is, 3, mem, t3, fuel);
    lemma_run_from(is, 2, mem, t2, fuel);
    lemma_run_from(is, 1, mem, t1, fuel);
    lemma_run_from(is, 0, mem, t0, fuel);
    assert(is.skip(0) =~= is);
    assert(is.skip(4) =~= Seq::<Inst>::empty());
}

/// The normal case of [`div_finite`]: sign, exponent and mantissa put together.
#[verifier::spinoff_prover]
#[verifier::rlimit(60)]
proof fn lemma_div_assemble(e: int, mm: int, g: int, mem: spec_fn(int) -> int, rest: Seq<int>, fuel: nat)
    requires
        0 <= e < 0xff,
        0 <= mm < 0x80_0000,
        g == 0 || g == 0x8000_0000,
    ensures
        run(div_finite()[23]->If_else_[0]->If_else_, mem, seq![e, mm, g] + rest, fuel) == Some(seq![g + (mm + e * 0x80_0000)] + rest),
{
    let is = div_finite()[23]->If_else_[0]->If_else_;
    let t0 = seq![e, mm, g] + rest;
    let t1 = seq![e * 0x80_0000, mm, g] + rest;
    let t2 = seq![mm + e * 0x80_0000, g] + rest;
    let t3 = seq![g + (mm + e * 0x80_0000)] + rest;
    reveal(div_body);
    assert(u32_bound() == 0x1_0000_0000int);
    assert(pow2(23) == 0x80_0000) by { reveal_with_fuel(pow2, 24); }
    assert((e as u32) as int == e && (mm as u32) as int == mm && (g as u32) as int == g);
    assert(((e * 0x80_0000) as u32) as int == e * 0x80_0000);
    lemma_float_or(g as u32, mm as u32, (e * 0x80_0000) as u32, e as u32);
    assert(((mm + e * 0x80_0000) as u32) == ((mm as u32) | ((e * 0x80_0000) as u32)));
    assert(t0.skip(1) =~= t1.skip(1));
    assert(t1.skip(2) =~= seq![g] + rest);
    assert(t2.skip(2) =~= rest);
    assert(step(is[0], mem, t0, fuel) == Some(t1));
    assert(step(is[1], mem, t1, fuel) == Some(t2));
    assert(step(is[2], mem, t2, fuel) == Some(t3));
    lemma_run_from(is, 2, mem, t2, fuel);
    lemma_run_from(is, 1, mem, t1, fuel);
    lemma_run_from(is, 0, mem, t0, fuel);
    assert(is.skip(0) =~= is);
    assert(is.skip(3) =~= Seq::<Inst>::empty());
}

/// The test of a round of [`quotient_round`]: whether the divisor fits into the remainder.
#[verifier::spinoff_prover]
#[verifier::rlimit(60)]
proof fn lemma_round_test(q: int, d: int, r: int, mem: spec_fn(int) -> int, rest: Seq<int>, fuel: nat)
    requires
        is_u32(d),
        is_u32(r),
    ensures
        run(quotient_round()[1]->If_condition, mem, seq![q, d, r] + rest, fuel) == Some(seq![flag(r >= d)] + (seq![q, d, r] + rest)),
{
    let is = quotient_round()[1]->If_condition;
    let t0 = seq![q, d, r] + rest;
    let t1 = seq![r] + t0;
    let t2 = seq![d] + t1;
    let t3 = seq![flag(r >= d)] + t0;
    assert(u32_bound() == 0x1_0000_0000int);
    assert(t0[2] == r);
    assert(t1[2] == d);
    assert(t2.skip(2) =~= t0);
    assert(step(is[0], mem, t0, fuel) == Some(t1));
    assert(step(is[1], mem, t1, fuel) == Some(t2));
    assert(step(is[2], mem, t2, fuel) == Some(t3));
    lemma_run_from(is, 2, mem, t2, fuel);
    lemma_run_from(is, 1, mem, t1, fuel);
    lemma_run_from(is, 0, mem, t0, fuel);
    assert(is.skip(0) =~= is);
    assert(is.skip(3) =~= Seq::<Inst>::empty());
}

/// The subtraction of a round of [`quotient_round`]: the divisor comes off the remainder and the digit is 1.
#[verifier::spinoff_prover]
#[verifier::rlimit(60)]
proof fn lemma_round_subtract(q: int, d: int, r: int, mem: spec_fn(int) -> int, rest: Seq<int>, fuel: nat)
    requires
        is_u32(d),
        is_u32(r),
        r >= d,
        0 <= q,
        is_u32(q + 1),
    ensures
        run(quotient_round()[1]->If_then, mem, seq![q, d, r] + rest, fuel) == Some(seq![q + 1, d, r - d] + rest),
{
    let is = quotient_round()[1]->If_then;
    let t0 = seq![q, d, r] + rest;
    let t1 = seq![r, q, d] + rest;
    let t2 = seq![d] + t1;
    let t3 = seq![r - d, q, d] + rest;
    let t4 = seq![q, d, r - d] + rest;
    let t5 = seq![1int] + t4;
    let t6 = seq![q + 1, d, r - d] + rest;
    assert(u32_bound() == 0x1_0000_0000int);
    assert(seq![t0[2]] + t0.take(2) + t0.skip(3) =~= t1);
    assert(t1[2] == d);
    assert(t2.skip(2) =~= seq![q, d] + rest);
    assert(t3.subrange(1, 3) + seq![t3[0]] + t3.skip(3) =~= t4);
    assert(t5.skip(2) =~= seq![d, r - d] + rest);
    assert(step(is[0], mem, t0, fuel) == Some(t1));
    assert(step(is[1], mem, t1, fuel) == Some(t2));
    assert(step(is[2], mem, t2, fuel) == Some(t3));
    assert(step(is[3], mem, t3, fuel) == Some(t4));
    assert(step(is[4], mem, t4, fuel) == Some(t5));
    assert(step(is[5], mem, t5, fuel) == Some(t6));
    lemma_run_from(is, 5, mem, t5, fuel);
    lemma_run_from(is, 4, mem, t4, fuel);
    lemma_run_from(is, 3, mem, t3, fuel);
    lemma_run_from(is, 2, mem, t2, fuel);
    lemma_run_from(is, 1, mem, t1, fuel);
    lemma_run_from(is, 0, mem, t0, fuel);
    assert(is.skip(0) =~= is);
    assert(is.skip(6) =~= Seq::<Inst>::empty());
}

/// The end of a round of [`quotient_round`]: the divisor is halved.
#[verifier::spinoff_prover]
#[verifier::rlimit(60)]
proof fn lemma_round_shift(q: int, d: int, r: int, mem: spec_fn(int) -> int, rest: Seq<int>, fuel: nat)
    requires
        is_u32(d),
    ensures
        run(quotient_round().skip(2), mem, seq![q, d, r] + rest, fuel) == Some(seq![q, d / 2, r] + rest),
{
    let is = quotient_round().skip(2);
    let t0 = seq![q, d, r] + rest;
    let t1 = seq![d, q, r] + rest;
    let t2 = seq![d / 2, q, r] + rest;
    let t3 = seq![q, d / 2, r] + rest;
    assert(pow2(1) == 2) by { reveal_with_fuel(pow2, 2); }
    assert(t0.skip(2) =~= seq![r] + rest);
    assert(t1.skip(1) =~= t2.skip(1));
    assert(t2.skip(2) =~= seq![r] + rest);
    assert(step(is[0], mem, t0, fuel) == Some(t1));
    assert(step(is[1], mem, t1, fuel) == Some(t2));
    assert(step(is[2], mem, t2, fuel) == Some(t3));
    lemma_run_from(is, 2, mem, t2, fuel);
    lemma_run_from(is, 1, mem, t1, fuel);
    lemma_run_from(is, 0, mem, t0, fuel);
    assert(is.skip(0) =~= is);
    assert(is.skip(3) =~= Seq::<Inst>::empty());
}

/// One round of [`quotient_round`].
#[verifier::spinoff_prover]
#[verifier::rlimit(60)]
proof fn lemma_round(q: int, d: int, r: int, mem: spec_fn(int) -> int, rest: Seq<int>, fuel: nat)
    requires
        0 <= q,
        2 * q + 1 < 0x1_0000_0000,
        is_u32(d),
        is_u32(r),
    ensures
        run(quotient_round(), mem, seq![q, d, r] + rest, fuel) == Some(
            if r >= d {
                seq![2 * q + 1, d / 2, r - d] + rest
            } else {
                seq![2 * q, d / 2, r] + rest
            },
        ),
{
    let body = quotient_round();
    let s0 = seq![q, d, r] + rest;
    let s1 = seq![2 * q, d, r] + rest;
    assert(pow2(1) == 2) by {
        reveal_with_fuel(pow2, 2);
    }
    assert(s0.skip(1) =~= s1.skip(1));
    assert(step(body[0], mem, s0, fuel) == Some(s1));
    lemma_round_test(2 * q, d, r, mem, rest, fuel);
    assert((seq![flag(r >= d)] + s1).drop_first() =~= s1);
    let s2 = if r >= d {
        seq![2 * q + 1, d, r - d] + rest
    } else {
        s1
    };
    if r >= d {
        lemma_round_subtract(2 * q, d, r, mem, rest, fuel);
    } else {
        assert(run(Seq::<Inst>::empty(), mem, s1, fuel) == Some(s1));
        assert(body[1]->If_else_ =~= Seq::<Inst>::empty());
    }
    assert(step(body[1], mem, s1, fuel) == Some(s2));
    if r >= d {
        lemma_round_shift(2 * q + 1, d, r - d, mem, rest, fuel);
    } else {
        lemma_round_shift(2 * q, d, r, mem, rest, fuel);
    }
    lemma_run_one(body[0], mem, s0, fuel);
    lemma_run_one(body[1], mem, s1, fuel);
    assert(body =~= seq![body[0]] + seq![body[1]] + body.skip(2));
    lemma_run_add(seq![body[0]], seq![body[1]], mem, s0, fuel);
    lemma_run_add(seq![body[0]] + seq![body[1]], body.skip(2), mem, s0, fuel);
}

/// What the rounds of the long division keep: for `a < 2 d`, after `k`
/// rounds the divisor is `d / 2^k`, the remainder lies in `[0, a]` and is at
/// most `2 * divisor + k`, the quotient is below `2^k`, and
/// `2^k * (a - remainder) <= 2 * quotient * d <= 2^k * (a - remainder + k)`:
/// the quotient is `2^k * a / d` up to what the remainder and the cut
/// divisors leave out.
#[verifier::spinoff_prover]
#[verifier::rlimit(60)]
pub proof fn lemma_quotient_digits(a: int, d: int, k: nat)
    requires
        0 < d,
        0 <= a < 2 * d,
    ensures
        ({
            let (q, dk, r) = quotient_digits(a, d, k);
            &&& dk == d / pow2(k)
            &&& 0 <= r <= a
            &&& r <= 2 * dk + k
            &&& 0 <= q < pow2(k)
            &&& pow2(k) * (a - r) <= 2 * q * d
            &&& 2 * q * d <= pow2(k) * (a - r + k)
        }),
    decreases k,
{
    if k == 0 {
        assert(pow2(0) == 1);
        let (q2, d2, r2) = quotient_digits(a, d, k);
        assert(pow2(k) * (a - r2) == 0);
        assert(2 * q2 * d == 0) by (nonlinear_arith)
            requires
                q2 == 0,
        ;
        assert(pow2(k) * (a - r2 + k) == 0);
    } else {
        let j = (k - 1) as nat;
        lemma_quotient_digits(a, d, j);
        let (q, dj, r) = quotient_digits(a, d, j);
        let p = pow2(j);
        assert(pow2(k) == 2 * p);
        lemma_pow2_positive(j);
        vstd::arithmetic::div_mod::lemma_div_denominator(d, p, 2);
        vstd::arithmetic::div_mod::lemma_fundamental_div_mod(d, p);
        vstd::arithmetic::div_mod::lemma_mod_bound(d, p);
        let e = d % p;
        assert(d == dj * p + e) by (nonlinear_arith)
            requires
                dj == d / p,
                d == p * (d / p) + e,
        ;
        assert(dj <= 2 * (dj / 2) + 1);
        if r >= dj {
            assert(pow2(k) * (a - (r - dj)) <= 2 * (2 * q + 1) * d && 2 * (2 * q + 1) * d <= pow2(k) * (a
                - (r - dj) + k)) by (nonlinear_arith)
                requires
                    p * (a - r) <= 2 * q * d,
                    2 * q * d <= p * (a - r + j),
                    d == dj * p + e,
                    0 <= e < p,
                    pow2(k) == 2 * p,
                    k == j + 1,
            ;
        } else {
            assert(pow2(k) * (a - r) <= 2 * (2 * q) * d && 2 * (2 * q) * d <= pow2(k) * (a - r + k))
                by (nonlinear_arith)
                requires
                    p * (a - r) <= 2 * q * d,
                    2 * q * d <= p * (a - r + j),
                    0 < p,
                    pow2(k) == 2 * p,
                    k == j + 1,
                    a - r >= 0,
            ;
        }
    }
}


/// `2^j <= 2^k` for `j <= k`.
pub(crate) proof fn lemma_pow2_le(j: nat, k: nat)
    requires
        j <= k,
    ensures
        pow2(j) <= pow2(k),
    decreases k - j,
{
    if j < k {
        lemma_pow2_le(j, (k - 1) as nat);
        lemma_pow2_positive((k - 1) as nat);
    }
}

/// The stack after `j` rounds of the long division of `a` by `d`.
pub open spec fn division_state(a: int, d: int, tail: Seq<int>, j: nat) -> Seq<int> {
    let (q, dj, r) = quotient_digits(a, d, j);
    seq![q, dj, r] + tail
}

/// The 24 rounds of the long division in [`div_finite`] on `[0, d, a]`
/// leave what [`quotient_digits`] gives.
#[verifier::spinoff_prover]
#[verifier::rlimit(60)]
proof fn lemma_long_division(a: int, d: int, tail: Seq<int>, mem: spec_fn(int) -> int, fuel: nat)
    requires
        0 < d < 0x1_0000_0000,
        0 <= a < 2 * d,
        a < 0x1_0000_0000,
    ensures
        step(Inst::Repeat { count: 24, body: quotient_round() }, mem, seq![0, d, a] + tail, fuel) == Some(
            division_state(a, d, tail, 24),
        ),
{
    let states = |j: nat| division_state(a, d, tail, j);
    assert(pow2(24) == 0x100_0000) by {
        reveal_with_fuel(pow2, 25);
    }
    assert forall|j: nat| j < 24 implies #[trigger] run(quotient_round(), mem, states(j), fuel) == Some(
        states(j + 1),
    ) by {
        lemma_quotient_digits(a, d, j);
        lemma_pow2_le(j, 24);
        lemma_pow2_positive(j);
        let (q, dj, r) = quotient_digits(a, d, j);
        assert(dj <= d) by (nonlinear_arith)
            requires
                dj == d / pow2(j),
                pow2(j) >= 1,
                d >= 0,
        ;
        assert(0 <= dj);
        lemma_round(q, dj, r, mem, tail, fuel);
    }
    lemma_repeat(quotient_round(), 24, mem, states, fuel);
    assert(states(0) =~= seq![0, d, a] + tail);
}

/// After the 24 rounds, for significands `ax` and `by` (each in `[2^23,
/// 2^24)`) shifted left by 8 bits: the quotient `q` lies in `[2^21, 2^24)` and
/// `2^23 * ax / by - 2 < q < 2^23 * ax / by + 1`.
#[verifier::spinoff_prover]
#[verifier::rlimit(60)]
pub proof fn lemma_quotient_bounds(ax: int, by: int)
    requires
        0x80_0000 <= ax < 0x100_0000,
        0x80_0000 <= by < 0x100_0000,
    ensures
        ({
            let q = quotient_digits(ax * 256, by * 256, 24).0;
            &&& 0x20_0000 <= q < 0x100_0000
            &&& q * by < 0x80_0000 * ax + by
            &&& q * by > 0x80_0000 * ax - 2 * by
        }),
{
    let a = ax * 256;
    let d = by * 256;
    lemma_quotient_digits(a, d, 24);
    assert(pow2(24) == 0x100_0000) by {
        reveal_with_fuel(pow2, 25);
    }
    let (q, dk, r) = quotient_digits(a, d, 24);
    vstd::arithmetic::div_mod::lemma_fundamental_div_mod(d, 0x100_0000);
    vstd::arithmetic::div_mod::lemma_mod_bound(d, 0x100_0000);
    assert(dk * 0x100_0000 <= d);
    assert(q * by < 0x80_0000 * ax + by && q * by > 0x80_0000 * ax - 2 * by) by (nonlinear_arith)
        requires
            0x100_0000 * (a - r) <= 2 * q * d,
            2 * q * d <= 0x100_0000 * (a - r + 24),
            0 <= r <= 2 * dk + 24,
            dk * 0x100_0000 <= d,
            a == ax * 256,
            d == by * 256,
            0x80_0000 <= by,
    ;
    assert(q >= 0x20_0000) by (nonlinear_arith)
        requires
            q * by > 0x80_0000 * ax - 2 * by,
            0x80_0000 <= ax,
            0x80_0000 <= by < 0x100_0000,
    ;
}

/// The shifts that bring the top bit of a quotient in `[2^21, 2^24)` to bit
/// 23.
pub open spec fn normalize_shift(q: int) -> nat {
    if q >= 0x80_0000 {
        0
    } else if q >= 0x40_0000 {
        1
    } else {
        2
    }
}

/// `v` modulo `2^32`, for `v` above `-2^32`.
pub open spec fn wrap32(v: int) -> int {
    (v + 0x1_0000_0000int) % 0x1_0000_0000int
}

/// The stack after `j` rounds of the normalizing loop.
pub open spec fn normalize_state(q: int, e0: int, g: int, rest: Seq<int>, j: nat) -> Seq<int> {
    seq![q * pow2(j), wrap32(e0 - j), g] + rest
}

/// The loop of [`div_finite`] that doubles the quotient, and lowers the
/// exponent, until its top bit is bit 23.
#[verifier::spinoff_prover]
#[verifier::rlimit(60)]
proof fn lemma_normalize(q: int, e0: int, g: int, mem: spec_fn(int) -> int, rest: Seq<int>, fuel: nat)
    requires
        0x20_0000 <= q < 0x100_0000,
        is_u32(e0),
        fuel > 2,
    ensures
        step(div_finite()[19], mem, seq![q, e0, g] + rest, fuel) == Some(
            normalize_state(q, e0, g, rest, normalize_shift(q)),
        ),
{
    reveal(div_body);
    let w = div_finite()[19];
    let cond = w->While_condition;
    let body = w->While_body;
    assert(w == (Inst::While { condition: cond, body }));
    let states = |j: nat| normalize_state(q, e0, g, rest, j);
    let s = normalize_shift(q);
    assert(pow2(0) == 1 && pow2(1) == 2 && pow2(2) == 4) by {
        reveal_with_fuel(pow2, 3);
    }
    assert forall|j: nat| j < s implies #[trigger] run(cond, mem, states(j), fuel) == Some(
        seq![1int] + states(j),
    ) by {
        let v = q * pow2(j);
        assert(v < 0x80_0000 && 0 <= v);
        lemma_normalize_test(v, wrap32(e0 - j), g, mem, rest, fuel);
    }
    assert forall|j: nat| j < s implies #[trigger] run(body, mem, states(j), fuel) == Some(states(j + 1)) by {
        let v = q * pow2(j);
        assert(v < 0x80_0000 && 0 <= v);
        lemma_normalize_shift(v, wrap32(e0 - j), g, mem, rest, fuel);
        assert(2 * v == q * pow2(j + 1));
        assert((wrap32(e0 - j) - 1 + 0x1_0000_0000int) % 0x1_0000_0000int == wrap32(e0 - (j + 1)));
    }
    let v = q * pow2(s);
    assert(0x80_0000 <= v < 0x100_0000);
    lemma_normalize_test(v, wrap32(e0 - s), g, mem, rest, fuel);
    assert(states(0) =~= seq![q, e0, g] + rest);
    lemma_while(cond, body, mem, states, fuel, s, states(s));
}

/// The last step of [`div_finite`]: a zero where the exponent wrapped below
/// zero, an infinity where it is `0xff` or more, the float otherwise, with
/// the quotient's sign.
#[verifier::spinoff_prover]
#[verifier::rlimit(60)]
pub(crate) proof fn lemma_div_round(e: int, mm: int, g: int, mem: spec_fn(int) -> int, rest: Seq<int>, fuel: nat)
    requires
        is_u32(e),
        0 <= mm < 0x80_0000,
        g == 0 || g == 0x8000_0000,
    ensures
        step(div_finite()[23], mem, seq![e, mm, g] + rest, fuel) == Some(
            seq![
                if e >= 0x8000_0000 {
                    g
                } else if e >= 0xff {
                    g + 0x7f80_0000int
                } else {
                    g + (mm + e * 0x80_0000)
                },
            ] + rest,
        ),
{
    reveal(div_body);
    let i = div_finite()[23];
    let s = seq![e, mm, g] + rest;
    lemma_div_underflow_test(e, mm, g, mem, rest, fuel);
    assert((seq![flag(e >= 0x8000_0000)] + s).drop_first() =~= s);
    if e >= 0x8000_0000 {
        lemma_div_underflow_zero(e, mm, g, mem, rest, fuel);
    } else {
        let inner = i->If_else_[0];
        lemma_div_overflow_test(e, mm, g, mem, rest, fuel);
        assert((seq![flag(e >= 0xff)] + s).drop_first() =~= s);
        if e >= 0xff {
            lemma_div_overflow_infinity(e, mm, g, mem, rest, fuel);
        } else {
            lemma_div_assemble(e, mm, g, mem, rest, fuel);
        }
        lemma_run_one(inner, mem, s, fuel);
        assert(i->If_else_ =~= seq![inner]);
    }
}

/// What the code of [`div_finite`] leaves for two finite nonzero floats:
/// the quotient `q` of 24 rounds of long division of the significands,
/// shifted left until its top bit is bit 23, under the difference of the
/// exponents plus the bias, less the shifts; below zero that gives a zero
/// of the quotient's sign, at `0xff` or more an infinity.
pub open spec fn div_finite_result(x: u32, y: u32) -> u32 {
    let q = quotient_digits(significand(x) * 256, significand(y) * 256, 24).0;
    let s = normalize_shift(q);
    let m = q * pow2(s);
    let e = exponent(x) + EXP_BIAS - exponent(y) - s;
    let g = product_sign(x, y);
    if e < 0 {
        g
    } else if e >= EXP_MAX {
        g | INFINITY
    } else {
        (g + e * 0x80_0000 + (m - 0x80_0000)) as u32
    }
}

/// [`div_finite`] on the parts of two floats whose exponents are below
/// `0xff` leaves [`div_finite_result`], given fuel for the normalizing loop.
#[verifier::spinoff_prover]
#[verifier::rlimit(80)]
pub proof fn lemma_div_finite_run(x: u32, y: u32, mem: spec_fn(int) -> int, rest: Seq<int>, fuel: nat)
    requires
        exponent(x) < EXP_MAX,
        exponent(y) < EXP_MAX,
        fuel > 2,
    ensures
        ({
            let (ex, sx, mx) = parts(x);
            let (ey, sy, my) = parts(y);
            run(div_finite(), mem, seq![ex, ey, sx, sy, mx, my] + rest, fuel) == Some(
                seq![div_finite_result(x, y) as int] + rest,
            )
        }),
{
    let (ex, sx, mx) = parts(x);
    let (ey, sy, my) = parts(y);
    lemma_fields(x);
    lemma_fields(y);
    lemma_special_parts(x, y);
    let w = seq![ex, ey, sx, sy, mx, my] + rest;
    let g = product_sign(x, y) as int;
    let ax = significand(x);
    let by = significand(y);
    let a = ax * 256;
    let d = by * 256;
    let e0 = (ex + 127 - ey + 0x1_0000_0000int) % 0x1_0000_0000int;
    let tail = seq![e0, g] + rest;
    let f = div_finite();
    lemma_div_finite_loop();
    // the parts of the code, one after the other
    let p1 = f.take(15);
    let p2 = p1 + seq![f[15]];
    let p3 = p2 + f.subrange(16, 19);
    let p4 = p3 + seq![f[19]];
    let p5 = p4 + f.subrange(20, 23);
    assert(f =~= p5 + seq![f[23]]);
    lemma_div_prefix(ex, ey, sx, sy, mx, my, mem, rest, fuel);
    let s1 = seq![0, d, a] + tail;
    assert(seq![0int, (my + 0x80_0000int) * 256, (mx + 0x80_0000int) * 256, e0, g] + rest =~= s1);
    lemma_long_division(a, d, tail, mem, fuel);
    lemma_run_one(f[15], mem, s1, fuel);
    lemma_run_add(p1, seq![f[15]], mem, w, fuel);
    let (q, dk, r) = quotient_digits(a, d, 24);
    assert(division_state(a, d, tail, 24) =~= seq![q, dk, r, e0, g] + rest);
    lemma_div_drop_remainder(q, dk, r, e0, g, mem, rest, fuel);
    lemma_run_add(p2, f.subrange(16, 19), mem, w, fuel);
    lemma_quotient_bounds(ax, by);
    let s = normalize_shift(q);
    let e1 = wrap32(e0 - s);
    let m = q * pow2(s);
    lemma_normalize(q, e0, g, mem, rest, fuel);
    lemma_run_one(f[19], mem, seq![q, e0, g] + rest, fuel);
    lemma_run_add(p3, seq![f[19]], mem, w, fuel);
    assert(pow2(0) == 1 && pow2(1) == 2 && pow2(2) == 4) by {
        reveal_with_fuel(pow2, 3);
    }
    assert(0x80_0000 <= m < 0x100_0000);
    assert(0 <= e1 < 0x1_0000_0000int);
    lemma_div_mantissa(m, e1, g, mem, rest, fuel);
    lemma_run_add(p4, f.subrange(20, 23), mem, w, fuel);
    lemma_div_round(e1, m - 0x80_0000, g, mem, rest, fuel);
    lemma_run_one(f[23], mem, seq![e1, m - 0x80_0000, g] + rest, fuel);
    lemma_run_add(p5, seq![f[23]], mem, w, fuel);
    let e = ex + 127 - ey - s;
    assert(e >= 0 ==> e1 == e);
    assert(e < 0 ==> e1 == e + 0x1_0000_0000int);
    let v = g + e * 0x80_0000 + (m - 0x80_0000);
    assert(0 <= e < 0xff ==> 0 <= v < 0x1_0000_0000int && (v as u32) as int == v);
}

/// What the code of [`div_body`] leaves where both floats are finite and
/// nonzero: it passes the three tests and runs [`div_finite`].
#[verifier::spinoff_prover]
#[verifier::rlimit(60)]
proof fn lemma_div_tree_finite(x: u32, y: u32, mem: spec_fn(int) -> int, rest: Seq<int>, fuel: nat)
    requires
        exponent(x) < EXP_MAX,
        exponent(y) < EXP_MAX,
        !is_zero(x),
        !is_zero(y),
        fuel > 2,
    ensures
        ({
            let (ex, sx, mx) = parts(x);
            let (ey, sy, my) = parts(y);
            step(
                div_body()[0],
                mem,
                seq![
                    flag((ey == 255 && my != 0) || (ex == 255 && mx != 0)),
                    flag(ex == 255),
                    flag(ey == 255),
                    flag(ex == 0 && mx == 0),
                    flag(ey == 0 && my == 0),
                    ex,
                    ey,
                    sx,
                    sy,
                    mx,
                    my,
                ] + rest,
                fuel,
            ) == Some(seq![div_finite_result(x, y) as int] + rest)
        }),
{
    reveal(div_body);
    let (ex, sx, mx) = parts(x);
    let (ey, sy, my) = parts(y);
    lemma_fields(x);
    lemma_fields(y);
    let nanb = (ey == 255 && my != 0) || (ex == 255 && mx != 0);
    let aib = ex == 255;
    let bib = ey == 255;
    let azb = ex == 0 && mx == 0;
    let bzb = ey == 0 && my == 0;
    assert(!nanb && !aib && !bib && !azb && !bzb);
    let u = seq![flag(aib), flag(bib), flag(azb), flag(bzb), ex, ey, sx, sy, mx, my] + rest;
    let v = seq![flag(bib), flag(azb), ex, ey, sx, sy, mx, my] + rest;
    let w = seq![ex, ey, sx, sy, mx, my] + rest;
    let tree = div_body()[0];
    lemma_div_invalid(nanb, aib, bib, azb, bzb, ex, ey, sx, sy, mx, my, mem, rest, fuel);
    assert((seq![flag(false)] + u).drop_first() =~= u);
    let inf_if = tree->If_else_[0];
    lemma_run_one(inf_if, mem, u, fuel);
    let u1 = seq![flag(bzb), flag(aib), flag(bib), flag(azb), ex, ey, sx, sy, mx, my] + rest;
    assert(seq![u[3]] + u.take(3) + u.skip(4) =~= u1);
    lemma_flag_ops(aib, bzb);
    assert(u1.skip(2) =~= v);
    let c2 = seq![flag(aib || bzb)] + v;
    assert(inf_if->If_condition =~= seq![Inst::MovUp(3), Inst::U32CheckedOr]);
    lemma_run_from(inf_if->If_condition, 1, mem, u1, fuel);
    lemma_run_from(inf_if->If_condition, 0, mem, u, fuel);
    assert(inf_if->If_condition.skip(0) =~= inf_if->If_condition);
    assert(inf_if->If_condition.skip(2) =~= Seq::<Inst>::empty());
    assert(run(inf_if->If_condition, mem, u, fuel) == Some(c2));
    assert(c2.drop_first() =~= v);
    let zero_if = inf_if->If_else_[0];
    lemma_run_one(zero_if, mem, v, fuel);
    lemma_run_one(Inst::U32CheckedOr, mem, v, fuel);
    assert(zero_if->If_condition =~= seq![Inst::U32CheckedOr]);
    lemma_flag_ops(azb, bib);
    assert(v.skip(2) =~= w);
    assert((seq![flag(azb || bib)] + v.skip(2)).drop_first() =~= w);
    lemma_div_finite_run(x, y, mem, rest, fuel);
    assert(zero_if->If_else_ == div_finite());
}

/// The code that [`div`](crate::float32::div) emits, up to the store of its
/// result, gives [`div_finite_result`] where the floats in the cells `a` and
/// `b` are finite and nonzero, given fuel for its normalizing loop.
#[verifier::spinoff_prover]
#[verifier::rlimit(60)]
pub proof fn lemma_div_finite_values(a: u32, b: u32, mem: spec_fn(int) -> int, rest: Seq<int>, fuel: nat)
    requires
        a + WIDTH <= u32::MAX,
        b + WIDTH <= u32::MAX,
        is_u32(mem(a as int)),
        is_u32(mem(b as int)),
        ({
            let x = mem(a as int) as u32;
            let y = mem(b as int) as u32;
            !is_nan(x) && !is_nan(y) && !is_infinite(x) && !is_infinite(y) && !is_zero(x) && !is_zero(y)
        }),
        fuel > 2,
    ensures
        ({
            let x = mem(a as int) as u32;
            let y = mem(b as int) as u32;
            run(prepare_insts(a, b) + nan_inf_zero_insts() + div_body(), mem, rest, fuel) == Some(
                seq![div_finite_result(x, y) as int] + rest,
            )
        }),
{
    let x = mem(a as int) as u32;
    let y = mem(b as int) as u32;
    let (ex, sx, mx) = parts(x);
    let (ey, sy, my) = parts(y);
    lemma_fields(x);
    lemma_fields(y);
    lemma_prepare(a, b, mem, rest, fuel);
    lemma_classify(ex, ey, sx, sy, mx, my, mem, rest, fuel);
    let classified = seq![
        flag((ey == 255 && my != 0) || (ex == 255 && mx != 0)),
        flag(ex == 255),
        flag(ey == 255),
        flag(ex == 0 && mx == 0),
        flag(ey == 0 && my == 0),
        ex,
        ey,
        sx,
        sy,
        mx,
        my,
    ] + rest;
    reveal(div_body);
    assert(div_body() =~= seq![div_body()[0]]);
    lemma_div_tree_finite(x, y, mem, rest, fuel);
    lemma_run_one(div_body()[0], mem, classified, fuel);
    lemma_run_add(prepare_insts(a, b), nan_inf_zero_insts(), mem, rest, fuel);
    lemma_run_add(prepare_insts(a, b) + nan_inf_zero_insts(), div_body(), mem, rest, fuel);
}

/// For normal floats `x` and `y` whose quotient [`div_finite_result`] is a
/// normal float `r`, `r` is the exact quotient `x / y` up to less than two
/// units in its last place: it has the quotient's sign, and with `s` the
/// shifts of the normalizing loop (0, 1 or 2) its exponent is
/// `exponent(x) - exponent(y) + 127 - s` and
/// `2^(23 + s) * significand(x) - 2^(s + 1) * significand(y) <
/// significand(r) * significand(y) < 2^(23 + s) * significand(x) + 2^s *
/// significand(y)`. So `r` differs from `x / y` by less than `2^-21` of
/// `|x / y|`.
#[verifier::spinoff_prover]
#[verifier::rlimit(60)]
pub proof fn lemma_div_approximates(x: u32, y: u32, r: u32)
    requires
        1 <= exponent(x) < EXP_MAX,
        1 <= exponent(y) < EXP_MAX,
        div_finite_result(x, y) == r,
        1 <= exponent(r) < EXP_MAX,
    ensures
        sign_bits(r) == product_sign(x, y),
        ({
            let a = significand(x);
            let b = significand(y);
            let m = significand(r);
            let e = exponent(x) - exponent(y) + EXP_BIAS;
            ||| exponent(r) == e && 0x80_0000 * a - 2 * b < m * b < 0x80_0000 * a + b
            ||| exponent(r) == e - 1 && 0x100_0000 * a - 4 * b < m * b < 0x100_0000 * a + 2 * b
            ||| exponent(r) == e - 2 && 0x200_0000 * a - 8 * b < m * b < 0x200_0000 * a + 4 * b
        }),
{
    lemma_fields(x);
    lemma_fields(y);
    lemma_fields(r);
    lemma_special_parts(x, y);
    let a = significand(x);
    let b = significand(y);
    lemma_quotient_bounds(a, b);
    let q = quotient_digits(a * 256, b * 256, 24).0;
    let s = normalize_shift(q);
    assert(pow2(0) == 1 && pow2(1) == 2 && pow2(2) == 4) by {
        reveal_with_fuel(pow2, 3);
    }
    let m = q * pow2(s);
    assert(0x80_0000 <= m < 0x100_0000);
    let e = exponent(x) + EXP_BIAS - exponent(y) - s;
    let g = product_sign(x, y);
    assert(!(e < 0)) by {
        if e < 0 {
            assert(r == g);
            assert(exponent(g) == 0) by {
                assert(g == 0 || g == 0x8000_0000u32);
                assert((0u32 & 0x7f80_0000u32) >> 23u32 == 0u32 && (0x8000_0000u32 & 0x7f80_0000u32) >> 23u32
                    == 0u32) by (bit_vector);
            }
        }
    }
    assert(!(e >= EXP_MAX)) by {
        if e >= EXP_MAX {
            assert(r == g | INFINITY);
            assert(exponent(r) == EXP_MAX) by {
                assert(g == 0 || g == 0x8000_0000u32);
                assert(((0u32 | 0x7f80_0000u32) & 0x7f80_0000u32) >> 23u32 == 0xffu32 && ((0x8000_0000u32
                    | 0x7f80_0000u32) & 0x7f80_0000u32) >> 23u32 == 0xffu32) by (bit_vector);
            }
        }
    }
    let v = g + e * 0x80_0000 + (m - 0x80_0000);
    assert(0 <= v < 0x1_0000_0000int);
    assert(r as int == v);
    lemma_assembled_fields(r, g, e as u32, (m - 0x80_0000) as u32);
    assert(significand(r) == m);
    if s == 0 {
        assert(m == q);
    } else if s == 1 {
        assert(m * b == 2 * (q * b)) by (nonlinear_arith)
            requires
                m == q * 2,
        ;
    } else {
        assert(m * b == 4 * (q * b)) by (nonlinear_arith)
            requires
                m == q * 4,
        ;
    }
}

} // verus!
