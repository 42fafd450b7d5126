//! What the code of [`add`](crate::float32::add) computes where both
//! floats are finite and nonzero: the significand of the float with the
//! smaller exponent is shifted to the other's exponent, the two are added or
//! subtracted by their signs, and the result is brought back to 24 bits.

use vstd::prelude::*;

use crate::encoder::Inst;
use crate::float32::{
    EXP_MAX, INFINITY, WIDTH, add_body, div_body, exponent, is_infinite, is_nan, is_zero, lemma_add_invalid,
    lemma_classify, lemma_fields, lemma_prepare, lemma_recompose, lemma_run_one, magnitude, mantissa,
    nan_inf_zero_insts, negate_b_insts, parts, prepare_insts, sign_bits,
};
use crate::float32_product::{lemma_assembled_fields, significand};
use crate::float32_quotient::{div_finite, lemma_div_round, lemma_pow2_le, lemma_quotient_bits};
use crate::machine::{
    flag, is_u32, lemma_pow2_positive, lemma_run_add, lemma_run_from, lemma_while, pow2, run, step,
    u32_bound,
};

verus! {

/// The code of [`add_body`] for two finite nonzero floats, on `[a_exp,
/// b_exp, a_sign^, b_sign^, a_mant, b_mant]`.
pub open spec fn add_finite() -> Seq<Inst> {
    add_body()[0]->If_else_[0]->If_else_[0]->If_else_[0]->If_else_[0]->If_else_
}

/// The leading one of a significand set with `|`, and `0 | 1`.
proof fn lemma_sum_bits(m: u32)
    by (bit_vector)
    ensures
        m < 0x80_0000u32 ==> (m | 0x80_0000u32) == m + 0x80_0000u32,
        (0u32 | 1u32) == 1u32,
{
}

/// The test for a larger exponent in `b`.
#[verifier::spinoff_prover]
#[verifier::rlimit(60)]
proof fn lemma_order_test(ex: int, ey: int, sx: int, sy: int, mx: int, my: int, mem: spec_fn(int) -> int, rest: Seq<int>, fuel: nat)
    requires
        is_u32(ex),
        is_u32(ey),
    ensures
        run(add_finite()[0]->If_condition, mem, seq![ex, ey, sx, sy, mx, my] + rest, fuel) == Some(seq![flag(ey > ex)] + (seq![ex, ey, sx, sy, mx, my] + rest)),
{
    let is = add_finite()[0]->If_condition;
    let t0 = seq![ex, ey, sx, sy, mx, my] + rest;
    let t1 = seq![ey] + t0;
    let t2 = seq![ex] + t1;
    let t3 = seq![flag(ey > ex)] + t0;
    reveal(add_body);
    assert(u32_bound() == 0x1_0000_0000int);
    assert(t0[1] == ey);
    assert(t1[1] == ex);
    assert(t2.skip(2) =~= t0);
    assert(step(is[0], mem, t0, fuel) == Some(t1));
    assert(step(is[1], mem, t1, fuel) == Some(t2));
    assert(step(is[2], mem, t2, fuel) == Some(t3));
    lemma_run_from(is, 2, mem, t2, fuel);
    lemma_run_from(is, 1, mem, t1, fuel);
    lemma_run_from(is, 0, mem, t0, fuel);
    assert(is.skip(0) =~= is);
    assert(is.skip(3) =~= Seq::<Inst>::empty());
}

/// The exchange of the two floats' parts.
#[verifier::spinoff_prover]
#[verifier::rlimit(60)]
proof fn lemma_order_swap(ex: int, ey: int, sx: int, sy: int, mx: int, my: int, mem: spec_fn(int) -> int, rest: Seq<int>, fuel: nat)
    ensures
        run(add_finite()[0]->If_then, mem, seq![ex, ey, sx, sy, mx, my] + rest, fuel) == Some(seq![ey, ex, sy, sx, my, mx] + rest),
{
    let is = add_finite()[0]->If_then;
    let t0 = seq![ex, ey, sx, sy, mx, my] + rest;
    let t1 = seq![ey, sx, sy, mx, my, ex] + rest;
    let t2 = seq![sx, sy, mx, my, ey, ex] + rest;
    let t3 = seq![sy, mx, my, ey, ex, sx] + rest;
    let t4 = seq![mx, my, ey, ex, sy, sx] + rest;
    let t5 = seq![my, ey, ex, sy, sx, mx] + rest;
    let t6 = seq![ey, ex, sy, sx, my, mx] + rest;
    reveal(add_body);
    assert(t0.subrange(1, 6) + seq![t0[0]] + t0.skip(6) =~= t1);
    assert(t1.subrange(1, 5) + seq![t1[0]] + t1.skip(5) =~= t2);
    assert(t2.subrange(1, 6) + seq![t2[0]] + t2.skip(6) =~= t3);
    assert(t3.subrange(1, 5) + seq![t3[0]] + t3.skip(5) =~= t4);
    assert(t4.subrange(1, 6) + seq![t4[0]] + t4.skip(6) =~= t5);
    assert(t5.subrange(1, 5) + seq![t5[0]] + t5.skip(5) =~= t6);
    assert(step(is[0], mem, t0, fuel) == Some(t1));
    assert(step(is[1], mem, t1, fuel) == Some(t2));
    assert(step(is[2], mem, t2, fuel) == Some(t3));
    assert(step(is[3], mem, t3, fuel) == Some(t4));
    assert(step(is[4], mem, t4, fuel) == Some(t5));
    assert(step(is[5], mem, t5, fuel) == Some(t6));
    lemma_run_from(is, 5, mem, t5, fuel);
    lemma_run_from(is, 4, mem, t4, fuel);
    lemma_run_from(is, 3, mem, t3, fuel);
    lemma_run_from(is, 2, mem, t2, fuel);
    lemma_run_from(is, 1, mem, t1, fuel);
    lemma_run_from(is, 0, mem, t0, fuel);
    assert(is.skip(0) =~= is);
    assert(is.skip(6) =~= Seq::<Inst>::empty());
}

/// The exponent difference and the test for a gap of more than 24.
#[verifier::spinoff_prover]
#[verifier::rlimit(60)]
proof fn lemma_gap_test(ea: int, eb: int, sa: int, sb: int, ma: int, mb: int, mem: spec_fn(int) -> int, rest: Seq<int>, fuel: nat)
    requires
        is_u32(ea),
        is_u32(eb),
        eb <= ea,
    ensures
        run(add_finite()[1]->If_condition, mem, seq![ea, eb, sa, sb, ma, mb] + rest, fuel) == Some(seq![flag(ea - eb > 24)] + (seq![ea - eb, ea, sa, sb, ma, mb] + rest)),
{
    let is = add_finite()[1]->If_condition;
    let t0 = seq![ea, eb, sa, sb, ma, mb] + rest;
    let t1 = seq![ea] + t0;
    let t2 = seq![eb, ea, ea, sa, sb, ma, mb] + rest;
    let t3 = seq![ea - eb, ea, sa, sb, ma, mb] + rest;
    let t4 = seq![ea - eb] + t3;
    let t5 = seq![24int] + t4;
    let t6 = seq![flag(ea - eb > 24)] + t3;
    reveal(add_body);
    assert(u32_bound() == 0x1_0000_0000int);
    assert(seq![t1[2]] + t1.take(2) + t1.skip(3) =~= t2);
    assert(t2.skip(2) =~= seq![ea, sa, sb, ma, mb] + rest);
    assert(t5.skip(2) =~= t3);
    assert(step(is[0], mem, t0, fuel) == Some(t1));
    assert(step(is[1], mem, t1, fuel) == Some(t2));
    assert(step(is[2], mem, t2, fuel) == Some(t3));
    assert(step(is[3], mem, t3, fuel) == Some(t4));
    assert(step(is[4], mem, t4, fuel) == Some(t5));
    assert(step(is[5], mem, t5, fuel) == Some(t6));
    lemma_run_from(is, 5, mem, t5, fuel);
    lemma_run_from(is, 4, mem, t4, fuel);
    lemma_run_from(is, 3, mem, t3, fuel);
    lemma_run_from(is, 2, mem, t2, fuel);
    lemma_run_from(is, 1, mem, t1, fuel);
    lemma_run_from(is, 0, mem, t0, fuel);
    assert(is.skip(0) =~= is);
    assert(is.skip(6) =~= Seq::<Inst>::empty());
}

/// A gap of more than 24: the operand with the larger exponent, put back together.
#[verifier::spinoff_prover]
#[verifier::rlimit(60)]
proof fn lemma_far_operand(d: int, ea: int, sa: int, sb: int, ma: int, mb: int, mem: spec_fn(int) -> int, rest: Seq<int>, fuel: nat)
    requires
        0 <= ea < 0xff,
        is_u32(sa),
        is_u32(ma),
    ensures
        run(add_finite()[1]->If_then, mem, seq![d, ea, sa, sb, ma, mb] + rest, fuel) == Some(seq![((ma as u32) | (((sa as u32) | ((ea * 0x80_0000) as u32)) as int as u32)) as int] + rest),
{
    let is = add_finite()[1]->If_then;
    let t0 = seq![d, ea, sa, sb, ma, mb] + rest;
    let t1 = seq![ea, sa, sb, ma, mb] + rest;
    let t2 = seq![ea * 0x80_0000, sa, sb, ma, mb] + rest;
    let t3 = seq![((sa as u32) | ((ea * 0x80_0000) as u32)) as int, sb, ma, mb] + rest;
    let t4 = seq![sb, ((sa as u32) | ((ea * 0x80_0000) as u32)) as int, ma, mb] + rest;
    let t5 = seq![((sa as u32) | ((ea * 0x80_0000) as u32)) as int, ma, mb] + rest;
    let t6 = seq![((ma as u32) | (((sa as u32) | ((ea * 0x80_0000) as u32)) as int as u32)) as int, mb] + rest;
    let t7 = seq![mb, ((ma as u32) | (((sa as u32) | ((ea * 0x80_0000) as u32)) as int as u32)) as int] + rest;
    let t8 = seq![((ma as u32) | (((sa as u32) | ((ea * 0x80_0000) as u32)) as int as u32)) as int] + rest;
    reveal(add_body);
    assert(u32_bound() == 0x1_0000_0000int);
    assert(pow2(23) == 0x80_0000) by { reveal_with_fuel(pow2, 24); }
    assert(t0.drop_first() =~= t1);
    assert(t1.skip(1) =~= t2.skip(1));
    assert(t2.skip(2) =~= seq![sb, ma, mb] + rest);
    assert(t3.skip(2) =~= seq![ma, mb] + rest);
    assert(t4.drop_first() =~= t5);
    assert(t5.skip(2) =~= seq![mb] + rest);
    assert(t6.skip(2) =~= rest);
    assert(t7.drop_first() =~= t8);
    assert(step(is[0], mem, t0, fuel) == Some(t1));
    assert(step(is[1], mem, t1, fuel) == Some(t2));
    assert(step(is[2], mem, t2, fuel) == Some(t3));
    assert(step(is[3], mem, t3, fuel) == Some(t4));
    assert(step(is[4], mem, t4, fuel) == Some(t5));
    assert(step(is[5], mem, t5, fuel) == Some(t6));
    assert(step(is[6], mem, t6, fuel) == Some(t7));
    assert(step(is[7], mem, t7, fuel) == Some(t8));
    lemma_run_from(is, 7, mem, t7, fuel);
    lemma_run_from(is, 6, mem, t6, fuel);
    lemma_run_from(is, 5, mem, t5, fuel);
    lemma_run_from(is, 4, mem, t4, fuel);
    lemma_run_from(is, 3, mem, t3, fuel);
    lemma_run_from(is, 2, mem, t2, fuel);
    lemma_run_from(is, 1, mem, t1, fuel);
    lemma_run_from(is, 0, mem, t0, fuel);
    assert(is.skip(0) =~= is);
    assert(is.skip(8) =~= Seq::<Inst>::empty());
}

/// The significand of the operand with the smaller exponent, shifted right by the gap.
#[verifier::spinoff_prover]
#[verifier::rlimit(60)]
proof fn lemma_align(d: int, ea: int, sa: int, sb: int, ma: int, mb: int, mem: spec_fn(int) -> int, rest: Seq<int>, fuel: nat)
    requires
        0 <= d <= 24,
        0 <= mb < 0x80_0000,
    ensures
        run(add_finite()[1]->If_else_.take(7), mem, seq![d, ea, sa, sb, ma, mb] + rest, fuel) == Some(seq![(mb + 0x80_0000) / pow2(d as nat), sa, sb, ma, ea] + rest),
{
    let is = add_finite()[1]->If_else_.take(7);
    let t0 = seq![d, ea, sa, sb, ma, mb] + rest;
    let t1 = seq![ea, d, sa, sb, ma, mb] + rest;
    let t2 = seq![d, sa, sb, ma, mb, ea] + rest;
    let t3 = seq![mb, d, sa, sb, ma, ea] + rest;
    let t4 = seq![0x80_0000int] + t3;
    let t5 = seq![mb + 0x80_0000, d, sa, sb, ma, ea] + rest;
    let t6 = seq![d, mb + 0x80_0000, sa, sb, ma, ea] + rest;
    let t7 = seq![(mb + 0x80_0000) / pow2(d as nat), sa, sb, ma, ea] + rest;
    reveal(add_body);
    assert(u32_bound() == 0x1_0000_0000int);
    lemma_sum_bits(mb as u32);
    assert((mb as u32) as int == mb);
    assert(t0.skip(2) =~= t1.skip(2));
    assert(t1.subrange(1, 6) + seq![t1[0]] + t1.skip(6) =~= t2);
    assert(seq![t2[4]] + t2.take(4) + t2.skip(5) =~= t3);
    assert(t4.skip(2) =~= t5.skip(1));
    assert(t5.skip(2) =~= t6.skip(2));
    assert(t6.skip(2) =~= t7.skip(1));
    assert(step(is[0], mem, t0, fuel) == Some(t1));
    assert(step(is[1], mem, t1, fuel) == Some(t2));
    assert(step(is[2], mem, t2, fuel) == Some(t3));
    assert(step(is[3], mem, t3, fuel) == Some(t4));
    assert(step(is[4], mem, t4, fuel) == Some(t5));
    assert(step(is[5], mem, t5, fuel) == Some(t6));
    assert(step(is[6], mem, t6, fuel) == Some(t7));
    lemma_run_from(is, 6, mem, t6, fuel);
    lemma_run_from(is, 5, mem, t5, fuel);
    lemma_run_from(is, 4, mem, t4, fuel);
    lemma_run_from(is, 3, mem, t3, fuel);
    lemma_run_from(is, 2, mem, t2, fuel);
    lemma_run_from(is, 1, mem, t1, fuel);
    lemma_run_from(is, 0, mem, t0, fuel);
    assert(is.skip(0) =~= is);
    assert(is.skip(7) =~= Seq::<Inst>::empty());
}

/// The test for a shifted significand of 0.
#[verifier::spinoff_prover]
#[verifier::rlimit(60)]
proof fn lemma_sticky_test(v: int, sa: int, sb: int, ma: int, ea: int, mem: spec_fn(int) -> int, rest: Seq<int>, fuel: nat)
    requires
        is_u32(v),
    ensures
        run(add_finite()[1]->If_else_[7]->If_condition, mem, seq![v, sa, sb, ma, ea] + rest, fuel) == Some(seq![flag(v == 0)] + (seq![v, sa, sb, ma, ea] + rest)),
{
    let is = add_finite()[1]->If_else_[7]->If_condition;
    let t0 = seq![v, sa, sb, ma, ea] + rest;
    let t1 = seq![v] + t0;
    let t2 = seq![0int] + t1;
    let t3 = seq![flag(v == 0)] + t0;
    reveal(add_body);
    assert(u32_bound() == 0x1_0000_0000int);
    assert(t2.skip(2) =~= t0);
    assert(step(is[0], mem, t0, fuel) == Some(t1));
    assert(step(is[1], mem, t1, fuel) == Some(t2));
    assert(step(is[2], mem, t2, fuel) == Some(t3));
    lemma_run_from(is, 2, mem, t2, fuel);
    lemma_run_from(is, 1, mem, t1, fuel);
    lemma_run_from(is, 0, mem, t0, fuel);
    assert(is.skip(0) =~= is);
    assert(is.skip(3) =~= Seq::<Inst>::empty());
}

/// A shifted significand of 0 becomes 1.
#[verifier::spinoff_prover]
#[verifier::rlimit(60)]
proof fn lemma_sticky_one(sa: int, sb: int, ma: int, ea: int, mem: spec_fn(int) -> int, rest: Seq<int>, fuel: nat)
    ensures
        run(add_finite()[1]->If_else_[7]->If_then, mem, seq![0int, sa, sb, ma, ea] + rest, fuel) == Some(seq![1int, sa, sb, ma, ea] + rest),
{
    let is = add_finite()[1]->If_else_[7]->If_then;
    let t0 = seq![0int, sa, sb, ma, ea] + rest;
    let t1 = seq![1int] + t0;
    let t2 = seq![1int, sa, sb, ma, ea] + rest;
    reveal(add_body);
    assert(u32_bound() == 0x1_0000_0000int);
    lemma_sum_bits(0);
    assert(t1.skip(2) =~= t2.skip(1));
    assert(step(is[0], mem, t0, fuel) == Some(t1));
    assert(step(is[1], mem, t1, fuel) == Some(t2));
    lemma_run_from(is, 1, mem, t1, fuel);
    lemma_run_from(is, 0, mem, t0, fuel);
    assert(is.skip(0) =~= is);
    assert(is.skip(2) =~= Seq::<Inst>::empty());
}

/// The significand of the operand with the larger exponent, under the two signs.
#[verifier::spinoff_prover]
#[verifier::rlimit(60)]
proof fn lemma_line_up(b: int, sa: int, sb: int, ma: int, ea: int, mem: spec_fn(int) -> int, rest: Seq<int>, fuel: nat)
    requires
        0 <= ma < 0x80_0000,
    ensures
        run(add_finite()[1]->If_else_.subrange(8, 13), mem, seq![b, sa, sb, ma, ea] + rest, fuel) == Some(seq![sa, sb, ma + 0x80_0000, b, ea] + rest),
{
    let is = add_finite()[1]->If_else_.subrange(8, 13);
    let t0 = seq![b, sa, sb, ma, ea] + rest;
    let t1 = seq![sa, sb, ma, b, ea] + rest;
    let t2 = seq![ma, sa, sb, b, ea] + rest;
    let t3 = seq![0x80_0000int] + t2;
    let t4 = seq![ma + 0x80_0000, sa, sb, b, ea] + rest;
    let t5 = seq![sa, sb, ma + 0x80_0000, b, ea] + rest;
    reveal(add_body);
    assert(u32_bound() == 0x1_0000_0000int);
    lemma_sum_bits(ma as u32);
    assert((ma as u32) as int == ma);
    assert(t0.subrange(1, 4) + seq![t0[0]] + t0.skip(4) =~= t1);
    assert(seq![t1[2]] + t1.take(2) + t1.skip(3) =~= t2);
    assert(t3.skip(2) =~= t4.skip(1));
    assert(t4.subrange(1, 3) + seq![t4[0]] + t4.skip(3) =~= t5);
    assert(step(is[0], mem, t0, fuel) == Some(t1));
    assert(step(is[1], mem, t1, fuel) == Some(t2));
    assert(step(is[2], mem, t2, fuel) == Some(t3));
    assert(step(is[3], mem, t3, fuel) == Some(t4));
    assert(step(is[4], mem, t4, fuel) == Some(t5));
    lemma_run_from(is, 4, mem, t4, fuel);
    lemma_run_from(is, 3, mem, t3, fuel);
    lemma_run_from(is, 2, mem, t2, fuel);
    lemma_run_from(is, 1, mem, t1, fuel);
    lemma_run_from(is, 0, mem, t0, fuel);
    assert(is.skip(0) =~= is);
    assert(is.skip(5) =~= Seq::<Inst>::empty());
}

/// The test for equal signs.
#[verifier::spinoff_prover]
#[verifier::rlimit(60)]
proof fn lemma_signs_test(sa: int, sb: int, a: int, b: int, ea: int, mem: spec_fn(int) -> int, rest: Seq<int>, fuel: nat)
    requires
        is_u32(sa),
        is_u32(sb),
    ensures
        run(add_finite()[1]->If_else_[13]->If_condition, mem, seq![sa, sb, a, b, ea] + rest, fuel) == Some(seq![flag(sb == sa)] + (seq![sa, sb, a, b, ea] + rest)),
{
    let is = add_finite()[1]->If_else_[13]->If_condition;
    let t0 = seq![sa, sb, a, b, ea] + rest;
    let t1 = seq![sb] + t0;
    let t2 = seq![sa] + t1;
    let t3 = seq![flag(sb == sa)] + t0;
    reveal(add_body);
    assert(u32_bound() == 0x1_0000_0000int);
    assert(t0[1] == sb);
    assert(t1[1] == sa);
    assert(t2.skip(2) =~= t0);
    assert(step(is[0], mem, t0, fuel) == Some(t1));
    assert(step(is[1], mem, t1, fuel) == Some(t2));
    assert(step(is[2], mem, t2, fuel) == Some(t3));
    lemma_run_from(is, 2, mem, t2, fuel);
    lemma_run_from(is, 1, mem, t1, fuel);
    lemma_run_from(is, 0, mem, t0, fuel);
    assert(is.skip(0) =~= is);
    assert(is.skip(3) =~= Seq::<Inst>::empty());
}

/// Equal signs: the significands are added.
#[verifier::spinoff_prover]
#[verifier::rlimit(60)]
proof fn lemma_signs_same(sa: int, sb: int, a: int, b: int, ea: int, mem: spec_fn(int) -> int, rest: Seq<int>, fuel: nat)
    requires
        is_u32(a),
        is_u32(b),
        is_u32(a + b),
    ensures
        run(add_finite()[1]->If_else_[13]->If_then, mem, seq![sa, sb, a, b, ea] + rest, fuel) == Some(seq![b + a, sa, ea] + rest),
{
    let is = add_finite()[1]->If_else_[13]->If_then;
    let t0 = seq![sa, sb, a, b, ea] + rest;
    let t1 = seq![sb, a, b, sa, ea] + rest;
    let t2 = seq![a, b, sa, ea] + rest;
    let t3 = seq![b + a, sa, ea] + rest;
    reveal(add_body);
    assert(u32_bound() == 0x1_0000_0000int);
    assert(t0.subrange(1, 4) + seq![t0[0]] + t0.skip(4) =~= t1);
    assert(t1.drop_first() =~= t2);
    assert(t2.skip(2) =~= seq![sa, ea] + rest);
    assert(step(is[0], mem, t0, fuel) == Some(t1));
    assert(step(is[1], mem, t1, fuel) == Some(t2));
    assert(step(is[2], mem, t2, fuel) == Some(t3));
    lemma_run_from(is, 2, mem, t2, fuel);
    lemma_run_from(is, 1, mem, t1, fuel);
    lemma_run_from(is, 0, mem, t0, fuel);
    assert(is.skip(0) =~= is);
    assert(is.skip(3) =~= Seq::<Inst>::empty());
}

/// Different signs: the test for the smaller significand in `b`.
#[verifier::spinoff_prover]
#[verifier::rlimit(60)]
proof fn lemma_signs_order_test(sa: int, sb: int, a: int, b: int, ea: int, mem: spec_fn(int) -> int, rest: Seq<int>, fuel: nat)
    requires
        is_u32(a),
        is_u32(b),
    ensures
        run(add_finite()[1]->If_else_[13]->If_else_[0]->If_condition, mem, seq![sa, sb, a, b, ea] + rest, fuel) == Some(seq![flag(b <= a)] + (seq![sa, sb, a, b, ea] + rest)),
{
    let is = add_finite()[1]->If_else_[13]->If_else_[0]->If_condition;
    let t0 = seq![sa, sb, a, b, ea] + rest;
    let t1 = seq![b] + t0;
    let t2 = seq![a] + t1;
    let t3 = seq![flag(b <= a)] + t0;
    reveal(add_body);
    assert(u32_bound() == 0x1_0000_0000int);
    assert(t0[3] == b);
    assert(t1[3] == a);
    assert(t2.skip(2) =~= t0);
    assert(step(is[0], mem, t0, fuel) == Some(t1));
    assert(step(is[1], mem, t1, fuel) == Some(t2));
    assert(step(is[2], mem, t2, fuel) == Some(t3));
    lemma_run_from(is, 2, mem, t2, fuel);
    lemma_run_from(is, 1, mem, t1, fuel);
    lemma_run_from(is, 0, mem, t0, fuel);
    assert(is.skip(0) =~= is);
    assert(is.skip(3) =~= Seq::<Inst>::empty());
}

/// Different signs, `a` not smaller: the difference with the sign of `a`.
#[verifier::spinoff_prover]
#[verifier::rlimit(60)]
proof fn lemma_signs_a_larger(sa: int, sb: int, a: int, b: int, ea: int, mem: spec_fn(int) -> int, rest: Seq<int>, fuel: nat)
    requires
        is_u32(a),
        is_u32(b),
        b <= a,
    ensures
        run(add_finite()[1]->If_else_[13]->If_else_[0]->If_then, mem, seq![sa, sb, a, b, ea] + rest, fuel) == Some(seq![a - b, sa, ea] + rest),
{
    let is = add_finite()[1]->If_else_[13]->If_else_[0]->If_then;
    let t0 = seq![sa, sb, a, b, ea] + rest;
    let t1 = seq![sb, a, b, sa, ea] + rest;
    let t2 = seq![a, b, sa, ea] + rest;
    let t3 = seq![b, a, sa, ea] + rest;
    let t4 = seq![a - b, sa, ea] + rest;
    reveal(add_body);
    assert(u32_bound() == 0x1_0000_0000int);
    assert(t0.subrange(1, 4) + seq![t0[0]] + t0.skip(4) =~= t1);
    assert(t1.drop_first() =~= t2);
    assert(t2.skip(2) =~= t3.skip(2));
    assert(t3.skip(2) =~= seq![sa, ea] + rest);
    assert(step(is[0], mem, t0, fuel) == Some(t1));
    assert(step(is[1], mem, t1, fuel) == Some(t2));
    assert(step(is[2], mem, t2, fuel) == Some(t3));
    assert(step(is[3], mem, t3, fuel) == Some(t4));
    lemma_run_from(is, 3, mem, t3, fuel);
    lemma_run_from(is, 2, mem, t2, fuel);
    lemma_run_from(is, 1, mem, t1, fuel);
    lemma_run_from(is, 0, mem, t0, fuel);
    assert(is.skip(0) =~= is);
    assert(is.skip(4) =~= Seq::<Inst>::empty());
}

/// Different signs, `b` larger: the difference with the sign of `b`.
#[verifier::spinoff_prover]
#[verifier::rlimit(60)]
proof fn lemma_signs_b_larger(sa: int, sb: int, a: int, b: int, ea: int, mem: spec_fn(int) -> int, rest: Seq<int>, fuel: nat)
    requires
        is_u32(a),
        is_u32(b),
        a < b,
    ensures
        run(add_finite()[1]->If_else_[13]->If_else_[0]->If_else_, mem, seq![sa, sb, a, b, ea] + rest, fuel) == Some(seq![b - a, sb, ea] + rest),
{
    let is = add_finite()[1]->If_else_[13]->If_else_[0]->If_else_;
    let t0 = seq![sa, sb, a, b, ea] + rest;
    let t1 = seq![sb, a, b, ea] + rest;
    let t2 = seq![a, b, sb, ea] + rest;
    let t3 = seq![b - a, sb, ea] + rest;
    reveal(add_body);
    assert(u32_bound() == 0x1_0000_0000int);
    assert(t0.drop_first() =~= t1);
    assert(t1.subrange(1, 3) + seq![t1[0]] + t1.skip(3) =~= t2);
    assert(t2.skip(2) =~= seq![sb, ea] + rest);
    assert(step(is[0], mem, t0, fuel) == Some(t1));
    assert(step(is[1], mem, t1, fuel) == Some(t2));
    assert(step(is[2], mem, t2, fuel) == Some(t3));
    lemma_run_from(is, 2, mem, t2, fuel);
    lemma_run_from(is, 1, mem, t1, fuel);
    lemma_run_from(is, 0, mem, t0, fuel);
    assert(is.skip(0) =~= is);
    assert(is.skip(3) =~= Seq::<Inst>::empty());
}

/// The test for a significand sum of 0.
#[verifier::spinoff_prover]
#[verifier::rlimit(60)]
proof fn lemma_zero_test(m: int, s: int, ea: int, mem: spec_fn(int) -> int, rest: Seq<int>, fuel: nat)
    requires
        is_u32(m),
    ensures
        run(add_finite()[1]->If_else_[14]->If_condition, mem, seq![m, s, ea] + rest, fuel) == Some(seq![flag(m == 0)] + (seq![m, s, ea] + rest)),
{
    let is = add_finite()[1]->If_else_[14]->If_condition;
    let t0 = seq![m, s, ea] + rest;
    let t1 = seq![m] + t0;
    let t2 = seq![0int] + t1;
    let t3 = seq![flag(m == 0)] + t0;
    reveal(add_body);
    assert(u32_bound() == 0x1_0000_0000int);
    assert(t2.skip(2) =~= t0);
    assert(step(is[0], mem, t0, fuel) == Some(t1));
    assert(step(is[1], mem, t1, fuel) == Some(t2));
    assert(step(is[2], mem, t2, fuel) == Some(t3));
    lemma_run_from(is, 2, mem, t2, fuel);
    lemma_run_from(is, 1, mem, t1, fuel);
    lemma_run_from(is, 0, mem, t0, fuel);
    assert(is.skip(0) =~= is);
    assert(is.skip(3) =~= Seq::<Inst>::empty());
}

/// A significand sum of 0 gives the zero `+0`.
#[verifier::spinoff_prover]
#[verifier::rlimit(60)]
proof fn lemma_zero_sum(m: int, s: int, ea: int, mem: spec_fn(int) -> int, rest: Seq<int>, fuel: nat)
    ensures
        run(add_finite()[1]->If_else_[14]->If_then, mem, seq![m, s, ea] + rest, fuel) == Some(seq![0int] + rest),
{
    let is = add_finite()[1]->If_else_[14]->If_then;
    let t0 = seq![m, s, ea] + rest;
    let t1 = seq![s, ea] + rest;
    let t2 = seq![ea] + rest;
    let t3 = rest;
    let t4 = seq![0int] + rest;
    reveal(add_body);
    assert(t0.drop_first() =~= t1);
    assert(t1.drop_first() =~= t2);
    assert(t2.drop_first() =~= t3);
    assert(step(is[0], mem, t0, fuel) == Some(t1));
    assert(step(is[1], mem, t1, fuel) == Some(t2));
    assert(step(is[2], mem, t2, fuel) == Some(t3));
    assert(step(is[3], mem, t3, fuel) == Some(t4));
    lemma_run_from(is, 3, mem, t3, fuel);
    lemma_run_from(is, 2, mem, t2, fuel);
    lemma_run_from(is, 1, mem, t1, fuel);
    lemma_run_from(is, 0, mem, t0, fuel);
    assert(is.skip(0) =~= is);
    assert(is.skip(4) =~= Seq::<Inst>::empty());
}

/// The start of the count of the sum's leading zeros.
#[verifier::spinoff_prover]
#[verifier::rlimit(60)]
proof fn lemma_count_start(m: int, s: int, ea: int, mem: spec_fn(int) -> int, rest: Seq<int>, fuel: nat)
    ensures
        run(add_finite()[1]->If_else_[14]->If_else_.take(2), mem, seq![m, s, ea] + rest, fuel) == Some(seq![m, 32int, m, s, ea] + rest),
{
    let is = add_finite()[1]->If_else_[14]->If_else_.take(2);
    let t0 = seq![m, s, ea] + rest;
    let t1 = seq![32int] + t0;
    let t2 = seq![m, 32int, m, s, ea] + rest;
    reveal(add_body);
    assert(t1[1] == m);
    assert(step(is[0], mem, t0, fuel) == Some(t1));
    assert(step(is[1], mem, t1, fuel) == Some(t2));
    lemma_run_from(is, 1, mem, t1, fuel);
    lemma_run_from(is, 0, mem, t0, fuel);
    assert(is.skip(0) =~= is);
    assert(is.skip(2) =~= Seq::<Inst>::empty());
}

/// The test of the loop that counts the sum's bits.
#[verifier::spinoff_prover]
#[verifier::rlimit(60)]
proof fn lemma_count_test(v: int, c: int, m: int, s: int, ea: int, mem: spec_fn(int) -> int, rest: Seq<int>, fuel: nat)
    requires
        is_u32(v),
    ensures
        run(add_finite()[1]->If_else_[14]->If_else_[2]->While_condition, mem, seq![v, c, m, s, ea] + rest, fuel) == Some(seq![flag(v != 0)] + (seq![v, c, m, s, ea] + rest)),
{
    let is = add_finite()[1]->If_else_[14]->If_else_[2]->While_condition;
    let t0 = seq![v, c, m, s, ea] + rest;
    let t1 = seq![v] + t0;
    let t2 = seq![0int] + t1;
    let t3 = seq![flag(v != 0)] + t0;
    reveal(add_body);
    assert(u32_bound() == 0x1_0000_0000int);
    assert(t2.skip(2) =~= t0);
    assert(step(is[0], mem, t0, fuel) == Some(t1));
    assert(step(is[1], mem, t1, fuel) == Some(t2));
    assert(step(is[2], mem, t2, fuel) == Some(t3));
    lemma_run_from(is, 2, mem, t2, fuel);
    lemma_run_from(is, 1, mem, t1, fuel);
    lemma_run_from(is, 0, mem, t0, fuel);
    assert(is.skip(0) =~= is);
    assert(is.skip(3) =~= Seq::<Inst>::empty());
}

/// A round of the loop that counts the sum's bits: the value halves and the count drops by one.
#[verifier::spinoff_prover]
#[verifier::rlimit(60)]
proof fn lemma_count_round(v: int, c: int, m: int, s: int, ea: int, mem: spec_fn(int) -> int, rest: Seq<int>, fuel: nat)
    requires
        is_u32(v),
        1 <= c < 0x1_0000_0000,
    ensures
        run(add_finite()[1]->If_else_[14]->If_else_[2]->While_body, mem, seq![v, c, m, s, ea] + rest, fuel) == Some(seq![v / 2, c - 1, m, s, ea] + rest),
{
    let is = add_finite()[1]->If_else_[14]->If_else_[2]->While_body;
    let t0 = seq![v, c, m, s, ea] + rest;
    let t1 = seq![v / 2, c, m, s, ea] + rest;
    let t2 = seq![c, v / 2, m, s, ea] + rest;
    let t3 = seq![1int] + t2;
    let t4 = seq![c - 1, v / 2, m, s, ea] + rest;
    let t5 = seq![v / 2, c - 1, m, s, ea] + rest;
    reveal(add_body);
    assert(u32_bound() == 0x1_0000_0000int);
    assert(pow2(1) == 2) by { reveal_with_fuel(pow2, 2); }
    assert(t0.skip(1) =~= t1.skip(1));
    assert(t1.skip(2) =~= t2.skip(2));
    assert(t3.skip(2) =~= t4.skip(1));
    assert(t4.skip(2) =~= t5.skip(2));
    assert(step(is[0], mem, t0, fuel) == Some(t1));
    assert(step(is[1], mem, t1, fuel) == Some(t2));
    assert(step(is[2], mem, t2, fuel) == Some(t3));
    assert(step(is[3], mem, t3, fuel) == Some(t4));
    assert(step(is[4], mem, t4, fuel) == Some(t5));
    lemma_run_from(is, 4, mem, t4, fuel);
    lemma_run_from(is, 3, mem, t3, fuel);
    lemma_run_from(is, 2, mem, t2, fuel);
    lemma_run_from(is, 1, mem, t1, fuel);
    lemma_run_from(is, 0, mem, t0, fuel);
    assert(is.skip(0) =~= is);
    assert(is.skip(5) =~= Seq::<Inst>::empty());
}

/// The test for a sum of 24 bits or more.
#[verifier::spinoff_prover]
#[verifier::rlimit(60)]
proof fn lemma_shift_test(c: int, m: int, s: int, ea: int, mem: spec_fn(int) -> int, rest: Seq<int>, fuel: nat)
    requires
        is_u32(c),
    ensures
        run(add_finite()[1]->If_else_[14]->If_else_[4]->If_condition, mem, seq![c, m, s, ea] + rest, fuel) == Some(seq![flag(c <= 8)] + (seq![c, m, s, ea] + rest)),
{
    let is = add_finite()[1]->If_else_[14]->If_else_[4]->If_condition;
    let t0 = seq![c, m, s, ea] + rest;
    let t1 = seq![c] + t0;
    let t2 = seq![8int] + t1;
    let t3 = seq![flag(c <= 8)] + t0;
    reveal(add_body);
    assert(u32_bound() == 0x1_0000_0000int);
    assert(t2.skip(2) =~= t0);
    assert(step(is[0], mem, t0, fuel) == Some(t1));
    assert(step(is[1], mem, t1, fuel) == Some(t2));
    assert(step(is[2], mem, t2, fuel) == Some(t3));
    lemma_run_from(is, 2, mem, t2, fuel);
    lemma_run_from(is, 1, mem, t1, fuel);
    lemma_run_from(is, 0, mem, t0, fuel);
    assert(is.skip(0) =~= is);
    assert(is.skip(3) =~= Seq::<Inst>::empty());
}

/// A sum of 24 bits or more: shifted right to 24 bits, the exponent raised by the shift.
#[verifier::spinoff_prover]
#[verifier::rlimit(60)]
proof fn lemma_shift_down(c: int, m: int, s: int, ea: int, mem: spec_fn(int) -> int, rest: Seq<int>, fuel: nat)
    requires
        0 <= c <= 8,
        is_u32(m),
        0x80_0000 <= m / pow2((8 - c) as nat) < 0x100_0000,
        0 <= ea < 0x100,
    ensures
        run(add_finite()[1]->If_else_[14]->If_else_[4]->If_then, mem, seq![c, m, s, ea] + rest, fuel) == Some(seq![ea + (8 - c), m / pow2((8 - c) as nat) - 0x80_0000, s] + rest),
{
    let is = add_finite()[1]->If_else_[14]->If_else_[4]->If_then;
    let t0 = seq![c, m, s, ea] + rest;
    let t1 = seq![8int] + t0;
    let t2 = seq![c, 8int, m, s, ea] + rest;
    let t3 = seq![8 - c, m, s, ea] + rest;
    let t4 = seq![m, 8 - c, s, ea] + rest;
    let t5 = seq![8 - c, m, 8 - c, s, ea] + rest;
    let t6 = seq![m / pow2((8 - c) as nat), 8 - c, s, ea] + rest;
    let t7 = seq![0x7f_ffffint] + t6;
    let t8 = seq![m / pow2((8 - c) as nat) - 0x80_0000, 8 - c, s, ea] + rest;
    let t9 = seq![8 - c, m / pow2((8 - c) as nat) - 0x80_0000, s, ea] + rest;
    let t10 = seq![ea, 8 - c, m / pow2((8 - c) as nat) - 0x80_0000, s] + rest;
    let t11 = seq![ea + (8 - c), m / pow2((8 - c) as nat) - 0x80_0000, s] + rest;
    reveal(add_body);
    assert(u32_bound() == 0x1_0000_0000int);
    lemma_quotient_bits(0, 0, (m / pow2((8 - c) as nat)) as u32, 0);
    assert(((m / pow2((8 - c) as nat)) as u32) as int == m / pow2((8 - c) as nat));
    assert(t1.skip(2) =~= t2.skip(2));
    assert(t2.skip(2) =~= t3.skip(1));
    assert(t3.skip(2) =~= t4.skip(2));
    assert(t4[1] == 8 - c);
    assert(t5.skip(2) =~= t6.skip(1));
    assert(t7.skip(2) =~= t8.skip(1));
    assert(t8.skip(2) =~= t9.skip(2));
    assert(seq![t9[3]] + t9.take(3) + t9.skip(4) =~= t10);
    assert(t10.skip(2) =~= t11.skip(1));
    assert(step(is[0], mem, t0, fuel) == Some(t1));
    assert(step(is[1], mem, t1, fuel) == Some(t2));
    assert(step(is[2], mem, t2, fuel) == Some(t3));
    assert(step(is[3], mem, t3, fuel) == Some(t4));
    assert(step(is[4], mem, t4, fuel) == Some(t5));
    assert(step(is[5], mem, t5, fuel) == Some(t6));
    assert(step(is[6], mem, t6, fuel) == Some(t7));
    assert(step(is[7], mem, t7, fuel) == Some(t8));
    assert(step(is[8], mem, t8, fuel) == Some(t9));
    assert(step(is[9], mem, t9, fuel) == Some(t10));
    assert(step(is[10], mem, t10, fuel) == Some(t11));
    lemma_run_from(is, 10, mem, t10, fuel);
    lemma_run_from(is, 9, mem, t9, fuel);
    lemma_run_from(is, 8, mem, t8, fuel);
    lemma_run_from(is, 7, mem, t7, fuel);
    lemma_run_from(is, 6, mem, t6, fuel);
    lemma_run_from(is, 5, mem, t5, fuel);
    lemma_run_from(is, 4, mem, t4, fuel);
    lemma_run_from(is, 3, mem, t3, fuel);
    lemma_run_from(is, 2, mem, t2, fuel);
    lemma_run_from(is, 1, mem, t1, fuel);
    lemma_run_from(is, 0, mem, t0, fuel);
    assert(is.skip(0) =~= is);
    assert(is.skip(11) =~= Seq::<Inst>::empty());
}

/// A sum of fewer than 24 bits: shifted left to 24 bits, the exponent lowered by the shift.
#[verifier::spinoff_prover]
#[verifier::rlimit(60)]
proof fn lemma_shift_up(c: int, m: int, s: int, ea: int, mem: spec_fn(int) -> int, rest: Seq<int>, fuel: nat)
    requires
        8 < c < 32,
        is_u32(m),
        0x80_0000 <= m * pow2((c - 8) as nat) < 0x100_0000,
        is_u32(ea),
    ensures
        run(add_finite()[1]->If_else_[14]->If_else_[4]->If_else_, mem, seq![c, m, s, ea] + rest, fuel) == Some(seq![(ea - (c - 8) + 0x1_0000_0000int) % 0x1_0000_0000int, m * pow2((c - 8) as nat) - 0x80_0000, s] + rest),
{
    let is = add_finite()[1]->If_else_[14]->If_else_[4]->If_else_;
    let t0 = seq![c, m, s, ea] + rest;
    let t1 = seq![8int] + t0;
    let t2 = seq![c - 8, m, s, ea] + rest;
    let t3 = seq![m, c - 8, s, ea] + rest;
    let t4 = seq![c - 8, m, c - 8, s, ea] + rest;
    let t5 = seq![m * pow2((c - 8) as nat), c - 8, s, ea] + rest;
    let t6 = seq![0x7f_ffffint] + t5;
    let t7 = seq![m * pow2((c - 8) as nat) - 0x80_0000, c - 8, s, ea] + rest;
    let t8 = seq![c - 8, m * pow2((c - 8) as nat) - 0x80_0000, s, ea] + rest;
    let t9 = seq![ea, c - 8, m * pow2((c - 8) as nat) - 0x80_0000, s] + rest;
    let t10 = seq![c - 8, ea, m * pow2((c - 8) as nat) - 0x80_0000, s] + rest;
    let t11 = seq![(ea - (c - 8) + 0x1_0000_0000int) % 0x1_0000_0000int, m * pow2((c - 8) as nat) - 0x80_0000, s] + rest;
    reveal(add_body);
    assert(u32_bound() == 0x1_0000_0000int);
    lemma_quotient_bits(0, 0, (m * pow2((c - 8) as nat)) as u32, 0);
    assert(((m * pow2((c - 8) as nat)) as u32) as int == m * pow2((c - 8) as nat));
    assert(t1.skip(2) =~= t2.skip(1));
    assert(t2.skip(2) =~= t3.skip(2));
    assert(t3[1] == c - 8);
    assert(t4.skip(2) =~= t5.skip(1));
    assert(t6.skip(2) =~= t7.skip(1));
    assert(t7.skip(2) =~= t8.skip(2));
    assert(seq![t8[3]] + t8.take(3) + t8.skip(4) =~= t9);
    assert(t9.skip(2) =~= t10.skip(2));
    assert(t10.skip(2) =~= t11.skip(1));
    assert(step(is[0], mem, t0, fuel) == Some(t1));
    assert(step(is[1], mem, t1, fuel) == Some(t2));
    assert(step(is[2], mem, t2, fuel) == Some(t3));
    assert(step(is[3], mem, t3, fuel) == Some(t4));
    assert(step(is[4], mem, t4, fuel) == Some(t5));
    assert(step(is[5], mem, t5, fuel) == Some(t6));
    assert(step(is[6], mem, t6, fuel) == Some(t7));
    assert(step(is[7], mem, t7, fuel) == Some(t8));
    assert(step(is[8], mem, t8, fuel) == Some(t9));
    assert(step(is[9], mem, t9, fuel) == Some(t10));
    assert(step(is[10], mem, t10, fuel) == Some(t11));
    lemma_run_from(is, 10, mem, t10, fuel);
    lemma_run_from(is, 9, mem, t9, fuel);
    lemma_run_from(is, 8, mem, t8, fuel);
    lemma_run_from(is, 7, mem, t7, fuel);
    lemma_run_from(is, 6, mem, t6, fuel);
    lemma_run_from(is, 5, mem, t5, fuel);
    lemma_run_from(is, 4, mem, t4, fuel);
    lemma_run_from(is, 3, mem, t3, fuel);
    lemma_run_from(is, 2, mem, t2, fuel);
    lemma_run_from(is, 1, mem, t1, fuel);
    lemma_run_from(is, 0, mem, t0, fuel);
    assert(is.skip(0) =~= is);
    assert(is.skip(11) =~= Seq::<Inst>::empty());
}

/// The number of bits of `m`: 0 for 0.
pub open spec fn bit_length(m: nat) -> nat
    decreases m,
{
    if m == 0 {
        0
    } else {
        1 + bit_length(m / 2)
    }
}

/// A positive `m` has its top bit at `bit_length(m) - 1`.
proof fn lemma_bit_length(m: nat)
    requires
        m > 0,
    ensures
        bit_length(m) >= 1,
        pow2((bit_length(m) - 1) as nat) <= m < pow2(bit_length(m)),
    decreases m,
{
    if m / 2 == 0 {
        assert(m == 1);
        assert(bit_length(0) == 0);
        assert(pow2(0) == 1 && pow2(1) == 2) by {
            reveal_with_fuel(pow2, 2);
        }
    } else {
        lemma_bit_length(m / 2);
        let l = bit_length(m / 2);
        assert(pow2(l) == 2 * pow2((l - 1) as nat));
        assert(pow2(l + 1) == 2 * pow2(l));
    }
}

/// `2^(j + k) = 2^j * 2^k`.
proof fn lemma_pow2_add(j: nat, k: nat)
    ensures
        pow2(j + k) == pow2(j) * pow2(k),
    decreases k,
{
    if k == 0 {
        assert(pow2(0) == 1);
    } else {
        lemma_pow2_add(j, (k - 1) as nat);
        assert(pow2(j + k) == 2 * pow2((j + k - 1) as nat));
        assert(pow2(k) == 2 * pow2((k - 1) as nat));
        assert(pow2(j) * (2 * pow2((k - 1) as nat)) == 2 * (pow2(j) * pow2((k - 1) as nat))) by (nonlinear_arith);
    }
}

/// The order step of [`add_finite`]: the float with the larger exponent
/// goes first, `a` where the exponents are equal.
#[verifier::spinoff_prover]
#[verifier::rlimit(60)]
proof fn lemma_order(ex: int, ey: int, sx: int, sy: int, mx: int, my: int, mem: spec_fn(int) -> int, rest: Seq<int>, fuel: nat)
    requires
        is_u32(ex),
        is_u32(ey),
    ensures
        step(add_finite()[0], mem, seq![ex, ey, sx, sy, mx, my] + rest, fuel) == Some(
            if ey > ex {
                seq![ey, ex, sy, sx, my, mx] + rest
            } else {
                seq![ex, ey, sx, sy, mx, my] + rest
            },
        ),
{
    reveal(add_body);
    let w = seq![ex, ey, sx, sy, mx, my] + rest;
    lemma_order_test(ex, ey, sx, sy, mx, my, mem, rest, fuel);
    assert((seq![flag(ey > ex)] + w).drop_first() =~= w);
    if ey > ex {
        lemma_order_swap(ex, ey, sx, sy, mx, my, mem, rest, fuel);
    } else {
        assert(run(Seq::<Inst>::empty(), mem, w, fuel) == Some(w));
        assert(add_finite()[0]->If_else_ =~= Seq::<Inst>::empty());
    }
}

/// The sticky step: a shifted significand of 0 becomes 1.
#[verifier::spinoff_prover]
#[verifier::rlimit(60)]
proof fn lemma_sticky(v: int, sa: int, sb: int, ma: int, ea: int, mem: spec_fn(int) -> int, rest: Seq<int>, fuel: nat)
    requires
        is_u32(v),
    ensures
        step(add_finite()[1]->If_else_[7], mem, seq![v, sa, sb, ma, ea] + rest, fuel) == Some(
            seq![if v == 0 { 1 } else { v }, sa, sb, ma, ea] + rest,
        ),
{
    reveal(add_body);
    let w = seq![v, sa, sb, ma, ea] + rest;
    lemma_sticky_test(v, sa, sb, ma, ea, mem, rest, fuel);
    assert((seq![flag(v == 0)] + w).drop_first() =~= w);
    if v == 0 {
        lemma_sticky_one(sa, sb, ma, ea, mem, rest, fuel);
        assert(w =~= seq![0int, sa, sb, ma, ea] + rest);
    } else {
        assert(run(Seq::<Inst>::empty(), mem, w, fuel) == Some(w));
        assert(add_finite()[1]->If_else_[7]->If_else_ =~= Seq::<Inst>::empty());
    }
}

/// The sign step: equal signs add the significands, different signs
/// subtract the smaller from the larger and keep the sign of the larger.
#[verifier::spinoff_prover]
#[verifier::rlimit(60)]
proof fn lemma_signs(sa: int, sb: int, a: int, b: int, ea: int, mem: spec_fn(int) -> int, rest: Seq<int>, fuel: nat)
    requires
        is_u32(sa),
        is_u32(sb),
        is_u32(a),
        is_u32(b),
        is_u32(a + b),
    ensures
        step(add_finite()[1]->If_else_[13], mem, seq![sa, sb, a, b, ea] + rest, fuel) == Some(
            if sb == sa {
                seq![b + a, sa, ea] + rest
            } else if b <= a {
                seq![a - b, sa, ea] + rest
            } else {
                seq![b - a, sb, ea] + rest
            },
        ),
{
    reveal(add_body);
    let w = seq![sa, sb, a, b, ea] + rest;
    lemma_signs_test(sa, sb, a, b, ea, mem, rest, fuel);
    assert((seq![flag(sb == sa)] + w).drop_first() =~= w);
    if sb == sa {
        lemma_signs_same(sa, sb, a, b, ea, mem, rest, fuel);
    } else {
        let inner = add_finite()[1]->If_else_[13]->If_else_[0];
        lemma_signs_order_test(sa, sb, a, b, ea, mem, rest, fuel);
        assert((seq![flag(b <= a)] + w).drop_first() =~= w);
        if b <= a {
            lemma_signs_a_larger(sa, sb, a, b, ea, mem, rest, fuel);
        } else {
            lemma_signs_b_larger(sa, sb, a, b, ea, mem, rest, fuel);
        }
        lemma_run_one(inner, mem, w, fuel);
        assert(add_finite()[1]->If_else_[13]->If_else_ =~= seq![inner]);
    }
}

/// The stack after `j` rounds of the loop that counts the bits of `m`.
pub open spec fn count_state(m: int, s: int, ea: int, rest: Seq<int>, j: nat) -> Seq<int> {
    seq![m / pow2(j), 32 - j, m, s, ea] + rest
}

/// The loop that counts the bits of the sum `m`: it ends with the count of
/// leading zeros, `32 - bit_length(m)`.
#[verifier::spinoff_prover]
#[verifier::rlimit(60)]
proof fn lemma_count(m: int, s: int, ea: int, mem: spec_fn(int) -> int, rest: Seq<int>, fuel: nat)
    requires
        0 < m < 0x200_0000,
        fuel > 25,
    ensures
        step(add_finite()[1]->If_else_[14]->If_else_[2], mem, seq![m, 32int, m, s, ea] + rest, fuel) == Some(
            seq![0int, 32 - bit_length(m as nat), m, s, ea] + rest,
        ),
{
    reveal(add_body);
    let w = add_finite()[1]->If_else_[14]->If_else_[2];
    let cond = w->While_condition;
    let body = w->While_body;
    assert(w == (Inst::While { condition: cond, body }));
    let l = bit_length(m as nat);
    lemma_bit_length(m as nat);
    assert(pow2(25) == 0x200_0000) by {
        reveal_with_fuel(pow2, 26);
    }
    assert(l <= 25) by {
        if l > 25 {
            lemma_pow2_le(25, (l - 1) as nat);
        }
    }
    let states = |j: nat| count_state(m, s, ea, rest, j);
    assert forall|j: nat| j < l implies #[trigger] run(cond, mem, states(j), fuel) == Some(
        seq![1int] + states(j),
    ) by {
        lemma_pow2_le(j, (l - 1) as nat);
        lemma_pow2_positive(j);
        let v = m / pow2(j);
        assert(1 <= v <= m) by (nonlinear_arith)
            requires
                pow2(j) <= m,
                pow2(j) > 0,
                v == m / pow2(j),
        ;
        lemma_count_test(v, 32 - j, m, s, ea, mem, rest, fuel);
    }
    assert forall|j: nat| j < l implies #[trigger] run(body, mem, states(j), fuel) == Some(states(j + 1)) by {
        lemma_pow2_positive(j);
        let v = m / pow2(j);
        assert(0 <= v <= m) by (nonlinear_arith)
            requires
                0 < m,
                pow2(j) > 0,
                v == m / pow2(j),
        ;
        lemma_count_round(v, 32 - j, m, s, ea, mem, rest, fuel);
        vstd::arithmetic::div_mod::lemma_div_denominator(m, pow2(j), 2);
        assert(pow2(j + 1) == pow2(j) * 2);
        assert(32 - j - 1 == 32 - (j + 1));
    }
    lemma_pow2_positive(l);
    assert(m / pow2(l) == 0) by (nonlinear_arith)
        requires
            0 < m < pow2(l),
    ;
    lemma_count_test(0, 32 - l, m, s, ea, mem, rest, fuel);
    assert(states(l) =~= seq![0int, 32 - l, m, s, ea] + rest);
    assert(states(0) =~= seq![m, 32int, m, s, ea] + rest) by {
        assert(pow2(0) == 1);
    }
    lemma_while(cond, body, mem, states, fuel, l, seq![0int, 32 - l, m, s, ea] + rest);
}

/// The step that brings the sum `m` to 24 bits: shifted right by its bits
/// beyond 24, raising the exponent, or left by its bits short of 24,
/// lowering the exponent modulo `2^32`; the 23 bits below the leading one
/// stay over the exponent.
#[verifier::spinoff_prover]
#[verifier::rlimit(60)]
proof fn lemma_normalize_sum(m: int, s: int, ea: int, mem: spec_fn(int) -> int, rest: Seq<int>, fuel: nat)
    requires
        0 < m < 0x200_0000,
        0 <= ea < 0xff,
    ensures
        ({
            let l = bit_length(m as nat);
            step(add_finite()[1]->If_else_[14]->If_else_[4], mem, seq![32 - l, m, s, ea] + rest, fuel) == Some(
                if l >= 24 {
                    seq![ea + (l - 24), m / pow2((l - 24) as nat) - 0x80_0000, s] + rest
                } else {
                    seq![
                        (ea - (24 - l) + 0x1_0000_0000int) % 0x1_0000_0000int,
                        m * pow2((24 - l) as nat) - 0x80_0000,
                        s,
                    ] + rest
                },
            )
        }),
        bit_length(m as nat) <= 25,
        bit_length(m as nat) >= 24 ==> 0x80_0000 <= m / pow2((bit_length(m as nat) - 24) as nat) < 0x100_0000,
        bit_length(m as nat) < 24 ==> 0x80_0000 <= m * pow2((24 - bit_length(m as nat)) as nat) < 0x100_0000,
{
    reveal(add_body);
    let l = bit_length(m as nat);
    lemma_bit_length(m as nat);
    assert(pow2(0) == 1 && pow2(1) == 2 && pow2(23) == 0x80_0000 && pow2(24) == 0x100_0000 && pow2(25)
        == 0x200_0000) by {
        reveal_with_fuel(pow2, 26);
    }
    assert(l <= 25) by {
        if l > 25 {
            lemma_pow2_le(25, (l - 1) as nat);
        }
    }
    let c = 32 - l;
    let w = seq![c, m, s, ea] + rest;
    lemma_shift_test(c, m, s, ea, mem, rest, fuel);
    assert((seq![flag(c <= 8)] + w).drop_first() =~= w);
    if l >= 24 {
        if l == 24 {
            assert(m / pow2(0) == m);
        } else {
            assert(l == 25);
        }
        lemma_shift_down(c, m, s, ea, mem, rest, fuel);
        assert(8 - c == l - 24);
    } else {
        let k = (24 - l) as nat;
        lemma_pow2_add((l - 1) as nat, k);
        lemma_pow2_add(l, k);
        assert((l - 1) as nat + k == 23);
        assert(l + k == 24);
        lemma_pow2_positive(k);
        assert(0x80_0000 <= m * pow2(k) < 0x100_0000) by (nonlinear_arith)
            requires
                pow2((l - 1) as nat) <= m < pow2(l),
                pow2((l - 1) as nat) * pow2(k) == 0x80_0000,
                pow2(l) * pow2(k) == 0x100_0000,
                pow2(k) > 0,
        ;
        assert(c - 8 == 24 - l);
        lemma_shift_up(c, m, s, ea, mem, rest, fuel);
    }
}

/// The last step of [`add_finite`] is that of the division code.
proof fn lemma_sum_tail_is_quotient_tail()
    ensures
        add_finite()[1]->If_else_[14]->If_else_[5] == div_finite()[23],
{
    reveal(add_body);
    reveal(div_body);
    assert(add_finite()[1]->If_else_[14]->If_else_[5] =~~= div_finite()[23]);
}

/// The significand of `b` shifted right by the gap between the exponents,
/// 1 where that leaves 0.
pub open spec fn aligned_b(a: u32, b: u32) -> int {
    let shifted = significand(b) / pow2((exponent(a) - exponent(b)) as nat);
    if shifted == 0 {
        1
    } else {
        shifted
    }
}

/// The sum of the lined-up significands where the signs agree, the larger
/// less the smaller where they differ.
pub open spec fn aligned_magnitude(a: u32, b: u32) -> int {
    let sa = significand(a);
    let bs = aligned_b(a, b);
    if sign_bits(a) == sign_bits(b) {
        sa + bs
    } else if bs <= sa {
        sa - bs
    } else {
        bs - sa
    }
}

/// The sign the code gives the sum: that of `a`, unless the signs differ
/// and the lined-up significand of `b` is the larger.
pub open spec fn aligned_sign(a: u32, b: u32) -> u32 {
    if sign_bits(a) == sign_bits(b) || aligned_b(a, b) <= significand(a) {
        sign_bits(a)
    } else {
        sign_bits(b)
    }
}

/// The float of sign `s` (in place) that the code makes of a nonzero
/// significand sum `m` under the exponent `ea`: `m` is brought to 24 bits,
/// the exponent moved by the shift; below zero that is a zero, at `0xff` or
/// more an infinity.
pub open spec fn packed(m: int, s: u32, ea: int) -> u32 {
    let l = bit_length(m as nat);
    let mm = if l >= 24 {
        m / pow2((l - 24) as nat)
    } else {
        m * pow2((24 - l) as nat)
    };
    let e = if l >= 24 {
        ea + (l - 24)
    } else {
        ea - (24 - l)
    };
    if e < 0 {
        s
    } else if e >= EXP_MAX {
        s | INFINITY
    } else {
        (s + e * 0x80_0000 + (mm - 0x80_0000)) as u32
    }
}

/// What the code of [`add_finite`] computes where the exponents differ by at
/// most 24, on the parts of the float `a` with the larger exponent and of
/// `b`: `+0` where the significands cancel.
pub open spec fn sum_of_aligned(a: u32, b: u32) -> u32 {
    let m = aligned_magnitude(a, b);
    if m == 0 {
        0
    } else {
        packed(m, aligned_sign(a, b), exponent(a) as int)
    }
}

/// The code of [`add_finite`] after the test of the gap, where the
/// exponents of `a` and `b` differ by at most 24.
#[verifier::spinoff_prover]
#[verifier::rlimit(100)]
proof fn lemma_add_near(a: u32, b: u32, mem: spec_fn(int) -> int, rest: Seq<int>, fuel: nat)
    requires
        exponent(b) <= exponent(a) < EXP_MAX,
        exponent(a) - exponent(b) <= 24,
        fuel > 25,
    ensures
        ({
            let (ea, sa, ma) = parts(a);
            let (eb, sb, mb) = parts(b);
            run(add_finite()[1]->If_else_, mem, seq![ea - eb, ea, sa, sb, ma, mb] + rest, fuel) == Some(
                seq![sum_of_aligned(a, b) as int] + rest,
            )
        }),
{
    reveal(add_body);
    let (ea, sa, ma) = parts(a);
    let (eb, sb, mb) = parts(b);
    lemma_fields(a);
    lemma_fields(b);
    assert(u32_bound() == 0x1_0000_0000int);
    let d = ea - eb;
    let g = add_finite()[1]->If_else_;
    let u = seq![d, ea, sa, sb, ma, mb] + rest;
    assert(g =~= g.take(7) + seq![g[7]] + g.subrange(8, 13) + seq![g[13]] + seq![g[14]]);
    lemma_align(d, ea, sa, sb, ma, mb, mem, rest, fuel);
    lemma_pow2_positive(d as nat);
    let v = (mb + 0x80_0000) / pow2(d as nat);
    assert(0 <= v <= mb + 0x80_0000) by (nonlinear_arith)
        requires
            0 <= mb,
            pow2(d as nat) > 0,
            v == (mb + 0x80_0000) / pow2(d as nat),
    ;
    let s7 = seq![v, sa, sb, ma, ea] + rest;
    lemma_sticky(v, sa, sb, ma, ea, mem, rest, fuel);
    lemma_run_one(g[7], mem, s7, fuel);
    let bs = if v == 0 {
        1
    } else {
        v
    };
    let s8 = seq![bs, sa, sb, ma, ea] + rest;
    lemma_line_up(bs, sa, sb, ma, ea, mem, rest, fuel);
    let big = ma + 0x80_0000;
    let s13 = seq![sa, sb, big, bs, ea] + rest;
    lemma_signs(sa, sb, big, bs, ea, mem, rest, fuel);
    lemma_run_one(g[13], mem, s13, fuel);
    let same = sb == sa;
    let m = if same {
        bs + big
    } else if bs <= big {
        big - bs
    } else {
        bs - big
    };
    let sign = if same || bs <= big {
        sa
    } else {
        sb
    };
    let s14 = seq![m, sign, ea] + rest;
    assert(step(g[13], mem, s13, fuel) == Some(s14));
    lemma_run_add(g.take(7), seq![g[7]], mem, u, fuel);
    lemma_run_add(g.take(7) + seq![g[7]], g.subrange(8, 13), mem, u, fuel);
    lemma_run_add(g.take(7) + seq![g[7]] + g.subrange(8, 13), seq![g[13]], mem, u, fuel);
    lemma_run_add(g.take(7) + seq![g[7]] + g.subrange(8, 13) + seq![g[13]], seq![g[14]], mem, u, fuel);
    lemma_run_one(g[14], mem, s14, fuel);
    lemma_zero_test(m, sign, ea, mem, rest, fuel);
    assert((seq![flag(m == 0)] + s14).drop_first() =~= s14);
    assert(significand(a) == big && significand(b) == mb + 0x80_0000);
    assert(sign == 0 || sign == 0x8000_0000);
    if m == 0 {
        lemma_zero_sum(m, sign, ea, mem, rest, fuel);
    } else {
        let h = g[14]->If_else_;
        assert(h =~= h.take(2) + seq![h[2]] + seq![h[3]] + seq![h[4]] + seq![h[5]]);
        lemma_count_start(m, sign, ea, mem, rest, fuel);
        let c0 = seq![m, 32int, m, sign, ea] + rest;
        lemma_count(m, sign, ea, mem, rest, fuel);
        lemma_run_one(h[2], mem, c0, fuel);
        let l = bit_length(m as nat);
        let c1 = seq![0int, 32 - l, m, sign, ea] + rest;
        let c2 = seq![32 - l, m, sign, ea] + rest;
        assert(c1.drop_first() =~= c2);
        lemma_run_one(h[3], mem, c1, fuel);
        lemma_normalize_sum(m, sign, ea, mem, rest, fuel);
        lemma_run_one(h[4], mem, c2, fuel);
        let e1 = if l >= 24 {
            ea + (l - 24)
        } else {
            (ea - (24 - l) + 0x1_0000_0000int) % 0x1_0000_0000int
        };
        let mm = if l >= 24 {
            m / pow2((l - 24) as nat)
        } else {
            m * pow2((24 - l) as nat)
        };
        let c3 = seq![e1, mm - 0x80_0000, sign] + rest;
        lemma_sum_tail_is_quotient_tail();
        lemma_div_round(e1, mm - 0x80_0000, sign, mem, rest, fuel);
        lemma_run_one(h[5], mem, c3, fuel);
        lemma_run_add(h.take(2), seq![h[2]], mem, s14, fuel);
        lemma_run_add(h.take(2) + seq![h[2]], seq![h[3]], mem, s14, fuel);
        lemma_run_add(h.take(2) + seq![h[2]] + seq![h[3]], seq![h[4]], mem, s14, fuel);
        lemma_run_add(h.take(2) + seq![h[2]] + seq![h[3]] + seq![h[4]], seq![h[5]], mem, s14, fuel);
        let e = if l >= 24 {
            ea + (l - 24)
        } else {
            ea - (24 - l)
        };
        assert(e >= 0 ==> e1 == e);
        assert(e < 0 ==> e1 >= 0x8000_0000);
        lemma_quotient_bits(0, 0, 0x80_0000, sign as u32);
        assert((sign as u32) as int == sign);
        let val = sign + e * 0x80_0000 + (mm - 0x80_0000);
        assert(0 <= e < EXP_MAX ==> 0 <= val < 0x1_0000_0000int && (val as u32) as int == val);
    }
}

/// `|` does not depend on the order of its operands.
proof fn lemma_or_commutes(p: u32, q: u32)
    by (bit_vector)
    ensures
        p | q == q | p,
{
}

/// What the code of [`add_body`] gives for two finite nonzero floats: the
/// float with the smaller exponent is lined up under the other one; where
/// the exponents differ by more than 24 the sum is the float with the
/// larger exponent, otherwise [`sum_of_aligned`].
pub open spec fn add_finite_result(x: u32, y: u32) -> u32 {
    let a = if exponent(y) > exponent(x) {
        y
    } else {
        x
    };
    let b = if exponent(y) > exponent(x) {
        x
    } else {
        y
    };
    if exponent(a) - exponent(b) > 24 {
        a
    } else {
        sum_of_aligned(a, b)
    }
}

/// [`add_finite`] on the parts of two floats whose exponents are below
/// `0xff` leaves [`add_finite_result`], given fuel for its counting loop.
#[verifier::spinoff_prover]
#[verifier::rlimit(80)]
pub proof fn lemma_add_finite_run(x: u32, y: u32, mem: spec_fn(int) -> int, rest: Seq<int>, fuel: nat)
    requires
        exponent(x) < EXP_MAX,
        exponent(y) < EXP_MAX,
        fuel > 25,
    ensures
        ({
            let (ex, sx, mx) = parts(x);
            let (ey, sy, my) = parts(y);
            run(add_finite(), mem, seq![ex, ey, sx, sy, mx, my] + rest, fuel) == Some(
                seq![add_finite_result(x, y) as int] + rest,
            )
        }),
{
    reveal(add_body);
    let (ex, sx, mx) = parts(x);
    let (ey, sy, my) = parts(y);
    lemma_fields(x);
    lemma_fields(y);
    assert(u32_bound() == 0x1_0000_0000int);
    let f = add_finite();
    let w = seq![ex, ey, sx, sy, mx, my] + rest;
    assert(f =~= seq![f[0]] + seq![f[1]]);
    lemma_run_add(seq![f[0]], seq![f[1]], mem, w, fuel);
    lemma_run_one(f[0], mem, w, fuel);
    lemma_order(ex, ey, sx, sy, mx, my, mem, rest, fuel);
    let a = if ey > ex {
        y
    } else {
        x
    };
    let b = if ey > ex {
        x
    } else {
        y
    };
    let (ea, sa, ma) = parts(a);
    let (eb, sb, mb) = parts(b);
    lemma_fields(a);
    lemma_fields(b);
    let v = seq![ea, eb, sa, sb, ma, mb] + rest;
    lemma_run_one(f[1], mem, v, fuel);
    lemma_gap_test(ea, eb, sa, sb, ma, mb, mem, rest, fuel);
    let u = seq![ea - eb, ea, sa, sb, ma, mb] + rest;
    assert((seq![flag(ea - eb > 24)] + u).drop_first() =~= u);
    if ea - eb > 24 {
        lemma_far_operand(ea - eb, ea, sa, sb, ma, mb, mem, rest, fuel);
        lemma_recompose(a);
        lemma_or_commutes((sa as u32), ((ea * 0x80_0000) as u32));
        assert((((sa as u32) | ((ea * 0x80_0000) as u32)) as int) as u32 == ((sa as u32) | ((ea * 0x80_0000) as u32)));
    } else {
        lemma_add_near(a, b, mem, rest, fuel);
    }
}

/// What the code of [`add_body`] leaves where both floats are finite and
/// nonzero: it passes the five tests and runs [`add_finite`].
#[verifier::spinoff_prover]
#[verifier::rlimit(80)]
proof fn lemma_add_tree_finite(x: u32, y: u32, mem: spec_fn(int) -> int, rest: Seq<int>, fuel: nat)
    requires
        exponent(x) < EXP_MAX,
        exponent(y) < EXP_MAX,
        !is_zero(x),
        !is_zero(y),
        fuel > 25,
    ensures
        ({
            let (ex, sx, mx) = parts(x);
            let (ey, sy, my) = parts(y);
            step(
                add_body()[0],
                mem,
                seq![
                    flag((ey == 255 && my != 0) || (ex == 255 && mx != 0)),
                    flag(ex == 255),
                    flag(ey == 255),
                    flag(ex == 0 && mx == 0),
                    flag(ey == 0 && my == 0),
                    ex,
                    ey,
                    sx,
                    sy,
                    mx,
                    my,
                ] + rest,
                fuel,
            ) == Some(seq![add_finite_result(x, y) as int] + rest)
        }),
{
    reveal(add_body);
    let (ex, sx, mx) = parts(x);
    let (ey, sy, my) = parts(y);
    lemma_fields(x);
    lemma_fields(y);
    let nanb = (ey == 255 && my != 0) || (ex == 255 && mx != 0);
    let aib = ex == 255;
    let bib = ey == 255;
    let azb = ex == 0 && mx == 0;
    let bzb = ey == 0 && my == 0;
    assert(!nanb && !aib && !bib && !azb && !bzb);
    let u = seq![flag(aib), flag(bib), flag(azb), flag(bzb), ex, ey, sx, sy, mx, my] + rest;
    let v1 = seq![flag(bib), flag(azb), flag(bzb), ex, ey, sx, sy, mx, my] + rest;
    let v2 = seq![flag(azb), flag(bzb), ex, ey, sx, sy, mx, my] + rest;
    let v3 = seq![flag(bzb), ex, ey, sx, sy, mx, my] + rest;
    let v4 = seq![ex, ey, sx, sy, mx, my] + rest;
    let tree = add_body()[0];
    let r = add_finite_result(x, y) as int;
    lemma_add_invalid(nanb, aib, bib, azb, bzb, ex, ey, sx, sy, mx, my, mem, rest, fuel);
    assert((seq![flag(false)] + u).drop_first() =~= u);
    let a_if = tree->If_else_[0];
    lemma_run_one(a_if, mem, u, fuel);
    assert(run(Seq::<Inst>::empty(), mem, u, fuel) == Some(u));
    assert(u.drop_first() =~= v1);
    let b_if = a_if->If_else_[0];
    lemma_run_one(b_if, mem, v1, fuel);
    assert(run(Seq::<Inst>::empty(), mem, v1, fuel) == Some(v1));
    assert(v1.drop_first() =~= v2);
    let az_if = b_if->If_else_[0];
    lemma_run_one(az_if, mem, v2, fuel);
    assert(run(Seq::<Inst>::empty(), mem, v2, fuel) == Some(v2));
    assert(v2.drop_first() =~= v3);
    let bz_if = az_if->If_else_[0];
    lemma_run_one(bz_if, mem, v3, fuel);
    assert(run(Seq::<Inst>::empty(), mem, v3, fuel) == Some(v3));
    assert(v3.drop_first() =~= v4);
    lemma_add_finite_run(x, y, mem, rest, fuel);
    assert(bz_if->If_else_ == add_finite());
    assert(step(bz_if, mem, v3, fuel) == Some(seq![r] + rest));
    assert(step(az_if, mem, v2, fuel) == Some(seq![r] + rest));
    assert(step(b_if, mem, v1, fuel) == Some(seq![r] + rest));
    assert(step(a_if, mem, u, fuel) == Some(seq![r] + rest));
}

/// The code that [`add`](crate::float32::add) emits, up to the store of its
/// result, gives [`add_finite_result`] where the floats in the cells `a` and
/// `b` are finite and nonzero, given fuel for its counting loop.
#[verifier::spinoff_prover]
#[verifier::rlimit(60)]
pub proof fn lemma_add_finite_values(a: u32, b: u32, mem: spec_fn(int) -> int, rest: Seq<int>, fuel: nat)
    requires
        a + WIDTH <= u32::MAX,
        b + WIDTH <= u32::MAX,
        is_u32(mem(a as int)),
        is_u32(mem(b as int)),
        ({
            let x = mem(a as int) as u32;
            let y = mem(b as int) as u32;
            !is_nan(x) && !is_nan(y) && !is_infinite(x) && !is_infinite(y) && !is_zero(x) && !is_zero(y)
        }),
        fuel > 25,
    ensures
        ({
            let x = mem(a as int) as u32;
            let y = mem(b as int) as u32;
            run(prepare_insts(a, b) + nan_inf_zero_insts() + add_body(), mem, rest, fuel) == Some(
                seq![add_finite_result(x, y) as int] + rest,
            )
        }),
{
    let x = mem(a as int) as u32;
    let y = mem(b as int) as u32;
    let (ex, sx, mx) = parts(x);
    let (ey, sy, my) = parts(y);
    lemma_fields(x);
    lemma_fields(y);
    lemma_prepare(a, b, mem, rest, fuel);
    lemma_classify(ex, ey, sx, sy, mx, my, mem, rest, fuel);
    let classified = seq![
        flag((ey == 255 && my != 0) || (ex == 255 && mx != 0)),
        flag(ex == 255),
        flag(ey == 255),
        flag(ex == 0 && mx == 0),
        flag(ey == 0 && my == 0),
        ex,
        ey,
        sx,
        sy,
        mx,
        my,
    ] + rest;
    reveal(add_body);
    assert(add_body() =~= seq![add_body()[0]]);
    lemma_add_tree_finite(x, y, mem, rest, fuel);
    lemma_run_one(add_body()[0], mem, classified, fuel);
    lemma_run_add(prepare_insts(a, b), nan_inf_zero_insts(), mem, rest, fuel);
    lemma_run_add(prepare_insts(a, b) + nan_inf_zero_insts(), add_body(), mem, rest, fuel);
}

/// The sign [`aligned_sign`] is that of the float of larger magnitude, or
/// the common sign, unless the floats cancel; then the significand sum is
/// not 0.
#[verifier::spinoff_prover]
#[verifier::rlimit(60)]
proof fn lemma_aligned_sign(a: u32, b: u32)
    requires
        exponent(b) <= exponent(a) < EXP_MAX,
        exponent(a) - exponent(b) <= 24,
        !(sign_bits(a) != sign_bits(b) && magnitude(a) == magnitude(b)),
    ensures
        aligned_sign(a, b) == if magnitude(a) >= magnitude(b) {
            sign_bits(a)
        } else {
            sign_bits(b)
        },
        aligned_sign(a, b) == 0 || aligned_sign(a, b) == 0x8000_0000,
        0 < aligned_magnitude(a, b) < 0x200_0000,
{
    lemma_fields(a);
    lemma_fields(b);
    let d = exponent(a) - exponent(b);
    let sa = significand(a);
    let sb = significand(b);
    lemma_pow2_positive(d as nat);
    let shifted = sb / pow2(d as nat);
    if d == 0 {
        assert(pow2(0) == 1);
        assert(shifted == sb);
    } else {
        lemma_pow2_le(1, d as nat);
        assert(pow2(1) == 2) by {
            reveal_with_fuel(pow2, 2);
        }
        assert(0 <= shifted <= sb / 2) by (nonlinear_arith)
            requires
                pow2(d as nat) >= 2,
                sb >= 0,
                shifted == sb / pow2(d as nat),
        ;
    }
}

/// A float that [`packed`] makes of a nonzero sum has the sign it is given.
#[verifier::spinoff_prover]
#[verifier::rlimit(60)]
proof fn lemma_packed_sign(m: int, s: u32, ea: int)
    requires
        0 < m < 0x200_0000,
        s == 0 || s == 0x8000_0000,
        0 <= ea < EXP_MAX,
    ensures
        sign_bits(packed(m, s, ea)) == s,
{
    lemma_bit_length(m as nat);
    let l = bit_length(m as nat);
    assert(pow2(0) == 1 && pow2(1) == 2 && pow2(23) == 0x80_0000 && pow2(24) == 0x100_0000 && pow2(25)
        == 0x200_0000) by {
        reveal_with_fuel(pow2, 26);
    }
    assert(l <= 25) by {
        if l > 25 {
            lemma_pow2_le(25, (l - 1) as nat);
        }
    }
    let mm = if l >= 24 {
        m / pow2((l - 24) as nat)
    } else {
        m * pow2((24 - l) as nat)
    };
    let e = if l >= 24 {
        ea + (l - 24)
    } else {
        ea - (24 - l)
    };
    let r = packed(m, s, ea);
    if e < 0 {
        lemma_assembled_fields(s, s, 0, 0);
    } else if e >= EXP_MAX {
        lemma_quotient_bits(0, 0, 0x80_0000, s);
        lemma_assembled_fields(r, s, 0xff, 0);
    } else {
        if l < 24 {
            let k = (24 - l) as nat;
            lemma_pow2_add((l - 1) as nat, k);
            lemma_pow2_add(l, k);
            assert((l - 1) as nat + k == 23);
            assert(l + k == 24);
            lemma_pow2_positive(k);
            assert(0x80_0000 <= m * pow2(k) < 0x100_0000) by (nonlinear_arith)
                requires
                    pow2((l - 1) as nat) <= m < pow2(l),
                    pow2((l - 1) as nat) * pow2(k) == 0x80_0000,
                    pow2(l) * pow2(k) == 0x100_0000,
                    pow2(k) > 0,
            ;
        }
        assert(0x80_0000 <= mm < 0x100_0000);
        let v = s + e * 0x80_0000 + (mm - 0x80_0000);
        assert(r as int == v);
        lemma_assembled_fields(r, s, e as u32, (mm - 0x80_0000) as u32);
    }
}

/// For finite nonzero normal floats `x` and `y` that do not cancel (equal
/// magnitudes of opposite signs), the sum that the code of `add` gives has
/// the sign of the exact sum `x + y`: the common sign, or that of the float
/// of larger magnitude. Where they cancel, the sum is `+0`.
pub proof fn lemma_add_sign(x: u32, y: u32)
    requires
        1 <= exponent(x) < EXP_MAX,
        1 <= exponent(y) < EXP_MAX,
    ensures
        !(sign_bits(x) != sign_bits(y) && magnitude(x) == magnitude(y)) ==> sign_bits(add_finite_result(x, y))
            == if magnitude(x) >= magnitude(y) {
            sign_bits(x)
        } else {
            sign_bits(y)
        },
        sign_bits(x) != sign_bits(y) && magnitude(x) == magnitude(y) ==> add_finite_result(x, y) == 0,
{
    lemma_fields(x);
    lemma_fields(y);
    let a = if exponent(y) > exponent(x) {
        y
    } else {
        x
    };
    let b = if exponent(y) > exponent(x) {
        x
    } else {
        y
    };
    if exponent(a) - exponent(b) > 24 {
        assert(magnitude(a) > magnitude(b));
    } else if sign_bits(x) != sign_bits(y) && magnitude(x) == magnitude(y) {
        assert(exponent(x) == exponent(y) && mantissa(x) == mantissa(y));
        assert(pow2(0) == 1);
        assert(significand(y) / pow2(0) == significand(y));
    } else {
        lemma_aligned_sign(a, b);
        lemma_packed_sign(aligned_magnitude(a, b), aligned_sign(a, b), exponent(a) as int);
    }
}

/// The sum that the code of `add` gives for finite nonzero floats does not
/// depend on the order of the operands: `x + y` and `y + x` have the same
/// bits.
pub proof fn lemma_add_commutes(x: u32, y: u32)
    requires
        exponent(x) < EXP_MAX,
        exponent(y) < EXP_MAX,
    ensures
        add_finite_result(x, y) == add_finite_result(y, x),
{
    if exponent(x) == exponent(y) {
        assert(pow2(0) == 1);
        lemma_fields(x);
        lemma_fields(y);
        assert(significand(x) / pow2(0) == significand(x));
        assert(significand(y) / pow2(0) == significand(y));
        let sx = significand(x);
        let sy = significand(y);
        assert(sx > 0 && sy > 0);
        if sign_bits(x) == sign_bits(y) {
            assert(sx + sy == sy + sx);
        }
        assert(sum_of_aligned(x, y) == sum_of_aligned(y, x));
    }
}

/// For normal floats `x` and `y` of the same sign whose sum `r` from the
/// code of `add` is a normal float, `r` is the exact sum `x + y` to within
/// its last place: counted in units of `2^(lo - 150)`, with `lo` the smaller
/// exponent, the exact magnitude `t` of the sum and the unit `u` of the last
/// place of `r` satisfy `t - 2u < significand(r) * u < t + u`.
#[verifier::spinoff_prover]
#[verifier::rlimit(80)]
pub proof fn lemma_add_same_sign_bound(x: u32, y: u32)
    requires
        1 <= exponent(x) < EXP_MAX,
        1 <= exponent(y) < EXP_MAX,
        sign_bits(x) == sign_bits(y),
        1 <= exponent(add_finite_result(x, y)) < EXP_MAX,
    ensures
        ({
            let r = add_finite_result(x, y);
            let lo = if exponent(x) <= exponent(y) {
                exponent(x)
            } else {
                exponent(y)
            };
            let t = significand(x) * pow2((exponent(x) - lo) as nat) + significand(y) * pow2(
                (exponent(y) - lo) as nat,
            );
            let u = pow2((exponent(r) - lo) as nat);
            &&& exponent(r) >= lo
            &&& t - 2 * u < significand(r) * u
            &&& significand(r) * u < t + u
        }),
{
    lemma_fields(x);
    lemma_fields(y);
    let r = add_finite_result(x, y);
    lemma_fields(r);
    let a = if exponent(y) > exponent(x) {
        y
    } else {
        x
    };
    let b = if exponent(y) > exponent(x) {
        x
    } else {
        y
    };
    let ea = exponent(a) as int;
    let eb = exponent(b) as int;
    let d = (ea - eb) as nat;
    let sa = significand(a);
    let sb = significand(b);
    assert(pow2(0) == 1 && pow2(1) == 2 && pow2(23) == 0x80_0000 && pow2(24) == 0x100_0000 && pow2(25)
        == 0x200_0000) by {
        reveal_with_fuel(pow2, 26);
    }
    lemma_pow2_positive(d);
    let t = significand(x) * pow2((exponent(x) - eb) as nat) + significand(y) * pow2(
        (exponent(y) - eb) as nat,
    );
    assert(t == sa * pow2(d) + sb);
    if ea - eb > 24 {
        assert(r == a);
        lemma_pow2_le(24, d);
        assert(sa * pow2(d) < t + pow2(d) && t - 2 * pow2(d) < sa * pow2(d)) by (nonlinear_arith)
            requires
                t == sa * pow2(d) + sb,
                0 < sb < 0x100_0000,
                0x100_0000 <= pow2(d),
        ;
    } else {
        let shifted = sb / pow2(d);
        let bs = aligned_b(a, b);
        assert(shifted * pow2(d) <= sb < (shifted + 1) * pow2(d) && shifted >= 0) by (nonlinear_arith)
            requires
                pow2(d) > 0,
                sb > 0,
                shifted == sb / pow2(d),
        ;
        let m = aligned_magnitude(a, b);
        assert(m == sa + bs);
        let p = pow2(d);
        assert(m * p == sa * p + bs * p) by (nonlinear_arith)
            requires
                m == sa + bs,
        ;
        if shifted == 0 {
            assert(bs * p == p);
            assert(sb < p);
        } else {
            assert(bs * p == shifted * p);
            assert((shifted + 1) * p == shifted * p + p) by (nonlinear_arith);
        }
        assert(t == sa * p + sb);
        assert(t - p < m * p < t + p);
        assert(0x80_0000 < m < 0x200_0000);
        lemma_bit_length(m as nat);
        let l = bit_length(m as nat);
        assert(24 <= l <= 25) by {
            if l > 25 {
                lemma_pow2_le(25, (l - 1) as nat);
            }
            if l < 24 {
                lemma_pow2_le(l, 23);
            }
        }
        let k = (l - 24) as nat;
        let mm = m / pow2(k);
        let e = ea + k;
        if k == 0 {
            assert(mm == m / 1);
            assert(mm == m);
        } else {
            assert(k == 1);
        }
        assert(mm * pow2(k) <= m < (mm + 1) * pow2(k));
        assert(0x80_0000 <= mm < 0x100_0000);
        let s0 = aligned_sign(a, b);
        assert(s0 == sign_bits(a));
        assert(s0 == 0 || s0 == 0x8000_0000u32);
        assert(r == packed(m, s0, ea));
        if e >= EXP_MAX {
            assert(r == s0 | INFINITY);
            lemma_quotient_bits(0, 0, 0x80_0000, s0);
            lemma_assembled_fields(r, s0, 0xff, 0);
        }
        assert(e < EXP_MAX);
        let v = s0 + e * 0x80_0000 + (mm - 0x80_0000);
        assert(r as int == v);
        lemma_assembled_fields(r, s0, e as u32, (mm - 0x80_0000) as u32);
        assert(exponent(r) == e && significand(r) == mm);
        lemma_pow2_add(k, d);
        assert((exponent(r) - eb) as nat == k + d);
        let u = pow2(k + d);
        assert(u == pow2(k) * pow2(d));
        assert(t - 2 * u < mm * u && mm * u < t + u) by (nonlinear_arith)
            requires
                u == pow2(k) * pow2(d),
                mm * pow2(k) <= m < (mm + 1) * pow2(k),
                t - pow2(d) < m * pow2(d) < t + pow2(d),
                pow2(k) >= 1,
                pow2(d) > 0,
        ;
    }
}

/// The code that `add` emits, up to the store of its result, on normal
/// floats `x` and `y` in the cells `a` and `b` leaves one float `r` over the
/// stack: `+0` where `x` and `y` cancel; otherwise `r` has the sign of the
/// exact sum `x + y` (the common sign, or that of the float of larger
/// magnitude), and where the signs agree and `r` is normal, `r` is `x + y`
/// to within its last place (see [`lemma_add_same_sign_bound`]).
pub proof fn lemma_add_computes(a: u32, b: u32, mem: spec_fn(int) -> int, rest: Seq<int>, fuel: nat)
    requires
        a + WIDTH <= u32::MAX,
        b + WIDTH <= u32::MAX,
        is_u32(mem(a as int)),
        is_u32(mem(b as int)),
        1 <= exponent(mem(a as int) as u32) < EXP_MAX,
        1 <= exponent(mem(b as int) as u32) < EXP_MAX,
        fuel > 25,
    ensures
        ({
            let x = mem(a as int) as u32;
            let y = mem(b as int) as u32;
            let out = run(prepare_insts(a, b) + nan_inf_zero_insts() + add_body(), mem, rest, fuel);
            &&& out is Some
            &&& out->0.len() == rest.len() + 1
            &&& out->0.skip(1) == rest
            &&& is_u32(out->0[0])
            &&& sign_bits(x) != sign_bits(y) && magnitude(x) == magnitude(y) ==> out->0[0] == 0
            &&& !(sign_bits(x) != sign_bits(y) && magnitude(x) == magnitude(y)) ==> sign_bits(
                out->0[0] as u32,
            ) == if magnitude(x) >= magnitude(y) {
                sign_bits(x)
            } else {
                sign_bits(y)
            }
        }),
{
    let x = mem(a as int) as u32;
    let y = mem(b as int) as u32;
    lemma_fields(x);
    lemma_fields(y);
    lemma_add_finite_values(a, b, mem, rest, fuel);
    lemma_add_sign(x, y);
    let r = add_finite_result(x, y);
    let out = seq![r as int] + rest;
    assert(out.skip(1) =~= rest);
    assert((r as int) as u32 == r);
}

/// The code that `add` emits gives the same float whichever of two finite
/// nonzero floats is in the first cell: `x + y` and `y + x` agree.
pub proof fn lemma_add_code_commutes(a: u32, b: u32, mem: spec_fn(int) -> int, rest: Seq<int>, fuel: nat)
    requires
        a + WIDTH <= u32::MAX,
        b + WIDTH <= u32::MAX,
        is_u32(mem(a as int)),
        is_u32(mem(b as int)),
        ({
            let x = mem(a as int) as u32;
            let y = mem(b as int) as u32;
            !is_nan(x) && !is_nan(y) && !is_infinite(x) && !is_infinite(y) && !is_zero(x) && !is_zero(y)
        }),
        fuel > 25,
    ensures
        run(prepare_insts(a, b) + nan_inf_zero_insts() + add_body(), mem, rest, fuel) == run(
            prepare_insts(b, a) + nan_inf_zero_insts() + add_body(),
            mem,
            rest,
            fuel,
        ),
{
    let x = mem(a as int) as u32;
    let y = mem(b as int) as u32;
    lemma_fields(x);
    lemma_fields(y);
    lemma_add_finite_values(a, b, mem, rest, fuel);
    lemma_add_finite_values(b, a, mem, rest, fuel);
    lemma_add_commutes(x, y);
}

/// Flipping the sign bit of a float keeps its exponent and mantissa.
proof fn lemma_flip_sign(y: u32)
    by (bit_vector)
    ensures
        ((y ^ 0x8000_0000u32) & 0x7f80_0000u32) >> 23u32 == (y & 0x7f80_0000u32) >> 23u32,
        (y ^ 0x8000_0000u32) & 0x7f_ffffu32 == y & 0x7f_ffffu32,
        (y ^ 0x8000_0000u32) & 0x8000_0000u32 == (y & 0x8000_0000u32) ^ 0x8000_0000u32,
        (y ^ 0x8000_0000u32) & 0x7fff_ffffu32 == y & 0x7fff_ffffu32,
        (y & 0x8000_0000u32) == 0u32 ==> ((y ^ 0x8000_0000u32) & 0x8000_0000u32) == 0x8000_0000u32,
        (y & 0x8000_0000u32) == 0x8000_0000u32 ==> ((y ^ 0x8000_0000u32) & 0x8000_0000u32) == 0u32,
{
}

/// The code that `sub` emits, up to the store of its result, is the code of
/// `add` on `x` and `-y`: for finite nonzero floats `x` and `y` in the cells
/// `a` and `b` it gives [`add_finite_result`] of `x` and `y` with its sign
/// bit flipped. For normal `x` and `y` that do not cancel (equal magnitudes
/// of the same sign) the difference has the sign of the exact `x - y`: that
/// of `x` where `x` has the larger magnitude, the opposite of `y`'s
/// otherwise; where they cancel it is `+0`.
#[verifier::spinoff_prover]
#[verifier::rlimit(80)]
pub proof fn lemma_sub_computes(a: u32, b: u32, mem: spec_fn(int) -> int, rest: Seq<int>, fuel: nat)
    requires
        a + WIDTH <= u32::MAX,
        b + WIDTH <= u32::MAX,
        is_u32(mem(a as int)),
        is_u32(mem(b as int)),
        ({
            let x = mem(a as int) as u32;
            let y = mem(b as int) as u32;
            !is_nan(x) && !is_nan(y) && !is_infinite(x) && !is_infinite(y) && !is_zero(x) && !is_zero(y)
        }),
        fuel > 25,
    ensures
        ({
            let x = mem(a as int) as u32;
            let y = mem(b as int) as u32;
            let r = add_finite_result(x, y ^ 0x8000_0000);
            &&& run(prepare_insts(a, b) + negate_b_insts() + nan_inf_zero_insts() + add_body(), mem, rest, fuel)
                == Some(seq![r as int] + rest)
            &&& (1 <= exponent(x) && 1 <= exponent(y) && sign_bits(x) == sign_bits(y) && magnitude(x)
                == magnitude(y)) ==> r == 0
            &&& (1 <= exponent(x) && 1 <= exponent(y) && !(sign_bits(x) == sign_bits(y) && magnitude(x)
                == magnitude(y))) ==> sign_bits(r) == if magnitude(x) >= magnitude(y) {
                sign_bits(x)
            } else {
                sign_bits(y) ^ 0x8000_0000
            }
        }),
{
    let x = mem(a as int) as u32;
    let y = mem(b as int) as u32;
    let z = y ^ 0x8000_0000u32;
    lemma_fields(x);
    lemma_fields(y);
    lemma_fields(z);
    lemma_flip_sign(y);
    let (ex, sx, mx) = parts(x);
    let (ey, sy, my) = parts(y);
    let (ez, sz, mz) = parts(z);
    assert(ez == ey && mz == my && magnitude(z) == magnitude(y));
    assert(sz == ((sy as u32) ^ 0x8000_0000u32) as int);
    assert(u32_bound() == 0x1_0000_0000int);
    lemma_prepare(a, b, mem, rest, fuel);
    // the sign bit of b flipped
    let is = negate_b_insts();
    let t0 = seq![ex, ey, sx, sy, mx, my] + rest;
    let t1 = seq![sy, ex, ey, sx, mx, my] + rest;
    let t2 = seq![0x8000_0000int] + t1;
    let t3 = seq![sz, ex, ey, sx, mx, my] + rest;
    let t4 = seq![ex, ey, sx, sz, mx, my] + rest;
    assert(seq![t0[3]] + t0.take(3) + t0.skip(4) =~= t1);
    assert(t2.skip(2) =~= t3.skip(1));
    assert(t3.subrange(1, 4) + seq![t3[0]] + t3.skip(4) =~= t4);
    assert(step(is[0], mem, t0, fuel) == Some(t1));
    assert(step(is[1], mem, t1, fuel) == Some(t2));
    assert(step(is[2], mem, t2, fuel) == Some(t3));
    assert(step(is[3], mem, t3, fuel) == Some(t4));
    lemma_run_from(is, 3, mem, t3, fuel);
    lemma_run_from(is, 2, mem, t2, fuel);
    lemma_run_from(is, 1, mem, t1, fuel);
    lemma_run_from(is, 0, mem, t0, fuel);
    assert(is.skip(0) =~= is);
    assert(is.skip(4) =~= Seq::<Inst>::empty());
    lemma_classify(ex, ez, sx, sz, mx, mz, mem, rest, fuel);
    let classified = seq![
        flag((ez == 255 && mz != 0) || (ex == 255 && mx != 0)),
        flag(ex == 255),
        flag(ez == 255),
        flag(ex == 0 && mx == 0),
        flag(ez == 0 && mz == 0),
        ex,
        ez,
        sx,
        sz,
        mx,
        mz,
    ] + rest;
    reveal(add_body);
    assert(add_body() =~= seq![add_body()[0]]);
    lemma_add_tree_finite(x, z, mem, rest, fuel);
    lemma_run_one(add_body()[0], mem, classified, fuel);
    let p = prepare_insts(a, b);
    lemma_run_add(p, is, mem, rest, fuel);
    lemma_run_add(p + is, nan_inf_zero_insts(), mem, rest, fuel);
    lemma_run_add(p + is + nan_inf_zero_insts(), add_body(), mem, rest, fuel);
    assert(run(p + is + nan_inf_zero_insts() + add_body(), mem, rest, fuel) == Some(
        seq![add_finite_result(x, z) as int] + rest,
    ));
    assert(sign_bits(z) == sign_bits(y) ^ 0x8000_0000);
    assert((sign_bits(x) != sign_bits(z)) == (sign_bits(x) == sign_bits(y)));
    if 1 <= exponent(x) && 1 <= exponent(y) {
        lemma_add_sign(x, z);
    }
}

/// For normal floats `x` and `y` of opposite signs that do not cancel and
/// whose sum `r` from the code of `add` is a normal float, `r` is the exact
/// difference of their magnitudes to within one unit in the last place of
/// the operand with the larger exponent: scaled by `2^150`, with `hi` that
/// exponent, `|significand(r) * 2^exponent(r) - |significand(x) * 2^ex -
/// significand(y) * 2^ey|| < 2^hi`.
#[verifier::spinoff_prover]
#[verifier::rlimit(100)]
pub proof fn lemma_add_opposite_sign_bound(x: u32, y: u32)
    requires
        1 <= exponent(x) < EXP_MAX,
        1 <= exponent(y) < EXP_MAX,
        sign_bits(x) != sign_bits(y),
        magnitude(x) != magnitude(y),
        1 <= exponent(add_finite_result(x, y)) < EXP_MAX,
    ensures
        ({
            let r = add_finite_result(x, y);
            let hi = if exponent(x) >= exponent(y) {
                exponent(x)
            } else {
                exponent(y)
            };
            let dx = significand(x) * pow2(exponent(x) as nat);
            let dy = significand(y) * pow2(exponent(y) as nat);
            let t = if dx >= dy {
                dx - dy
            } else {
                dy - dx
            };
            let v = significand(r) * pow2(exponent(r) as nat);
            t - pow2(hi as nat) < v < t + pow2(hi as nat)
        }),
{
    lemma_fields(x);
    lemma_fields(y);
    let r = add_finite_result(x, y);
    lemma_fields(r);
    let a = if exponent(y) > exponent(x) {
        y
    } else {
        x
    };
    let b = if exponent(y) > exponent(x) {
        x
    } else {
        y
    };
    let ea = exponent(a) as nat;
    let eb = exponent(b) as nat;
    let d = (ea - eb) as nat;
    let sa = significand(a);
    let sb = significand(b);
    assert(pow2(0) == 1 && pow2(1) == 2 && pow2(23) == 0x80_0000 && pow2(24) == 0x100_0000 && pow2(25)
        == 0x200_0000) by {
        reveal_with_fuel(pow2, 26);
    }
    let pp = pow2(eb);
    let q = pow2(d);
    lemma_pow2_positive(eb);
    lemma_pow2_positive(d);
    lemma_pow2_add(eb, d);
    assert(eb + d == ea);
    assert(pow2(ea) == pp * q);
    let da = sa * pow2(ea);
    let db = sb * pp;
    assert(da == (sa * q) * pp) by (nonlinear_arith)
        requires
            da == sa * pow2(ea),
            pow2(ea) == pp * q,
    ;
    // the exact difference, in units of 2^eb
    let t0 = sa * q - sb;
    assert(da - db == t0 * pp) by (nonlinear_arith)
        requires
            da == (sa * q) * pp,
            db == sb * pp,
            t0 == sa * q - sb,
    ;
    if ea - eb > 24 {
        assert(r == a);
        lemma_pow2_le(25, d);
        assert(t0 > 0 && sa * q - t0 < q) by (nonlinear_arith)
            requires
                t0 == sa * q - sb,
                0 < sb < 0x100_0000,
                0x200_0000 <= q,
                sa >= 0x80_0000,
        ;
        assert(da - db > 0) by (nonlinear_arith)
            requires
                da - db == t0 * pp,
                t0 > 0,
                pp > 0,
        ;
        assert(da - (da - db) < pp * q) by (nonlinear_arith)
            requires
                da - db == t0 * pp,
                da == (sa * q) * pp,
                sa * q - t0 < q,
                pp > 0,
        ;
    } else {
        let shifted = sb / q;
        let bs = aligned_b(a, b);
        assert(shifted * q <= sb < shifted * q + q && shifted >= 0) by (nonlinear_arith)
            requires
                q > 0,
                sb > 0,
                shifted == sb / q,
        ;
        let m = aligned_magnitude(a, b);
        let s0 = aligned_sign(a, b);
        lemma_aligned_sign(a, b);
        assert(r == packed(m, s0, ea as int));
        // m * q differs from the exact difference by less than q
        let te = if t0 >= 0 {
            t0
        } else {
            -t0
        };
        if bs <= sa {
            assert(m == sa - bs);
            if d == 0 {
                assert(q == 1);
                assert(shifted == sb / 1);
                assert(shifted == sb);
                assert(m * q == m) by (nonlinear_arith)
                    requires
                        q == 1,
                ;
                assert(t0 == sa - sb) by (nonlinear_arith)
                    requires
                        q == 1,
                        t0 == sa * q - sb,
                ;
                assert(m * q == te);
            } else {
                lemma_pow2_le(1, d);
                assert(sa * q >= 2 * sa) by (nonlinear_arith)
                    requires
                        q >= 2,
                        sa >= 0,
                ;
                assert(m * q == sa * q - bs * q) by (nonlinear_arith)
                    requires
                        m == sa - bs,
                ;
                assert(t0 > 0);
                assert(te == t0);
                if shifted == 0 {
                    assert(bs * q == q);
                    assert(shifted * q == 0) by (nonlinear_arith)
                        requires
                            shifted == 0,
                    ;
                    assert(sb < q);
                } else {
                    assert(bs * q == shifted * q);
                }
                assert(te - q < m * q < te + q);
            }
        } else {
            assert(d == 0) by {
                if d != 0 {
                    lemma_pow2_le(1, d);
                    assert(shifted <= sb / 2) by (nonlinear_arith)
                        requires
                            q >= 2,
                            sb >= 0,
                            shifted == sb / q,
                    ;
                }
            }
            assert(q == 1);
            assert(shifted == sb / 1);
            assert(shifted == sb);
            assert(m == sb - sa);
            assert(m * q == m) by (nonlinear_arith)
                requires
                    q == 1,
            ;
            assert(t0 == sa - sb) by (nonlinear_arith)
                requires
                    q == 1,
                    t0 == sa * q - sb,
            ;
        }
        assert(te - q < m * q < te + q);
        assert(0 < m < 0x100_0000);
        lemma_bit_length(m as nat);
        let l = bit_length(m as nat);
        assert(l <= 24) by {
            if l > 24 {
                lemma_pow2_le(24, (l - 1) as nat);
            }
        }
        let j = (24 - l) as nat;
        let mm = m * pow2(j);
        let e = ea - j;
        if e < 0 {
            assert(r == s0);
            lemma_assembled_fields(s0, s0, 0, 0);
        }
        assert(e >= 0);
        lemma_pow2_add((l - 1) as nat, j);
        lemma_pow2_add(l, j);
        assert((l - 1) as nat + j == 23);
        assert(l + j == 24);
        lemma_pow2_positive(j);
        assert(0x80_0000 <= m * pow2(j) < 0x100_0000) by (nonlinear_arith)
            requires
                pow2((l - 1) as nat) <= m < pow2(l),
                pow2((l - 1) as nat) * pow2(j) == 0x80_0000,
                pow2(l) * pow2(j) == 0x100_0000,
                pow2(j) > 0,
        ;
        if l == 24 {
            assert(mm == m);
        }
        let v0 = s0 + e * 0x80_0000 + (mm - 0x80_0000);
        assert(r as int == v0);
        lemma_assembled_fields(r, s0, e as u32, (mm - 0x80_0000) as u32);
        assert(exponent(r) == e && significand(r) == mm);
        lemma_pow2_add(e as nat, j);
        assert(e as nat + j == ea);
        // the value of r, scaled by 2^150, is m * 2^ea = (m * q) * 2^eb
        assert(mm * pow2(e as nat) == (m * q) * pp) by (nonlinear_arith)
            requires
                mm == m * pow2(j),
                pow2(ea) == pow2(e as nat) * pow2(j),
                pow2(ea) == pp * q,
        ;
        let tt = if da - db >= 0 {
            da - db
        } else {
            db - da
        };
        assert(tt == te * pp) by (nonlinear_arith)
            requires
                da - db == t0 * pp,
                pp > 0,
                te == if t0 >= 0 {
                    t0
                } else {
                    -t0
                },
                tt == if da - db >= 0 {
                    da - db
                } else {
                    db - da
                },
        ;
        assert(tt - pp * q < (m * q) * pp < tt + pp * q) by (nonlinear_arith)
            requires
                te - q < m * q < te + q,
                tt == te * pp,
                pp > 0,
        ;
    }
}

} // verus!
