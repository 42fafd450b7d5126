//! Code generation for signed 32-bit integers: one memory cell holding the
//! two's complement bits.

use vstd::prelude::*;

use crate::encoder::{Inst, Instruction, view_seq, lemma_view_seq_map, lemma_view_seq_add, push_inst};
use crate::float32::lemma_run_one;
use crate::machine::{flag, lemma_pow2_positive, lemma_run_add, lemma_run_from, pow2, run, step, u32_bound};
use crate::memory::{Memory, ValueSource, lemma_read_pushes_cells, read_insts, write_insts};

verus! {

/// Cells taken by one integer.
pub const WIDTH: u32 = 1;

/// The number whose two's complement bits are `v`.
pub open spec fn signed(v: u32) -> int {
    if v < 0x8000_0000 {
        v as int
    } else {
        v - 0x1_0000_0000int
    }
}

/// The top bit of `v`: 1 for a negative number.
pub open spec fn sign_bit(v: u32) -> int {
    if v < 0x8000_0000 {
        0
    } else {
        1
    }
}

proof fn lemma_sign_bit(v: u32)
    ensures
        pow2(31) == 0x8000_0000,
        (v as int) / pow2(31) == sign_bit(v),
{
    assert(pow2(31) == 0x8000_0000) by {
        reveal_with_fuel(pow2, 32);
    }
}

/// The code of [`add_stack`]: `[b, a] => [a + b]`, failing where the sum
/// of the two signed integers does not fit.
pub open spec fn add_stack_insts() -> Seq<Inst> {
    seq![
        Inst::Dup(Some(1)),
        Inst::U32CheckedSHR(Some(31)),
        Inst::Dup(None),
        Inst::MovUp(2),
        Inst::Dup(None),
        Inst::U32CheckedSHR(Some(31)),
        Inst::MovUp(2),
        Inst::If {
            condition: seq![Inst::U32CheckedEq],
            then: seq![
                Inst::MovUp(2),
                Inst::U32WrappingAdd,
                Inst::Dup(None),
                Inst::U32CheckedSHR(Some(31)),
                Inst::MovUp(2),
                Inst::U32CheckedEq,
                Inst::Assert,
            ],
            else_: seq![Inst::Swap, Inst::Drop, Inst::U32WrappingAdd],
        },
    ]
}

/// The code of [`abs_stack`]: `[v] => [|v|]`, failing on `i32::MIN`.
pub open spec fn abs_stack_insts() -> Seq<Inst> {
    seq![
        Inst::Dup(None),
        Inst::Push(0x8000_0000),
        Inst::U32CheckedEq,
        Inst::AssertZero,
        Inst::If {
            condition: seq![Inst::Dup(None), Inst::U32CheckedSHR(Some(31))],
            then: seq![Inst::U32CheckedNot, Inst::Push(1), Inst::U32CheckedAdd],
            else_: Seq::empty(),
        },
    ]
}

/// The code of [`negate_stack`]: `[v] => [-v]`, failing on `i32::MIN`.
pub open spec fn negate_stack_insts() -> Seq<Inst> {
    seq![Inst::Push(0xffff_ffff), Inst::Swap, Inst::U32WrappingSub, Inst::Push(1)] + add_stack_insts()
}

/// The code of [`mul`] for two nonzero operands, on `[b, a, b_sign,
/// a_sign]`: the product of the absolute values, which must stay below
/// `2^31`, negated where exactly one operand is negative.
pub open spec fn mul_nonzero_insts() -> Seq<Inst> {
    abs_stack_insts() + seq![Inst::Swap] + abs_stack_insts() + seq![
        Inst::Swap,
        Inst::U32CheckedMul,
        Inst::Dup(None),
        Inst::U32CheckedSHR(Some(31)),
        Inst::AssertZero,
        Inst::If {
            condition: seq![Inst::MovDown(2), Inst::U32CheckedAdd, Inst::Push(1), Inst::U32CheckedEq],
            then: negate_stack_insts(),
            else_: Seq::empty(),
        },
    ]
}

/// The code of [`mul`] between the read of the operands and the store of
/// the product: 0 where an operand is 0, [`mul_nonzero_insts`] otherwise.
pub open spec fn mul_body() -> Seq<Inst> {
    seq![
        Inst::Dup(Some(1)),
        Inst::Push(0),
        Inst::U32CheckedEq,
        Inst::Dup(Some(1)),
        Inst::Push(0),
        Inst::U32CheckedEq,
        Inst::If {
            condition: seq![Inst::Or],
            then: seq![Inst::Drop, Inst::Drop, Inst::Drop, Inst::Drop, Inst::Push(0)],
            else_: mul_nonzero_insts(),
        },
    ]
}

/// The code of [`mul`].
pub open spec fn mul_insts(a: u32, b: u32, result: u32) -> Seq<Inst> {
    prepare_insts(a, b) + mul_body() + write_insts(result as int, seq![ValueSource::Stack])
}

/// The code of [`div`] between the read of the operands and the store of
/// the quotient, on `[b, a, b_sign, a_sign]`: a fault where `b` is 0 or the
/// quotient is `i32::MIN / -1`, then the quotient of the absolute values,
/// negated where exactly one operand is negative.
pub open spec fn quotient_insts() -> Seq<Inst> {
    seq![
        Inst::Dup(None),
        Inst::Push(0),
        Inst::U32CheckedEq,
        Inst::AssertZero,
        Inst::Dup(None),
        Inst::Push(0xffff_ffff),
        Inst::U32CheckedEq,
        Inst::Dup(Some(2)),
        Inst::Push(0x8000_0000),
        Inst::U32CheckedEq,
        Inst::And,
        Inst::AssertZero,
    ] + abs_stack_insts() + seq![Inst::Swap] + abs_stack_insts() + seq![
        Inst::Swap,
        Inst::U32CheckedDiv,
        Inst::If {
            condition: seq![Inst::MovDown(2), Inst::U32CheckedAdd, Inst::Push(1), Inst::U32CheckedEq],
            then: negate_stack_insts(),
            else_: Seq::empty(),
        },
    ]
}

/// The code of [`div`].
pub open spec fn div_insts(a: u32, b: u32, result: u32) -> Seq<Inst> {
    prepare_insts(a, b) + quotient_insts() + write_insts(result as int, seq![ValueSource::Stack])
}

/// The code of [`modulo`] between the read of the operands and the store of
/// the remainder, on `[b, a]`: a fault where `b` is 0 or the operands are
/// `i32::MIN` and -1, then the remainder of the absolute values, negated
/// where `a` is negative.
pub open spec fn remainder_insts() -> Seq<Inst> {
    seq![
        Inst::Dup(None),
        Inst::Push(0),
        Inst::U32CheckedEq,
        Inst::Not,
        Inst::Assert,
        Inst::Dup(None),
        Inst::Push(0xffff_ffff),
        Inst::U32CheckedEq,
        Inst::Not,
        Inst::Dup(Some(2)),
        Inst::Push(0x8000_0000),
        Inst::U32CheckedEq,
        Inst::Not,
        Inst::Or,
        Inst::Assert,
        Inst::Dup(Some(1)),
        Inst::U32CheckedSHR(Some(31)),
        Inst::MovDown(2),
    ] + abs_stack_insts() + seq![Inst::Swap] + abs_stack_insts() + seq![
        Inst::Swap,
        Inst::U32CheckedMod,
        Inst::Swap,
        Inst::If { condition: Seq::empty(), then: negate_stack_insts(), else_: Seq::empty() },
    ]
}

/// The code of [`modulo`].
pub open spec fn modulo_insts(a: u32, b: u32, result: u32) -> Seq<Inst> {
    read_insts(a as int, WIDTH as nat) + read_insts(b as int, WIDTH as nat) + remainder_insts()
        + write_insts(result as int, seq![ValueSource::Stack])
}

/// The code of [`shift_right`] (`is_right`) or [`shift_left`] between the
/// read of the operands and the store of the result, on `[b, a]`: a fault
/// where `b` is negative, then the absolute value of `a` shifted by `b`,
/// negated where `a` is negative.
pub open spec fn shift_insts(is_right: bool) -> Seq<Inst> {
    seq![
        Inst::Dup(None),
        Inst::U32CheckedSHR(Some(31)),
        Inst::AssertZero,
        Inst::Dup(Some(1)),
        Inst::U32CheckedSHR(Some(31)),
        Inst::MovDown(2),
    ] + abs_stack_insts() + seq![Inst::Swap] + abs_stack_insts() + seq![
        Inst::Swap,
        if is_right {
            Inst::U32CheckedSHR(None)
        } else {
            Inst::U32CheckedSHL(None)
        },
        Inst::Swap,
        Inst::If { condition: Seq::empty(), then: negate_stack_insts(), else_: Seq::empty() },
    ]
}

/// The code of [`shift_right`] (`is_right`) or [`shift_left`].
pub open spec fn shift_all_insts(a: u32, b: u32, result: u32, is_right: bool) -> Seq<Inst> {
    read_insts(a as int, WIDTH as nat) + read_insts(b as int, WIDTH as nat) + shift_insts(is_right)
        + write_insts(result as int, seq![ValueSource::Stack])
}

/// The code of [`decompose`]: `[] => [sign, abs(n)]`, with the sign bit of
/// the integer in the cell `n` in place.
pub open spec fn decompose_insts(n: u32) -> Seq<Inst> {
    read_insts(n as int, WIDTH as nat) + seq![Inst::Dup(None)] + abs_stack_insts() + seq![
        Inst::Swap,
        Inst::Push(0x8000_0000),
        Inst::U32CheckedAnd,
    ]
}

/// `|x|` for an integer.
pub open spec fn magnitude(x: int) -> int {
    if x < 0 {
        -x
    } else {
        x
    }
}

/// `[a] => [a_sign, a]`.
pub open spec fn sign_insts() -> Seq<Inst> {
    seq![Inst::Dup(None), Inst::U32CheckedSHR(Some(31))]
}

/// The code of [`prepare_stack_for_arithmetic`]: `[] => [b, a, b_sign, a_sign]`.
pub open spec fn prepare_insts(a: u32, b: u32) -> Seq<Inst> {
    read_insts(a as int, WIDTH as nat) + sign_insts() + read_insts(b as int, WIDTH as nat) + sign_insts()
        + seq![Inst::MovUp(3), Inst::MovUp(2)]
}

/// The code of [`gt_stack`]: `[b, a, b_sign, a_sign] => [a > b]`.
pub open spec fn gt_stack_insts() -> Seq<Inst> {
    seq![
        Inst::Dup(Some(3)),
        Inst::Dup(Some(3)),
        Inst::U32CheckedEq,
        Inst::MovUp(2),
        Inst::MovUp(2),
        Inst::U32CheckedGT,
        Inst::And,
        Inst::Swap,
        Inst::MovUp(2),
        Inst::U32CheckedGT,
        Inst::Or,
    ]
}

/// What [`gte`] puts before [`gt_stack`]: `[b, a, ..] => [b, a, .., a == b]`.
pub open spec fn equal_below_insts() -> Seq<Inst> {
    seq![Inst::Dup(Some(1)), Inst::Dup(Some(1)), Inst::U32CheckedEq, Inst::MovDown(4)]
}

/// What [`sub`] does after [`prepare_stack_for_arithmetic`]: `[b, a,
/// b_sign, a_sign] => [a - b]`, failing where the difference of the two
/// signed integers does not fit.
pub open spec fn sub_tail_insts() -> Seq<Inst> {
    seq![
        Inst::U32WrappingSub,
        Inst::Dup(None),
        Inst::U32CheckedSHR(Some(31)),
        Inst::Dup(Some(3)),
        Inst::MovUp(4),
        Inst::MovUp(4),
        Inst::If {
            condition: seq![Inst::U32CheckedEq, Inst::Not],
            then: seq![Inst::U32CheckedEq, Inst::Assert],
            else_: seq![Inst::Drop, Inst::Drop],
        },
    ]
}

/// What [`lt`] puts before [`gt_stack`]: `[b, a, ..] => [b, a, .., a != b]`.
pub open spec fn unequal_below_insts() -> Seq<Inst> {
    seq![Inst::Dup(Some(1)), Inst::Dup(Some(1)), Inst::U32CheckedEq, Inst::Not, Inst::MovDown(4)]
}

/// The code of [`add`].
pub open spec fn add_insts(a: u32, b: u32, result: u32) -> Seq<Inst> {
    read_insts(a as int, WIDTH as nat) + read_insts(b as int, WIDTH as nat) + add_stack_insts()
        + write_insts(result as int, seq![ValueSource::Stack])
}

/// Allocates an integer cell and appends the code that sets it to `value`
/// (memory starts zeroed, so 0 needs no code); returns the cell.
pub fn new(instructions: &mut Vec<Instruction>, memory: &mut Memory, value: i32) -> (symbol: u32)
    requires
        old(memory).next_addr() + WIDTH <= u32::MAX,
    ensures
        symbol == old(memory).next_addr(),
        final(memory).next_addr() == old(memory).next_addr() + WIDTH,
        view_seq(final(instructions)@) == view_seq(old(instructions)@) + if value != 0 {
            write_insts(symbol as int, seq![ValueSource::Immediate(value as u32)])
        } else {
            Seq::empty()
        },
{
    let symbol = memory.allocate(WIDTH);
    if value != 0 {
        let bits = [ValueSource::Immediate(value as u32)];
        proof {
            assert(bits@ =~= seq![ValueSource::Immediate(value as u32)]);
        }
        memory.write(instructions, symbol, &bits);
    } else {
        proof {
            assert(view_seq(instructions@) =~= view_seq(old(instructions)@) + Seq::<Inst>::empty());
        }
    }
    symbol
}

/// Appends the code that replaces the two integers on top of the stack by
/// their sum, failing where it overflows.
///
/// Stack transition: `[b, a] => [a + b]`.
pub fn add_stack(instructions: &mut Vec<Instruction>)
    ensures
        view_seq(final(instructions)@) == view_seq(old(instructions)@) + add_stack_insts(),
{
    let same_sign = vec![
        // [b, a_sign, a]
        Instruction::MovUp(2),
        Instruction::U32WrappingAdd,
        // [a + b, a_sign]
        Instruction::Dup(None),
        Instruction::U32CheckedSHR(Some(31)),
        Instruction::MovUp(2),
        Instruction::U32CheckedEq,
        // the sum keeps the sign of the operands
        Instruction::Assert,
    ];
    let different_signs = vec![Instruction::Swap, Instruction::Drop, Instruction::U32WrappingAdd];
    let condition = vec![Instruction::U32CheckedEq];
    proof {
        lemma_view_seq_map(same_sign@);
        lemma_view_seq_map(different_signs@);
        lemma_view_seq_map(condition@);
    }
    let branch = Instruction::If { condition: condition, then: same_sign, else_: different_signs };
    proof {
        let spec_branch = add_stack_insts()[7];
        assert(view_seq(branch->If_condition@) =~= spec_branch->If_condition);
        assert(view_seq(branch->If_then@) =~= spec_branch->If_then);
        assert(view_seq(branch->If_else_@) =~= spec_branch->If_else_);
        assert(branch@ == spec_branch);
    }
    let mut code = vec![
        // [b, a]
        Instruction::Dup(Some(1)),
        Instruction::U32CheckedSHR(Some(31)),
        Instruction::Dup(None),
        Instruction::MovUp(2),
        // [b, a_sign, a_sign, a]
        Instruction::Dup(None),
        Instruction::U32CheckedSHR(Some(31)),
        Instruction::MovUp(2),
        // [a_sign, b_sign, b, a_sign, a]
        branch,
    ];
    proof {
        lemma_view_seq_map(code@);
        assert(view_seq(code@) =~= add_stack_insts());
        lemma_view_seq_add(instructions@, code@);
    }
    instructions.append(&mut code);
}

/// Appends the code that adds the integers in the cells `a` and `b`, and
/// returns the fresh cell that holds the sum.
pub fn add(instructions: &mut Vec<Instruction>, memory: &mut Memory, a: u32, b: u32) -> (result: u32)
    requires
        old(memory).next_addr() + WIDTH <= u32::MAX,
        a + WIDTH <= u32::MAX,
        b + WIDTH <= u32::MAX,
    ensures
        result == old(memory).next_addr(),
        final(memory).next_addr() == old(memory).next_addr() + WIDTH,
        view_seq(final(instructions)@) == view_seq(old(instructions)@) + add_insts(a, b, result),
{
    let result = memory.allocate(WIDTH);
    memory.read(instructions, a, WIDTH);
    memory.read(instructions, b, WIDTH);
    add_stack(instructions);
    let from_stack = [ValueSource::Stack];
    proof {
        assert(from_stack@ =~= seq![ValueSource::Stack]);
    }
    memory.write(instructions, result, &from_stack);
    proof {
        assert(view_seq(instructions@) =~= view_seq(old(instructions)@) + add_insts(a, b, result));
    }
    result
}

/// The first part of [`add_stack_insts`]: both sign bits, under the
/// operands.
#[verifier::spinoff_prover]
#[verifier::rlimit(60)]
proof fn lemma_add_signs(x: u32, y: u32, mem: spec_fn(int) -> int, rest: Seq<int>, fuel: nat)
    ensures
        run(add_stack_insts().take(7), mem, seq![y as int, x as int] + rest, fuel) == Some(
            seq![sign_bit(x), sign_bit(y), y as int, sign_bit(x), x as int] + rest,
        ),
{
    let xi = x as int;
    let yi = y as int;
    let sx = sign_bit(x);
    let sy = sign_bit(y);
    lemma_sign_bit(x);
    lemma_sign_bit(y);
    let is = add_stack_insts().take(7);
    let t0 = seq![yi, xi] + rest;
    let t1 = seq![xi] + t0;
    let t2 = seq![sx] + t0;
    let t3 = seq![sx] + t2;
    let t4 = seq![yi, sx, sx, xi] + rest;
    let t5 = seq![yi] + t4;
    let t6 = seq![sy] + t4;
    let t7 = seq![sx, sy, yi, sx, xi] + rest;
    assert(t1.skip(1) =~= t0);
    assert(t3 =~= seq![sx, sx, yi, xi] + rest);
    assert(seq![t3[2]] + t3.take(2) + t3.skip(3) =~= t4);
    assert(t5.skip(1) =~= t4);
    assert(seq![t6[2]] + t6.take(2) + t6.skip(3) =~= t7);
    assert(step(is[0], mem, t0, fuel) == Some(t1));
    assert(step(is[1], mem, t1, fuel) == Some(t2));
    assert(step(is[2], mem, t2, fuel) == Some(t3));
    assert(step(is[3], mem, t3, fuel) == Some(t4));
    assert(step(is[4], mem, t4, fuel) == Some(t5));
    assert(step(is[5], mem, t5, fuel) == Some(t6));
    assert(step(is[6], mem, t6, fuel) == Some(t7));
    lemma_run_from(is, 6, mem, t6, fuel);
    lemma_run_from(is, 5, mem, t5, fuel);
    lemma_run_from(is, 4, mem, t4, fuel);
    lemma_run_from(is, 3, mem, t3, fuel);
    lemma_run_from(is, 2, mem, t2, fuel);
    lemma_run_from(is, 1, mem, t1, fuel);
    lemma_run_from(is, 0, mem, t0, fuel);
    assert(is.skip(0) =~= is);
    assert(is.skip(7) =~= Seq::<Inst>::empty());
}

/// The same-sign case of [`add_stack_insts`] up to its final assertion:
/// the wrapped sum, and whether its sign is that of the operands.
#[verifier::spinoff_prover]
#[verifier::rlimit(60)]
proof fn lemma_add_same_sign(x: u32, y: u32, mem: spec_fn(int) -> int, rest: Seq<int>, fuel: nat)
    ensures
        ({
            let xi = x as int;
            let yi = y as int;
            let sx = sign_bit(x);
            run(add_stack_insts()[7]->If_then.take(6), mem, seq![yi, sx, xi] + rest, fuel) == Some(
                seq![flag(sign_bit(((yi + xi) % 0x1_0000_0000int) as u32) == sx), (yi + xi) % 0x1_0000_0000int] + rest,
            )
        }),
{
    let xi = x as int;
    let yi = y as int;
    let sx = sign_bit(x);
    lemma_sign_bit(x);
    lemma_sign_bit(y);
    let is = add_stack_insts()[7]->If_then.take(6);
    let t0 = seq![yi, sx, xi] + rest;
    let t1 = seq![xi, yi, sx] + rest;
    let t2 = seq![(yi + xi) % 0x1_0000_0000int, sx] + rest;
    let t3 = seq![(yi + xi) % 0x1_0000_0000int, (yi + xi) % 0x1_0000_0000int, sx] + rest;
    let t4 = seq![sign_bit(((yi + xi) % 0x1_0000_0000int) as u32), (yi + xi) % 0x1_0000_0000int, sx] + rest;
    let t5 = seq![sx, sign_bit(((yi + xi) % 0x1_0000_0000int) as u32), (yi + xi) % 0x1_0000_0000int] + rest;
    let t6 = seq![flag(sign_bit(((yi + xi) % 0x1_0000_0000int) as u32) == sx), (yi + xi) % 0x1_0000_0000int] + rest;
    assert(seq![t0[2]] + t0.take(2) + t0.skip(3) =~= t1);
    assert(t1.skip(2) =~= seq![sx] + rest);
    assert((((yi + xi) % 0x1_0000_0000int) as u32) as int == (yi + xi) % 0x1_0000_0000int);
    lemma_sign_bit(((yi + xi) % 0x1_0000_0000int) as u32);
    assert(t3.skip(1) =~= t2);
    assert(seq![t4[2]] + t4.take(2) + t4.skip(3) =~= t5);
    assert(t5.skip(2) =~= seq![(yi + xi) % 0x1_0000_0000int] + rest);
    assert(step(is[0], mem, t0, fuel) == Some(t1));
    assert(step(is[1], mem, t1, fuel) == Some(t2));
    assert(step(is[2], mem, t2, fuel) == Some(t3));
    assert(step(is[3], mem, t3, fuel) == Some(t4));
    assert(step(is[4], mem, t4, fuel) == Some(t5));
    assert(step(is[5], mem, t5, fuel) == Some(t6));
    lemma_run_from(is, 5, mem, t5, fuel);
    lemma_run_from(is, 4, mem, t4, fuel);
    lemma_run_from(is, 3, mem, t3, fuel);
    lemma_run_from(is, 2, mem, t2, fuel);
    lemma_run_from(is, 1, mem, t1, fuel);
    lemma_run_from(is, 0, mem, t0, fuel);
    assert(is.skip(0) =~= is);
    assert(is.skip(6) =~= Seq::<Inst>::empty());
}

/// Appends the code that loads the integers in the cells `a` and `b` with
/// their sign bits.
///
/// Stack transition: `[] => [b, a, b_sign, a_sign]`.
pub fn prepare_stack_for_arithmetic(instructions: &mut Vec<Instruction>, memory: &Memory, a: u32, b: u32)
    requires
        a + WIDTH <= u32::MAX,
        b + WIDTH <= u32::MAX,
    ensures
        view_seq(final(instructions)@) == view_seq(old(instructions)@) + prepare_insts(a, b),
{
    memory.read(instructions, a, WIDTH);
    push_inst(instructions, Instruction::Dup(None));
    push_inst(instructions, Instruction::U32CheckedSHR(Some(31)));
    // [a_sign, a]
    memory.read(instructions, b, WIDTH);
    push_inst(instructions, Instruction::Dup(None));
    push_inst(instructions, Instruction::U32CheckedSHR(Some(31)));
    // [b_sign, b, a_sign, a]
    push_inst(instructions, Instruction::MovUp(3));
    push_inst(instructions, Instruction::MovUp(2));
    // [b, a, b_sign, a_sign]
    proof {
        assert(view_seq(instructions@) =~= view_seq(old(instructions)@) + prepare_insts(a, b));
    }
}

/// Appends the code that compares two integers with their sign bits.
///
/// Stack transition: `[b, a, b_sign, a_sign] => [a > b]`.
pub fn gt_stack(instructions: &mut Vec<Instruction>)
    ensures
        view_seq(final(instructions)@) == view_seq(old(instructions)@) + gt_stack_insts(),
{
    let mut code = vec![
        Instruction::Dup(Some(3)),
        Instruction::Dup(Some(3)),
        Instruction::U32CheckedEq,
        // [a_sign == b_sign, b, a, b_sign, a_sign]
        Instruction::MovUp(2),
        Instruction::MovUp(2),
        Instruction::U32CheckedGT,
        Instruction::And,
        // [a_sign == b_sign && a > b, b_sign, a_sign]
        Instruction::Swap,
        Instruction::MovUp(2),
        Instruction::U32CheckedGT,
        // [b_sign > a_sign, a_sign == b_sign && a > b]
        Instruction::Or,
    ];
    proof {
        lemma_view_seq_map(code@);
        assert(view_seq(code@) =~= gt_stack_insts());
        lemma_view_seq_add(instructions@, code@);
    }
    instructions.append(&mut code);
}

/// Appends the code that computes `a > b` for the integers in the cells `a`
/// and `b`, and returns the fresh cell that holds the result.
pub fn gt(instructions: &mut Vec<Instruction>, memory: &mut Memory, a: u32, b: u32) -> (result: u32)
    requires
        old(memory).next_addr() + WIDTH <= u32::MAX,
        a + WIDTH <= u32::MAX,
        b + WIDTH <= u32::MAX,
    ensures
        result == old(memory).next_addr(),
        final(memory).next_addr() == old(memory).next_addr() + WIDTH,
        view_seq(final(instructions)@) == view_seq(old(instructions)@) + prepare_insts(a, b)
            + gt_stack_insts() + write_insts(result as int, seq![ValueSource::Stack]),
{
    let result = memory.allocate(WIDTH);
    prepare_stack_for_arithmetic(instructions, memory, a, b);
    gt_stack(instructions);
    let from_stack = [ValueSource::Stack];
    proof {
        assert(from_stack@ =~= seq![ValueSource::Stack]);
    }
    memory.write(instructions, result, &from_stack);
    proof {
        assert(view_seq(instructions@) =~= view_seq(old(instructions)@) + prepare_insts(a, b)
            + gt_stack_insts() + write_insts(result as int, seq![ValueSource::Stack]));
    }
    result
}

/// Appends the code that computes `a >= b` for the integers in the cells
/// `a` and `b`, and returns the fresh cell that holds the result.
pub fn gte(instructions: &mut Vec<Instruction>, memory: &mut Memory, a: u32, b: u32) -> (result: u32)
    requires
        old(memory).next_addr() + WIDTH <= u32::MAX,
        a + WIDTH <= u32::MAX,
        b + WIDTH <= u32::MAX,
    ensures
        result == old(memory).next_addr(),
        final(memory).next_addr() == old(memory).next_addr() + WIDTH,
        view_seq(final(instructions)@) == view_seq(old(instructions)@) + prepare_insts(a, b)
            + equal_below_insts() + gt_stack_insts() + seq![Inst::Or] + write_insts(
            result as int,
            seq![ValueSource::Stack],
        ),
{
    let result = memory.allocate(WIDTH);
    prepare_stack_for_arithmetic(instructions, memory, a, b);
    push_inst(instructions, Instruction::Dup(Some(1)));
    push_inst(instructions, Instruction::Dup(Some(1)));
    push_inst(instructions, Instruction::U32CheckedEq);
    push_inst(instructions, Instruction::MovDown(4));
    // [b, a, b_sign, a_sign, a == b]
    gt_stack(instructions);
    push_inst(instructions, Instruction::Or);
    let from_stack = [ValueSource::Stack];
    proof {
        assert(from_stack@ =~= seq![ValueSource::Stack]);
    }
    memory.write(instructions, result, &from_stack);
    proof {
        assert(view_seq(instructions@) =~= view_seq(old(instructions)@) + prepare_insts(a, b)
            + equal_below_insts() + gt_stack_insts() + seq![Inst::Or] + write_insts(
            result as int,
            seq![ValueSource::Stack],
        ));
    }
    result
}

/// The code of [`gt_stack`] on the operands and their sign bits.
#[verifier::spinoff_prover]
#[verifier::rlimit(60)]
proof fn lemma_gt_stack_run(ai: int, bi: int, sa: int, sb: int, mem: spec_fn(int) -> int, rest: Seq<int>, fuel: nat)
    requires
        0 <= ai < 0x1_0000_0000, 0 <= bi < 0x1_0000_0000, sa == 0 || sa == 1, sb == 0 || sb == 1,
    ensures
        run(gt_stack_insts(), mem, seq![bi, ai, sb, sa] + rest, fuel) == Some(
            seq![flag((sa == sb && ai > bi) || sb > sa)] + rest,
        ),
{
    let is = gt_stack_insts();
    let t0 = seq![bi, ai, sb, sa] + rest;
    let t1 = seq![sa] + t0;
    let t2 = seq![sb] + t1;
    let t3 = seq![flag(sa == sb)] + t0;
    let t4 = seq![ai, flag(sa == sb), bi, sb, sa] + rest;
    let t5 = seq![bi, ai, flag(sa == sb), sb, sa] + rest;
    let t6 = seq![flag(ai > bi), flag(sa == sb), sb, sa] + rest;
    let t7 = seq![flag(sa == sb && ai > bi), sb, sa] + rest;
    let t8 = seq![sb, flag(sa == sb && ai > bi), sa] + rest;
    let t9 = seq![sa, sb, flag(sa == sb && ai > bi)] + rest;
    let t10 = seq![flag(sb > sa), flag(sa == sb && ai > bi)] + rest;
    let t11 = seq![flag((sa == sb && ai > bi) || sb > sa)] + rest;
    assert(t0[3] == sa);
    assert(t1[3] == sb);
    assert(t2.skip(2) =~= t0);
    assert(seq![t3[2]] + t3.take(2) + t3.skip(3) =~= t4);
    assert(seq![t4[2]] + t4.take(2) + t4.skip(3) =~= t5);
    assert(t5.skip(2) =~= seq![flag(sa == sb), sb, sa] + rest);
    assert(t6.skip(2) =~= seq![sb, sa] + rest);
    assert(seq![t7[1], t7[0]] + t7.skip(2) =~= t8);
    assert(seq![t8[2]] + t8.take(2) + t8.skip(3) =~= t9);
    assert(t9.skip(2) =~= seq![flag(sa == sb && ai > bi)] + rest);
    assert(t10.skip(2) =~= rest);
    assert(step(is[0], mem, t0, fuel) == Some(t1));
    assert(step(is[1], mem, t1, fuel) == Some(t2));
    assert(step(is[2], mem, t2, fuel) == Some(t3));
    assert(step(is[3], mem, t3, fuel) == Some(t4));
    assert(step(is[4], mem, t4, fuel) == Some(t5));
    assert(step(is[5], mem, t5, fuel) == Some(t6));
    assert(step(is[6], mem, t6, fuel) == Some(t7));
    assert(step(is[7], mem, t7, fuel) == Some(t8));
    assert(step(is[8], mem, t8, fuel) == Some(t9));
    assert(step(is[9], mem, t9, fuel) == Some(t10));
    assert(step(is[10], mem, t10, fuel) == Some(t11));
    lemma_run_from(is, 10, mem, t10, fuel);
    lemma_run_from(is, 9, mem, t9, fuel);
    lemma_run_from(is, 8, mem, t8, fuel);
    lemma_run_from(is, 7, mem, t7, fuel);
    lemma_run_from(is, 6, mem, t6, fuel);
    lemma_run_from(is, 5, mem, t5, fuel);
    lemma_run_from(is, 4, mem, t4, fuel);
    lemma_run_from(is, 3, mem, t3, fuel);
    lemma_run_from(is, 2, mem, t2, fuel);
    lemma_run_from(is, 1, mem, t1, fuel);
    lemma_run_from(is, 0, mem, t0, fuel);
    assert(is.skip(0) =~= is);
    assert(is.skip(11) =~= Seq::<Inst>::empty());
}

/// The sign of the first operand, under it.
#[verifier::spinoff_prover]
proof fn lemma_push_sign(x: u32, mem: spec_fn(int) -> int, rest: Seq<int>, fuel: nat)
    ensures
        run(sign_insts(), mem, seq![x as int] + rest, fuel) == Some(seq![sign_bit(x), x as int] + rest),
{
    let ai = x as int;
    let sa = sign_bit(x);
    let is = sign_insts();
    let t0 = seq![ai] + rest;
    let t1 = seq![ai, ai] + rest;
    let t2 = seq![sa, ai] + rest;
    lemma_sign_bit(x);
    assert(seq![t1[0] / pow2(31)] + t1.skip(1) =~= t2);
    assert(step(is[0], mem, t0, fuel) == Some(t1));
    assert(step(is[1], mem, t1, fuel) == Some(t2));
    lemma_run_from(is, 1, mem, t1, fuel);
    lemma_run_from(is, 0, mem, t0, fuel);
    assert(is.skip(0) =~= is);
    assert(is.skip(2) =~= Seq::<Inst>::empty());
}

/// Both operands over both sign bits.
#[verifier::spinoff_prover]
proof fn lemma_arrange_signs(ai: int, bi: int, sa: int, sb: int, mem: spec_fn(int) -> int, rest: Seq<int>, fuel: nat)
    ensures
        run(seq![Inst::MovUp(3), Inst::MovUp(2)], mem, seq![sb, bi, sa, ai] + rest, fuel) == Some(
            seq![bi, ai, sb, sa] + rest,
        ),
{
    let is = seq![Inst::MovUp(3), Inst::MovUp(2)];
    let t0 = seq![sb, bi, sa, ai] + rest;
    let t1 = seq![ai, sb, bi, sa] + rest;
    let t2 = seq![bi, ai, sb, sa] + rest;
    assert(seq![t0[3]] + t0.take(3) + t0.skip(4) =~= t1);
    assert(seq![t1[2]] + t1.take(2) + t1.skip(3) =~= t2);
    assert(step(is[0], mem, t0, fuel) == Some(t1));
    assert(step(is[1], mem, t1, fuel) == Some(t2));
    lemma_run_from(is, 1, mem, t1, fuel);
    lemma_run_from(is, 0, mem, t0, fuel);
    assert(is.skip(0) =~= is);
    assert(is.skip(2) =~= Seq::<Inst>::empty());
}

/// The code of [`prepare_stack_for_arithmetic`] pushes the integers in the
/// cells `a` and `b` and their sign bits.
#[verifier::spinoff_prover]
#[verifier::rlimit(60)]
pub proof fn lemma_prepare(a: u32, b: u32, mem: spec_fn(int) -> int, rest: Seq<int>, fuel: nat)
    requires
        a + WIDTH <= u32::MAX,
        b + WIDTH <= u32::MAX,
        0 <= mem(a as int) < u32_bound(),
        0 <= mem(b as int) < u32_bound(),
    ensures
        ({
            let x = mem(a as int) as u32;
            let y = mem(b as int) as u32;
            run(prepare_insts(a, b), mem, rest, fuel) == Some(
                seq![y as int, x as int, sign_bit(y), sign_bit(x)] + rest,
            )
        }),
{
    let x = mem(a as int) as u32;
    let y = mem(b as int) as u32;
    let ra = read_insts(a as int, WIDTH as nat);
    let rb = read_insts(b as int, WIDTH as nat);
    let sg = sign_insts();
    let mv = seq![Inst::MovUp(3), Inst::MovUp(2)];
    lemma_read_pushes_cells(a as int, 1, mem, rest, fuel);
    let s1 = seq![x as int] + rest;
    assert(Seq::new(1, |i: int| mem(a + i)) + rest =~= s1);
    lemma_push_sign(x, mem, rest, fuel);
    let s2 = seq![sign_bit(x), x as int] + rest;
    lemma_read_pushes_cells(b as int, 1, mem, s2, fuel);
    let s3 = seq![y as int] + s2;
    assert(Seq::new(1, |i: int| mem(b + i)) + s2 =~= s3);
    lemma_push_sign(y, mem, s2, fuel);
    let s4 = seq![sign_bit(y), y as int] + s2;
    assert(s4 =~= seq![sign_bit(y), y as int, sign_bit(x), x as int] + rest);
    lemma_arrange_signs(x as int, y as int, sign_bit(x), sign_bit(y), mem, rest, fuel);
    lemma_run_add(ra, sg, mem, rest, fuel);
    lemma_run_add(ra + sg, rb, mem, rest, fuel);
    lemma_run_add(ra + sg + rb, sg, mem, rest, fuel);
    lemma_run_add(ra + sg + rb + sg, mv, mem, rest, fuel);
}

/// The code of [`gt`], up to the store of its result, pushes whether the
/// signed integer in the cell `a` is greater than the one in `b`.
#[verifier::spinoff_prover]
#[verifier::rlimit(60)]
pub proof fn lemma_gt_computes(a: u32, b: u32, mem: spec_fn(int) -> int, rest: Seq<int>, fuel: nat)
    requires
        a + WIDTH <= u32::MAX,
        b + WIDTH <= u32::MAX,
        0 <= mem(a as int) < u32_bound(),
        0 <= mem(b as int) < u32_bound(),
    ensures
        ({
            let x = mem(a as int) as u32;
            let y = mem(b as int) as u32;
            run(prepare_insts(a, b) + gt_stack_insts(), mem, rest, fuel) == Some(
                seq![flag(signed(x) > signed(y))] + rest,
            )
        }),
{
    let x = mem(a as int) as u32;
    let y = mem(b as int) as u32;
    lemma_prepare(a, b, mem, rest, fuel);
    lemma_gt_stack_run(x as int, y as int, sign_bit(x), sign_bit(y), mem, rest, fuel);
    lemma_run_add(prepare_insts(a, b), gt_stack_insts(), mem, rest, fuel);
    assert(((sign_bit(x) == sign_bit(y) && x > y) || sign_bit(y) > sign_bit(x)) == (signed(x) > signed(y)));
}

/// The code of [`gte`], up to the store of its result, pushes whether the
/// signed integer in the cell `a` is at least the one in `b`.
#[verifier::spinoff_prover]
#[verifier::rlimit(60)]
pub proof fn lemma_gte_computes(a: u32, b: u32, mem: spec_fn(int) -> int, rest: Seq<int>, fuel: nat)
    requires
        a + WIDTH <= u32::MAX,
        b + WIDTH <= u32::MAX,
        0 <= mem(a as int) < u32_bound(),
        0 <= mem(b as int) < u32_bound(),
    ensures
        ({
            let x = mem(a as int) as u32;
            let y = mem(b as int) as u32;
            run(prepare_insts(a, b) + equal_below_insts() + gt_stack_insts() + seq![Inst::Or], mem, rest, fuel)
                == Some(seq![flag(signed(x) >= signed(y))] + rest)
        }),
{
    let x = mem(a as int) as u32;
    let y = mem(b as int) as u32;
    let xi = x as int;
    let yi = y as int;
    let sx = sign_bit(x);
    let sy = sign_bit(y);
    lemma_prepare(a, b, mem, rest, fuel);
    let e = equal_below_insts();
    let t0 = seq![yi, xi, sy, sx] + rest;
    let t1 = seq![xi] + t0;
    let t2 = seq![yi] + t1;
    let t3 = seq![flag(xi == yi)] + t0;
    let below = seq![flag(xi == yi)] + rest;
    let t4 = seq![yi, xi, sy, sx] + below;
    assert(t2.skip(2) =~= t0);
    assert(t3.subrange(1, 5) + seq![t3[0]] + t3.skip(5) =~= t4);
    assert(step(e[0], mem, t0, fuel) == Some(t1));
    assert(step(e[1], mem, t1, fuel) == Some(t2));
    assert(step(e[2], mem, t2, fuel) == Some(t3));
    assert(step(e[3], mem, t3, fuel) == Some(t4));
    lemma_run_from(e, 3, mem, t3, fuel);
    lemma_run_from(e, 2, mem, t2, fuel);
    lemma_run_from(e, 1, mem, t1, fuel);
    lemma_run_from(e, 0, mem, t0, fuel);
    assert(e.skip(0) =~= e);
    assert(e.skip(4) =~= Seq::<Inst>::empty());
    lemma_gt_stack_run(xi, yi, sx, sy, mem, below, fuel);
    let g = flag((sx == sy && xi > yi) || sy > sx);
    let u = seq![g, flag(xi == yi)] + rest;
    assert(seq![g] + below =~= u);
    assert(u.skip(2) =~= rest);
    assert(seq![Inst::Or].drop_last() =~= Seq::<Inst>::empty());
    assert(run(Seq::<Inst>::empty(), mem, u, fuel) == Some(u));
    assert(step(Inst::Or, mem, u, fuel) == Some(seq![flag(xi == yi || g == 1)] + rest));
    assert(run(seq![Inst::Or], mem, u, fuel) == Some(seq![flag(xi == yi || g == 1)] + rest));
    let p = prepare_insts(a, b);
    lemma_run_add(p, e, mem, rest, fuel);
    lemma_run_add(p + e, gt_stack_insts(), mem, rest, fuel);
    lemma_run_add(p + e + gt_stack_insts(), seq![Inst::Or], mem, rest, fuel);
    assert(((sx == sy && xi > yi) || sy > sx) == (signed(x) > signed(y)));
    assert((xi == yi || (signed(x) > signed(y))) == (signed(x) >= signed(y)));
}

/// Appends the code that subtracts the integer in the cell `b` from the one
/// in `a`, and returns the fresh cell that holds the difference.
pub fn sub(instructions: &mut Vec<Instruction>, memory: &mut Memory, a: u32, b: u32) -> (result: u32)
    requires
        old(memory).next_addr() + WIDTH <= u32::MAX,
        a + WIDTH <= u32::MAX,
        b + WIDTH <= u32::MAX,
    ensures
        result == old(memory).next_addr(),
        final(memory).next_addr() == old(memory).next_addr() + WIDTH,
        view_seq(final(instructions)@) == view_seq(old(instructions)@) + prepare_insts(a, b)
            + sub_tail_insts() + write_insts(result as int, seq![ValueSource::Stack]),
{
    let result = memory.allocate(WIDTH);
    prepare_stack_for_arithmetic(instructions, memory, a, b);
    // [b, a, b_sign, a_sign]
    let condition = vec![Instruction::U32CheckedEq, Instruction::Not];
    // the signs differ: the difference must keep the sign of `a`
    let then = vec![Instruction::U32CheckedEq, Instruction::Assert];
    let else_ = vec![Instruction::Drop, Instruction::Drop];
    proof {
        lemma_view_seq_map(condition@);
        lemma_view_seq_map(then@);
        lemma_view_seq_map(else_@);
    }
    let check = Instruction::If { condition, then, else_ };
    proof {
        let spec_check = sub_tail_insts()[6];
        assert(view_seq(check->If_condition@) =~= spec_check->If_condition);
        assert(view_seq(check->If_then@) =~= spec_check->If_then);
        assert(view_seq(check->If_else_@) =~= spec_check->If_else_);
        assert(check@ == spec_check);
    }
    let mut code = vec![
        Instruction::U32WrappingSub,
        // [a - b, b_sign, a_sign]
        Instruction::Dup(None),
        Instruction::U32CheckedSHR(Some(31)),
        Instruction::Dup(Some(3)),
        Instruction::MovUp(4),
        Instruction::MovUp(4),
        // [b_sign, a_sign, a_sign, result_sign, a - b]
        check,
    ];
    proof {
        lemma_view_seq_map(code@);
        assert(view_seq(code@) =~= sub_tail_insts());
        lemma_view_seq_add(instructions@, code@);
    }
    instructions.append(&mut code);
    let from_stack = [ValueSource::Stack];
    proof {
        assert(from_stack@ =~= seq![ValueSource::Stack]);
    }
    memory.write(instructions, result, &from_stack);
    proof {
        assert(view_seq(instructions@) =~= view_seq(old(instructions)@) + prepare_insts(a, b)
            + sub_tail_insts() + write_insts(result as int, seq![ValueSource::Stack]));
    }
    result
}

/// Appends the code that computes `a <= b` for the integers in the cells
/// `a` and `b`, and returns the fresh cell that holds the result.
pub fn lte(instructions: &mut Vec<Instruction>, memory: &mut Memory, a: u32, b: u32) -> (result: u32)
    requires
        old(memory).next_addr() + WIDTH <= u32::MAX,
        a + WIDTH <= u32::MAX,
        b + WIDTH <= u32::MAX,
    ensures
        result == old(memory).next_addr(),
        final(memory).next_addr() == old(memory).next_addr() + WIDTH,
        view_seq(final(instructions)@) == view_seq(old(instructions)@) + prepare_insts(a, b)
            + gt_stack_insts() + seq![Inst::Not] + write_insts(result as int, seq![ValueSource::Stack]),
{
    let result = memory.allocate(WIDTH);
    prepare_stack_for_arithmetic(instructions, memory, a, b);
    gt_stack(instructions);
    push_inst(instructions, Instruction::Not);
    let from_stack = [ValueSource::Stack];
    proof {
        assert(from_stack@ =~= seq![ValueSource::Stack]);
    }
    memory.write(instructions, result, &from_stack);
    proof {
        assert(view_seq(instructions@) =~= view_seq(old(instructions)@) + prepare_insts(a, b)
            + gt_stack_insts() + seq![Inst::Not] + write_insts(result as int, seq![ValueSource::Stack]));
    }
    result
}

/// The first part of [`sub_tail_insts`]: the wrapped difference and the
/// sign bits to compare.
#[verifier::spinoff_prover]
#[verifier::rlimit(60)]
proof fn lemma_sub_signs(x: u32, y: u32, mem: spec_fn(int) -> int, rest: Seq<int>, fuel: nat)
    ensures
        ({
            let xi = x as int;
            let yi = y as int;
            let sx = sign_bit(x);
            let sy = sign_bit(y);
            run(sub_tail_insts().take(6), mem, seq![yi, xi, sy, sx] + rest, fuel) == Some(
                seq![sy, sx, sx, sign_bit(((xi - yi + 0x1_0000_0000int) % 0x1_0000_0000int) as u32), (xi - yi + 0x1_0000_0000int) % 0x1_0000_0000int] + rest,
            )
        }),
{
    let xi = x as int;
    let yi = y as int;
    let sx = sign_bit(x);
    let sy = sign_bit(y);
    let is = sub_tail_insts().take(6);
    let t0 = seq![yi, xi, sy, sx] + rest;
    let t1 = seq![(xi - yi + 0x1_0000_0000int) % 0x1_0000_0000int, sy, sx] + rest;
    let t2 = seq![(xi - yi + 0x1_0000_0000int) % 0x1_0000_0000int] + t1;
    let t3 = seq![sign_bit(((xi - yi + 0x1_0000_0000int) % 0x1_0000_0000int) as u32), (xi - yi + 0x1_0000_0000int) % 0x1_0000_0000int, sy, sx] + rest;
    let t4 = seq![sx] + t3;
    let t5 = seq![sx, sx, sign_bit(((xi - yi + 0x1_0000_0000int) % 0x1_0000_0000int) as u32), (xi - yi + 0x1_0000_0000int) % 0x1_0000_0000int, sy] + rest;
    let t6 = seq![sy, sx, sx, sign_bit(((xi - yi + 0x1_0000_0000int) % 0x1_0000_0000int) as u32), (xi - yi + 0x1_0000_0000int) % 0x1_0000_0000int] + rest;
    lemma_sign_bit(x);
    lemma_sign_bit(y);
    assert(u32_bound() == 0x1_0000_0000int);
    assert(t0.skip(2) =~= seq![sy, sx] + rest);
    assert((((xi - yi + 0x1_0000_0000int) % 0x1_0000_0000int) as u32) as int == (xi - yi + 0x1_0000_0000int) % 0x1_0000_0000int);
    lemma_sign_bit(((xi - yi + 0x1_0000_0000int) % 0x1_0000_0000int) as u32);
    assert(t2.skip(1) =~= t1);
    assert(t3[3] == sx);
    assert(seq![t4[4]] + t4.take(4) + t4.skip(5) =~= t5);
    assert(seq![t5[4]] + t5.take(4) + t5.skip(5) =~= t6);
    assert(step(is[0], mem, t0, fuel) == Some(t1));
    assert(step(is[1], mem, t1, fuel) == Some(t2));
    assert(step(is[2], mem, t2, fuel) == Some(t3));
    assert(step(is[3], mem, t3, fuel) == Some(t4));
    assert(step(is[4], mem, t4, fuel) == Some(t5));
    assert(step(is[5], mem, t5, fuel) == Some(t6));
    lemma_run_from(is, 5, mem, t5, fuel);
    lemma_run_from(is, 4, mem, t4, fuel);
    lemma_run_from(is, 3, mem, t3, fuel);
    lemma_run_from(is, 2, mem, t2, fuel);
    lemma_run_from(is, 1, mem, t1, fuel);
    lemma_run_from(is, 0, mem, t0, fuel);
    assert(is.skip(0) =~= is);
    assert(is.skip(6) =~= Seq::<Inst>::empty());
}

/// The code of [`sub`], up to the store of its result, subtracts the
/// signed integer in the cell `b` from the one in `a`: the bits of the
/// difference where it fits in 32 bits, a fault otherwise.
#[verifier::spinoff_prover]
#[verifier::rlimit(60)]
pub proof fn lemma_sub_computes(a: u32, b: u32, mem: spec_fn(int) -> int, rest: Seq<int>, fuel: nat)
    requires
        a + WIDTH <= u32::MAX,
        b + WIDTH <= u32::MAX,
        0 <= mem(a as int) < u32_bound(),
        0 <= mem(b as int) < u32_bound(),
    ensures
        ({
            let x = mem(a as int) as u32;
            let y = mem(b as int) as u32;
            run(prepare_insts(a, b) + sub_tail_insts(), mem, rest, fuel) == if -0x8000_0000 <= signed(x)
                - signed(y) < 0x8000_0000 {
                Some(seq![(x - y + 0x1_0000_0000int) % 0x1_0000_0000int] + rest)
            } else {
                None::<Seq<int>>
            }
        }),
{
    let x = mem(a as int) as u32;
    let y = mem(b as int) as u32;
    let xi = x as int;
    let yi = y as int;
    let sx = sign_bit(x);
    let sy = sign_bit(y);
    lemma_sign_bit(x);
    lemma_sign_bit(y);
    lemma_prepare(a, b, mem, rest, fuel);
    lemma_sub_signs(x, y, mem, rest, fuel);
    let t0 = seq![yi, xi, sy, sx] + rest;
    let is = sub_tail_insts();
    let w = (xi - yi + 0x1_0000_0000int) % 0x1_0000_0000int;
    lemma_sign_bit(w as u32);
    assert((w as u32) as int == w);
    let sw = sign_bit(w as u32);
    let t6 = seq![sy, sx, sx, sw, w] + rest;
    let v = seq![sx, sw, w] + rest;
    lemma_run_add(is.take(6), seq![is[6]], mem, t0, fuel);
    assert(is.take(6) + seq![is[6]] =~= is);
    assert(seq![is[6]].drop_last() =~= Seq::<Inst>::empty());
    assert(run(Seq::<Inst>::empty(), mem, t6, fuel) == Some(t6));
    let cond = is[6]->If_condition;
    let c1 = seq![flag(sx == sy), sx, sw, w] + rest;
    let c2 = seq![flag(sx != sy), sx, sw, w] + rest;
    assert(t6.skip(2) =~= seq![sx, sw, w] + rest);
    assert(c1.drop_first() =~= c2.drop_first());
    assert(step(cond[0], mem, t6, fuel) == Some(c1));
    assert(step(cond[1], mem, c1, fuel) == Some(c2));
    lemma_run_from(cond, 1, mem, c1, fuel);
    lemma_run_from(cond, 0, mem, t6, fuel);
    assert(cond.skip(0) =~= cond);
    assert(cond.skip(2) =~= Seq::<Inst>::empty());
    assert(c2.drop_first() =~= v);
    let ok = -0x8000_0000 <= signed(x) - signed(y) < 0x8000_0000;
    let expected = if ok {
        Some(seq![(x - y + 0x1_0000_0000int) % 0x1_0000_0000int] + rest)
    } else {
        None::<Seq<int>>
    };
    if xi >= yi {
        assert(w == xi - yi);
    } else {
        assert(w == xi - yi + 0x1_0000_0000);
    }
    if sx != sy {
        let th = is[6]->If_then;
        let f = seq![flag(sw == sx), w] + rest;
        assert(v.skip(2) =~= seq![w] + rest);
        assert(step(th[0], mem, v, fuel) == Some(f));
        assert((sw == sx) == ok);
        assert(f.drop_first() =~= seq![w] + rest);
        lemma_run_from(th, 1, mem, f, fuel);
        lemma_run_from(th, 0, mem, v, fuel);
        assert(th.skip(0) =~= th);
        assert(th.skip(2) =~= Seq::<Inst>::empty());
        assert(run(th, mem, v, fuel) == expected);
    } else {
        let el = is[6]->If_else_;
        let f = seq![sw, w] + rest;
        assert(v.drop_first() =~= f);
        assert(f.drop_first() =~= seq![w] + rest);
        lemma_run_from(el, 1, mem, f, fuel);
        lemma_run_from(el, 0, mem, v, fuel);
        assert(el.skip(0) =~= el);
        assert(el.skip(2) =~= Seq::<Inst>::empty());
        assert(ok);
        assert(run(el, mem, v, fuel) == expected);
    }
    assert(step(is[6], mem, t6, fuel) == expected);
    lemma_run_add(prepare_insts(a, b), sub_tail_insts(), mem, rest, fuel);
}

/// The code of [`lte`], up to the store of its result, pushes whether the
/// signed integer in the cell `a` is at most the one in `b`.
#[verifier::spinoff_prover]
#[verifier::rlimit(60)]
pub proof fn lemma_lte_computes(a: u32, b: u32, mem: spec_fn(int) -> int, rest: Seq<int>, fuel: nat)
    requires
        a + WIDTH <= u32::MAX,
        b + WIDTH <= u32::MAX,
        0 <= mem(a as int) < u32_bound(),
        0 <= mem(b as int) < u32_bound(),
    ensures
        ({
            let x = mem(a as int) as u32;
            let y = mem(b as int) as u32;
            run(prepare_insts(a, b) + gt_stack_insts() + seq![Inst::Not], mem, rest, fuel) == Some(
                seq![flag(signed(x) <= signed(y))] + rest,
            )
        }),
{
    let x = mem(a as int) as u32;
    let y = mem(b as int) as u32;
    lemma_gt_computes(a, b, mem, rest, fuel);
    let g = seq![flag(signed(x) > signed(y))] + rest;
    assert(seq![Inst::Not].drop_last() =~= Seq::<Inst>::empty());
    assert(run(Seq::<Inst>::empty(), mem, g, fuel) == Some(g));
    assert(g.drop_first() =~= rest);
    assert(1 - flag(signed(x) > signed(y)) == flag(signed(x) <= signed(y)));
    assert(step(Inst::Not, mem, g, fuel) == Some(seq![flag(signed(x) <= signed(y))] + rest));
    assert(run(seq![Inst::Not], mem, g, fuel) == Some(seq![flag(signed(x) <= signed(y))] + rest));
    lemma_run_add(prepare_insts(a, b) + gt_stack_insts(), seq![Inst::Not], mem, rest, fuel);
}

/// Appends the code that computes `a < b` for the integers in the cells `a`
/// and `b`, and returns the fresh cell that holds the result.
pub fn lt(instructions: &mut Vec<Instruction>, memory: &mut Memory, a: u32, b: u32) -> (result: u32)
    requires
        old(memory).next_addr() + WIDTH <= u32::MAX,
        a + WIDTH <= u32::MAX,
        b + WIDTH <= u32::MAX,
    ensures
        result == old(memory).next_addr(),
        final(memory).next_addr() == old(memory).next_addr() + WIDTH,
        view_seq(final(instructions)@) == view_seq(old(instructions)@) + prepare_insts(a, b)
            + unequal_below_insts() + gt_stack_insts() + seq![Inst::Not, Inst::And] + write_insts(
            result as int,
            seq![ValueSource::Stack],
        ),
{
    let result = memory.allocate(WIDTH);
    prepare_stack_for_arithmetic(instructions, memory, a, b);
    push_inst(instructions, Instruction::Dup(Some(1)));
    push_inst(instructions, Instruction::Dup(Some(1)));
    push_inst(instructions, Instruction::U32CheckedEq);
    push_inst(instructions, Instruction::Not);
    push_inst(instructions, Instruction::MovDown(4));
    // [b, a, b_sign, a_sign, a != b]
    gt_stack(instructions);
    push_inst(instructions, Instruction::Not);
    push_inst(instructions, Instruction::And);
    let from_stack = [ValueSource::Stack];
    proof {
        assert(from_stack@ =~= seq![ValueSource::Stack]);
    }
    memory.write(instructions, result, &from_stack);
    proof {
        assert(view_seq(instructions@) =~= view_seq(old(instructions)@) + prepare_insts(a, b)
            + unequal_below_insts() + gt_stack_insts() + seq![Inst::Not, Inst::And] + write_insts(
            result as int,
            seq![ValueSource::Stack],
        ));
    }
    result
}

/// The code of [`lt`], up to the store of its result, pushes whether the
/// signed integer in the cell `a` is less than the one in `b`.
#[verifier::spinoff_prover]
#[verifier::rlimit(60)]
pub proof fn lemma_lt_computes(a: u32, b: u32, mem: spec_fn(int) -> int, rest: Seq<int>, fuel: nat)
    requires
        a + WIDTH <= u32::MAX,
        b + WIDTH <= u32::MAX,
        0 <= mem(a as int) < u32_bound(),
        0 <= mem(b as int) < u32_bound(),
    ensures
        ({
            let x = mem(a as int) as u32;
            let y = mem(b as int) as u32;
            run(
                prepare_insts(a, b) + unequal_below_insts() + gt_stack_insts() + seq![Inst::Not, Inst::And],
                mem,
                rest,
                fuel,
            ) == Some(seq![flag(signed(x) < signed(y))] + rest)
        }),
{
    let x = mem(a as int) as u32;
    let y = mem(b as int) as u32;
    let xi = x as int;
    let yi = y as int;
    let sx = sign_bit(x);
    let sy = sign_bit(y);
    lemma_prepare(a, b, mem, rest, fuel);
    let e = unequal_below_insts();
    let t0 = seq![yi, xi, sy, sx] + rest;
    let t1 = seq![xi] + t0;
    let t2 = seq![yi] + t1;
    let t3 = seq![flag(xi == yi)] + t0;
    let t4 = seq![flag(xi != yi)] + t0;
    let below = seq![flag(xi != yi)] + rest;
    let t5 = seq![yi, xi, sy, sx] + below;
    assert(t2.skip(2) =~= t0);
    assert(t3.drop_first() =~= t0);
    assert(t4.subrange(1, 5) + seq![t4[0]] + t4.skip(5) =~= t5);
    assert(step(e[0], mem, t0, fuel) == Some(t1));
    assert(step(e[1], mem, t1, fuel) == Some(t2));
    assert(step(e[2], mem, t2, fuel) == Some(t3));
    assert(step(e[3], mem, t3, fuel) == Some(t4));
    assert(step(e[4], mem, t4, fuel) == Some(t5));
    lemma_run_from(e, 4, mem, t4, fuel);
    lemma_run_from(e, 3, mem, t3, fuel);
    lemma_run_from(e, 2, mem, t2, fuel);
    lemma_run_from(e, 1, mem, t1, fuel);
    lemma_run_from(e, 0, mem, t0, fuel);
    assert(e.skip(0) =~= e);
    assert(e.skip(5) =~= Seq::<Inst>::empty());
    lemma_gt_stack_run(xi, yi, sx, sy, mem, below, fuel);
    let g = flag((sx == sy && xi > yi) || sy > sx);
    let u0 = seq![g, flag(xi != yi)] + rest;
    let u1 = seq![1 - g, flag(xi != yi)] + rest;
    let u2 = seq![flag(xi != yi && 1 - g == 1)] + rest;
    assert(seq![g] + below =~= u0);
    assert(u0.drop_first() =~= u1.drop_first());
    assert(u1.skip(2) =~= rest);
    let tail = seq![Inst::Not, Inst::And];
    assert(step(tail[0], mem, u0, fuel) == Some(u1));
    assert(step(tail[1], mem, u1, fuel) == Some(u2));
    lemma_run_from(tail, 1, mem, u1, fuel);
    lemma_run_from(tail, 0, mem, u0, fuel);
    assert(tail.skip(0) =~= tail);
    assert(tail.skip(2) =~= Seq::<Inst>::empty());
    let p = prepare_insts(a, b);
    lemma_run_add(p, e, mem, rest, fuel);
    lemma_run_add(p + e, gt_stack_insts(), mem, rest, fuel);
    lemma_run_add(p + e + gt_stack_insts(), tail, mem, rest, fuel);
    assert(((sx == sy && xi > yi) || sy > sx) == (signed(x) > signed(y)));
    assert((xi != yi && !(signed(x) > signed(y))) == (signed(x) < signed(y)));
}

/// The code of [`add_stack`] adds the signed integers with bits `x` and `y`:
/// where their sum fits in 32 bits it leaves the bits of the sum, and
/// otherwise the machine faults.
#[verifier::spinoff_prover]
#[verifier::rlimit(60)]
pub proof fn lemma_add_stack_computes(x: u32, y: u32, mem: spec_fn(int) -> int, rest: Seq<int>, fuel: nat)
    ensures
        run(add_stack_insts(), mem, seq![y as int, x as int] + rest, fuel) == if -0x8000_0000 <= signed(
            x,
        ) + signed(y) < 0x8000_0000 {
            Some(seq![(x + y) % 0x1_0000_0000int] + rest)
        } else {
            None::<Seq<int>>
        },
{
    let xi = x as int;
    let yi = y as int;
    let sx = sign_bit(x);
    let sy = sign_bit(y);
    let is = add_stack_insts();
    lemma_add_signs(x, y, mem, rest, fuel);
    let t7 = seq![sx, sy, yi, sx, xi] + rest;
    let u = seq![yi, sx, xi] + rest;
    lemma_run_add(is.take(7), seq![is[7]], mem, seq![yi, xi] + rest, fuel);
    assert(is.take(7) + seq![is[7]] =~= is);
    assert(seq![is[7]].drop_last() =~= Seq::<Inst>::empty());
    assert(run(seq![is[7]], mem, t7, fuel) == step(is[7], mem, t7, fuel));
    let cond = is[7]->If_condition;
    assert(cond =~= seq![Inst::U32CheckedEq]);
    assert(cond.drop_last() =~= Seq::<Inst>::empty());
    assert(t7.skip(2) =~= u);
    lemma_sign_bit(x);
    lemma_sign_bit(y);
    assert(run(Seq::<Inst>::empty(), mem, t7, fuel) == Some(t7));
    assert(step(Inst::U32CheckedEq, mem, t7, fuel) == Some(seq![flag(sy == sx)] + u));
    assert(run(cond, mem, t7, fuel) == Some(seq![flag(sy == sx)] + u));
    assert((seq![flag(sy == sx)] + u).drop_first() =~= u);
    let w = (yi + xi) % 0x1_0000_0000int;
    let ok = -0x8000_0000 <= signed(x) + signed(y) < 0x8000_0000;
    let expected = if ok {
        Some(seq![(x + y) % 0x1_0000_0000int] + rest)
    } else {
        None::<Seq<int>>
    };
    assert(w == (x + y) % 0x1_0000_0000int);
    if sx == 0 && sy == 0 {
        assert(xi + yi < 0x1_0000_0000);
        assert(w == xi + yi);
    } else if sx == 1 && sy == 1 {
        assert(0x1_0000_0000 <= xi + yi < 0x2_0000_0000);
        assert(w == xi + yi - 0x1_0000_0000);
    }
    if sx == sy {
        let then = is[7]->If_then;
        lemma_add_same_sign(x, y, mem, rest, fuel);
        lemma_run_add(then.take(6), seq![then[6]], mem, u, fuel);
        assert(then.take(6) + seq![then[6]] =~= then);
        assert(seq![then[6]].drop_last() =~= Seq::<Inst>::empty());
        lemma_sign_bit(w as u32);
        assert((w as u32) as int == w);
        assert(then[6] == Inst::Assert);
        assert((sign_bit(w as u32) == sx) == ok);
        assert(run(seq![then[6]], mem, seq![flag(sign_bit(w as u32) == sx), w] + rest, fuel) == step(
            Inst::Assert,
            mem,
            seq![flag(sign_bit(w as u32) == sx), w] + rest,
            fuel,
        ));
        assert((seq![flag(sign_bit(w as u32) == sx), w] + rest).drop_first() =~= seq![w] + rest);
        assert(run(then, mem, u, fuel) == expected);
    } else {
        let e = is[7]->If_else_;
        let e0 = u;
        let e1 = seq![sx, yi, xi] + rest;
        let e2 = seq![yi, xi] + rest;
        let e3 = seq![w] + rest;
        assert(seq![e0[1], e0[0]] + e0.skip(2) =~= e1);
        assert(e1.drop_first() =~= e2);
        assert(e2.skip(2) =~= rest);
        assert(step(e[0], mem, e0, fuel) == Some(e1));
        assert(step(e[1], mem, e1, fuel) == Some(e2));
        assert(step(e[2], mem, e2, fuel) == Some(e3));
        lemma_run_from(e, 2, mem, e2, fuel);
        lemma_run_from(e, 1, mem, e1, fuel);
        lemma_run_from(e, 0, mem, e0, fuel);
        assert(e.skip(0) =~= e);
        assert(e.skip(3) =~= Seq::<Inst>::empty());
        assert(ok);
        assert(run(e, mem, u, fuel) == expected);
    }
    assert(step(is[7], mem, t7, fuel) == expected);
}

/// The code of [`add`], up to the store of the result, adds the signed
/// integers in the cells `a` and `b`: the bits of the sum where it fits in
/// 32 bits, a fault otherwise.
#[verifier::spinoff_prover]
#[verifier::rlimit(60)]
pub proof fn lemma_add_computes(a: u32, b: u32, mem: spec_fn(int) -> int, rest: Seq<int>, fuel: nat)
    requires
        a + WIDTH <= u32::MAX,
        b + WIDTH <= u32::MAX,
        0 <= mem(a as int) < u32_bound(),
        0 <= mem(b as int) < u32_bound(),
    ensures
        ({
            let x = mem(a as int) as u32;
            let y = mem(b as int) as u32;
            run(
                read_insts(a as int, WIDTH as nat) + read_insts(b as int, WIDTH as nat) + add_stack_insts(),
                mem,
                rest,
                fuel,
            ) == if -0x8000_0000 <= signed(x) + signed(y) < 0x8000_0000 {
                Some(seq![(x + y) % 0x1_0000_0000int] + rest)
            } else {
                None::<Seq<int>>
            }
        }),
{
    let x = mem(a as int) as u32;
    let y = mem(b as int) as u32;
    let ra = read_insts(a as int, WIDTH as nat);
    let rb = read_insts(b as int, WIDTH as nat);
    lemma_read_pushes_cells(a as int, 1, mem, rest, fuel);
    let s1 = seq![x as int] + rest;
    assert(Seq::new(1, |i: int| mem(a + i)) + rest =~= s1);
    lemma_read_pushes_cells(b as int, 1, mem, s1, fuel);
    let s2 = seq![y as int, x as int] + rest;
    assert(Seq::new(1, |i: int| mem(b + i)) + s1 =~= s2);
    lemma_add_stack_computes(x, y, mem, rest, fuel);
    lemma_run_add(ra, rb, mem, rest, fuel);
    lemma_run_add(ra + rb, add_stack_insts(), mem, rest, fuel);
}

/// Appends the code that replaces the integer on top of the stack by its
/// absolute value, failing on `i32::MIN`, whose absolute value does not fit.
///
/// Stack transition: `[value] => [abs(value)]`.
pub fn abs_stack(instructions: &mut Vec<Instruction>)
    ensures
        view_seq(final(instructions)@) == view_seq(old(instructions)@) + abs_stack_insts(),
{
    let condition = vec![Instruction::Dup(None), Instruction::U32CheckedSHR(Some(31))];
    let then = vec![Instruction::U32CheckedNot, Instruction::Push(1), Instruction::U32CheckedAdd];
    let else_: Vec<Instruction> = Vec::new();
    proof {
        lemma_view_seq_map(condition@);
        lemma_view_seq_map(then@);
        lemma_view_seq_map(else_@);
    }
    let branch = Instruction::If { condition, then, else_ };
    proof {
        let spec_branch = abs_stack_insts()[4];
        assert(view_seq(branch->If_condition@) =~= spec_branch->If_condition);
        assert(view_seq(branch->If_then@) =~= spec_branch->If_then);
        assert(view_seq(branch->If_else_@) =~= spec_branch->If_else_);
        assert(branch@ == spec_branch);
    }
    let mut code = vec![
        // [value]
        Instruction::Dup(None),
        Instruction::Push(0x8000_0000),
        Instruction::U32CheckedEq,
        // [value == i32::MIN, value]
        Instruction::AssertZero,
        // negative values are complemented and incremented
        branch,
    ];
    proof {
        lemma_view_seq_map(code@);
        assert(view_seq(code@) =~= abs_stack_insts());
        lemma_view_seq_add(instructions@, code@);
    }
    instructions.append(&mut code);
}

/// Appends the code that replaces the integer on top of the stack by its
/// negation, failing on `i32::MIN`, whose negation does not fit.
///
/// Stack transition: `[value] => [-value]`.
pub fn negate_stack(instructions: &mut Vec<Instruction>)
    ensures
        view_seq(final(instructions)@) == view_seq(old(instructions)@) + negate_stack_insts(),
{
    let mut code = vec![
        // [value]
        Instruction::Push(0xffff_ffff),
        Instruction::Swap,
        Instruction::U32WrappingSub,
        // [!value]
        Instruction::Push(1),
    ];
    proof {
        lemma_view_seq_map(code@);
        lemma_view_seq_add(instructions@, code@);
    }
    instructions.append(&mut code);
    add_stack(instructions);
    proof {
        assert(view_seq(instructions@) =~= view_seq(old(instructions)@) + negate_stack_insts());
    }
}

/// Appends the code that multiplies the integers in the cells `a` and `b`,
/// and returns the fresh cell that holds the product. The machine faults
/// where an operand is `i32::MIN` and the other is not 0, and where the
/// absolute value of the product is `2^31` or more.
pub fn mul(instructions: &mut Vec<Instruction>, memory: &mut Memory, a: u32, b: u32) -> (result: u32)
    requires
        old(memory).next_addr() + WIDTH <= u32::MAX,
        a + WIDTH <= u32::MAX,
        b + WIDTH <= u32::MAX,
    ensures
        result == old(memory).next_addr(),
        final(memory).next_addr() == old(memory).next_addr() + WIDTH,
        view_seq(final(instructions)@) == view_seq(old(instructions)@) + mul_insts(a, b, result),
{
    let result = memory.allocate(WIDTH);
    prepare_stack_for_arithmetic(instructions, memory, a, b);
    // [b, a, b_sign, a_sign]
    let mut if_zero = vec![
        Instruction::Drop,
        Instruction::Drop,
        Instruction::Drop,
        Instruction::Drop,
        Instruction::Push(0),
    ];
    let mut if_not_zero: Vec<Instruction> = Vec::new();
    abs_stack(&mut if_not_zero);
    push_inst(&mut if_not_zero, Instruction::Swap);
    abs_stack(&mut if_not_zero);
    // [abs(a), abs(b), b_sign, a_sign]
    let mut negative: Vec<Instruction> = Vec::new();
    negate_stack(&mut negative);
    let sign_condition = vec![
        Instruction::MovDown(2),
        Instruction::U32CheckedAdd,
        Instruction::Push(1),
        Instruction::U32CheckedEq,
    ];
    let no_change: Vec<Instruction> = Vec::new();
    proof {
        lemma_view_seq_map(sign_condition@);
        lemma_view_seq_map(no_change@);
    }
    let sign_branch = Instruction::If { condition: sign_condition, then: negative, else_: no_change };
    proof {
        let spec_branch = mul_nonzero_insts()[16];
        assert(view_seq(sign_branch->If_condition@) =~= spec_branch->If_condition);
        assert(view_seq(sign_branch->If_then@) =~= spec_branch->If_then);
        assert(view_seq(sign_branch->If_else_@) =~= spec_branch->If_else_);
        assert(sign_branch@ == spec_branch);
    }
    let mut tail = vec![
        Instruction::Swap,
        Instruction::U32CheckedMul,
        Instruction::Dup(None),
        Instruction::U32CheckedSHR(Some(31)),
        // the product must stay below 2^31
        Instruction::AssertZero,
        sign_branch,
    ];
    proof {
        lemma_view_seq_map(tail@);
        lemma_view_seq_add(if_not_zero@, tail@);
    }
    if_not_zero.append(&mut tail);
    proof {
        assert(view_seq(if_not_zero@) =~= mul_nonzero_insts());
        lemma_view_seq_map(if_zero@);
    }
    let zero_condition = vec![Instruction::Or];
    proof {
        lemma_view_seq_map(zero_condition@);
    }
    let branch = Instruction::If { condition: zero_condition, then: if_zero, else_: if_not_zero };
    proof {
        let spec_branch = mul_body()[6];
        assert(view_seq(branch->If_condition@) =~= spec_branch->If_condition);
        assert(view_seq(branch->If_then@) =~= spec_branch->If_then);
        assert(view_seq(branch->If_else_@) =~= spec_branch->If_else_);
        assert(branch@ == spec_branch);
    }
    let mut code = vec![
        // [b, a, b_sign, a_sign]
        Instruction::Dup(Some(1)),
        Instruction::Push(0),
        Instruction::U32CheckedEq,
        Instruction::Dup(Some(1)),
        Instruction::Push(0),
        Instruction::U32CheckedEq,
        // [b == 0, a == 0, b, a, b_sign, a_sign]
        branch,
    ];
    proof {
        lemma_view_seq_map(code@);
        assert(view_seq(code@) =~= mul_body());
        lemma_view_seq_add(instructions@, code@);
    }
    instructions.append(&mut code);
    let from_stack = [ValueSource::Stack];
    proof {
        assert(from_stack@ =~= seq![ValueSource::Stack]);
    }
    memory.write(instructions, result, &from_stack);
    proof {
        assert(view_seq(instructions@) =~= view_seq(old(instructions)@) + mul_insts(a, b, result));
    }
    result
}

/// Appends the code that divides the integer in the cell `a` by the one in
/// the cell `b`, rounding toward zero, and returns the fresh cell that holds
/// the quotient. The machine faults where `b` is 0 and where `a` or `b` is
/// `i32::MIN`, whose absolute value does not fit.
pub fn div(instructions: &mut Vec<Instruction>, memory: &mut Memory, a: u32, b: u32) -> (result: u32)
    requires
        old(memory).next_addr() + WIDTH <= u32::MAX,
        a + WIDTH <= u32::MAX,
        b + WIDTH <= u32::MAX,
    ensures
        result == old(memory).next_addr(),
        final(memory).next_addr() == old(memory).next_addr() + WIDTH,
        view_seq(final(instructions)@) == view_seq(old(instructions)@) + div_insts(a, b, result),
{
    let result = memory.allocate(WIDTH);
    prepare_stack_for_arithmetic(instructions, memory, a, b);
    // [b, a, b_sign, a_sign]
    let mut checks = vec![
        // b must not be 0
        Instruction::Dup(None),
        Instruction::Push(0),
        Instruction::U32CheckedEq,
        Instruction::AssertZero,
        // i32::MIN / -1 does not fit
        Instruction::Dup(None),
        Instruction::Push(0xffff_ffff),
        Instruction::U32CheckedEq,
        Instruction::Dup(Some(2)),
        Instruction::Push(0x8000_0000),
        Instruction::U32CheckedEq,
        Instruction::And,
        Instruction::AssertZero,
    ];
    proof {
        lemma_view_seq_map(checks@);
        lemma_view_seq_add(instructions@, checks@);
    }
    instructions.append(&mut checks);
    abs_stack(instructions);
    push_inst(instructions, Instruction::Swap);
    abs_stack(instructions);
    // [abs(a), abs(b), b_sign, a_sign]
    let mut negative: Vec<Instruction> = Vec::new();
    negate_stack(&mut negative);
    let sign_condition = vec![
        Instruction::MovDown(2),
        Instruction::U32CheckedAdd,
        Instruction::Push(1),
        Instruction::U32CheckedEq,
    ];
    let no_change: Vec<Instruction> = Vec::new();
    proof {
        lemma_view_seq_map(sign_condition@);
        lemma_view_seq_map(no_change@);
    }
    let sign_branch = Instruction::If { condition: sign_condition, then: negative, else_: no_change };
    proof {
        let spec_branch = quotient_insts()[25];
        assert(view_seq(sign_branch->If_condition@) =~= spec_branch->If_condition);
        assert(view_seq(sign_branch->If_then@) =~= spec_branch->If_then);
        assert(view_seq(sign_branch->If_else_@) =~= spec_branch->If_else_);
        assert(sign_branch@ == spec_branch);
    }
    let mut tail = vec![Instruction::Swap, Instruction::U32CheckedDiv, sign_branch];
    proof {
        lemma_view_seq_map(tail@);
        lemma_view_seq_add(instructions@, tail@);
    }
    instructions.append(&mut tail);
    let from_stack = [ValueSource::Stack];
    proof {
        assert(from_stack@ =~= seq![ValueSource::Stack]);
        assert(view_seq(instructions@) =~= view_seq(old(instructions)@) + prepare_insts(a, b) + quotient_insts());
    }
    memory.write(instructions, result, &from_stack);
    proof {
        assert(view_seq(instructions@) =~= view_seq(old(instructions)@) + div_insts(a, b, result));
    }
    result
}

/// Appends the code that takes the remainder of the integer in the cell `a`
/// divided by the one in the cell `b`, with the sign of `a`, and returns the
/// fresh cell that holds it. The machine faults where `b` is 0 and where `a`
/// or `b` is `i32::MIN`, whose absolute value does not fit.
pub fn modulo(instructions: &mut Vec<Instruction>, memory: &mut Memory, a: u32, b: u32) -> (result: u32)
    requires
        old(memory).next_addr() + WIDTH <= u32::MAX,
        a + WIDTH <= u32::MAX,
        b + WIDTH <= u32::MAX,
    ensures
        result == old(memory).next_addr(),
        final(memory).next_addr() == old(memory).next_addr() + WIDTH,
        view_seq(final(instructions)@) == view_seq(old(instructions)@) + modulo_insts(a, b, result),
{
    let result = memory.allocate(WIDTH);
    memory.read(instructions, a, WIDTH);
    memory.read(instructions, b, WIDTH);
    // [b, a]
    let mut checks = vec![
        // b must not be 0
        Instruction::Dup(None),
        Instruction::Push(0),
        Instruction::U32CheckedEq,
        Instruction::Not,
        Instruction::Assert,
        // i32::MIN % -1 is not computed
        Instruction::Dup(None),
        Instruction::Push(0xffff_ffff),
        Instruction::U32CheckedEq,
        Instruction::Not,
        Instruction::Dup(Some(2)),
        Instruction::Push(0x8000_0000),
        Instruction::U32CheckedEq,
        Instruction::Not,
        Instruction::Or,
        Instruction::Assert,
        // [b, a] => [b, a, a_sign]
        Instruction::Dup(Some(1)),
        Instruction::U32CheckedSHR(Some(31)),
        Instruction::MovDown(2),
    ];
    proof {
        lemma_view_seq_map(checks@);
        lemma_view_seq_add(instructions@, checks@);
    }
    instructions.append(&mut checks);
    abs_stack(instructions);
    push_inst(instructions, Instruction::Swap);
    abs_stack(instructions);
    // [abs(a), abs(b), a_sign]
    let mut negative: Vec<Instruction> = Vec::new();
    negate_stack(&mut negative);
    let no_test: Vec<Instruction> = Vec::new();
    let no_change: Vec<Instruction> = Vec::new();
    proof {
        lemma_view_seq_map(no_test@);
        lemma_view_seq_map(no_change@);
    }
    let sign_branch = Instruction::If { condition: no_test, then: negative, else_: no_change };
    proof {
        let spec_branch = remainder_insts()[32];
        assert(view_seq(sign_branch->If_condition@) =~= spec_branch->If_condition);
        assert(view_seq(sign_branch->If_then@) =~= spec_branch->If_then);
        assert(view_seq(sign_branch->If_else_@) =~= spec_branch->If_else_);
        assert(sign_branch@ == spec_branch);
    }
    // the remainder takes the sign of a
    let mut tail = vec![Instruction::Swap, Instruction::U32CheckedMod, Instruction::Swap, sign_branch];
    proof {
        lemma_view_seq_map(tail@);
        lemma_view_seq_add(instructions@, tail@);
    }
    instructions.append(&mut tail);
    let from_stack = [ValueSource::Stack];
    proof {
        assert(from_stack@ =~= seq![ValueSource::Stack]);
        assert(view_seq(instructions@) =~= view_seq(old(instructions)@) + read_insts(a as int, WIDTH as nat)
            + read_insts(b as int, WIDTH as nat) + remainder_insts());
    }
    memory.write(instructions, result, &from_stack);
    proof {
        assert(view_seq(instructions@) =~= view_seq(old(instructions)@) + modulo_insts(a, b, result));
    }
    result
}

/// Appends the code that shifts the integer in the cell `a` by the one in
/// the cell `b`, to the right where `is_right` holds and to the left
/// otherwise, and returns the fresh cell that holds the result. The absolute
/// value of `a` is shifted and the sign put back; the machine faults where
/// `b` is negative and where `a` is `i32::MIN`.
fn shift(instructions: &mut Vec<Instruction>, memory: &mut Memory, a: u32, b: u32, is_right: bool) -> (result: u32)
    requires
        old(memory).next_addr() + WIDTH <= u32::MAX,
        a + WIDTH <= u32::MAX,
        b + WIDTH <= u32::MAX,
    ensures
        result == old(memory).next_addr(),
        final(memory).next_addr() == old(memory).next_addr() + WIDTH,
        view_seq(final(instructions)@) == view_seq(old(instructions)@) + shift_all_insts(a, b, result, is_right),
{
    let result = memory.allocate(WIDTH);
    memory.read(instructions, a, WIDTH);
    memory.read(instructions, b, WIDTH);
    // [b, a]
    let mut checks = vec![
        // b must not be negative
        Instruction::Dup(None),
        Instruction::U32CheckedSHR(Some(31)),
        Instruction::AssertZero,
        // [b, a] => [b, a, a_sign]
        Instruction::Dup(Some(1)),
        Instruction::U32CheckedSHR(Some(31)),
        Instruction::MovDown(2),
    ];
    proof {
        lemma_view_seq_map(checks@);
        lemma_view_seq_add(instructions@, checks@);
    }
    instructions.append(&mut checks);
    abs_stack(instructions);
    push_inst(instructions, Instruction::Swap);
    abs_stack(instructions);
    // [abs(a), abs(b), a_sign]
    let mut negative: Vec<Instruction> = Vec::new();
    negate_stack(&mut negative);
    let no_test: Vec<Instruction> = Vec::new();
    let no_change: Vec<Instruction> = Vec::new();
    proof {
        lemma_view_seq_map(no_test@);
        lemma_view_seq_map(no_change@);
    }
    let sign_branch = Instruction::If { condition: no_test, then: negative, else_: no_change };
    proof {
        let spec_branch = shift_insts(is_right)[20];
        assert(view_seq(sign_branch->If_condition@) =~= spec_branch->If_condition);
        assert(view_seq(sign_branch->If_then@) =~= spec_branch->If_then);
        assert(view_seq(sign_branch->If_else_@) =~= spec_branch->If_else_);
        assert(sign_branch@ == spec_branch);
    }
    let shift_instruction = if is_right {
        Instruction::U32CheckedSHR(None)
    } else {
        Instruction::U32CheckedSHL(None)
    };
    // the result takes the sign of a
    let mut tail = vec![Instruction::Swap, shift_instruction, Instruction::Swap, sign_branch];
    proof {
        lemma_view_seq_map(tail@);
        lemma_view_seq_add(instructions@, tail@);
    }
    instructions.append(&mut tail);
    let from_stack = [ValueSource::Stack];
    proof {
        assert(from_stack@ =~= seq![ValueSource::Stack]);
        assert(view_seq(instructions@) =~= view_seq(old(instructions)@) + read_insts(a as int, WIDTH as nat)
            + read_insts(b as int, WIDTH as nat) + shift_insts(is_right));
    }
    memory.write(instructions, result, &from_stack);
    proof {
        assert(view_seq(instructions@) =~= view_seq(old(instructions)@) + shift_all_insts(a, b, result, is_right));
    }
    result
}

/// Appends the code that shifts the integer in the cell `a` right by the one
/// in the cell `b`: see [`shift`].
pub fn shift_right(instructions: &mut Vec<Instruction>, memory: &mut Memory, a: u32, b: u32) -> (result: u32)
    requires
        old(memory).next_addr() + WIDTH <= u32::MAX,
        a + WIDTH <= u32::MAX,
        b + WIDTH <= u32::MAX,
    ensures
        result == old(memory).next_addr(),
        final(memory).next_addr() == old(memory).next_addr() + WIDTH,
        view_seq(final(instructions)@) == view_seq(old(instructions)@) + shift_all_insts(a, b, result, true),
{
    shift(instructions, memory, a, b, true)
}

/// Appends the code that shifts the integer in the cell `a` left by the one
/// in the cell `b`: see [`shift`].
pub fn shift_left(instructions: &mut Vec<Instruction>, memory: &mut Memory, a: u32, b: u32) -> (result: u32)
    requires
        old(memory).next_addr() + WIDTH <= u32::MAX,
        a + WIDTH <= u32::MAX,
        b + WIDTH <= u32::MAX,
    ensures
        result == old(memory).next_addr(),
        final(memory).next_addr() == old(memory).next_addr() + WIDTH,
        view_seq(final(instructions)@) == view_seq(old(instructions)@) + shift_all_insts(a, b, result, false),
{
    shift(instructions, memory, a, b, false)
}

/// Appends the code that pushes the absolute value of the integer in the
/// cell `n` and, over it, its sign bit in place; the machine faults where
/// the integer is `i32::MIN`.
///
/// Stack transition: `[] => [n & 0x8000_0000, abs(n)]`.
pub fn decompose(instructions: &mut Vec<Instruction>, memory: &Memory, n: u32)
    requires
        n + WIDTH <= u32::MAX,
    ensures
        view_seq(final(instructions)@) == view_seq(old(instructions)@) + decompose_insts(n),
{
    memory.read(instructions, n, WIDTH);
    push_inst(instructions, Instruction::Dup(None));
    abs_stack(instructions);
    let mut code = vec![Instruction::Swap, Instruction::Push(0x8000_0000), Instruction::U32CheckedAnd];
    proof {
        lemma_view_seq_map(code@);
        lemma_view_seq_add(instructions@, code@);
    }
    instructions.append(&mut code);
    proof {
        assert(view_seq(instructions@) =~= view_seq(old(instructions)@) + decompose_insts(n));
    }
}

/// The code of [`abs_stack`] replaces the signed integer with bits `v` by
/// the bits of its absolute value, and faults where `v` is `i32::MIN`.
#[verifier::spinoff_prover]
#[verifier::rlimit(60)]
pub proof fn lemma_abs_stack_computes(v: u32, mem: spec_fn(int) -> int, rest: Seq<int>, fuel: nat)
    ensures
        run(abs_stack_insts(), mem, seq![v as int] + rest, fuel) == if v == 0x8000_0000 {
            None::<Seq<int>>
        } else {
            Some(seq![magnitude(signed(v))] + rest)
        },
{
    let is = abs_stack_insts();
    let vi = v as int;
    let t0 = seq![vi] + rest;
    let t1 = seq![vi] + t0;
    let t2 = seq![0x8000_0000int] + t1;
    let t3 = seq![flag(vi == 0x8000_0000)] + t0;
    assert(u32_bound() == 0x1_0000_0000int);
    assert(t2.skip(2) =~= t0);
    assert(step(is[0], mem, t0, fuel) == Some(t1));
    assert(step(is[1], mem, t1, fuel) == Some(t2));
    assert(step(is[2], mem, t2, fuel) == Some(t3));
    assert(is.take(3) =~= seq![is[0], is[1], is[2]]);
    lemma_run_from(is.take(3), 2, mem, t2, fuel);
    lemma_run_from(is.take(3), 1, mem, t1, fuel);
    lemma_run_from(is.take(3), 0, mem, t0, fuel);
    assert(is.take(3).skip(0) =~= is.take(3));
    assert(is.take(3).skip(3) =~= Seq::<Inst>::empty());
    assert(is =~= is.take(3) + seq![is[3]] + seq![is[4]]);
    lemma_run_add(is.take(3) + seq![is[3]], seq![is[4]], mem, t0, fuel);
    lemma_run_add(is.take(3), seq![is[3]], mem, t0, fuel);
    assert(seq![is[3]].drop_last() =~= Seq::<Inst>::empty());
    assert(run(seq![is[3]], mem, t3, fuel) == step(is[3], mem, t3, fuel));
    if v != 0x8000_0000 {
        assert(t3.drop_first() =~= t0);
        assert(seq![is[4]].drop_last() =~= Seq::<Inst>::empty());
        assert(run(seq![is[4]], mem, t0, fuel) == step(is[4], mem, t0, fuel));
        let cond = is[4]->If_condition;
        lemma_sign_bit(v);
        let c1 = seq![vi] + t0;
        let c2 = seq![sign_bit(v)] + t0;
        assert(c1.skip(1) =~= t0);
        assert(step(cond[0], mem, t0, fuel) == Some(c1));
        assert(step(cond[1], mem, c1, fuel) == Some(c2));
        lemma_run_from(cond, 1, mem, c1, fuel);
        lemma_run_from(cond, 0, mem, t0, fuel);
        assert(cond.skip(0) =~= cond);
        assert(cond.skip(2) =~= Seq::<Inst>::empty());
        assert(c2.drop_first() =~= t0);
        if v > 0x8000_0000 {
            let then = is[4]->If_then;
            let u1 = seq![0xffff_ffff - vi] + rest;
            let u2 = seq![1int] + u1;
            let u3 = seq![0x1_0000_0000int - vi] + rest;
            assert(u2.skip(2) =~= rest);
            assert(step(then[0], mem, t0, fuel) == Some(u1));
            assert(step(then[1], mem, u1, fuel) == Some(u2));
            assert(step(then[2], mem, u2, fuel) == Some(u3));
            lemma_run_from(then, 2, mem, u2, fuel);
            lemma_run_from(then, 1, mem, u1, fuel);
            lemma_run_from(then, 0, mem, t0, fuel);
            assert(then.skip(0) =~= then);
            assert(then.skip(3) =~= Seq::<Inst>::empty());
        } else {
            assert(run(Seq::<Inst>::empty(), mem, t0, fuel) == Some(t0));
            assert(is[4]->If_else_ =~= Seq::<Inst>::empty());
        }
    }
}

/// The code of [`negate_stack`] replaces the signed integer with bits `v` by
/// the bits of its negation, and faults where `v` is `i32::MIN`.
#[verifier::spinoff_prover]
#[verifier::rlimit(60)]
pub proof fn lemma_negate_stack_computes(v: u32, mem: spec_fn(int) -> int, rest: Seq<int>, fuel: nat)
    ensures
        run(negate_stack_insts(), mem, seq![v as int] + rest, fuel) == if v == 0x8000_0000 {
            None::<Seq<int>>
        } else {
            Some(seq![(0x1_0000_0000int - v) % 0x1_0000_0000int] + rest)
        },
        v != 0x8000_0000 ==> signed(((0x1_0000_0000int - v) % 0x1_0000_0000int) as u32) == -signed(v),
{
    let head = seq![Inst::Push(0xffff_ffff), Inst::Swap, Inst::U32WrappingSub, Inst::Push(1)];
    let vi = v as int;
    let nv = 0xffff_ffff - vi;
    let t0 = seq![vi] + rest;
    let t1 = seq![0xffff_ffffint] + t0;
    let t2 = seq![vi, 0xffff_ffffint] + rest;
    let t3 = seq![nv] + rest;
    let t4 = seq![1int, nv] + rest;
    assert(u32_bound() == 0x1_0000_0000int);
    assert(t1.skip(2) =~= rest);
    assert(t2.skip(2) =~= rest);
    assert(t4 =~= seq![1int] + t3);
    assert(step(head[0], mem, t0, fuel) == Some(t1));
    assert(step(head[1], mem, t1, fuel) == Some(t2));
    assert(step(head[2], mem, t2, fuel) == Some(t3));
    assert(step(head[3], mem, t3, fuel) == Some(t4));
    lemma_run_from(head, 3, mem, t3, fuel);
    lemma_run_from(head, 2, mem, t2, fuel);
    lemma_run_from(head, 1, mem, t1, fuel);
    lemma_run_from(head, 0, mem, t0, fuel);
    assert(head.skip(0) =~= head);
    assert(head.skip(4) =~= Seq::<Inst>::empty());
    lemma_run_add(head, add_stack_insts(), mem, t0, fuel);
    let x = nv as u32;
    assert(x as int == nv);
    assert(t4 =~= seq![(1u32) as int, x as int] + rest);
    lemma_add_stack_computes(x, 1, mem, rest, fuel);
    assert(signed(x) == -signed(v) - 1);
}

/// The end of [`mul_nonzero_insts`] on `[|a|, |b|, b_sign, a_sign]`: the
/// product `p` of the absolute values, a fault where it is `2^31` or more,
/// and its negation where exactly one sign bit is set.
#[verifier::spinoff_prover]
#[verifier::rlimit(60)]
proof fn lemma_mul_tail(ax: int, ay: int, sx: int, sy: int, mem: spec_fn(int) -> int, rest: Seq<int>, fuel: nat)
    requires
        0 <= ax < 0x8000_0000,
        0 <= ay < 0x8000_0000,
        sx == 0 || sx == 1,
        sy == 0 || sy == 1,
    ensures
        run(mul_nonzero_insts().skip(11), mem, seq![ax, ay, sy, sx] + rest, fuel) == if ax * ay
            >= 0x8000_0000 {
            None::<Seq<int>>
        } else if sx + sy == 1 {
            Some(seq![(0x1_0000_0000int - ax * ay) % 0x1_0000_0000int] + rest)
        } else {
            Some(seq![ax * ay] + rest)
        },
{
    let is = mul_nonzero_insts().skip(11);
    let p = ax * ay;
    assert(0 <= p) by (nonlinear_arith)
        requires
            0 <= ax,
            0 <= ay,
            p == ax * ay,
    ;
    assert(u32_bound() == 0x1_0000_0000int);
    lemma_sign_bit(0);
    let t0 = seq![ax, ay, sy, sx] + rest;
    let t1 = seq![ay, ax, sy, sx] + rest;
    assert(t0.skip(2) =~= t1.skip(2));
    assert(step(is[0], mem, t0, fuel) == Some(t1));
    assert(is =~= seq![is[0]] + seq![is[1]] + is.skip(2));
    lemma_run_add(seq![is[0]] + seq![is[1]], is.skip(2), mem, t0, fuel);
    lemma_run_add(seq![is[0]], seq![is[1]], mem, t0, fuel);
    assert(seq![is[0]].drop_last() =~= Seq::<Inst>::empty());
    assert(seq![is[1]].drop_last() =~= Seq::<Inst>::empty());
    lemma_run_one(is[0], mem, t0, fuel);
    lemma_run_one(is[1], mem, t1, fuel);
    if p >= 0x1_0000_0000 {
        assert(step(is[1], mem, t1, fuel) == None::<Seq<int>>);
    } else {
        let t2 = seq![p, sy, sx] + rest;
        assert(t1.skip(2) =~= seq![sy, sx] + rest);
        assert(step(is[1], mem, t1, fuel) == Some(t2));
        let rest2 = is.skip(2);
        let t3 = seq![p] + t2;
        lemma_sign_bit(p as u32);
        assert((p as u32) as int == p);
        let t4 = seq![sign_bit(p as u32)] + t2;
        assert(t3.skip(1) =~= t2);
        assert(step(rest2[0], mem, t2, fuel) == Some(t3));
        assert(step(rest2[1], mem, t3, fuel) == Some(t4));
        assert(rest2 =~= rest2.take(2) + seq![rest2[2]] + seq![rest2[3]]);
        lemma_run_from(rest2.take(2), 1, mem, t3, fuel);
        lemma_run_from(rest2.take(2), 0, mem, t2, fuel);
        assert(rest2.take(2).skip(0) =~= rest2.take(2));
        assert(rest2.take(2).skip(2) =~= Seq::<Inst>::empty());
        lemma_run_add(rest2.take(2) + seq![rest2[2]], seq![rest2[3]], mem, t2, fuel);
        lemma_run_add(rest2.take(2), seq![rest2[2]], mem, t2, fuel);
        assert(seq![rest2[2]].drop_last() =~= Seq::<Inst>::empty());
        lemma_run_one(rest2[2], mem, t4, fuel);
        if p >= 0x8000_0000 {
            assert(step(rest2[2], mem, t4, fuel) == None::<Seq<int>>);
        } else {
            assert(t4.drop_first() =~= t2);
            assert(seq![rest2[3]].drop_last() =~= Seq::<Inst>::empty());
            lemma_run_one(rest2[3], mem, t2, fuel);
            let cond = rest2[3]->If_condition;
            let c1 = seq![sy, sx, p] + rest;
            let c2 = seq![sx + sy, p] + rest;
            let c3 = seq![1int] + c2;
            let c4 = seq![flag(sx + sy == 1), p] + rest;
            assert(t2.subrange(1, 3) + seq![t2[0]] + t2.skip(3) =~= c1);
            assert(c1.skip(2) =~= seq![p] + rest);
            assert(c3.skip(2) =~= seq![p] + rest);
            assert(step(cond[0], mem, t2, fuel) == Some(c1));
            assert(step(cond[1], mem, c1, fuel) == Some(c2));
            assert(step(cond[2], mem, c2, fuel) == Some(c3));
            assert(step(cond[3], mem, c3, fuel) == Some(c4));
            lemma_run_from(cond, 3, mem, c3, fuel);
            lemma_run_from(cond, 2, mem, c2, fuel);
            lemma_run_from(cond, 1, mem, c1, fuel);
            lemma_run_from(cond, 0, mem, t2, fuel);
            assert(cond.skip(0) =~= cond);
            assert(cond.skip(4) =~= Seq::<Inst>::empty());
            assert(c4.drop_first() =~= seq![p] + rest);
            if sx + sy == 1 {
                lemma_negate_stack_computes(p as u32, mem, rest, fuel);
            } else {
                assert(run(Seq::<Inst>::empty(), mem, seq![p] + rest, fuel) == Some(seq![p] + rest));
                assert(rest2[3]->If_else_ =~= Seq::<Inst>::empty());
            }
        }
    }
}

/// The magnitude and the sign of a product.
proof fn lemma_product_magnitude(u: int, v: int)
    requires
        u != 0,
        v != 0,
    ensures
        magnitude(u * v) == magnitude(u) * magnitude(v),
        (u * v < 0) == ((u < 0) != (v < 0)),
        magnitude(u) * magnitude(v) >= magnitude(u),
        magnitude(u) * magnitude(v) >= magnitude(v),
{
    if u < 0 {
        if v < 0 {
            assert(u * v == (-u) * (-v) && (-u) * (-v) > 0 && (-u) * (-v) >= -u && (-u) * (-v) >= -v)
                by (nonlinear_arith)
                requires
                    u < 0,
                    v < 0,
            ;
        } else {
            assert(u * v == -((-u) * v) && (-u) * v > 0 && (-u) * v >= -u && (-u) * v >= v) by (nonlinear_arith)
                requires
                    u < 0,
                    v > 0,
            ;
        }
    } else {
        if v < 0 {
            assert(u * v == -(u * (-v)) && u * (-v) > 0 && u * (-v) >= u && u * (-v) >= -v) by (nonlinear_arith)
                requires
                    u > 0,
                    v < 0,
            ;
        } else {
            assert(u * v > 0 && u * v >= u && u * v >= v) by (nonlinear_arith)
                requires
                    u > 0,
                    v > 0,
            ;
        }
    }
}

/// The code of [`mul`], up to the store of the result, multiplies the
/// signed integers in the cells `a` and `b`: 0 where either is 0; otherwise
/// the bits of the product where its absolute value is below `2^31`, and a
/// fault where it is not (so also for the product `i32::MIN`).
#[verifier::spinoff_prover]
#[verifier::rlimit(80)]
pub proof fn lemma_mul_computes(a: u32, b: u32, mem: spec_fn(int) -> int, rest: Seq<int>, fuel: nat)
    requires
        a + WIDTH <= u32::MAX,
        b + WIDTH <= u32::MAX,
        0 <= mem(a as int) < u32_bound(),
        0 <= mem(b as int) < u32_bound(),
    ensures
        ({
            let x = mem(a as int) as u32;
            let y = mem(b as int) as u32;
            run(prepare_insts(a, b) + mul_body(), mem, rest, fuel) == if x == 0 || y == 0 {
                Some(seq![0int] + rest)
            } else if magnitude(signed(x) * signed(y)) >= 0x8000_0000 {
                None::<Seq<int>>
            } else {
                Some(seq![(signed(x) * signed(y) + 0x1_0000_0000int) % 0x1_0000_0000int] + rest)
            }
        }),
{
    let x = mem(a as int) as u32;
    let y = mem(b as int) as u32;
    let xi = x as int;
    let yi = y as int;
    let sx = sign_bit(x);
    let sy = sign_bit(y);
    lemma_prepare(a, b, mem, rest, fuel);
    lemma_run_add(prepare_insts(a, b), mul_body(), mem, rest, fuel);
    assert(u32_bound() == 0x1_0000_0000int);
    let body = mul_body();
    // the test for a zero operand
    let t0 = seq![yi, xi, sy, sx] + rest;
    let t1 = seq![xi] + t0;
    let t2 = seq![0int] + t1;
    let t3 = seq![flag(xi == 0)] + t0;
    let t4 = seq![yi] + t3;
    let t5 = seq![0int] + t4;
    let t6 = seq![flag(yi == 0), flag(xi == 0)] + t0;
    assert(t2.skip(2) =~= t0);
    assert(t5.skip(2) =~= t3);
    assert(step(body[0], mem, t0, fuel) == Some(t1));
    assert(step(body[1], mem, t1, fuel) == Some(t2));
    assert(step(body[2], mem, t2, fuel) == Some(t3));
    assert(step(body[3], mem, t3, fuel) == Some(t4));
    assert(step(body[4], mem, t4, fuel) == Some(t5));
    assert(step(body[5], mem, t5, fuel) == Some(t6));
    let test = body.take(6);
    lemma_run_from(test, 5, mem, t5, fuel);
    lemma_run_from(test, 4, mem, t4, fuel);
    lemma_run_from(test, 3, mem, t3, fuel);
    lemma_run_from(test, 2, mem, t2, fuel);
    lemma_run_from(test, 1, mem, t1, fuel);
    lemma_run_from(test, 0, mem, t0, fuel);
    assert(test.skip(0) =~= test);
    assert(test.skip(6) =~= Seq::<Inst>::empty());
    assert(body =~= test + seq![body[6]]);
    lemma_run_add(test, seq![body[6]], mem, t0, fuel);
    lemma_run_one(body[6], mem, t6, fuel);
    let branch = body[6];
    lemma_run_one(Inst::Or, mem, t6, fuel);
    assert(branch->If_condition =~= seq![Inst::Or]);
    assert(t6.skip(2) =~= t0);
    assert((seq![flag(xi == 0 || yi == 0)] + t6.skip(2)).drop_first() =~= t0);
    if xi == 0 || yi == 0 {
        let then = branch->If_then;
        let u1 = seq![xi, sy, sx] + rest;
        let u2 = seq![sy, sx] + rest;
        let u3 = seq![sx] + rest;
        let u5 = seq![0int] + rest;
        assert(step(then[0], mem, t0, fuel) == Some(u1));
        assert(step(then[1], mem, u1, fuel) == Some(u2));
        assert(step(then[2], mem, u2, fuel) == Some(u3));
        assert(step(then[3], mem, u3, fuel) == Some(rest));
        assert(step(then[4], mem, rest, fuel) == Some(u5));
        lemma_run_from(then, 4, mem, rest, fuel);
        lemma_run_from(then, 3, mem, u3, fuel);
        lemma_run_from(then, 2, mem, u2, fuel);
        lemma_run_from(then, 1, mem, u1, fuel);
        lemma_run_from(then, 0, mem, t0, fuel);
        assert(then.skip(0) =~= then);
        assert(then.skip(5) =~= Seq::<Inst>::empty());
    } else {
        let n = mul_nonzero_insts();
        let abs = abs_stack_insts();
        assert(branch->If_else_ == n);
        assert(n =~= abs + seq![Inst::Swap] + abs + n.skip(11));
        let r1 = seq![xi, sy, sx] + rest;
        assert(t0 =~= seq![yi] + r1);
        lemma_abs_stack_computes(y, mem, r1, fuel);
        lemma_run_add(abs + seq![Inst::Swap] + abs, n.skip(11), mem, t0, fuel);
        lemma_run_add(abs + seq![Inst::Swap], abs, mem, t0, fuel);
        lemma_run_add(abs, seq![Inst::Swap], mem, t0, fuel);
        lemma_product_magnitude(signed(x), signed(y));
        if y != 0x8000_0000 {
            let my = magnitude(signed(y));
            let v1 = seq![my] + r1;
            let v2 = seq![xi, my, sy, sx] + rest;
            lemma_run_one(Inst::Swap, mem, v1, fuel);
            assert(v1.skip(2) =~= seq![sy, sx] + rest);
            assert(seq![v1[1], v1[0]] + v1.skip(2) =~= v2);
            assert(step(Inst::Swap, mem, v1, fuel) == Some(v2));
            let r2 = seq![my, sy, sx] + rest;
            assert(v2 =~= seq![xi] + r2);
            lemma_abs_stack_computes(x, mem, r2, fuel);
            if x != 0x8000_0000 {
                let mx = magnitude(signed(x));
                lemma_sign_bit(x);
                lemma_sign_bit(y);
                lemma_mul_tail(mx, my, sx, sy, mem, rest, fuel);
                assert(seq![mx] + r2 =~= seq![mx, my, sy, sx] + rest);
                let prod = signed(x) * signed(y);
                assert(mx * my == magnitude(prod));
                assert((sx + sy == 1) == (prod < 0));
                if magnitude(prod) < 0x8000_0000 {
                    if prod < 0 {
                        assert((0x1_0000_0000int - mx * my) % 0x1_0000_0000int == (prod + 0x1_0000_0000int)
                            % 0x1_0000_0000int);
                    } else {
                        assert((prod + 0x1_0000_0000int) % 0x1_0000_0000int == prod);
                    }
                }
                assert(run(n, mem, t0, fuel) == if magnitude(prod) >= 0x8000_0000 {
                    None::<Seq<int>>
                } else {
                    Some(seq![(prod + 0x1_0000_0000int) % 0x1_0000_0000int] + rest)
                });
            } else {
                assert(magnitude(signed(x)) == 0x8000_0000);
                assert(run(n, mem, t0, fuel) == None::<Seq<int>>);
            }
        } else {
            assert(magnitude(signed(y)) == 0x8000_0000);
            assert(run(n, mem, t0, fuel) == None::<Seq<int>>);
        }
    }
}

/// `u / v` rounded toward zero, as Rust divides integers.
pub open spec fn truncated_quotient(u: int, v: int) -> int {
    let q = magnitude(u) / magnitude(v);
    if (u < 0) != (v < 0) {
        -q
    } else {
        q
    }
}

/// The end of [`quotient_insts`] on `[|a|, |b|, b_sign, a_sign]`: the
/// quotient of the absolute values, negated where exactly one sign bit is
/// set.
#[verifier::spinoff_prover]
#[verifier::rlimit(60)]
proof fn lemma_div_tail(ax: int, ay: int, sx: int, sy: int, mem: spec_fn(int) -> int, rest: Seq<int>, fuel: nat)
    requires
        0 <= ax < 0x8000_0000,
        0 < ay < 0x8000_0000,
        sx == 0 || sx == 1,
        sy == 0 || sy == 1,
    ensures
        run(quotient_insts().skip(23), mem, seq![ax, ay, sy, sx] + rest, fuel) == if sx + sy == 1 {
            Some(seq![(0x1_0000_0000int - ax / ay) % 0x1_0000_0000int] + rest)
        } else {
            Some(seq![ax / ay] + rest)
        },
{
    let is = quotient_insts().skip(23);
    let q = ax / ay;
    assert(0 <= q <= ax) by (nonlinear_arith)
        requires
            0 <= ax,
            0 < ay,
            q == ax / ay,
    ;
    assert(u32_bound() == 0x1_0000_0000int);
    let t0 = seq![ax, ay, sy, sx] + rest;
    let t1 = seq![ay, ax, sy, sx] + rest;
    let t2 = seq![q, sy, sx] + rest;
    assert(t0.skip(2) =~= t1.skip(2));
    assert(t1.skip(2) =~= seq![sy, sx] + rest);
    assert(step(is[0], mem, t0, fuel) == Some(t1));
    assert(step(is[1], mem, t1, fuel) == Some(t2));
    assert(is =~= is.take(2) + seq![is[2]]);
    lemma_run_from(is.take(2), 1, mem, t1, fuel);
    lemma_run_from(is.take(2), 0, mem, t0, fuel);
    assert(is.take(2).skip(0) =~= is.take(2));
    assert(is.take(2).skip(2) =~= Seq::<Inst>::empty());
    lemma_run_add(is.take(2), seq![is[2]], mem, t0, fuel);
    lemma_run_one(is[2], mem, t2, fuel);
    let cond = is[2]->If_condition;
    let c1 = seq![sy, sx, q] + rest;
    let c2 = seq![sx + sy, q] + rest;
    let c3 = seq![1int] + c2;
    let c4 = seq![flag(sx + sy == 1), q] + rest;
    assert(t2.subrange(1, 3) + seq![t2[0]] + t2.skip(3) =~= c1);
    assert(c1.skip(2) =~= seq![q] + rest);
    assert(c3.skip(2) =~= seq![q] + rest);
    assert(step(cond[0], mem, t2, fuel) == Some(c1));
    assert(step(cond[1], mem, c1, fuel) == Some(c2));
    assert(step(cond[2], mem, c2, fuel) == Some(c3));
    assert(step(cond[3], mem, c3, fuel) == Some(c4));
    lemma_run_from(cond, 3, mem, c3, fuel);
    lemma_run_from(cond, 2, mem, c2, fuel);
    lemma_run_from(cond, 1, mem, c1, fuel);
    lemma_run_from(cond, 0, mem, t2, fuel);
    assert(cond.skip(0) =~= cond);
    assert(cond.skip(4) =~= Seq::<Inst>::empty());
    assert(c4.drop_first() =~= seq![q] + rest);
    if sx + sy == 1 {
        lemma_negate_stack_computes(q as u32, mem, rest, fuel);
    } else {
        assert(run(Seq::<Inst>::empty(), mem, seq![q] + rest, fuel) == Some(seq![q] + rest));
        assert(is[2]->If_else_ =~= Seq::<Inst>::empty());
    }
}

/// The code of [`div`], up to the store of the result, divides the signed
/// integer in the cell `a` by the one in the cell `b`, rounding toward zero:
/// it faults where `b` is 0 and where `a` or `b` is `i32::MIN`, and leaves
/// the bits of the quotient otherwise.
#[verifier::spinoff_prover]
#[verifier::rlimit(80)]
pub proof fn lemma_div_computes(a: u32, b: u32, mem: spec_fn(int) -> int, rest: Seq<int>, fuel: nat)
    requires
        a + WIDTH <= u32::MAX,
        b + WIDTH <= u32::MAX,
        0 <= mem(a as int) < u32_bound(),
        0 <= mem(b as int) < u32_bound(),
    ensures
        ({
            let x = mem(a as int) as u32;
            let y = mem(b as int) as u32;
            run(prepare_insts(a, b) + quotient_insts(), mem, rest, fuel) == if y == 0 || x == 0x8000_0000
                || y == 0x8000_0000 {
                None::<Seq<int>>
            } else {
                Some(seq![(truncated_quotient(signed(x), signed(y)) + 0x1_0000_0000int) % 0x1_0000_0000int] + rest)
            }
        }),
{
    let x = mem(a as int) as u32;
    let y = mem(b as int) as u32;
    let xi = x as int;
    let yi = y as int;
    let sx = sign_bit(x);
    let sy = sign_bit(y);
    lemma_prepare(a, b, mem, rest, fuel);
    lemma_run_add(prepare_insts(a, b), quotient_insts(), mem, rest, fuel);
    assert(u32_bound() == 0x1_0000_0000int);
    let body = quotient_insts();
    let t0 = seq![yi, xi, sy, sx] + rest;
    // the zero divisor test
    let a1 = seq![yi] + t0;
    let a2 = seq![0int] + a1;
    let a3 = seq![flag(yi == 0)] + t0;
    assert(a2.skip(2) =~= t0);
    let pa = body.take(4);
    assert(step(pa[0], mem, t0, fuel) == Some(a1));
    assert(step(pa[1], mem, a1, fuel) == Some(a2));
    assert(step(pa[2], mem, a2, fuel) == Some(a3));
    assert(pa =~= pa.take(3) + seq![pa[3]]);
    lemma_run_from(pa.take(3), 2, mem, a2, fuel);
    lemma_run_from(pa.take(3), 1, mem, a1, fuel);
    lemma_run_from(pa.take(3), 0, mem, t0, fuel);
    assert(pa.take(3).skip(0) =~= pa.take(3));
    assert(pa.take(3).skip(3) =~= Seq::<Inst>::empty());
    lemma_run_add(pa.take(3), seq![pa[3]], mem, t0, fuel);
    lemma_run_one(pa[3], mem, a3, fuel);
    assert(a3.drop_first() =~= t0);
    // the test for i32::MIN / -1
    let pb = body.subrange(4, 12);
    let b1 = seq![yi] + t0;
    let b2 = seq![0xffff_ffffint] + b1;
    let b3 = seq![flag(yi == 0xffff_ffff)] + t0;
    let b4 = seq![xi] + b3;
    let b5 = seq![0x8000_0000int] + b4;
    let b6 = seq![flag(xi == 0x8000_0000)] + b3;
    let b7 = seq![flag(yi == 0xffff_ffff && xi == 0x8000_0000)] + t0;
    assert(b2.skip(2) =~= t0);
    assert(b3[2] == xi);
    assert(b5.skip(2) =~= b3);
    assert(b6.skip(2) =~= t0);
    assert(step(pb[0], mem, t0, fuel) == Some(b1));
    assert(step(pb[1], mem, b1, fuel) == Some(b2));
    assert(step(pb[2], mem, b2, fuel) == Some(b3));
    assert(step(pb[3], mem, b3, fuel) == Some(b4));
    assert(step(pb[4], mem, b4, fuel) == Some(b5));
    assert(step(pb[5], mem, b5, fuel) == Some(b6));
    assert(step(pb[6], mem, b6, fuel) == Some(b7));
    let pb7 = pb.take(7);
    assert(pb =~= pb7 + seq![pb[7]]);
    lemma_run_from(pb7, 6, mem, b6, fuel);
    lemma_run_from(pb7, 5, mem, b5, fuel);
    lemma_run_from(pb7, 4, mem, b4, fuel);
    lemma_run_from(pb7, 3, mem, b3, fuel);
    lemma_run_from(pb7, 2, mem, b2, fuel);
    lemma_run_from(pb7, 1, mem, b1, fuel);
    lemma_run_from(pb7, 0, mem, t0, fuel);
    assert(pb7.skip(0) =~= pb7);
    assert(pb7.skip(7) =~= Seq::<Inst>::empty());
    lemma_run_add(pb7, seq![pb[7]], mem, t0, fuel);
    lemma_run_one(pb[7], mem, b7, fuel);
    assert(b7.drop_first() =~= t0);
    let n = body.skip(12);
    assert(body =~= pa + pb + n);
    lemma_run_add(pa + pb, n, mem, t0, fuel);
    lemma_run_add(pa, pb, mem, t0, fuel);
    if yi != 0 && !(yi == 0xffff_ffff && xi == 0x8000_0000) {
        let abs = abs_stack_insts();
        assert(n =~= abs + seq![Inst::Swap] + abs + n.skip(11));
        assert(n.skip(11) =~= body.skip(23));
        let r1 = seq![xi, sy, sx] + rest;
        assert(t0 =~= seq![yi] + r1);
        lemma_abs_stack_computes(y, mem, r1, fuel);
        lemma_run_add(abs + seq![Inst::Swap] + abs, n.skip(11), mem, t0, fuel);
        lemma_run_add(abs + seq![Inst::Swap], abs, mem, t0, fuel);
        lemma_run_add(abs, seq![Inst::Swap], mem, t0, fuel);
        if y != 0x8000_0000 {
            let my = magnitude(signed(y));
            let v1 = seq![my] + r1;
            let v2 = seq![xi, my, sy, sx] + rest;
            lemma_run_one(Inst::Swap, mem, v1, fuel);
            assert(v1.skip(2) =~= seq![sy, sx] + rest);
            assert(seq![v1[1], v1[0]] + v1.skip(2) =~= v2);
            assert(step(Inst::Swap, mem, v1, fuel) == Some(v2));
            let r2 = seq![my, sy, sx] + rest;
            assert(v2 =~= seq![xi] + r2);
            lemma_abs_stack_computes(x, mem, r2, fuel);
            if x != 0x8000_0000 {
                let mx = magnitude(signed(x));
                lemma_sign_bit(x);
                lemma_sign_bit(y);
                lemma_div_tail(mx, my, sx, sy, mem, rest, fuel);
                assert(seq![mx] + r2 =~= seq![mx, my, sy, sx] + rest);
                let q = mx / my;
                assert(0 <= q <= mx) by (nonlinear_arith)
                    requires
                        0 <= mx,
                        0 < my,
                        q == mx / my,
                ;
                assert((sx + sy == 1) == ((signed(x) < 0) != (signed(y) < 0)));
                let v = truncated_quotient(signed(x), signed(y));
                if sx + sy == 1 {
                    assert((0x1_0000_0000int - q) % 0x1_0000_0000int == (v + 0x1_0000_0000int) % 0x1_0000_0000int);
                } else {
                    assert((v + 0x1_0000_0000int) % 0x1_0000_0000int == q);
                }
            }
        }
    }
}

/// The remainder of `u / v` rounded toward zero, with the sign of `u`, as
/// Rust's `%` on integers.
pub open spec fn truncated_remainder(u: int, v: int) -> int {
    let r = magnitude(u) % magnitude(v);
    if u < 0 {
        -r
    } else {
        r
    }
}

/// The end of [`remainder_insts`] on `[|a|, |b|, a_sign]`: the remainder of
/// the absolute values, negated where the sign bit is set.
#[verifier::spinoff_prover]
#[verifier::rlimit(60)]
proof fn lemma_mod_tail(ax: int, ay: int, sx: int, mem: spec_fn(int) -> int, rest: Seq<int>, fuel: nat)
    requires
        0 <= ax < 0x8000_0000,
        0 < ay < 0x8000_0000,
        sx == 0 || sx == 1,
    ensures
        run(remainder_insts().skip(29), mem, seq![ax, ay, sx] + rest, fuel) == if sx == 1 {
            Some(seq![(0x1_0000_0000int - ax % ay) % 0x1_0000_0000int] + rest)
        } else {
            Some(seq![ax % ay] + rest)
        },
{
    let is = remainder_insts().skip(29);
    let r = ax % ay;
    assert(0 <= r < ay);
    assert(u32_bound() == 0x1_0000_0000int);
    let t0 = seq![ax, ay, sx] + rest;
    let t1 = seq![ay, ax, sx] + rest;
    let t2 = seq![r, sx] + rest;
    let t3 = seq![sx, r] + rest;
    assert(t0.skip(2) =~= t1.skip(2));
    assert(t1.skip(2) =~= seq![sx] + rest);
    assert(t2.skip(2) =~= rest);
    assert(step(is[0], mem, t0, fuel) == Some(t1));
    assert(step(is[1], mem, t1, fuel) == Some(t2));
    assert(step(is[2], mem, t2, fuel) == Some(t3));
    assert(is =~= is.take(3) + seq![is[3]]);
    lemma_run_from(is.take(3), 2, mem, t2, fuel);
    lemma_run_from(is.take(3), 1, mem, t1, fuel);
    lemma_run_from(is.take(3), 0, mem, t0, fuel);
    assert(is.take(3).skip(0) =~= is.take(3));
    assert(is.take(3).skip(3) =~= Seq::<Inst>::empty());
    lemma_run_add(is.take(3), seq![is[3]], mem, t0, fuel);
    lemma_run_one(is[3], mem, t3, fuel);
    assert(is[3]->If_condition =~= Seq::<Inst>::empty());
    assert(run(Seq::<Inst>::empty(), mem, t3, fuel) == Some(t3));
    assert(t3.drop_first() =~= seq![r] + rest);
    if sx == 1 {
        lemma_negate_stack_computes(r as u32, mem, rest, fuel);
    } else {
        assert(run(Seq::<Inst>::empty(), mem, seq![r] + rest, fuel) == Some(seq![r] + rest));
        assert(is[3]->If_else_ =~= Seq::<Inst>::empty());
    }
}

/// The code of [`modulo`], up to the store of the result, takes the
/// remainder of the signed integer in the cell `a` divided by the one in the
/// cell `b`, with the sign of `a`: it faults where `b` is 0 and where `a` or
/// `b` is `i32::MIN`, and leaves the bits of the remainder otherwise.
#[verifier::spinoff_prover]
#[verifier::rlimit(80)]
pub proof fn lemma_modulo_computes(a: u32, b: u32, mem: spec_fn(int) -> int, rest: Seq<int>, fuel: nat)
    requires
        a + WIDTH <= u32::MAX,
        b + WIDTH <= u32::MAX,
        0 <= mem(a as int) < u32_bound(),
        0 <= mem(b as int) < u32_bound(),
    ensures
        ({
            let x = mem(a as int) as u32;
            let y = mem(b as int) as u32;
            run(
                read_insts(a as int, WIDTH as nat) + read_insts(b as int, WIDTH as nat) + remainder_insts(),
                mem,
                rest,
                fuel,
            ) == if y == 0 || x == 0x8000_0000 || y == 0x8000_0000 {
                None::<Seq<int>>
            } else {
                Some(seq![(truncated_remainder(signed(x), signed(y)) + 0x1_0000_0000int) % 0x1_0000_0000int] + rest)
            }
        }),
{
    let x = mem(a as int) as u32;
    let y = mem(b as int) as u32;
    let xi = x as int;
    let yi = y as int;
    let sx = sign_bit(x);
    let ra = read_insts(a as int, WIDTH as nat);
    let rb = read_insts(b as int, WIDTH as nat);
    lemma_read_pushes_cells(a as int, 1, mem, rest, fuel);
    let s1 = seq![xi] + rest;
    assert(Seq::new(1, |i: int| mem(a + i)) + rest =~= s1);
    lemma_read_pushes_cells(b as int, 1, mem, s1, fuel);
    let t0 = seq![yi, xi] + rest;
    assert(Seq::new(1, |i: int| mem(b + i)) + s1 =~= t0);
    lemma_run_add(ra, rb, mem, rest, fuel);
    lemma_run_add(ra + rb, remainder_insts(), mem, rest, fuel);
    assert(u32_bound() == 0x1_0000_0000int);
    let body = remainder_insts();
    // the zero divisor test
    let pa = body.take(5);
    let a1 = seq![yi] + t0;
    let a2 = seq![0int] + a1;
    let a3 = seq![flag(yi == 0)] + t0;
    let a4 = seq![flag(yi != 0)] + t0;
    assert(a2.skip(2) =~= t0);
    assert(step(pa[0], mem, t0, fuel) == Some(a1));
    assert(step(pa[1], mem, a1, fuel) == Some(a2));
    assert(step(pa[2], mem, a2, fuel) == Some(a3));
    assert(step(pa[3], mem, a3, fuel) == Some(a4));
    assert(pa =~= pa.take(4) + seq![pa[4]]);
    lemma_run_from(pa.take(4), 3, mem, a3, fuel);
    lemma_run_from(pa.take(4), 2, mem, a2, fuel);
    lemma_run_from(pa.take(4), 1, mem, a1, fuel);
    lemma_run_from(pa.take(4), 0, mem, t0, fuel);
    assert(pa.take(4).skip(0) =~= pa.take(4));
    assert(pa.take(4).skip(4) =~= Seq::<Inst>::empty());
    lemma_run_add(pa.take(4), seq![pa[4]], mem, t0, fuel);
    lemma_run_one(pa[4], mem, a4, fuel);
    assert(a4.drop_first() =~= t0);
    // the test for i32::MIN and -1
    let pb = body.subrange(5, 15);
    let b1 = seq![yi] + t0;
    let b2 = seq![0xffff_ffffint] + b1;
    let b3 = seq![flag(yi == 0xffff_ffff)] + t0;
    let b4 = seq![flag(yi != 0xffff_ffff)] + t0;
    let b5 = seq![xi] + b4;
    let b6 = seq![0x8000_0000int] + b5;
    let b7 = seq![flag(xi == 0x8000_0000)] + b4;
    let b8 = seq![flag(xi != 0x8000_0000)] + b4;
    let b9 = seq![flag(yi != 0xffff_ffff || xi != 0x8000_0000)] + t0;
    assert(b2.skip(2) =~= t0);
    assert(b4[2] == xi);
    assert(b6.skip(2) =~= b4);
    assert(b8.skip(2) =~= t0);
    assert(step(pb[0], mem, t0, fuel) == Some(b1));
    assert(step(pb[1], mem, b1, fuel) == Some(b2));
    assert(step(pb[2], mem, b2, fuel) == Some(b3));
    assert(step(pb[3], mem, b3, fuel) == Some(b4));
    assert(step(pb[4], mem, b4, fuel) == Some(b5));
    assert(step(pb[5], mem, b5, fuel) == Some(b6));
    assert(step(pb[6], mem, b6, fuel) == Some(b7));
    assert(step(pb[7], mem, b7, fuel) == Some(b8));
    assert(step(pb[8], mem, b8, fuel) == Some(b9));
    let pb9 = pb.take(9);
    assert(pb =~= pb9 + seq![pb[9]]);
    lemma_run_from(pb9, 8, mem, b8, fuel);
    lemma_run_from(pb9, 7, mem, b7, fuel);
    lemma_run_from(pb9, 6, mem, b6, fuel);
    lemma_run_from(pb9, 5, mem, b5, fuel);
    lemma_run_from(pb9, 4, mem, b4, fuel);
    lemma_run_from(pb9, 3, mem, b3, fuel);
    lemma_run_from(pb9, 2, mem, b2, fuel);
    lemma_run_from(pb9, 1, mem, b1, fuel);
    lemma_run_from(pb9, 0, mem, t0, fuel);
    assert(pb9.skip(0) =~= pb9);
    assert(pb9.skip(9) =~= Seq::<Inst>::empty());
    lemma_run_add(pb9, seq![pb[9]], mem, t0, fuel);
    lemma_run_one(pb[9], mem, b9, fuel);
    assert(b9.drop_first() =~= t0);
    // the sign of a under the operands
    let pc = body.subrange(15, 18);
    lemma_sign_bit(x);
    let c1 = seq![xi] + t0;
    let c2 = seq![sx] + t0;
    let c3 = seq![yi, xi, sx] + rest;
    assert(c1.skip(1) =~= t0);
    assert(c2.subrange(1, 3) + seq![c2[0]] + c2.skip(3) =~= c3);
    assert(step(pc[0], mem, t0, fuel) == Some(c1));
    assert(step(pc[1], mem, c1, fuel) == Some(c2));
    assert(step(pc[2], mem, c2, fuel) == Some(c3));
    lemma_run_from(pc, 2, mem, c2, fuel);
    lemma_run_from(pc, 1, mem, c1, fuel);
    lemma_run_from(pc, 0, mem, t0, fuel);
    assert(pc.skip(0) =~= pc);
    assert(pc.skip(3) =~= Seq::<Inst>::empty());
    let n = body.skip(18);
    assert(body =~= pa + pb + pc + n);
    lemma_run_add(pa + pb + pc, n, mem, t0, fuel);
    lemma_run_add(pa + pb, pc, mem, t0, fuel);
    lemma_run_add(pa, pb, mem, t0, fuel);
    if yi != 0 && !(yi == 0xffff_ffff && xi == 0x8000_0000) {
        let abs = abs_stack_insts();
        assert(n =~= abs + seq![Inst::Swap] + abs + n.skip(11));
        assert(n.skip(11) =~= body.skip(29));
        let r1 = seq![xi, sx] + rest;
        assert(c3 =~= seq![yi] + r1);
        lemma_abs_stack_computes(y, mem, r1, fuel);
        lemma_run_add(abs + seq![Inst::Swap] + abs, n.skip(11), mem, c3, fuel);
        lemma_run_add(abs + seq![Inst::Swap], abs, mem, c3, fuel);
        lemma_run_add(abs, seq![Inst::Swap], mem, c3, fuel);
        if y != 0x8000_0000 {
            let my = magnitude(signed(y));
            let v1 = seq![my] + r1;
            let v2 = seq![xi, my, sx] + rest;
            lemma_run_one(Inst::Swap, mem, v1, fuel);
            assert(v1.skip(2) =~= seq![sx] + rest);
            assert(seq![v1[1], v1[0]] + v1.skip(2) =~= v2);
            assert(step(Inst::Swap, mem, v1, fuel) == Some(v2));
            let r2 = seq![my, sx] + rest;
            assert(v2 =~= seq![xi] + r2);
            lemma_abs_stack_computes(x, mem, r2, fuel);
            if x != 0x8000_0000 {
                let mx = magnitude(signed(x));
                lemma_mod_tail(mx, my, sx, mem, rest, fuel);
                assert(seq![mx] + r2 =~= seq![mx, my, sx] + rest);
                let r = mx % my;
                assert(0 <= r < my);
                let v = truncated_remainder(signed(x), signed(y));
                if sx == 1 {
                    assert((0x1_0000_0000int - r) % 0x1_0000_0000int == (v + 0x1_0000_0000int) % 0x1_0000_0000int);
                } else {
                    assert((v + 0x1_0000_0000int) % 0x1_0000_0000int == r);
                }
            }
        }
    }
}

/// The integer `u` shifted right by `k` bits as the code of [`shift_right`]
/// does it: its absolute value is shifted, so the result rounds toward zero.
pub open spec fn shifted_right(u: int, k: nat) -> int {
    let r = magnitude(u) / pow2(k);
    if u < 0 {
        -r
    } else {
        r
    }
}

/// The end of [`shift_insts`] to the right on `[|a|, b, a_sign]`: the
/// absolute value shifted right by `b`, negated where the sign bit is set,
/// and a fault where `b` is 32 or more.
#[verifier::spinoff_prover]
#[verifier::rlimit(60)]
proof fn lemma_shr_tail(ax: int, k: int, sx: int, mem: spec_fn(int) -> int, rest: Seq<int>, fuel: nat)
    requires
        0 <= ax < 0x8000_0000,
        0 <= k < 0x8000_0000,
        sx == 0 || sx == 1,
    ensures
        run(shift_insts(true).skip(17), mem, seq![ax, k, sx] + rest, fuel) == if k >= 32 {
            None::<Seq<int>>
        } else if sx == 1 {
            Some(seq![(0x1_0000_0000int - ax / pow2(k as nat)) % 0x1_0000_0000int] + rest)
        } else {
            Some(seq![ax / pow2(k as nat)] + rest)
        },
{
    let is = shift_insts(true).skip(17);
    assert(u32_bound() == 0x1_0000_0000int);
    let t0 = seq![ax, k, sx] + rest;
    let t1 = seq![k, ax, sx] + rest;
    assert(t0.skip(2) =~= t1.skip(2));
    assert(t1.skip(2) =~= seq![sx] + rest);
    assert(step(is[0], mem, t0, fuel) == Some(t1));
    assert(is =~= seq![is[0]] + seq![is[1]] + is.skip(2));
    lemma_run_add(seq![is[0]] + seq![is[1]], is.skip(2), mem, t0, fuel);
    lemma_run_add(seq![is[0]], seq![is[1]], mem, t0, fuel);
    lemma_run_one(is[0], mem, t0, fuel);
    lemma_run_one(is[1], mem, t1, fuel);
    if k < 32 {
        let p = pow2(k as nat);
        lemma_pow2_positive(k as nat);
        let r = ax / p;
        assert(0 <= r <= ax) by (nonlinear_arith)
            requires
                0 <= ax,
                p > 0,
                r == ax / p,
        ;
        let t2 = seq![r, sx] + rest;
        let t3 = seq![sx, r] + rest;
        assert(step(is[1], mem, t1, fuel) == Some(t2));
        let rest2 = is.skip(2);
        assert(t2.skip(2) =~= rest);
        assert(step(rest2[0], mem, t2, fuel) == Some(t3));
        assert(rest2 =~= seq![rest2[0]] + seq![rest2[1]]);
        lemma_run_add(seq![rest2[0]], seq![rest2[1]], mem, t2, fuel);
        lemma_run_one(rest2[0], mem, t2, fuel);
        lemma_run_one(rest2[1], mem, t3, fuel);
        assert(rest2[1]->If_condition =~= Seq::<Inst>::empty());
        assert(run(Seq::<Inst>::empty(), mem, t3, fuel) == Some(t3));
        assert(t3.drop_first() =~= seq![r] + rest);
        if sx == 1 {
            lemma_negate_stack_computes(r as u32, mem, rest, fuel);
        } else {
            assert(run(Seq::<Inst>::empty(), mem, seq![r] + rest, fuel) == Some(seq![r] + rest));
            assert(rest2[1]->If_else_ =~= Seq::<Inst>::empty());
        }
    } else {
        assert(step(is[1], mem, t1, fuel) == None::<Seq<int>>);
    }
}

/// The code of [`shift_right`], up to the store of the result, shifts the
/// signed integer in the cell `a` right by the one in the cell `b`, rounding
/// toward zero: it faults where `b` is negative or 32 or more and where `a`
/// is `i32::MIN`, and leaves the bits of the result otherwise.
#[verifier::spinoff_prover]
#[verifier::rlimit(80)]
pub proof fn lemma_shift_right_computes(a: u32, b: u32, mem: spec_fn(int) -> int, rest: Seq<int>, fuel: nat)
    requires
        a + WIDTH <= u32::MAX,
        b + WIDTH <= u32::MAX,
        0 <= mem(a as int) < u32_bound(),
        0 <= mem(b as int) < u32_bound(),
    ensures
        ({
            let x = mem(a as int) as u32;
            let y = mem(b as int) as u32;
            run(
                read_insts(a as int, WIDTH as nat) + read_insts(b as int, WIDTH as nat) + shift_insts(true),
                mem,
                rest,
                fuel,
            ) == if y >= 32 || x == 0x8000_0000 {
                None::<Seq<int>>
            } else {
                Some(seq![(shifted_right(signed(x), y as nat) + 0x1_0000_0000int) % 0x1_0000_0000int] + rest)
            }
        }),
{
    let x = mem(a as int) as u32;
    let y = mem(b as int) as u32;
    let xi = x as int;
    let yi = y as int;
    let sx = sign_bit(x);
    let ra = read_insts(a as int, WIDTH as nat);
    let rb = read_insts(b as int, WIDTH as nat);
    lemma_read_pushes_cells(a as int, 1, mem, rest, fuel);
    let s1 = seq![xi] + rest;
    assert(Seq::new(1, |i: int| mem(a + i)) + rest =~= s1);
    lemma_read_pushes_cells(b as int, 1, mem, s1, fuel);
    let t0 = seq![yi, xi] + rest;
    assert(Seq::new(1, |i: int| mem(b + i)) + s1 =~= t0);
    lemma_run_add(ra, rb, mem, rest, fuel);
    lemma_run_add(ra + rb, shift_insts(true), mem, rest, fuel);
    assert(u32_bound() == 0x1_0000_0000int);
    let body = shift_insts(true);
    lemma_sign_bit(x);
    lemma_sign_bit(y);
    // the test for a negative shift
    let pa = body.take(3);
    let a1 = seq![yi] + t0;
    let a2 = seq![sign_bit(y)] + t0;
    assert(a1.skip(1) =~= t0);
    assert(step(pa[0], mem, t0, fuel) == Some(a1));
    assert(step(pa[1], mem, a1, fuel) == Some(a2));
    assert(pa =~= pa.take(2) + seq![pa[2]]);
    lemma_run_from(pa.take(2), 1, mem, a1, fuel);
    lemma_run_from(pa.take(2), 0, mem, t0, fuel);
    assert(pa.take(2).skip(0) =~= pa.take(2));
    assert(pa.take(2).skip(2) =~= Seq::<Inst>::empty());
    lemma_run_add(pa.take(2), seq![pa[2]], mem, t0, fuel);
    lemma_run_one(pa[2], mem, a2, fuel);
    assert(a2.drop_first() =~= t0);
    // the sign of a under the operands
    let pc = body.subrange(3, 6);
    let c1 = seq![xi] + t0;
    let c2 = seq![sx] + t0;
    let c3 = seq![yi, xi, sx] + rest;
    assert(c1.skip(1) =~= t0);
    assert(c2.subrange(1, 3) + seq![c2[0]] + c2.skip(3) =~= c3);
    assert(step(pc[0], mem, t0, fuel) == Some(c1));
    assert(step(pc[1], mem, c1, fuel) == Some(c2));
    assert(step(pc[2], mem, c2, fuel) == Some(c3));
    lemma_run_from(pc, 2, mem, c2, fuel);
    lemma_run_from(pc, 1, mem, c1, fuel);
    lemma_run_from(pc, 0, mem, t0, fuel);
    assert(pc.skip(0) =~= pc);
    assert(pc.skip(3) =~= Seq::<Inst>::empty());
    let n = body.skip(6);
    assert(body =~= pa + pc + n);
    lemma_run_add(pa + pc, n, mem, t0, fuel);
    lemma_run_add(pa, pc, mem, t0, fuel);
    if yi < 0x8000_0000 {
        let abs = abs_stack_insts();
        assert(n =~= abs + seq![Inst::Swap] + abs + n.skip(11));
        assert(n.skip(11) =~= body.skip(17));
        let r1 = seq![xi, sx] + rest;
        assert(c3 =~= seq![yi] + r1);
        lemma_abs_stack_computes(y, mem, r1, fuel);
        lemma_run_add(abs + seq![Inst::Swap] + abs, n.skip(11), mem, c3, fuel);
        lemma_run_add(abs + seq![Inst::Swap], abs, mem, c3, fuel);
        lemma_run_add(abs, seq![Inst::Swap], mem, c3, fuel);
        let my = magnitude(signed(y));
        assert(my == yi);
        let v1 = seq![my] + r1;
        let v2 = seq![xi, my, sx] + rest;
        lemma_run_one(Inst::Swap, mem, v1, fuel);
        assert(v1.skip(2) =~= seq![sx] + rest);
        assert(seq![v1[1], v1[0]] + v1.skip(2) =~= v2);
        assert(step(Inst::Swap, mem, v1, fuel) == Some(v2));
        let r2 = seq![my, sx] + rest;
        assert(v2 =~= seq![xi] + r2);
        lemma_abs_stack_computes(x, mem, r2, fuel);
        if x != 0x8000_0000 {
            let mx = magnitude(signed(x));
            lemma_shr_tail(mx, my, sx, mem, rest, fuel);
            assert(seq![mx] + r2 =~= seq![mx, my, sx] + rest);
            if yi < 32 {
                lemma_pow2_positive(y as nat);
                let r = mx / pow2(y as nat);
                assert(0 <= r <= mx) by (nonlinear_arith)
                    requires
                        0 <= mx,
                        pow2(y as nat) > 0,
                        r == mx / pow2(y as nat),
                ;
                let v = shifted_right(signed(x), y as nat);
                if sx == 1 {
                    assert((0x1_0000_0000int - r) % 0x1_0000_0000int == (v + 0x1_0000_0000int) % 0x1_0000_0000int);
                } else {
                    assert((v + 0x1_0000_0000int) % 0x1_0000_0000int == r);
                }
            }
        }
    }
}

/// The sign bit in place of a 32-bit value.
proof fn lemma_sign_in_place(x: u32)
    by (bit_vector)
    ensures
        x & 0x8000_0000u32 == (if x < 0x8000_0000u32 {
            0u32
        } else {
            0x8000_0000u32
        }),
{
}

/// The code of [`decompose`] pushes the absolute value of the signed
/// integer in the cell `n` and its sign bit in place over it, and faults
/// where the integer is `i32::MIN`.
#[verifier::spinoff_prover]
#[verifier::rlimit(60)]
pub proof fn lemma_decompose_computes(n: u32, mem: spec_fn(int) -> int, rest: Seq<int>, fuel: nat)
    requires
        n + WIDTH <= u32::MAX,
        0 <= mem(n as int) < u32_bound(),
    ensures
        ({
            let x = mem(n as int) as u32;
            run(decompose_insts(n), mem, rest, fuel) == if x == 0x8000_0000 {
                None::<Seq<int>>
            } else {
                Some(seq![sign_bit(x) * 0x8000_0000, magnitude(signed(x))] + rest)
            }
        }),
{
    let x = mem(n as int) as u32;
    let xi = x as int;
    let rd = read_insts(n as int, WIDTH as nat);
    lemma_read_pushes_cells(n as int, 1, mem, rest, fuel);
    let t0 = seq![xi] + rest;
    assert(Seq::new(1, |i: int| mem(n + i)) + rest =~= t0);
    let t1 = seq![xi] + t0;
    lemma_run_one(Inst::Dup(None), mem, t0, fuel);
    lemma_abs_stack_computes(x, mem, t0, fuel);
    let tail = seq![Inst::Swap, Inst::Push(0x8000_0000), Inst::U32CheckedAnd];
    assert(decompose_insts(n) =~= rd + seq![Inst::Dup(None)] + abs_stack_insts() + tail);
    lemma_run_add(rd + seq![Inst::Dup(None)] + abs_stack_insts(), tail, mem, rest, fuel);
    lemma_run_add(rd + seq![Inst::Dup(None)], abs_stack_insts(), mem, rest, fuel);
    lemma_run_add(rd, seq![Inst::Dup(None)], mem, rest, fuel);
    if x != 0x8000_0000 {
        let m = magnitude(signed(x));
        assert(u32_bound() == 0x1_0000_0000int);
        let u0 = seq![m] + t0;
        let u1 = seq![xi, m] + rest;
        let u2 = seq![0x8000_0000int] + u1;
        let u3 = seq![sign_bit(x) * 0x8000_0000, m] + rest;
        lemma_sign_in_place(x);
        assert(u0.skip(2) =~= rest);
        assert(u2.skip(2) =~= seq![m] + rest);
        assert(step(tail[0], mem, u0, fuel) == Some(u1));
        assert(step(tail[1], mem, u1, fuel) == Some(u2));
        assert(step(tail[2], mem, u2, fuel) == Some(u3));
        lemma_run_from(tail, 2, mem, u2, fuel);
        lemma_run_from(tail, 1, mem, u1, fuel);
        lemma_run_from(tail, 0, mem, u0, fuel);
        assert(tail.skip(0) =~= tail);
        assert(tail.skip(3) =~= Seq::<Inst>::empty());
    }
}

/// The end of [`shift_insts`] to the left on `[|a|, b, a_sign]`: where `b`
/// is below 31 and `|a| * 2^b` below `2^31`, that product, negated where the
/// sign bit is set.
#[verifier::spinoff_prover]
#[verifier::rlimit(60)]
proof fn lemma_shl_tail(ax: int, k: int, sx: int, mem: spec_fn(int) -> int, rest: Seq<int>, fuel: nat)
    requires
        0 <= ax < 0x8000_0000,
        0 <= k < 31,
        ax * pow2(k as nat) < 0x8000_0000,
        sx == 0 || sx == 1,
    ensures
        run(shift_insts(false).skip(17), mem, seq![ax, k, sx] + rest, fuel) == if sx == 1 {
            Some(seq![(0x1_0000_0000int - ax * pow2(k as nat)) % 0x1_0000_0000int] + rest)
        } else {
            Some(seq![ax * pow2(k as nat)] + rest)
        },
{
    let is = shift_insts(false).skip(17);
    assert(u32_bound() == 0x1_0000_0000int);
    let t0 = seq![ax, k, sx] + rest;
    let t1 = seq![k, ax, sx] + rest;
    assert(t0.skip(2) =~= t1.skip(2));
    assert(t1.skip(2) =~= seq![sx] + rest);
    assert(step(is[0], mem, t0, fuel) == Some(t1));
    assert(is =~= seq![is[0]] + seq![is[1]] + is.skip(2));
    lemma_run_add(seq![is[0]] + seq![is[1]], is.skip(2), mem, t0, fuel);
    lemma_run_add(seq![is[0]], seq![is[1]], mem, t0, fuel);
    lemma_run_one(is[0], mem, t0, fuel);
    lemma_run_one(is[1], mem, t1, fuel);
    {
        let p = pow2(k as nat);
        lemma_pow2_positive(k as nat);
        let r = ax * p;
        assert(0 <= r) by (nonlinear_arith)
            requires
                0 <= ax,
                p > 0,
                r == ax * p,
        ;
        let t2 = seq![r, sx] + rest;
        let t3 = seq![sx, r] + rest;
        assert(step(is[1], mem, t1, fuel) == Some(t2));
        let rest2 = is.skip(2);
        assert(t2.skip(2) =~= rest);
        assert(step(rest2[0], mem, t2, fuel) == Some(t3));
        assert(rest2 =~= seq![rest2[0]] + seq![rest2[1]]);
        lemma_run_add(seq![rest2[0]], seq![rest2[1]], mem, t2, fuel);
        lemma_run_one(rest2[0], mem, t2, fuel);
        lemma_run_one(rest2[1], mem, t3, fuel);
        assert(rest2[1]->If_condition =~= Seq::<Inst>::empty());
        assert(run(Seq::<Inst>::empty(), mem, t3, fuel) == Some(t3));
        assert(t3.drop_first() =~= seq![r] + rest);
        if sx == 1 {
            lemma_negate_stack_computes(r as u32, mem, rest, fuel);
        } else {
            assert(run(Seq::<Inst>::empty(), mem, seq![r] + rest, fuel) == Some(seq![r] + rest));
            assert(rest2[1]->If_else_ =~= Seq::<Inst>::empty());
        }
    }
}

/// The code of [`shift_left`], up to the store of the result, shifts the
/// signed integer in the cell `a` left by the one in the cell `b`: it faults
/// where `b` is negative and where `a` is `i32::MIN`, and where `b` is below
/// 31 and `|a| * 2^b` below `2^31` it leaves the bits of `a * 2^b`.
#[verifier::spinoff_prover]
#[verifier::rlimit(80)]
pub proof fn lemma_shift_left_computes(a: u32, b: u32, mem: spec_fn(int) -> int, rest: Seq<int>, fuel: nat)
    requires
        a + WIDTH <= u32::MAX,
        b + WIDTH <= u32::MAX,
        0 <= mem(a as int) < u32_bound(),
        0 <= mem(b as int) < u32_bound(),
    ensures
        ({
            let x = mem(a as int) as u32;
            let y = mem(b as int) as u32;
            let code = read_insts(a as int, WIDTH as nat) + read_insts(b as int, WIDTH as nat) + shift_insts(
                false,
            );
            &&& (y >= 0x8000_0000 || x == 0x8000_0000) ==> run(code, mem, rest, fuel) == None::<Seq<int>>
            &&& (y < 31 && x != 0x8000_0000 && magnitude(signed(x)) * pow2(y as nat) < 0x8000_0000) ==> run(
                code,
                mem,
                rest,
                fuel,
            ) == Some(seq![(signed(x) * pow2(y as nat) + 0x1_0000_0000int) % 0x1_0000_0000int] + rest)
        }),
{
    let x = mem(a as int) as u32;
    let y = mem(b as int) as u32;
    let xi = x as int;
    let yi = y as int;
    let sx = sign_bit(x);
    let ra = read_insts(a as int, WIDTH as nat);
    let rb = read_insts(b as int, WIDTH as nat);
    lemma_read_pushes_cells(a as int, 1, mem, rest, fuel);
    let s1 = seq![xi] + rest;
    assert(Seq::new(1, |i: int| mem(a + i)) + rest =~= s1);
    lemma_read_pushes_cells(b as int, 1, mem, s1, fuel);
    let t0 = seq![yi, xi] + rest;
    assert(Seq::new(1, |i: int| mem(b + i)) + s1 =~= t0);
    lemma_run_add(ra, rb, mem, rest, fuel);
    lemma_run_add(ra + rb, shift_insts(false), mem, rest, fuel);
    assert(u32_bound() == 0x1_0000_0000int);
    let body = shift_insts(false);
    lemma_sign_bit(x);
    lemma_sign_bit(y);
    // the test for a negative shift
    let pa = body.take(3);
    let a1 = seq![yi] + t0;
    let a2 = seq![sign_bit(y)] + t0;
    assert(a1.skip(1) =~= t0);
    assert(step(pa[0], mem, t0, fuel) == Some(a1));
    assert(step(pa[1], mem, a1, fuel) == Some(a2));
    assert(pa =~= pa.take(2) + seq![pa[2]]);
    lemma_run_from(pa.take(2), 1, mem, a1, fuel);
    lemma_run_from(pa.take(2), 0, mem, t0, fuel);
    assert(pa.take(2).skip(0) =~= pa.take(2));
    assert(pa.take(2).skip(2) =~= Seq::<Inst>::empty());
    lemma_run_add(pa.take(2), seq![pa[2]], mem, t0, fuel);
    lemma_run_one(pa[2], mem, a2, fuel);
    assert(a2.drop_first() =~= t0);
    // the sign of a under the operands
    let pc = body.subrange(3, 6);
    let c1 = seq![xi] + t0;
    let c2 = seq![sx] + t0;
    let c3 = seq![yi, xi, sx] + rest;
    assert(c1.skip(1) =~= t0);
    assert(c2.subrange(1, 3) + seq![c2[0]] + c2.skip(3) =~= c3);
    assert(step(pc[0], mem, t0, fuel) == Some(c1));
    assert(step(pc[1], mem, c1, fuel) == Some(c2));
    assert(step(pc[2], mem, c2, fuel) == Some(c3));
    lemma_run_from(pc, 2, mem, c2, fuel);
    lemma_run_from(pc, 1, mem, c1, fuel);
    lemma_run_from(pc, 0, mem, t0, fuel);
    assert(pc.skip(0) =~= pc);
    assert(pc.skip(3) =~= Seq::<Inst>::empty());
    let n = body.skip(6);
    assert(body =~= pa + pc + n);
    lemma_run_add(pa + pc, n, mem, t0, fuel);
    lemma_run_add(pa, pc, mem, t0, fuel);
    if yi < 0x8000_0000 {
        let abs = abs_stack_insts();
        assert(n =~= abs + seq![Inst::Swap] + abs + n.skip(11));
        assert(n.skip(11) =~= body.skip(17));
        let r1 = seq![xi, sx] + rest;
        assert(c3 =~= seq![yi] + r1);
        lemma_abs_stack_computes(y, mem, r1, fuel);
        lemma_run_add(abs + seq![Inst::Swap] + abs, n.skip(11), mem, c3, fuel);
        lemma_run_add(abs + seq![Inst::Swap], abs, mem, c3, fuel);
        lemma_run_add(abs, seq![Inst::Swap], mem, c3, fuel);
        let my = magnitude(signed(y));
        assert(my == yi);
        let v1 = seq![my] + r1;
        let v2 = seq![xi, my, sx] + rest;
        lemma_run_one(Inst::Swap, mem, v1, fuel);
        assert(v1.skip(2) =~= seq![sx] + rest);
        assert(seq![v1[1], v1[0]] + v1.skip(2) =~= v2);
        assert(step(Inst::Swap, mem, v1, fuel) == Some(v2));
        let r2 = seq![my, sx] + rest;
        assert(v2 =~= seq![xi] + r2);
        lemma_abs_stack_computes(x, mem, r2, fuel);
        if x != 0x8000_0000 && yi < 31 && magnitude(signed(x)) * pow2(y as nat) < 0x8000_0000 {
            let mx = magnitude(signed(x));
            lemma_shl_tail(mx, my, sx, mem, rest, fuel);
            assert(seq![mx] + r2 =~= seq![mx, my, sx] + rest);
            lemma_pow2_positive(y as nat);
            let r = mx * pow2(y as nat);
            let v = signed(x) * pow2(y as nat);
            if sx == 1 {
                assert(v == -r) by (nonlinear_arith)
                    requires
                        signed(x) < 0,
                        mx == -signed(x),
                        r == mx * pow2(y as nat),
                        v == signed(x) * pow2(y as nat),
                ;
                assert((0x1_0000_0000int - r) % 0x1_0000_0000int == (v + 0x1_0000_0000int) % 0x1_0000_0000int);
            } else {
                assert(v == r);
                assert(0 <= r);
                assert((v + 0x1_0000_0000int) % 0x1_0000_0000int == r);
            }
        }
    }
}

} // verus!
