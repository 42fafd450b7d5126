//! Code generation for 64-bit unsigned integers: two memory cells, the high
//! 32 bits first, computed on by the `u64` procedures of the Miden standard
//! library.

use vstd::prelude::*;

use crate::encoder::{Inst, Instruction, view_seq, push_inst};
use crate::memory::{Memory, ValueSource, read_insts, write_insts};

verus! {

/// Cells taken by one integer: `[high, low]`.
pub const WIDTH: u32 = 2;

/// `n` values taken from the stack.
pub open spec fn from_stack(n: nat) -> Seq<ValueSource> {
    Seq::new(n, |_k: int| ValueSource::Stack)
}

/// The code that loads the operands at `a` (`a_width` cells) and `b`
/// (`b_width` cells), calls the procedure `name` and stores the
/// `result_width` cells it leaves at `result`.
pub open spec fn exec_insts(
    a: u32,
    a_width: u32,
    b: u32,
    b_width: u32,
    name: Seq<char>,
    result: u32,
    result_width: u32,
) -> Seq<Inst> {
    read_insts(a as int, a_width as nat) + read_insts(b as int, b_width as nat) + seq![Inst::Exec(name)]
        + write_insts(result as int, from_stack(result_width as nat))
}

/// The code of [`cast_from_uint32`].
pub open spec fn cast_insts(from: u32, dest: u32) -> Seq<Inst> {
    read_insts(from as int, 1) + write_insts(dest as int, seq![ValueSource::Immediate(0), ValueSource::Stack])
}

/// Appends the code that stores the 32-bit integer in the cell `from` as a
/// 64-bit integer at `dest`: a zero high half and the value as low half.
pub fn cast_from_uint32(instructions: &mut Vec<Instruction>, memory: &Memory, from: u32, dest: u32)
    requires
        from + 1 <= u32::MAX,
        dest + WIDTH <= u32::MAX,
    ensures
        view_seq(final(instructions)@) == view_seq(old(instructions)@) + cast_insts(from, dest),
{
    memory.read(instructions, from, 1);
    let values = [ValueSource::Immediate(0), ValueSource::Stack];
    proof {
        assert(values@ =~= seq![ValueSource::Immediate(0), ValueSource::Stack]);
    }
    memory.write(instructions, dest, &values);
    proof {
        assert(view_seq(instructions@) =~= view_seq(old(instructions)@) + cast_insts(from, dest));
    }
}

/// Appends the code that calls the procedure `name` on the operands at `a`
/// and `b` and stores what it leaves in fresh cells; returns the first.
fn exec_binary(
    instructions: &mut Vec<Instruction>,
    memory: &mut Memory,
    a: u32,
    b: u32,
    b_width: u32,
    name: &'static str,
    result_width: u32,
) -> (result: u32)
    requires
        old(memory).next_addr() + result_width <= u32::MAX,
        a + WIDTH <= u32::MAX,
        b + b_width <= u32::MAX,
        result_width <= 2,
    ensures
        result == old(memory).next_addr(),
        final(memory).next_addr() == old(memory).next_addr() + result_width,
        view_seq(final(instructions)@) == view_seq(old(instructions)@) + exec_insts(
            a,
            WIDTH,
            b,
            b_width,
            name@,
            result,
            result_width,
        ),
{
    let result = memory.allocate(result_width);
    memory.read(instructions, a, WIDTH);
    memory.read(instructions, b, b_width);
    push_inst(instructions, Instruction::Exec(name));
    let mut values: Vec<ValueSource> = Vec::new();
    let mut k: u32 = 0;
    while k < result_width
        invariant
            k <= result_width,
            values@ == from_stack(k as nat),
        decreases result_width - k,
    {
        values.push(ValueSource::Stack);
        k = k + 1;
        proof {
            assert(values@ =~= from_stack(k as nat));
        }
    }
    memory.write(instructions, result, values.as_slice());
    proof {
        assert(view_seq(instructions@) =~= view_seq(old(instructions)@) + exec_insts(
            a,
            WIDTH,
            b,
            b_width,
            name@,
            result,
            result_width,
        ));
    }
    result
}

/// Appends the code that computes `a + b`, failing on overflow for the 64-bit integers at `a` and
/// `b`, and returns the fresh cells of the integer result.
pub fn add(instructions: &mut Vec<Instruction>, memory: &mut Memory, a: u32, b: u32) -> (result: u32)
    requires
        old(memory).next_addr() + 2 <= u32::MAX,
        a + WIDTH <= u32::MAX,
        b + WIDTH <= u32::MAX,
    ensures
        result == old(memory).next_addr(),
        final(memory).next_addr() == old(memory).next_addr() + 2,
        view_seq(final(instructions)@) == view_seq(old(instructions)@) + exec_insts(
            a,
            WIDTH,
            b,
            WIDTH,
            "u64::checked_add"@,
            result,
            2,
        ),
{
    exec_binary(instructions, memory, a, b, WIDTH, "u64::checked_add", 2)
}

/// Appends the code that computes `a - b`, failing below zero for the 64-bit integers at `a` and
/// `b`, and returns the fresh cells of the integer result.
pub fn sub(instructions: &mut Vec<Instruction>, memory: &mut Memory, a: u32, b: u32) -> (result: u32)
    requires
        old(memory).next_addr() + 2 <= u32::MAX,
        a + WIDTH <= u32::MAX,
        b + WIDTH <= u32::MAX,
    ensures
        result == old(memory).next_addr(),
        final(memory).next_addr() == old(memory).next_addr() + 2,
        view_seq(final(instructions)@) == view_seq(old(instructions)@) + exec_insts(
            a,
            WIDTH,
            b,
            WIDTH,
            "u64::checked_sub"@,
            result,
            2,
        ),
{
    exec_binary(instructions, memory, a, b, WIDTH, "u64::checked_sub", 2)
}

/// Appends the code that computes `a == b` for the 64-bit integers at `a` and
/// `b`, and returns the fresh cell of the boolean result.
pub fn eq(instructions: &mut Vec<Instruction>, memory: &mut Memory, a: u32, b: u32) -> (result: u32)
    requires
        old(memory).next_addr() + 1 <= u32::MAX,
        a + WIDTH <= u32::MAX,
        b + WIDTH <= u32::MAX,
    ensures
        result == old(memory).next_addr(),
        final(memory).next_addr() == old(memory).next_addr() + 1,
        view_seq(final(instructions)@) == view_seq(old(instructions)@) + exec_insts(
            a,
            WIDTH,
            b,
            WIDTH,
            "u64::checked_eq"@,
            result,
            1,
        ),
{
    exec_binary(instructions, memory, a, b, WIDTH, "u64::checked_eq", 1)
}

/// Appends the code that computes `a >= b` for the 64-bit integers at `a` and
/// `b`, and returns the fresh cell of the boolean result.
pub fn gte(instructions: &mut Vec<Instruction>, memory: &mut Memory, a: u32, b: u32) -> (result: u32)
    requires
        old(memory).next_addr() + 1 <= u32::MAX,
        a + WIDTH <= u32::MAX,
        b + WIDTH <= u32::MAX,
    ensures
        result == old(memory).next_addr(),
        final(memory).next_addr() == old(memory).next_addr() + 1,
        view_seq(final(instructions)@) == view_seq(old(instructions)@) + exec_insts(
            a,
            WIDTH,
            b,
            WIDTH,
            "u64::checked_gte"@,
            result,
            1,
        ),
{
    exec_binary(instructions, memory, a, b, WIDTH, "u64::checked_gte", 1)
}

/// Appends the code that computes `a > b` for the 64-bit integers at `a` and
/// `b`, and returns the fresh cell of the boolean result.
pub fn gt(instructions: &mut Vec<Instruction>, memory: &mut Memory, a: u32, b: u32) -> (result: u32)
    requires
        old(memory).next_addr() + 1 <= u32::MAX,
        a + WIDTH <= u32::MAX,
        b + WIDTH <= u32::MAX,
    ensures
        result == old(memory).next_addr(),
        final(memory).next_addr() == old(memory).next_addr() + 1,
        view_seq(final(instructions)@) == view_seq(old(instructions)@) + exec_insts(
            a,
            WIDTH,
            b,
            WIDTH,
            "u64::checked_gt"@,
            result,
            1,
        ),
{
    exec_binary(instructions, memory, a, b, WIDTH, "u64::checked_gt", 1)
}

/// Appends the code that computes `a <= b` for the 64-bit integers at `a` and
/// `b`, and returns the fresh cell of the boolean result.
pub fn lte(instructions: &mut Vec<Instruction>, memory: &mut Memory, a: u32, b: u32) -> (result: u32)
    requires
        old(memory).next_addr() + 1 <= u32::MAX,
        a + WIDTH <= u32::MAX,
        b + WIDTH <= u32::MAX,
    ensures
        result == old(memory).next_addr(),
        final(memory).next_addr() == old(memory).next_addr() + 1,
        view_seq(final(instructions)@) == view_seq(old(instructions)@) + exec_insts(
            a,
            WIDTH,
            b,
            WIDTH,
            "u64::checked_lte"@,
            result,
            1,
        ),
{
    exec_binary(instructions, memory, a, b, WIDTH, "u64::checked_lte", 1)
}

/// Appends the code that computes `a < b` for the 64-bit integers at `a` and
/// `b`, and returns the fresh cell of the boolean result.
pub fn lt(instructions: &mut Vec<Instruction>, memory: &mut Memory, a: u32, b: u32) -> (result: u32)
    requires
        old(memory).next_addr() + 1 <= u32::MAX,
        a + WIDTH <= u32::MAX,
        b + WIDTH <= u32::MAX,
    ensures
        result == old(memory).next_addr(),
        final(memory).next_addr() == old(memory).next_addr() + 1,
        view_seq(final(instructions)@) == view_seq(old(instructions)@) + exec_insts(
            a,
            WIDTH,
            b,
            WIDTH,
            "u64::checked_lt"@,
            result,
            1,
        ),
{
    exec_binary(instructions, memory, a, b, WIDTH, "u64::checked_lt", 1)
}

/// Appends the code that computes `a % b` for the 64-bit integers at `a` and
/// `b`, and returns the fresh cells of the integer result.
pub fn modulo(instructions: &mut Vec<Instruction>, memory: &mut Memory, a: u32, b: u32) -> (result: u32)
    requires
        old(memory).next_addr() + 2 <= u32::MAX,
        a + WIDTH <= u32::MAX,
        b + WIDTH <= u32::MAX,
    ensures
        result == old(memory).next_addr(),
        final(memory).next_addr() == old(memory).next_addr() + 2,
        view_seq(final(instructions)@) == view_seq(old(instructions)@) + exec_insts(
            a,
            WIDTH,
            b,
            WIDTH,
            "u64::checked_mod"@,
            result,
            2,
        ),
{
    exec_binary(instructions, memory, a, b, WIDTH, "u64::checked_mod", 2)
}

/// Appends the code that computes `a / b` for the 64-bit integers at `a` and
/// `b`, and returns the fresh cells of the integer result.
pub fn div(instructions: &mut Vec<Instruction>, memory: &mut Memory, a: u32, b: u32) -> (result: u32)
    requires
        old(memory).next_addr() + 2 <= u32::MAX,
        a + WIDTH <= u32::MAX,
        b + WIDTH <= u32::MAX,
    ensures
        result == old(memory).next_addr(),
        final(memory).next_addr() == old(memory).next_addr() + 2,
        view_seq(final(instructions)@) == view_seq(old(instructions)@) + exec_insts(
            a,
            WIDTH,
            b,
            WIDTH,
            "u64::checked_div"@,
            result,
            2,
        ),
{
    exec_binary(instructions, memory, a, b, WIDTH, "u64::checked_div", 2)
}

/// Appends the code that computes `a * b`, failing on overflow for the 64-bit integers at `a` and
/// `b`, and returns the fresh cells of the integer result.
pub fn mul(instructions: &mut Vec<Instruction>, memory: &mut Memory, a: u32, b: u32) -> (result: u32)
    requires
        old(memory).next_addr() + 2 <= u32::MAX,
        a + WIDTH <= u32::MAX,
        b + WIDTH <= u32::MAX,
    ensures
        result == old(memory).next_addr(),
        final(memory).next_addr() == old(memory).next_addr() + 2,
        view_seq(final(instructions)@) == view_seq(old(instructions)@) + exec_insts(
            a,
            WIDTH,
            b,
            WIDTH,
            "u64::checked_mul"@,
            result,
            2,
        ),
{
    exec_binary(instructions, memory, a, b, WIDTH, "u64::checked_mul", 2)
}

/// Appends the code that computes `a << b` for the 64-bit integer at `a` and
/// the shift amount at `b`, `b_width` cells wide, and returns the fresh
/// cells of the result.
pub fn shift_left(instructions: &mut Vec<Instruction>, memory: &mut Memory, a: u32, b: u32, b_width: u32) -> (result: u32)
    requires
        old(memory).next_addr() + WIDTH <= u32::MAX,
        a + WIDTH <= u32::MAX,
        b + b_width <= u32::MAX,
    ensures
        result == old(memory).next_addr(),
        final(memory).next_addr() == old(memory).next_addr() + WIDTH,
        view_seq(final(instructions)@) == view_seq(old(instructions)@) + exec_insts(
            a,
            WIDTH,
            b,
            b_width,
            "u64::checked_shl"@,
            result,
            WIDTH,
        ),
{
    exec_binary(instructions, memory, a, b, b_width, "u64::checked_shl", WIDTH)
}

/// Appends the code that computes `a >> b` for the 64-bit integer at `a` and
/// the shift amount at `b`, `b_width` cells wide, and returns the fresh
/// cells of the result.
pub fn shift_right(instructions: &mut Vec<Instruction>, memory: &mut Memory, a: u32, b: u32, b_width: u32) -> (result: u32)
    requires
        old(memory).next_addr() + WIDTH <= u32::MAX,
        a + WIDTH <= u32::MAX,
        b + b_width <= u32::MAX,
    ensures
        result == old(memory).next_addr(),
        final(memory).next_addr() == old(memory).next_addr() + WIDTH,
        view_seq(final(instructions)@) == view_seq(old(instructions)@) + exec_insts(
            a,
            WIDTH,
            b,
            b_width,
            "u64::checked_shr"@,
            result,
            WIDTH,
        ),
{
    exec_binary(instructions, memory, a, b, b_width, "u64::checked_shr", WIDTH)
}

} // verus!
