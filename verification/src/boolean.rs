//! Code generation for booleans: one memory cell holding 1 for `true` and 0
//! for `false`.

use vstd::prelude::*;

use crate::encoder::{Inst, Instruction, view_seq, push_inst};
use crate::machine::{flag, lemma_run_add, lemma_run_first, run, step};
use crate::memory::{Memory, ValueSource, lemma_read_pushes_cells, read_insts, write_insts};

verus! {

/// Cells taken by one boolean.
pub const WIDTH: u32 = 1;

/// The code of [`new`]: memory starts zeroed, so only `true` is written.
pub open spec fn new_insts(addr: u32, value: bool) -> Seq<Inst> {
    if value {
        write_insts(addr as int, seq![ValueSource::Immediate(1)])
    } else {
        Seq::empty()
    }
}

/// The code of a binary operation `op` on the booleans in the cells `a`
/// and `b`, storing the result at `result`.
pub open spec fn binary_insts(a: u32, b: u32, result: u32, op: Inst) -> Seq<Inst> {
    read_insts(a as int, WIDTH as nat) + read_insts(b as int, WIDTH as nat) + seq![op]
        + write_insts(result as int, seq![ValueSource::Stack])
}

/// Allocates a boolean cell and appends the code that sets it to `value`;
/// returns the cell.
pub fn new(instructions: &mut Vec<Instruction>, memory: &mut Memory, value: bool) -> (symbol: u32)
    requires
        old(memory).next_addr() + WIDTH <= u32::MAX,
    ensures
        symbol == old(memory).next_addr(),
        final(memory).next_addr() == old(memory).next_addr() + WIDTH,
        view_seq(final(instructions)@) == view_seq(old(instructions)@) + new_insts(symbol, value),
{
    let symbol = memory.allocate(WIDTH);
    // memory is zero-initialized, so we don't need to write for false
    if value {
        let one = [ValueSource::Immediate(1)];
        proof {
            assert(one@ =~= seq![ValueSource::Immediate(1)]);
        }
        memory.write(instructions, symbol, &one);
    } else {
        proof {
            assert(view_seq(instructions@) =~= view_seq(old(instructions)@) + new_insts(symbol, value));
        }
    }
    symbol
}

/// Appends the code of the binary operation `op` on the booleans in the
/// cells `a` and `b`, storing the result in a fresh cell.
fn binary(instructions: &mut Vec<Instruction>, memory: &mut Memory, a: u32, b: u32, op: Instruction<'static>) -> (result: u32)
    requires
        old(memory).next_addr() + WIDTH <= u32::MAX,
        a + WIDTH <= u32::MAX,
        b + WIDTH <= u32::MAX,
    ensures
        result == old(memory).next_addr(),
        final(memory).next_addr() == old(memory).next_addr() + WIDTH,
        view_seq(final(instructions)@) == view_seq(old(instructions)@) + binary_insts(a, b, result, op@),
{
    let result = memory.allocate(WIDTH);
    memory.read(instructions, a, WIDTH);
    memory.read(instructions, b, WIDTH);
    push_inst(instructions, op);
    let from_stack = [ValueSource::Stack];
    proof {
        assert(from_stack@ =~= seq![ValueSource::Stack]);
    }
    memory.write(instructions, result, &from_stack);
    proof {
        assert(view_seq(instructions@) =~= view_seq(old(instructions)@) + binary_insts(a, b, result, op@));
    }
    result
}

/// Appends the code that computes `a && b` for the booleans in the cells
/// `a` and `b`, and returns the fresh cell that holds the result.
pub fn compile_and(instructions: &mut Vec<Instruction>, memory: &mut Memory, a: u32, b: u32) -> (result: u32)
    requires
        old(memory).next_addr() + WIDTH <= u32::MAX,
        a + WIDTH <= u32::MAX,
        b + WIDTH <= u32::MAX,
    ensures
        result == old(memory).next_addr(),
        final(memory).next_addr() == old(memory).next_addr() + WIDTH,
        view_seq(final(instructions)@) == view_seq(old(instructions)@) + binary_insts(a, b, result, Inst::And),
{
    binary(instructions, memory, a, b, Instruction::And)
}

/// Appends the code that computes `a || b` for the booleans in the cells
/// `a` and `b`, and returns the fresh cell that holds the result.
pub fn compile_or(instructions: &mut Vec<Instruction>, memory: &mut Memory, a: u32, b: u32) -> (result: u32)
    requires
        old(memory).next_addr() + WIDTH <= u32::MAX,
        a + WIDTH <= u32::MAX,
        b + WIDTH <= u32::MAX,
    ensures
        result == old(memory).next_addr(),
        final(memory).next_addr() == old(memory).next_addr() + WIDTH,
        view_seq(final(instructions)@) == view_seq(old(instructions)@) + binary_insts(a, b, result, Inst::Or),
{
    binary(instructions, memory, a, b, Instruction::Or)
}

/// The code of [`compile_and`] and [`compile_or`], up to the store of the
/// result, pushes the conjunction or disjunction of the booleans in the
/// cells `a` and `b` over the stack as it was.
pub proof fn lemma_binary_computes(a: u32, b: u32, op: Inst, mem: spec_fn(int) -> int, rest: Seq<int>, fuel: nat)
    requires
        a + WIDTH <= u32::MAX,
        b + WIDTH <= u32::MAX,
        mem(a as int) == 0 || mem(a as int) == 1,
        mem(b as int) == 0 || mem(b as int) == 1,
        op == Inst::And || op == Inst::Or,
    ensures
        run(read_insts(a as int, WIDTH as nat) + read_insts(b as int, WIDTH as nat) + seq![op], mem, rest, fuel)
            == Some(
            seq![
                if op == Inst::And {
                    flag(mem(a as int) == 1 && mem(b as int) == 1)
                } else {
                    flag(mem(a as int) == 1 || mem(b as int) == 1)
                },
            ] + rest,
        ),
{
    let ra = read_insts(a as int, WIDTH as nat);
    let rb = read_insts(b as int, WIDTH as nat);
    lemma_read_pushes_cells(a as int, 1, mem, rest, fuel);
    let s1 = seq![mem(a as int)] + rest;
    assert(Seq::new(1, |i: int| mem(a + i)) + rest =~= s1);
    lemma_read_pushes_cells(b as int, 1, mem, s1, fuel);
    let s2 = seq![mem(b as int)] + s1;
    assert(Seq::new(1, |i: int| mem(b + i)) + s1 =~= s2);
    assert(s2.skip(2) =~= rest);
    lemma_run_first(seq![op], mem, s2, fuel);
    assert(seq![op].drop_first() =~= Seq::<Inst>::empty());
    lemma_run_add(ra, rb, mem, rest, fuel);
    lemma_run_add(ra + rb, seq![op], mem, rest, fuel);
}

} // verus!
