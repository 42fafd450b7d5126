//! The compile-time memory layout: a bump allocator for static cells, and
//! the instruction sequences that move values between memory and the stack.

use vstd::prelude::*;

use crate::encoder::{Inst, Instruction, view_seq, lemma_view_seq_push};
use crate::machine::{run, step};

verus! {

/// Static memory of the program being compiled. Cells below the allocation
/// pointer are in use.
pub struct Memory {
    static_alloc_ptr: u32,
}

/// Where a value written to memory comes from.
#[derive(Clone, Copy, Debug, PartialEq, Eq)]
pub enum ValueSource {
    Immediate(u32),
    Memory(u32),
    Stack,
}

/// The instructions that put the value of `v` on top of the stack.
pub open spec fn load_insts(v: ValueSource) -> Seq<Inst> {
    match v {
        ValueSource::Immediate(x) => seq![Inst::Push(x)],
        ValueSource::Memory(a) => seq![Inst::MemLoad(Some(a))],
        ValueSource::Stack => Seq::empty(),
    }
}

/// The instructions that store `values` at consecutive cells from `addr` on.
pub open spec fn write_insts(addr: int, values: Seq<ValueSource>) -> Seq<Inst>
    decreases values.len(),
{
    if values.len() == 0 {
        Seq::empty()
    } else {
        write_insts(addr, values.drop_last()) + load_insts(values.last()) + seq![
            Inst::MemStore(Some((addr + values.len() - 1) as u32)),
        ]
    }
}

/// The instructions that push the cells `addr .. addr + count` so that the
/// cell at `addr` ends on top: the highest address is loaded first.
pub open spec fn read_insts(addr: int, count: nat) -> Seq<Inst> {
    Seq::new(count, |k: int| Inst::MemLoad(Some((addr + count - 1 - k) as u32)))
}

impl ValueSource {
    /// Appends the instructions that put this value on top of the stack.
    pub fn load(&self, instructions: &mut Vec<Instruction>)
        ensures
            view_seq(final(instructions)@) == view_seq(old(instructions)@) + load_insts(*self),
    {
        match self {
            ValueSource::Immediate(v) => {
                proof {
                    lemma_view_seq_push(instructions@, Instruction::Push(*v));
                }
                instructions.push(Instruction::Push(*v));
            },
            ValueSource::Memory(addr) => {
                proof {
                    lemma_view_seq_push(instructions@, Instruction::MemLoad(Some(*addr)));
                }
                instructions.push(Instruction::MemLoad(Some(*addr)));
            },
            ValueSource::Stack => {},
        }
        proof {
            assert(view_seq(final(instructions)@) =~= view_seq(old(instructions)@) + load_insts(
                *self,
            ));
        }
    }
}

impl Memory {
    /// The next free cell.
    pub closed spec fn next_addr(&self) -> u32 {
        self.static_alloc_ptr
    }

    /// A fresh layout. Cell 0 stands for the null pointer, 1 and 2 hold the
    /// error string, 3 the dynamic allocation pointer, 4 and 5 the log list
    /// and 6 the self-destruct flag, so allocation starts at 7.
    pub fn new() -> (m: Self)
        ensures
            m.next_addr() == 7,
    {
        Memory { static_alloc_ptr: 7 }
    }

    /// A layout whose first free cell is `addr`.
    pub fn starting_at(addr: u32) -> (m: Self)
        ensures
            m.next_addr() == addr,
    {
        Memory { static_alloc_ptr: addr }
    }

    /// The next free cell.
    pub fn static_alloc_ptr(&self) -> (p: u32)
        ensures
            p == self.next_addr(),
    {
        self.static_alloc_ptr
    }

    /// Reserves `size` consecutive cells and returns the first of them.
    pub fn allocate(&mut self, size: u32) -> (addr: u32)
        requires
            old(self).next_addr() + size <= u32::MAX,
        ensures
            addr == old(self).next_addr(),
            final(self).next_addr() == old(self).next_addr() + size,
    {
        let addr = self.static_alloc_ptr;
        self.static_alloc_ptr = self.static_alloc_ptr + size;
        addr
    }

    /// Appends the instructions that set the cells from `start_addr` on to
    /// `values`, in order.
    pub fn write(&self, instructions: &mut Vec<Instruction>, start_addr: u32, values: &[ValueSource])
        requires
            start_addr + values@.len() <= u32::MAX,
        ensures
            view_seq(final(instructions)@) == view_seq(old(instructions)@) + write_insts(
                start_addr as int,
                values@,
            ),
    {
        let mut addr = start_addr;
        let mut i: usize = 0;
        while i < values.len()
            invariant
                i <= values@.len(),
                addr == start_addr + i,
                start_addr + values@.len() <= u32::MAX,
                view_seq(instructions@) == view_seq(old(instructions)@) + write_insts(
                    start_addr as int,
                    values@.take(i as int),
                ),
            decreases values@.len() - i,
        {
            values[i].load(instructions);
            proof {
                lemma_view_seq_push(instructions@, Instruction::MemStore(Some(addr)));
            }
            instructions.push(Instruction::MemStore(Some(addr)));
            addr = addr + 1;
            i = i + 1;
            proof {
                let t = values@.take(i as int);
                assert(t.drop_last() =~= values@.take(i - 1));
                assert(view_seq(instructions@) =~= view_seq(old(instructions)@) + write_insts(
                    start_addr as int,
                    t,
                ));
            }
        }
        proof {
            assert(values@.take(i as int) =~= values@);
        }
    }

    /// Appends the instructions that push the cells `start_addr ..
    /// start_addr + count`; the cell at `start_addr` ends on top of the stack.
    pub fn read(&self, instructions: &mut Vec<Instruction>, start_addr: u32, count: u32)
        requires
            start_addr + count <= u32::MAX,
        ensures
            view_seq(final(instructions)@) == view_seq(old(instructions)@) + read_insts(
                start_addr as int,
                count as nat,
            ),
    {
        let mut j: u32 = 0;
        while j < count
            invariant
                j <= count,
                start_addr + count <= u32::MAX,
                view_seq(instructions@) == view_seq(old(instructions)@) + read_insts(
                    start_addr as int,
                    count as nat,
                ).take(j as int),
            decreases count - j,
        {
            let addr = start_addr + (count - 1 - j);
            ValueSource::Memory(addr).load(instructions);
            j = j + 1;
            proof {
                assert(view_seq(instructions@) =~= view_seq(old(instructions)@) + read_insts(
                    start_addr as int,
                    count as nat,
                ).take(j as int));
            }
        }
        proof {
            assert(read_insts(start_addr as int, count as nat).take(j as int) =~= read_insts(
                start_addr as int,
                count as nat,
            ));
        }
    }
}

proof fn lemma_read_prefix(
    addr: int,
    count: nat,
    k: nat,
    mem: spec_fn(int) -> int,
    stack: Seq<int>,
    fuel: nat,
)
    requires
        k <= count,
        0 <= addr,
        addr + count <= u32::MAX,
    ensures
        run(read_insts(addr, count).take(k as int), mem, stack, fuel) == Some(
            Seq::new(k, |i: int| mem(addr + count - k + i)) + stack,
        ),
    decreases k,
{
    let is = read_insts(addr, count);
    if k == 0 {
        assert(Seq::new(k, |i: int| mem(addr + count - k + i)) + stack =~= stack);
        assert(is.take(0) =~= Seq::<Inst>::empty());
    } else {
        lemma_read_prefix(addr, count, (k - 1) as nat, mem, stack, fuel);
        assert(is.take(k as int).drop_last() =~= is.take(k - 1));
        let a = addr + count - 1 - (k - 1);
        assert(is.take(k as int).last() == Inst::MemLoad(Some(a as u32)));
        assert((a as u32) as int == a);
        let prev = Seq::new((k - 1) as nat, |i: int| mem(addr + count - (k - 1) + i)) + stack;
        assert(run(is.take(k - 1), mem, stack, fuel) == Some(prev));
        assert(step(Inst::MemLoad(Some(a as u32)), mem, prev, fuel) == Some(seq![mem(a)] + prev));
        assert(run(is.take(k as int), mem, stack, fuel) == Some(seq![mem(a)] + prev));
        assert(seq![mem(a)] + (Seq::new((k - 1) as nat, |i: int| mem(addr + count - (k - 1) + i))
            + stack) =~= Seq::new(k, |i: int| mem(addr + count - k + i)) + stack);
    }
}

/// The code of `Memory::read` pushes the cells from `addr` to
/// `addr + count - 1`, the cell at `addr` on top, over the stack it found.
pub proof fn lemma_read_pushes_cells(
    addr: int,
    count: nat,
    mem: spec_fn(int) -> int,
    stack: Seq<int>,
    fuel: nat,
)
    requires
        0 <= addr,
        addr + count <= u32::MAX,
    ensures
        run(read_insts(addr, count), mem, stack, fuel) == Some(
            Seq::new(count, |i: int| mem(addr + i)) + stack,
        ),
{
    lemma_read_prefix(addr, count, count, mem, stack, fuel);
    assert(read_insts(addr, count).take(count as int) =~= read_insts(addr, count));
    assert(Seq::new(count, |i: int| mem(addr + count - count + i)) =~= Seq::new(
        count,
        |i: int| mem(addr + i),
    ));
}

} // verus!
