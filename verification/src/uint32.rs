//! Code generation for unsigned 32-bit integers.

use vstd::prelude::*;

use crate::encoder::{Inst, Instruction, push_inst, view_seq};
use crate::machine::{is_u32, pow2, run, step};

verus! {

/// One halving step of the most-significant-bit search: if the number is at
/// least `2^i`, shift it right by `i` (when `i > 1`) and add `i` to the
/// position.
pub open spec fn msb_step(i: u32) -> Inst {
    Inst::If {
        condition: seq![Inst::Dup(None), Inst::Push((1u32 << i) as u32), Inst::U32CheckedGTE],
        then: (if i > 1 {
            seq![Inst::U32CheckedSHR(Some(i))]
        } else {
            Seq::empty()
        }) + seq![Inst::Swap, Inst::Push(i), Inst::U32CheckedAdd, Inst::Swap],
        else_: Seq::empty(),
    }
}

/// The code of [`find_msb`].
pub open spec fn find_msb_insts() -> Seq<Inst> {
    seq![
        Inst::Push(0),
        Inst::Swap,
        msb_step(16),
        msb_step(8),
        msb_step(4),
        msb_step(2),
        msb_step(1),
        Inst::Drop,
    ]
}

fn msb_step_inst(i: u32) -> (r: Instruction<'static>)
    requires
        i == 16 || i == 8 || i == 4 || i == 2 || i == 1,
    ensures
        r@ == msb_step(i),
{
    let mut condition = Vec::new();
    push_inst(&mut condition, Instruction::Dup(None));
    push_inst(&mut condition, Instruction::Push(1 << i));
    push_inst(&mut condition, Instruction::U32CheckedGTE);
    let mut then = Vec::new();
    if i > 1 {
        push_inst(&mut then, Instruction::U32CheckedSHR(Some(i)));
    }
    push_inst(&mut then, Instruction::Swap);
    push_inst(&mut then, Instruction::Push(i));
    push_inst(&mut then, Instruction::U32CheckedAdd);
    push_inst(&mut then, Instruction::Swap);
    let else_ = Vec::new();
    let r = Instruction::If { condition, then, else_ };
    proof {
        assert(view_seq(r->If_condition@) =~= msb_step(i)->If_condition);
        assert(view_seq(r->If_then@) =~= msb_step(i)->If_then);
        assert(view_seq(r->If_else_@) =~= Seq::<Inst>::empty());
    }
    r
}

/// Appends the code that replaces the number on top of the stack by the
/// position of its most significant bit (0 for 0 and 1).
///
/// Stack transition: `[number] => [msb]`.
pub fn find_msb(instructions: &mut Vec<Instruction>)
    ensures
        view_seq(final(instructions)@) == view_seq(old(instructions)@) + find_msb_insts(),
{
    push_inst(instructions, Instruction::Push(0));
    push_inst(instructions, Instruction::Swap);
    // [number, position = 0]
    let steps: [u32; 5] = [16, 8, 4, 2, 1];
    let mut k: usize = 0;
    while k < 5
        invariant
            k <= 5,
            steps@ == seq![16u32, 8u32, 4u32, 2u32, 1u32],
            view_seq(instructions@) == view_seq(old(instructions)@) + find_msb_insts().take(
                2 + k as int,
            ),
        decreases 5 - k,
    {
        push_inst(instructions, msb_step_inst(steps[k]));
        k = k + 1;
        proof {
            assert(view_seq(instructions@) =~= view_seq(old(instructions)@) + find_msb_insts().take(
                2 + k as int,
            ));
        }
    }
    // [number, position]
    push_inst(instructions, Instruction::Drop);
    // [position]
    proof {
        assert(view_seq(instructions@) =~= view_seq(old(instructions)@) + find_msb_insts());
    }
}

/// The position of the most significant bit of `n`, counted from 0; 0 for
/// 0 and 1.
pub open spec fn msb(n: int) -> int
    decreases n,
{
    if n < 2 {
        0
    } else {
        1 + msb(n / 2)
    }
}

proof fn lemma_pow2_positive(k: nat)
    ensures
        pow2(k) >= 1,
    decreases k,
{
    if k > 0 {
        lemma_pow2_positive((k - 1) as nat);
    }
}

/// Shifting out `k` bits takes `k` off the position of the top bit.
proof fn lemma_msb_shift(x: int, k: nat)
    requires
        x >= pow2(k),
    ensures
        msb(x) == k + msb(x / pow2(k)),
    decreases k,
{
    if k > 0 {
        let h = pow2((k - 1) as nat);
        lemma_pow2_positive((k - 1) as nat);
        assert(x >= 2);
        assert(x / 2 >= h);
        lemma_msb_shift(x / 2, (k - 1) as nat);
        vstd::arithmetic::div_mod::lemma_div_denominator(x, 2, h);
    } else {
        assert(x / 1 == x);
    }
}

proof fn lemma_small_powers()
    ensures
        pow2(1) == 2,
        pow2(2) == 4,
        pow2(4) == 16,
        pow2(8) == 256,
        pow2(16) == 65536,
        pow2(32) == 0x1_0000_0000,
{
    reveal_with_fuel(pow2, 33);
}

/// What one step of the search does to `[x, p]`: when `x >= 2^i`, `x` loses
/// its low `i` bits (for `i > 1`) and `p` grows by `i`.
proof fn lemma_msb_step(i: u32, x: int, p: int, mem: spec_fn(int) -> int, rest: Seq<int>, fuel: nat)
    requires
        i == 16 || i == 8 || i == 4 || i == 2 || i == 1,
        0 <= x < pow2(2 * i as nat),
        0 <= p,
        p + i < 0x1_0000_0000,
    ensures
        step(msb_step(i), mem, seq![x, p] + rest, fuel) == Some(
            if x >= pow2(i as nat) {
                seq![if i > 1 { x / pow2(i as nat) } else { x }, p + i] + rest
            } else {
                seq![x, p] + rest
            },
        ),
{
    lemma_small_powers();
    assert((1u32 << 16u32) == 65536u32) by (bit_vector);
    assert((1u32 << 8u32) == 256u32) by (bit_vector);
    assert((1u32 << 4u32) == 16u32) by (bit_vector);
    assert((1u32 << 2u32) == 4u32) by (bit_vector);
    assert((1u32 << 1u32) == 2u32) by (bit_vector);
    let t = pow2(i as nat);
    assert(((1u32 << i) as u32) as int == t);
    let s0 = seq![x, p] + rest;
    let c = msb_step(i)->If_condition;
    let s1 = seq![x] + s0;
    let s2 = seq![t] + s1;
    let flag: int = if x >= t { 1 } else { 0 };
    let s3 = seq![flag] + s0;
    assert(step(c[0], mem, s0, fuel) == Some(s1));
    assert(step(c[1], mem, s1, fuel) == Some(s2));
    assert(s2.skip(2) =~= s0);
    assert(step(c[2], mem, s2, fuel) == Some(s3));
    assert(c.take(1).drop_last() =~= c.take(0));
    assert(c.take(2).drop_last() =~= c.take(1));
    assert(c.take(3).drop_last() =~= c.take(2));
    assert(c.take(3) =~= c);
    assert(run(c.take(0), mem, s0, fuel) == Some(s0));
    assert(run(c.take(1), mem, s0, fuel) == Some(s1));
    assert(run(c.take(2), mem, s0, fuel) == Some(s2));
    assert(run(c, mem, s0, fuel) == Some(s3));
    assert(s3.drop_first() =~= s0);
    if x >= t {
        let th = msb_step(i)->If_then;
        let x2 = if i > 1 { x / t } else { x };
        let a0 = seq![x2, p] + rest;
        let a1 = seq![p, x2] + rest;
        let a2 = seq![i as int, p, x2] + rest;
        let a3 = seq![p + i, x2] + rest;
        let a4 = seq![x2, p + i] + rest;
        if i > 1 {
            assert(x / t < 0x1_0000_0000) by {
                vstd::arithmetic::div_mod::lemma_div_is_ordered(x, 0x1_0000_0000, t);
                vstd::arithmetic::div_mod::lemma_div_by_multiple(0x1_0000_0000, t);
            }
            assert(s0.skip(1) =~= seq![p] + rest);
            assert(step(th[0], mem, s0, fuel) == Some(a0));
            assert(th.take(1).drop_last() =~= th.take(0));
            assert(run(th.take(0), mem, s0, fuel) == Some(s0));
            assert(run(th.take(1), mem, s0, fuel) == Some(a0));
        }
        let k: int = if i > 1 { 1 } else { 0 };
        assert(th.len() == k + 4);
        assert(run(th.take(k), mem, s0, fuel) == Some(a0)) by {
            if k == 0 {
                assert(a0 =~= s0);
            }
        }
        assert(a0.skip(2) =~= rest);
        assert(step(th[k], mem, a0, fuel) == Some(a1));
        assert(step(th[k + 1], mem, a1, fuel) == Some(a2));
        assert(a2.skip(2) =~= seq![x2] + rest);
        assert(step(th[k + 2], mem, a2, fuel) == Some(a3));
        assert(a3.skip(2) =~= rest);
        assert(step(th[k + 3], mem, a3, fuel) == Some(a4));
        assert(th.take(k + 1).drop_last() =~= th.take(k));
        assert(th.take(k + 2).drop_last() =~= th.take(k + 1));
        assert(th.take(k + 3).drop_last() =~= th.take(k + 2));
        assert(th.take(k + 4).drop_last() =~= th.take(k + 3));
        assert(th.take(k + 4) =~= th);
        assert(run(th.take(k + 1), mem, s0, fuel) == Some(a1));
        assert(run(th.take(k + 2), mem, s0, fuel) == Some(a2));
        assert(run(th.take(k + 3), mem, s0, fuel) == Some(a3));
        assert(run(th, mem, s0, fuel) == Some(a4));
    } else {
        assert(run(msb_step(i)->If_else_, mem, s0, fuel) == Some(s0));
    }
}

/// The code of `find_msb` replaces a 32-bit number on top of the stack by
/// the position of its most significant bit, and leaves the rest of the
/// stack as it was, whatever memory holds.
pub proof fn lemma_find_msb_computes_msb(n: int, mem: spec_fn(int) -> int, rest: Seq<int>, fuel: nat)
    requires
        is_u32(n),
    ensures
        run(find_msb_insts(), mem, seq![n] + rest, fuel) == Some(seq![msb(n)] + rest),
{
    lemma_small_powers();
    let is = find_msb_insts();
    let s0 = seq![n] + rest;
    let s1 = seq![0int, n] + rest;
    let s2 = seq![n, 0int] + rest;
    assert(step(is[0], mem, s0, fuel) == Some(s1));
    assert(s1.skip(2) =~= rest);
    assert(step(is[1], mem, s1, fuel) == Some(s2));
    // after each step: [x, p] with msb(n) == p + msb(x)
    let x0 = n;
    let p0 = 0int;
    lemma_msb_step(16, x0, p0, mem, rest, fuel);
    let x1 = if x0 >= 65536 { x0 / 65536 } else { x0 };
    let p1 = if x0 >= 65536 { p0 + 16 } else { p0 };
    if x0 >= 65536 {
        lemma_msb_shift(x0, 16);
    }
    assert(x1 < 65536) by {
        if x0 >= 65536 {
            vstd::arithmetic::div_mod::lemma_div_is_ordered(x0, 0x1_0000_0000, 65536);
            vstd::arithmetic::div_mod::lemma_div_by_multiple(65536, 65536);
        }
    }
    lemma_msb_step(8, x1, p1, mem, rest, fuel);
    let x2 = if x1 >= 256 { x1 / 256 } else { x1 };
    let p2 = if x1 >= 256 { p1 + 8 } else { p1 };
    if x1 >= 256 {
        lemma_msb_shift(x1, 8);
    }
    assert(x2 < 256) by {
        if x1 >= 256 {
            vstd::arithmetic::div_mod::lemma_div_is_ordered(x1, 65536, 256);
            vstd::arithmetic::div_mod::lemma_div_by_multiple(256, 256);
        }
    }
    lemma_msb_step(4, x2, p2, mem, rest, fuel);
    let x3 = if x2 >= 16 { x2 / 16 } else { x2 };
    let p3 = if x2 >= 16 { p2 + 4 } else { p2 };
    if x2 >= 16 {
        lemma_msb_shift(x2, 4);
    }
    assert(x3 < 16) by {
        if x2 >= 16 {
            vstd::arithmetic::div_mod::lemma_div_is_ordered(x2, 256, 16);
            vstd::arithmetic::div_mod::lemma_div_by_multiple(16, 16);
        }
    }
    lemma_msb_step(2, x3, p3, mem, rest, fuel);
    let x4 = if x3 >= 4 { x3 / 4 } else { x3 };
    let p4 = if x3 >= 4 { p3 + 2 } else { p3 };
    if x3 >= 4 {
        lemma_msb_shift(x3, 2);
    }
    assert(x4 < 4) by {
        if x3 >= 4 {
            vstd::arithmetic::div_mod::lemma_div_is_ordered(x3, 16, 4);
            vstd::arithmetic::div_mod::lemma_div_by_multiple(4, 4);
        }
    }
    lemma_msb_step(1, x4, p4, mem, rest, fuel);
    let p5 = if x4 >= 2 { p4 + 1 } else { p4 };
    assert(msb(n) == p5) by {
        assert(msb(x4 / 2) == 0);
    }
    let s7 = seq![x4, p5] + rest;
    assert(step(is[7], mem, s7, fuel) == Some(seq![p5] + rest)) by {
        assert(s7.drop_first() =~= seq![p5] + rest);
    }
    assert(is.take(1).drop_last() =~= is.take(0));
    assert(is.take(2).drop_last() =~= is.take(1));
    assert(is.take(3).drop_last() =~= is.take(2));
    assert(is.take(4).drop_last() =~= is.take(3));
    assert(is.take(5).drop_last() =~= is.take(4));
    assert(is.take(6).drop_last() =~= is.take(5));
    assert(is.take(7).drop_last() =~= is.take(6));
    assert(is.take(8).drop_last() =~= is.take(7));
    assert(is.take(8) =~= is);
    assert(run(is.take(0), mem, s0, fuel) == Some(s0));
    assert(run(is.take(1), mem, s0, fuel) == Some(s1));
    assert(run(is.take(2), mem, s0, fuel) == Some(s2));
    assert(run(is.take(3), mem, s0, fuel) == Some(seq![x1, p1] + rest));
    assert(run(is.take(4), mem, s0, fuel) == Some(seq![x2, p2] + rest));
    assert(run(is.take(5), mem, s0, fuel) == Some(seq![x3, p3] + rest));
    assert(run(is.take(6), mem, s0, fuel) == Some(seq![x4, p4] + rest));
    assert(run(is.take(7), mem, s0, fuel) == Some(s7));
}

} // verus!
