//! A model of what the Miden virtual machine does with some of the
//! instructions the compiler emits: the operand stack, top first, before and
//! after, given the first element of each memory cell.

use vstd::prelude::*;

use crate::encoder::Inst;

verus! {

/// `2^32`: values below it are the machine's 32-bit integers.
pub open spec fn u32_bound() -> int {
    0x1_0000_0000
}

pub open spec fn is_u32(v: int) -> bool {
    0 <= v < u32_bound()
}

/// `2^k`.
pub open spec fn pow2(k: nat) -> int
    decreases k,
{
    if k == 0 {
        1
    } else {
        2 * pow2((k - 1) as nat)
    }
}

/// `2^k` is positive.
pub proof fn lemma_pow2_positive(k: nat)
    ensures
        pow2(k) > 0,
    decreases k,
{
    if k > 0 {
        lemma_pow2_positive((k - 1) as nat);
    }
}

/// The two top elements are 32-bit integers.
pub open spec fn u32_operands(stack: Seq<int>) -> bool {
    stack.len() >= 2 && is_u32(stack[0]) && is_u32(stack[1])
}

/// 1 for true, 0 for false.
pub open spec fn flag(b: bool) -> int {
    if b {
        1
    } else {
        0
    }
}

/// The stack after one instruction, or `None` where the machine faults (an
/// operand missing or out of range, a flag other than 0 or 1), a loop takes
/// more than `fuel` rounds, or the instruction is not one this model covers.
/// Binary operations pop `b`, the top, then `a`, and push the result of
/// `a op b`.
pub open spec fn step(i: Inst, mem: spec_fn(int) -> int, stack: Seq<int>, fuel: nat) -> Option<
    Seq<int>,
>
    decreases i, 1int, 0int,
{
    match i {
        Inst::Push(v) => Some(seq![v as int] + stack),
        Inst::MemLoad(Some(a)) => Some(seq![mem(a as int)] + stack),
        // pops the address
        Inst::MemLoad(None) => if stack.len() >= 1 && is_u32(stack[0]) {
            Some(seq![mem(stack[0])] + stack.drop_first())
        } else {
            None
        },
        Inst::Drop => if stack.len() >= 1 {
            Some(stack.drop_first())
        } else {
            None
        },
        Inst::Swap => if stack.len() >= 2 {
            Some(seq![stack[1], stack[0]] + stack.skip(2))
        } else {
            None
        },
        Inst::Dup(None) => if stack.len() >= 1 {
            Some(seq![stack[0]] + stack)
        } else {
            None
        },
        // copies the element at depth `k`
        Inst::Dup(Some(k)) => if k < stack.len() {
            Some(seq![stack[k as int]] + stack)
        } else {
            None
        },
        // moves the element at depth `k` to the top
        Inst::MovUp(k) => if 2 <= k <= 15 && k < stack.len() {
            Some(seq![stack[k as int]] + stack.take(k as int) + stack.skip(k + 1))
        } else {
            None
        },
        // moves the top element down to depth `k`
        Inst::MovDown(k) => if 2 <= k <= 15 && k < stack.len() {
            Some(stack.subrange(1, k + 1) + seq![stack[0]] + stack.skip(k + 1))
        } else {
            None
        },
        // `and` and `or` of two binary values
        Inst::And => if stack.len() >= 2 && (stack[0] == 0 || stack[0] == 1) && (stack[1] == 0
            || stack[1] == 1) {
            Some(seq![flag(stack[1] == 1 && stack[0] == 1)] + stack.skip(2))
        } else {
            None
        },
        Inst::Or => if stack.len() >= 2 && (stack[0] == 0 || stack[0] == 1) && (stack[1] == 0
            || stack[1] == 1) {
            Some(seq![flag(stack[1] == 1 || stack[0] == 1)] + stack.skip(2))
        } else {
            None
        },
        // negates a binary value
        Inst::Not => if stack.len() >= 1 && (stack[0] == 0 || stack[0] == 1) {
            Some(seq![1 - stack[0]] + stack.drop_first())
        } else {
            None
        },
        Inst::U32WrappingSub => if u32_operands(stack) {
            Some(seq![(stack[1] - stack[0] + u32_bound()) % u32_bound()] + stack.skip(2))
        } else {
            None
        },
        // pops a flag that must be 1
        Inst::Assert => if stack.len() >= 1 && stack[0] == 1 {
            Some(stack.drop_first())
        } else {
            None
        },
        Inst::U32WrappingAdd => if u32_operands(stack) {
            Some(seq![(stack[1] + stack[0]) % u32_bound()] + stack.skip(2))
        } else {
            None
        },
        // faults on a zero divisor
        Inst::U32CheckedMod => if u32_operands(stack) && stack[0] != 0 {
            Some(seq![stack[1] % stack[0]] + stack.skip(2))
        } else {
            None
        },
        // faults on a zero divisor
        Inst::U32CheckedDiv => if u32_operands(stack) && stack[0] != 0 {
            Some(seq![stack[1] / stack[0]] + stack.skip(2))
        } else {
            None
        },
        // faults where the product does not fit in 32 bits
        Inst::U32CheckedMul => if u32_operands(stack) && is_u32(stack[1] * stack[0]) {
            Some(seq![stack[1] * stack[0]] + stack.skip(2))
        } else {
            None
        },
        // the 32-bit complement
        Inst::U32CheckedNot => if stack.len() >= 1 && is_u32(stack[0]) {
            Some(seq![u32_bound() - 1 - stack[0]] + stack.drop_first())
        } else {
            None
        },
        // pops a flag that must be 0
        Inst::AssertZero => if stack.len() >= 1 && stack[0] == 0 {
            Some(stack.drop_first())
        } else {
            None
        },
        // the full product: its high 32 bits on top, its low 32 bits below
        Inst::U32OverflowingMul => if u32_operands(stack) {
            Some(
                seq![(stack[1] * stack[0]) / u32_bound(), (stack[1] * stack[0]) % u32_bound()]
                    + stack.skip(2),
            )
        } else {
            None
        },
        Inst::U32CheckedNeq => if u32_operands(stack) {
            Some(seq![flag(stack[1] != stack[0])] + stack.skip(2))
        } else {
            None
        },
        Inst::U32CheckedAnd => if u32_operands(stack) {
            Some(seq![((stack[1] as u32) & (stack[0] as u32)) as int] + stack.skip(2))
        } else {
            None
        },
        Inst::U32CheckedOr => if u32_operands(stack) {
            Some(seq![((stack[1] as u32) | (stack[0] as u32)) as int] + stack.skip(2))
        } else {
            None
        },
        Inst::U32CheckedXOR => if u32_operands(stack) {
            Some(seq![((stack[1] as u32) ^ (stack[0] as u32)) as int] + stack.skip(2))
        } else {
            None
        },
        Inst::U32CheckedSHL(Some(k)) => if stack.len() >= 1 && is_u32(stack[0]) && k < 32 && is_u32(
            stack[0] * pow2(k as nat),
        ) {
            Some(seq![stack[0] * pow2(k as nat)] + stack.skip(1))
        } else {
            None
        },
        Inst::U32CheckedGTE => if u32_operands(stack) {
            Some(seq![flag(stack[1] >= stack[0])] + stack.skip(2))
        } else {
            None
        },
        Inst::U32CheckedGT => if u32_operands(stack) {
            Some(seq![flag(stack[1] > stack[0])] + stack.skip(2))
        } else {
            None
        },
        Inst::U32CheckedLTE => if u32_operands(stack) {
            Some(seq![flag(stack[1] <= stack[0])] + stack.skip(2))
        } else {
            None
        },
        Inst::U32CheckedLT => if u32_operands(stack) {
            Some(seq![flag(stack[1] < stack[0])] + stack.skip(2))
        } else {
            None
        },
        Inst::U32CheckedEq => if u32_operands(stack) {
            Some(seq![flag(stack[1] == stack[0])] + stack.skip(2))
        } else {
            None
        },
        Inst::U32CheckedAdd => if u32_operands(stack) && is_u32(stack[1] + stack[0]) {
            Some(seq![stack[1] + stack[0]] + stack.skip(2))
        } else {
            None
        },
        Inst::U32CheckedSub => if u32_operands(stack) && stack[1] >= stack[0] {
            Some(seq![stack[1] - stack[0]] + stack.skip(2))
        } else {
            None
        },
        // pops the shift amount, which must be below 32; a result of 2^32 or
        // more is left out of this model
        Inst::U32CheckedSHL(None) => if u32_operands(stack) && stack[0] < 32 && is_u32(
            stack[1] * pow2(stack[0] as nat),
        ) {
            Some(seq![stack[1] * pow2(stack[0] as nat)] + stack.skip(2))
        } else {
            None
        },
        // pops the shift amount, which must be below 32
        Inst::U32CheckedSHR(None) => if u32_operands(stack) && stack[0] < 32 {
            Some(seq![stack[1] / pow2(stack[0] as nat)] + stack.skip(2))
        } else {
            None
        },
        Inst::U32CheckedSHR(Some(k)) => if stack.len() >= 1 && is_u32(stack[0]) && k < 32 {
            Some(seq![stack[0] / pow2(k as nat)] + stack.skip(1))
        } else {
            None
        },
        // the condition's code, then a pop of the flag that selects a branch
        Inst::If { condition, then, else_ } => match run(condition, mem, stack, fuel) {
            Some(s) => if s.len() >= 1 && s[0] == 1 {
                run(then, mem, s.drop_first(), fuel)
            } else if s.len() >= 1 && s[0] == 0 {
                run(else_, mem, s.drop_first(), fuel)
            } else {
                None
            },
            None => None,
        },
        Inst::While { .. } => rounds(i, mem, stack, fuel, fuel),
        Inst::Repeat { count, .. } => repeats(i, mem, stack, fuel, count as nat),
        _ => None,
    }
}

/// The loop `w` run for at most `left` more rounds. A round runs the
/// condition's code and pops a flag: 0 ends the loop, 1 runs the body and
/// goes on.
pub open spec fn rounds(w: Inst, mem: spec_fn(int) -> int, stack: Seq<int>, fuel: nat, left: nat) -> Option<
    Seq<int>,
>
    decreases w, 0int, left,
{
    match w {
        Inst::While { condition, body } => if left == 0 {
            None
        } else {
            match run(condition, mem, stack, fuel) {
                Some(t) => if t.len() >= 1 && t[0] == 0 {
                    Some(t.drop_first())
                } else if t.len() >= 1 && t[0] == 1 {
                    match run(body, mem, t.drop_first(), fuel) {
                        Some(s) => rounds(w, mem, s, fuel, (left - 1) as nat),
                        None => None,
                    }
                } else {
                    None
                },
                None => None,
            }
        },
        _ => None,
    }
}

/// The body of the loop `r` run `left` more times.
pub open spec fn repeats(r: Inst, mem: spec_fn(int) -> int, stack: Seq<int>, fuel: nat, left: nat) -> Option<
    Seq<int>,
>
    decreases r, 0int, left,
{
    match r {
        Inst::Repeat { body, .. } => if left == 0 {
            Some(stack)
        } else {
            match run(body, mem, stack, fuel) {
                Some(s) => repeats(r, mem, s, fuel, (left - 1) as nat),
                None => None,
            }
        },
        _ => None,
    }
}

/// The stack after the instructions `is`, one after the other, or `None`
/// where one of them faults.
pub open spec fn run(is: Seq<Inst>, mem: spec_fn(int) -> int, stack: Seq<int>, fuel: nat) -> Option<
    Seq<int>,
>
    decreases is, 1int, 0int,
{
    if is.len() == 0 {
        Some(stack)
    } else {
        match run(is.drop_last(), mem, stack, fuel) {
            Some(s) => step(is.last(), mem, s, fuel),
            None => None,
        }
    }
}

/// Running `s` then `t` is running `s + t`.
pub proof fn lemma_run_add(s: Seq<Inst>, t: Seq<Inst>, mem: spec_fn(int) -> int, stack: Seq<int>, fuel: nat)
    ensures
        run(s + t, mem, stack, fuel) == match run(s, mem, stack, fuel) {
            Some(u) => run(t, mem, u, fuel),
            None => None,
        },
    decreases t.len(),
{
    if t.len() == 0 {
        assert(s + t =~= s);
    } else {
        lemma_run_add(s, t.drop_last(), mem, stack, fuel);
        assert((s + t).drop_last() =~= s + t.drop_last());
        assert((s + t).last() == t.last());
    }
}

/// Running `is` is running its first instruction, then the others.
pub proof fn lemma_run_first(is: Seq<Inst>, mem: spec_fn(int) -> int, stack: Seq<int>, fuel: nat)
    requires
        is.len() > 0,
    ensures
        run(is, mem, stack, fuel) == match step(is[0], mem, stack, fuel) {
            Some(s) => run(is.drop_first(), mem, s, fuel),
            None => None,
        },
    decreases is.len(),
{
    if is.len() == 1 {
        assert(is.drop_last() =~= Seq::<Inst>::empty());
        assert(is.drop_first() =~= Seq::<Inst>::empty());
    } else {
        lemma_run_first(is.drop_last(), mem, stack, fuel);
        assert(is.drop_last().drop_first() =~= is.drop_first().drop_last());
        assert(is.drop_first().last() == is.last());
    }
}

/// Running `is` from its `k`-th instruction on is running that
/// instruction, then the ones after it.
pub proof fn lemma_run_from(is: Seq<Inst>, k: int, mem: spec_fn(int) -> int, stack: Seq<int>, fuel: nat)
    requires
        0 <= k < is.len(),
    ensures
        run(is.skip(k), mem, stack, fuel) == match step(is[k], mem, stack, fuel) {
            Some(s) => run(is.skip(k + 1), mem, s, fuel),
            None => None,
        },
{
    lemma_run_first(is.skip(k), mem, stack, fuel);
    assert(is.skip(k).drop_first() =~= is.skip(k + 1));
}

proof fn lemma_rounds_from(
    condition: Seq<Inst>,
    body: Seq<Inst>,
    mem: spec_fn(int) -> int,
    states: spec_fn(nat) -> Seq<int>,
    fuel: nat,
    m: nat,
    out: Seq<int>,
    k: nat,
)
    requires
        k <= m,
        m < fuel,
        forall|j: nat| j < m ==> #[trigger] run(condition, mem, states(j), fuel) == Some(
            seq![1int] + states(j),
        ),
        forall|j: nat| j < m ==> #[trigger] run(body, mem, states(j), fuel) == Some(states(j + 1)),
        run(condition, mem, states(m), fuel) == Some(seq![0int] + out),
    ensures
        rounds(Inst::While { condition, body }, mem, states(k), fuel, (fuel - k) as nat) == Some(
            out,
        ),
    decreases m - k,
{
    let w = Inst::While { condition, body };
    if k == m {
        assert((seq![0int] + out).drop_first() =~= out);
    } else {
        lemma_rounds_from(condition, body, mem, states, fuel, m, out, k + 1);
        assert(run(condition, mem, states(k), fuel) == Some(seq![1int] + states(k)));
        assert((seq![1int] + states(k)).drop_first() =~= states(k));
        assert(run(body, mem, states(k), fuel) == Some(states(k + 1)));
        assert((fuel - k - 1) as nat == (fuel - (k + 1)) as nat);
    }
}

/// A loop that goes through the stacks `states(0)`, `states(1)`, ... and
/// stops at round `m`: before each earlier round the condition's code
/// leaves 1 over the stack and the body leads to the next stack; at round
/// `m` the condition's code leaves 0 over `out`. Given fuel for more than
/// `m` rounds, the loop turns `states(0)` into `out`.
pub proof fn lemma_while(
    condition: Seq<Inst>,
    body: Seq<Inst>,
    mem: spec_fn(int) -> int,
    states: spec_fn(nat) -> Seq<int>,
    fuel: nat,
    m: nat,
    out: Seq<int>,
)
    requires
        m < fuel,
        forall|j: nat| j < m ==> #[trigger] run(condition, mem, states(j), fuel) == Some(
            seq![1int] + states(j),
        ),
        forall|j: nat| j < m ==> #[trigger] run(body, mem, states(j), fuel) == Some(states(j + 1)),
        run(condition, mem, states(m), fuel) == Some(seq![0int] + out),
    ensures
        step(Inst::While { condition, body }, mem, states(0), fuel) == Some(out),
{
    lemma_rounds_from(condition, body, mem, states, fuel, m, out, 0);
}

proof fn lemma_repeats_from(
    body: Seq<Inst>,
    count: u32,
    mem: spec_fn(int) -> int,
    states: spec_fn(nat) -> Seq<int>,
    fuel: nat,
    k: nat,
)
    requires
        k <= count,
        forall|j: nat| j < count ==> #[trigger] run(body, mem, states(j), fuel) == Some(states(j + 1)),
    ensures
        repeats(Inst::Repeat { count, body }, mem, states(k), fuel, (count - k) as nat) == Some(
            states(count as nat),
        ),
    decreases count - k,
{
    if k < count {
        lemma_repeats_from(body, count, mem, states, fuel, k + 1);
        assert(run(body, mem, states(k), fuel) == Some(states(k + 1)));
        assert((count - k - 1) as nat == (count - (k + 1)) as nat);
    }
}

/// A loop that runs its body `count` times and goes through the stacks
/// `states(0)`, `states(1)`, ...: where each run of the body leads to the
/// next stack, the loop turns `states(0)` into `states(count)`.
pub proof fn lemma_repeat(body: Seq<Inst>, count: u32, mem: spec_fn(int) -> int, states: spec_fn(nat) -> Seq<int>, fuel: nat)
    requires
        forall|j: nat| j < count ==> #[trigger] run(body, mem, states(j), fuel) == Some(states(j + 1)),
    ensures
        step(Inst::Repeat { count, body }, mem, states(0), fuel) == Some(states(count as nat)),
{
    lemma_repeats_from(body, count, mem, states, fuel, 0);
}

} // verus!
