//! Code generation for strings: the comparison loops behind `startsWith`,
//! `includes` and `indexOf`.

use vstd::prelude::*;

use crate::encoder::{Inst, Instruction, lemma_view_seq_map, view_seq};
use crate::machine::{flag, is_u32, lemma_run_from, lemma_while, run, step};

verus! {

/// Three drops, then two pushes: how the comparison loop leaves. Its three
/// operands give way to the result, under a 0 that stops the loop.
pub open spec fn leave_loop(result: u32) -> Seq<Inst> {
    seq![Inst::Drop, Inst::Drop, Inst::Drop, Inst::Push(result), Inst::Push(0)]
}

/// The condition of the `startsWith` loop on `[len, b_ptr, a_ptr]` (top
/// first): while `len > 0` and the cells at the two pointers are equal it
/// leaves 1; otherwise it leaves the result, 1 when `len` ran out and 0 on a
/// mismatch, under a 0.
pub open spec fn starts_with_condition() -> Seq<Inst> {
    seq![
        Inst::If {
            condition: seq![Inst::Dup(None), Inst::Push(0), Inst::U32CheckedGT],
            then: seq![
                Inst::If {
                    condition: seq![
                        Inst::Dup(Some(2)),
                        Inst::MemLoad(None),
                        Inst::Dup(Some(2)),
                        Inst::MemLoad(None),
                        Inst::U32CheckedEq,
                    ],
                    then: seq![Inst::Push(1)],
                    else_: leave_loop(0),
                },
            ],
            else_: leave_loop(1),
        },
    ]
}

/// The body of the `startsWith` loop: both pointers move on by one, `len`
/// goes down by one.
pub open spec fn starts_with_body() -> Seq<Inst> {
    seq![
        Inst::MovUp(2),
        Inst::Push(1),
        Inst::U32CheckedAdd,
        Inst::MovUp(2),
        Inst::Push(1),
        Inst::U32CheckedAdd,
        Inst::MovUp(2),
        Inst::Push(1),
        Inst::U32CheckedSub,
    ]
}

/// The code of [`starts_with_inner`].
pub open spec fn starts_with_insts() -> Seq<Inst> {
    seq![Inst::MovUp(2), Inst::While { condition: starts_with_condition(), body: starts_with_body() }]
}

fn leave_loop_code(result: u32) -> (v: Vec<Instruction<'static>>)
    ensures
        view_seq(v@) == leave_loop(result),
{
    let v = vec![
        Instruction::Drop,
        Instruction::Drop,
        Instruction::Drop,
        Instruction::Push(result),
        Instruction::Push(0),
    ];
    proof {
        lemma_view_seq_map(v@);
        assert(view_seq(v@) =~= leave_loop(result));
    }
    v
}

/// Appends the loop that compares the first `b_len` cells at `a_ptr` and
/// `b_ptr`; it leaves 1 when they all match and 0 otherwise.
///
/// Stack transition: `[b_len, a_ptr, b_ptr] => [starts_with]`.
pub fn starts_with_inner(instructions: &mut Vec<Instruction>)
    ensures
        view_seq(final(instructions)@) == view_seq(old(instructions)@) + starts_with_insts(),
{
    let len_positive = vec![Instruction::Dup(None), Instruction::Push(0), Instruction::U32CheckedGT];
    // [*a_ptr == *b_ptr]
    let cells_equal = vec![
        Instruction::Dup(Some(2)),
        Instruction::MemLoad(None),
        Instruction::Dup(Some(2)),
        Instruction::MemLoad(None),
        Instruction::U32CheckedEq,
    ];
    let compare = Instruction::If {
        condition: cells_equal,
        then: vec![Instruction::Push(1)],
        // [result = false, false]
        else_: leave_loop_code(0),
    };
    let condition = vec![
        Instruction::If {
            condition: len_positive,
            then: vec![compare],
            // [result = true, false]
            else_: leave_loop_code(1),
        },
    ];
    let body = vec![
        // [len, b_ptr, a_ptr]
        Instruction::MovUp(2),
        Instruction::Push(1),
        Instruction::U32CheckedAdd,
        // [a_ptr + 1, len, b_ptr]
        Instruction::MovUp(2),
        Instruction::Push(1),
        Instruction::U32CheckedAdd,
        // [b_ptr + 1, a_ptr + 1, len]
        Instruction::MovUp(2),
        Instruction::Push(1),
        Instruction::U32CheckedSub,
        // [len - 1, b_ptr + 1, a_ptr + 1]
    ];
    proof {
        lemma_view_seq_map(body@);
        lemma_view_seq_map(len_positive@);
        lemma_view_seq_map(compare->If_condition@);
        lemma_view_seq_map(compare->If_then@);
        lemma_view_seq_map(condition@[0]->If_then@);
        lemma_view_seq_map(condition@);
        assert(view_seq(body@) =~= starts_with_body());
        assert(view_seq(condition@) =~= starts_with_condition()) by {
            assert(view_seq(len_positive@) =~= seq![
                Inst::Dup(None),
                Inst::Push(0),
                Inst::U32CheckedGT,
            ]);
            assert(view_seq(compare->If_condition@) =~= seq![
                Inst::Dup(Some(2)),
                Inst::MemLoad(None),
                Inst::Dup(Some(2)),
                Inst::MemLoad(None),
                Inst::U32CheckedEq,
            ]);
            assert(view_seq(compare->If_then@) =~= seq![Inst::Push(1)]);
            assert(view_seq(condition@[0]->If_then@) =~= seq![compare@]);
        }
    }
    let mut code = vec![
        // [len, b_ptr, a_ptr]
        Instruction::MovUp(2),
        Instruction::While { condition, body },
    ];
    proof {
        lemma_view_seq_map(code@);
        assert(view_seq(code@) =~= starts_with_insts());
        crate::encoder::lemma_view_seq_add(instructions@, code@);
    }
    instructions.append(&mut code);
}

/// The condition of the search loop on `[j, k, i, ..]` (top first), where
/// `b_len` lies at depth 6, `a_ptr` at depth 5 and `b_ptr` at depth 3 of
/// `[k, i, ..]`: while `j < b_len` it leaves whether the cell at
/// `a_ptr + k` equals the cell at `b_ptr + j`; once `j` reaches `b_len` it
/// leaves 0.
pub open spec fn search_condition() -> Seq<Inst> {
    seq![
        Inst::If {
            condition: seq![Inst::Dup(Some(0)), Inst::Dup(Some(7)), Inst::U32CheckedLT],
            then: seq![
                Inst::Dup(Some(5)),
                Inst::Dup(Some(2)),
                Inst::U32CheckedAdd,
                Inst::MemLoad(None),
                Inst::Dup(Some(5)),
                Inst::Dup(Some(2)),
                Inst::U32CheckedAdd,
                Inst::MemLoad(None),
                Inst::U32CheckedEq,
            ],
            else_: seq![Inst::Push(0)],
        },
    ]
}

/// The body of the search loop: `j` and `k` go up by one.
pub open spec fn search_body() -> Seq<Inst> {
    seq![
        Inst::Push(1),
        Inst::U32CheckedAdd,
        Inst::Swap,
        Inst::Push(1),
        Inst::U32CheckedAdd,
        Inst::Swap,
    ]
}

/// The code of [`search_inner_loop`].
pub open spec fn search_inner_loop_insts() -> Seq<Inst> {
    seq![
        Inst::Dup(None),
        Inst::Push(0),
        Inst::While { condition: search_condition(), body: search_body() },
        Inst::Swap,
        Inst::Drop,
        Inst::Dup(Some(5)),
        Inst::U32CheckedEq,
    ]
}

/// The loop that tells whether the characters of `b` occur in `a` from
/// position `i` on.
///
/// Given `[a_len, b_len, a_data_ptr, b_data_ptr, result, i]`, it appends
/// `matched`, which is 1 when `a_data_ptr[i..i + b_len] == b_data_ptr[0..b_len]`.
pub fn search_inner_loop() -> (instructions: Vec<Instruction<'static>>)
    ensures
        view_seq(instructions@) == search_inner_loop_insts(),
{
    let condition = vec![
        Instruction::If {
            condition: vec![
                Instruction::Dup(Some(0)),
                Instruction::Dup(Some(7)),
                Instruction::U32CheckedLT,
                // [j < b_len]
            ],
            then: vec![
                Instruction::Dup(Some(5)),
                Instruction::Dup(Some(2)),
                Instruction::U32CheckedAdd,
                Instruction::MemLoad(None),
                // [.., a_data_ptr[i]]
                Instruction::Dup(Some(5)),
                Instruction::Dup(Some(2)),
                Instruction::U32CheckedAdd,
                Instruction::MemLoad(None),
                Instruction::U32CheckedEq,
                // [.., a_data_ptr[i] == b_data_ptr[j]]
            ],
            else_: vec![Instruction::Push(0)],
        },
    ];
    let body = vec![
        Instruction::Push(1),
        Instruction::U32CheckedAdd,
        // [i, j = j + 1]
        Instruction::Swap,
        Instruction::Push(1),
        Instruction::U32CheckedAdd,
        // [j, i = i + 1]
        Instruction::Swap,
    ];
    proof {
        lemma_view_seq_map(body@);
        lemma_view_seq_map(condition@);
        lemma_view_seq_map(condition@[0]->If_condition@);
        lemma_view_seq_map(condition@[0]->If_then@);
        lemma_view_seq_map(condition@[0]->If_else_@);
        assert(view_seq(body@) =~= search_body());
        assert(view_seq(condition@) =~= search_condition()) by {
            assert(view_seq(condition@[0]->If_condition@) =~= seq![
                Inst::Dup(Some(0)),
                Inst::Dup(Some(7)),
                Inst::U32CheckedLT,
            ]);
            assert(view_seq(condition@[0]->If_then@) =~= search_condition()[0]->If_then);
            assert(view_seq(condition@[0]->If_else_@) =~= seq![Inst::Push(0)]);
        }
    }
    let instructions = vec![
        Instruction::Dup(None),
        Instruction::Push(0),
        // [.., i, j = 0]
        Instruction::While { condition, body },
        Instruction::Swap,
        Instruction::Drop,
        Instruction::Dup(Some(5)),
        Instruction::U32CheckedEq,
        // [.., matched = j == b_len]
    ];
    proof {
        lemma_view_seq_map(instructions@);
        assert(view_seq(instructions@) =~= search_inner_loop_insts());
    }
    instructions
}

/// The cell at `a + k` holds the value of the cell at `b + k`.
pub open spec fn same_cell(mem: spec_fn(int) -> int, a: int, b: int, k: int) -> bool {
    mem(a + k) == mem(b + k)
}

/// The `len` cells from `a` hold the values of the `len` cells from `b`.
pub open spec fn cells_match(mem: spec_fn(int) -> int, a: int, b: int, len: int) -> bool {
    forall|k: int| 0 <= k < len ==> #[trigger] same_cell(mem, a, b, k)
}

/// The first offset from `k` on, below `len`, at which the cells from `a`
/// and from `b` differ; `len` when there is none.
spec fn first_mismatch(mem: spec_fn(int) -> int, a: int, b: int, len: int, k: int) -> int
    decreases len - k,
{
    if k >= len {
        len
    } else if mem(a + k) != mem(b + k) {
        k
    } else {
        first_mismatch(mem, a, b, len, k + 1)
    }
}

proof fn lemma_first_mismatch(mem: spec_fn(int) -> int, a: int, b: int, len: int, k: int)
    requires
        0 <= k <= len,
        forall|j: int| 0 <= j < k ==> #[trigger] same_cell(mem, a, b, j),
    ensures
        k <= first_mismatch(mem, a, b, len, k) <= len,
        forall|j: int|
            0 <= j < first_mismatch(mem, a, b, len, k) ==> #[trigger] same_cell(mem, a, b, j),
        first_mismatch(mem, a, b, len, k) < len ==> !same_cell(
            mem,
            a,
            b,
            first_mismatch(mem, a, b, len, k),
        ),
        (first_mismatch(mem, a, b, len, k) == len) == cells_match(mem, a, b, len),
    decreases len - k,
{
    if k < len && same_cell(mem, a, b, k) {
        lemma_first_mismatch(mem, a, b, len, k + 1);
    }
}

/// Runs three instructions that each take one stack to the next.
proof fn lemma_run3(is: Seq<Inst>, mem: spec_fn(int) -> int, s0: Seq<int>, s1: Seq<int>, s2: Seq<int>, s3: Seq<int>, fuel: nat)
    requires
        is.len() == 3,
        step(is[0], mem, s0, fuel) == Some(s1),
        step(is[1], mem, s1, fuel) == Some(s2),
        step(is[2], mem, s2, fuel) == Some(s3),
    ensures
        run(is, mem, s0, fuel) == Some(s3),
{
    lemma_run_from(is, 0, mem, s0, fuel);
    lemma_run_from(is, 1, mem, s1, fuel);
    lemma_run_from(is, 2, mem, s2, fuel);
    assert(is.skip(0) =~= is);
    assert(is.skip(3) =~= Seq::<Inst>::empty());
}

/// What the code of `leave_loop` does to `[l, b, a]` over `rest`: the
/// three are dropped, the result and a 0 pushed.
proof fn lemma_leave_loop(result: u32, mem: spec_fn(int) -> int, s: Seq<int>, rest: Seq<int>, fuel: nat)
    requires
        s.len() == 3,
    ensures
        run(leave_loop(result), mem, s + rest, fuel) == Some(seq![0int, result as int] + rest),
{
    let is = leave_loop(result);
    let t0 = s + rest;
    let t1 = t0.drop_first();
    let t2 = t1.drop_first();
    let t3 = t2.drop_first();
    assert(t3 =~= rest);
    let t4 = seq![result as int] + rest;
    let t5 = seq![0int] + t4;
    lemma_run_from(is, 0, mem, t0, fuel);
    lemma_run_from(is, 1, mem, t1, fuel);
    lemma_run_from(is, 2, mem, t2, fuel);
    lemma_run_from(is, 3, mem, t3, fuel);
    lemma_run_from(is, 4, mem, t4, fuel);
    assert(is.skip(0) =~= is);
    assert(is.skip(5) =~= Seq::<Inst>::empty());
    assert(t5 =~= seq![0int, result as int] + rest);
}

/// One round of the `startsWith` loop's condition on `[l, b, a]` over
/// `rest`.
proof fn lemma_starts_with_condition(
    mem: spec_fn(int) -> int,
    l: int,
    b: int,
    a: int,
    rest: Seq<int>,
    fuel: nat,
)
    requires
        is_u32(l),
        is_u32(a),
        is_u32(b),
        l > 0 ==> is_u32(mem(a)) && is_u32(mem(b)),
    ensures
        run(starts_with_condition(), mem, seq![l, b, a] + rest, fuel) == Some(
            if l == 0 {
                seq![0int, 1int] + rest
            } else if mem(a) == mem(b) {
                seq![1int] + (seq![l, b, a] + rest)
            } else {
                seq![0int, 0int] + rest
            },
        ),
{
    let s = seq![l, b, a] + rest;
    let below = rest;
    let cond = starts_with_condition();
    let outer = cond[0];
    let c1 = outer->If_condition;
    assert((seq![0int] + (seq![l] + s)).skip(2) =~= s);
    lemma_run3(c1, mem, s, seq![l] + s, seq![0int] + (seq![l] + s), seq![flag(l > 0)] + s, fuel);
    let inner = outer->If_then[0];
    let c2 = inner->If_condition;
    if l > 0 {
        let eq = flag(mem(a) == mem(b));
        let u0 = s;
        let u1 = seq![a] + u0;
        let u2 = seq![mem(a)] + u0;
        let u3 = seq![b] + u2;
        let u4 = seq![mem(b)] + u2;
        let u5 = seq![eq] + u0;
        assert(u1.drop_first() =~= u0);
        assert(u3.drop_first() =~= u2);
        assert(u4.skip(2) =~= u0);
        lemma_run_from(c2, 0, mem, u0, fuel);
        lemma_run_from(c2, 1, mem, u1, fuel);
        lemma_run_from(c2, 2, mem, u2, fuel);
        lemma_run_from(c2, 3, mem, u3, fuel);
        lemma_run_from(c2, 4, mem, u4, fuel);
        assert(c2.skip(0) =~= c2);
        assert(c2.skip(5) =~= Seq::<Inst>::empty());
        assert(run(c2, mem, u0, fuel) == Some(u5));
        assert(u5.drop_first() =~= s);
        if mem(a) == mem(b) {
            lemma_run_from(inner->If_then, 0, mem, s, fuel);
            assert(inner->If_then.skip(0) =~= inner->If_then);
            assert(inner->If_then.skip(1) =~= Seq::<Inst>::empty());
        } else {
            lemma_leave_loop(0, mem, seq![l, b, a], below, fuel);
        }
        lemma_run_from(outer->If_then, 0, mem, s, fuel);
        assert(outer->If_then.skip(0) =~= outer->If_then);
        assert(outer->If_then.skip(1) =~= Seq::<Inst>::empty());
    } else {
        lemma_leave_loop(1, mem, seq![l, b, a], below, fuel);
    }
    assert((seq![flag(l > 0)] + s).drop_first() =~= s);
    lemma_run_from(cond, 0, mem, s, fuel);
    assert(cond.skip(0) =~= cond);
    assert(cond.skip(1) =~= Seq::<Inst>::empty());
}

/// One round of the `startsWith` loop's body on `[l, b, a]` over `rest`.
proof fn lemma_starts_with_body(
    mem: spec_fn(int) -> int,
    l: int,
    b: int,
    a: int,
    rest: Seq<int>,
    fuel: nat,
)
    requires
        1 <= l,
        is_u32(l),
        0 <= a,
        0 <= b,
        is_u32(a + 1),
        is_u32(b + 1),
    ensures
        run(starts_with_body(), mem, seq![l, b, a] + rest, fuel) == Some(
            seq![l - 1, b + 1, a + 1] + rest,
        ),
{
    let is = starts_with_body();
    let t0 = seq![l, b, a] + rest;
    let t1 = seq![a, l, b] + rest;
    let t2 = seq![1int, a, l, b] + rest;
    let t3 = seq![a + 1, l, b] + rest;
    let t4 = seq![b, a + 1, l] + rest;
    let t5 = seq![1int, b, a + 1, l] + rest;
    let t6 = seq![b + 1, a + 1, l] + rest;
    let t7 = seq![l, b + 1, a + 1] + rest;
    let t8 = seq![1int, l, b + 1, a + 1] + rest;
    let t9 = seq![l - 1, b + 1, a + 1] + rest;
    assert(seq![t0[2]] + t0.take(2) + t0.skip(3) =~= t1);
    assert(seq![1int] + t1 =~= t2);
    assert(seq![t2[1] + t2[0]] + t2.skip(2) =~= t3);
    assert(seq![t3[2]] + t3.take(2) + t3.skip(3) =~= t4);
    assert(seq![1int] + t4 =~= t5);
    assert(seq![t5[1] + t5[0]] + t5.skip(2) =~= t6);
    assert(seq![t6[2]] + t6.take(2) + t6.skip(3) =~= t7);
    assert(seq![1int] + t7 =~= t8);
    assert(seq![t8[1] - t8[0]] + t8.skip(2) =~= t9);
    lemma_run_from(is, 0, mem, t0, fuel);
    lemma_run_from(is, 1, mem, t1, fuel);
    lemma_run_from(is, 2, mem, t2, fuel);
    lemma_run_from(is, 3, mem, t3, fuel);
    lemma_run_from(is, 4, mem, t4, fuel);
    lemma_run_from(is, 5, mem, t5, fuel);
    lemma_run_from(is, 6, mem, t6, fuel);
    lemma_run_from(is, 7, mem, t7, fuel);
    lemma_run_from(is, 8, mem, t8, fuel);
    assert(is.skip(0) =~= is);
    assert(is.skip(9) =~= Seq::<Inst>::empty());
}

/// The code of `starts_with_inner` compares the `len` cells from `a_ptr`
/// with the `len` cells from `b_ptr`. On the stack `[b_ptr, a_ptr, len]`
/// (top first) over `rest` it replaces its three operands by 1 when the
/// cells are all equal and by 0 otherwise, and leaves `rest` as it was.
pub proof fn lemma_starts_with_inner(
    mem: spec_fn(int) -> int,
    len: int,
    a_ptr: int,
    b_ptr: int,
    rest: Seq<int>,
    fuel: nat,
)
    requires
        0 <= len,
        0 <= a_ptr,
        0 <= b_ptr,
        is_u32(a_ptr + len),
        is_u32(b_ptr + len),
        len < fuel,
        forall|k: int| 0 <= k < len ==> is_u32(#[trigger] mem(a_ptr + k)) && is_u32(mem(b_ptr + k)),
    ensures
        run(starts_with_insts(), mem, seq![b_ptr, a_ptr, len] + rest, fuel) == Some(
            seq![flag(cells_match(mem, a_ptr, b_ptr, len))] + rest,
        ),
{
    let states = |k: nat| seq![len - k, b_ptr + k, a_ptr + k] + rest;
    lemma_first_mismatch(mem, a_ptr, b_ptr, len, 0);
    let m = first_mismatch(mem, a_ptr, b_ptr, len, 0);
    let out = seq![flag(cells_match(mem, a_ptr, b_ptr, len))] + rest;
    assert forall|j: nat| j < m implies #[trigger] run(starts_with_condition(), mem, states(j), fuel)
        == Some(seq![1int] + states(j)) by {
        assert(same_cell(mem, a_ptr, b_ptr, j as int));
        assert(is_u32(mem(a_ptr + j)));
        lemma_starts_with_condition(mem, len - j, b_ptr + j, a_ptr + j, rest, fuel);
    }
    assert forall|j: nat| j < m implies #[trigger] run(starts_with_body(), mem, states(j), fuel)
        == Some(states(j + 1)) by {
        lemma_starts_with_body(mem, len - j, b_ptr + j, a_ptr + j, rest, fuel);
        assert(seq![len - j - 1, b_ptr + j + 1, a_ptr + j + 1] + rest =~= states(j + 1));
    }
    assert(run(starts_with_condition(), mem, states(m as nat), fuel) == Some(seq![0int] + out)) by {
        if m < len {
            assert(!same_cell(mem, a_ptr, b_ptr, m));
            assert(is_u32(mem(a_ptr + m)));
        }
        lemma_starts_with_condition(mem, len - m, b_ptr + m, a_ptr + m, rest, fuel);
        assert(seq![0int, flag(m == len)] + rest =~= seq![0int] + out);
    }
    lemma_while(starts_with_condition(), starts_with_body(), mem, states, fuel, m as nat, out);
    let is = starts_with_insts();
    let s0 = seq![b_ptr, a_ptr, len] + rest;
    assert(seq![s0[2]] + s0.take(2) + s0.skip(3) =~= states(0));
    lemma_run_from(is, 0, mem, s0, fuel);
    lemma_run_from(is, 1, mem, states(0), fuel);
    assert(is.skip(0) =~= is);
    assert(is.skip(2) =~= Seq::<Inst>::empty());
}

/// The stack of the search loop after `j` rounds, top first: `j`, the
/// position `i + j` in `a`, then the six operands.
pub open spec fn search_state(
    j: int,
    i: int,
    result: int,
    b_ptr: int,
    a_ptr: int,
    b_len: int,
    a_len: int,
    rest: Seq<int>,
) -> Seq<int> {
    seq![j, i + j, i, result, b_ptr, a_ptr, b_len, a_len] + rest
}

/// One round of the search loop's condition.
proof fn lemma_search_condition(
    mem: spec_fn(int) -> int,
    j: int,
    i: int,
    result: int,
    b_ptr: int,
    a_ptr: int,
    b_len: int,
    a_len: int,
    rest: Seq<int>,
    fuel: nat,
)
    requires
        0 <= j <= b_len,
        0 <= i,
        0 <= a_ptr,
        0 <= b_ptr,
        is_u32(b_len),
        j < b_len ==> is_u32(a_ptr + i + j) && is_u32(b_ptr + j) && is_u32(mem(a_ptr + i + j))
            && is_u32(mem(b_ptr + j)),
    ensures
        run(search_condition(), mem, search_state(j, i, result, b_ptr, a_ptr, b_len, a_len, rest), fuel)
            == Some(
            seq![flag(j < b_len && mem(a_ptr + i + j) == mem(b_ptr + j))] + search_state(
                j,
                i,
                result,
                b_ptr,
                a_ptr,
                b_len,
                a_len,
                rest,
            ),
        ),
{
    let t0 = search_state(j, i, result, b_ptr, a_ptr, b_len, a_len, rest);
    let cond = search_condition();
    let c1 = cond[0]->If_condition;
    assert((seq![b_len, j] + t0).skip(2) =~= t0);
    assert((seq![j] + t0)[7] == b_len);
    assert(seq![b_len] + (seq![j] + t0) =~= seq![b_len, j] + t0);
    lemma_run3(c1, mem, t0, seq![j] + t0, seq![b_len, j] + t0, seq![flag(j < b_len)] + t0, fuel);
    assert((seq![flag(j < b_len)] + t0).drop_first() =~= t0);
    if j < b_len {
        let th = cond[0]->If_then;
        let ma = mem(a_ptr + i + j);
        let mb = mem(b_ptr + j);
        let t1 = seq![a_ptr] + t0;
        let t2 = seq![i + j, a_ptr] + t0;
        let t3 = seq![a_ptr + i + j] + t0;
        let t4 = seq![ma] + t0;
        let t5 = seq![b_ptr, ma] + t0;
        let t6 = seq![j, b_ptr, ma] + t0;
        let t7 = seq![b_ptr + j, ma] + t0;
        let t8 = seq![mb, ma] + t0;
        let t9 = seq![flag(ma == mb)] + t0;
        assert(seq![t0[5]] + t0 =~= t1);
        assert(seq![t1[2]] + t1 =~= t2);
        assert(seq![t2[1] + t2[0]] + t2.skip(2) =~= t3);
        assert(seq![mem(t3[0])] + t3.drop_first() =~= t4);
        assert(seq![t4[5]] + t4 =~= t5);
        assert(seq![t5[2]] + t5 =~= t6);
        assert(seq![t6[1] + t6[0]] + t6.skip(2) =~= t7);
        assert(seq![mem(t7[0])] + t7.drop_first() =~= t8);
        assert(seq![flag(t8[1] == t8[0])] + t8.skip(2) =~= t9);
        lemma_run_from(th, 0, mem, t0, fuel);
        lemma_run_from(th, 1, mem, t1, fuel);
        lemma_run_from(th, 2, mem, t2, fuel);
        lemma_run_from(th, 3, mem, t3, fuel);
        lemma_run_from(th, 4, mem, t4, fuel);
        lemma_run_from(th, 5, mem, t5, fuel);
        lemma_run_from(th, 6, mem, t6, fuel);
        lemma_run_from(th, 7, mem, t7, fuel);
        lemma_run_from(th, 8, mem, t8, fuel);
        assert(th.skip(0) =~= th);
        assert(th.skip(9) =~= Seq::<Inst>::empty());
    } else {
        let el = cond[0]->If_else_;
        lemma_run_from(el, 0, mem, t0, fuel);
        assert(el.skip(0) =~= el);
        assert(el.skip(1) =~= Seq::<Inst>::empty());
    }
    lemma_run_from(cond, 0, mem, t0, fuel);
    assert(cond.skip(0) =~= cond);
    assert(cond.skip(1) =~= Seq::<Inst>::empty());
}

/// One round of the search loop's body: `j` and the position go up by one.
proof fn lemma_search_body(
    mem: spec_fn(int) -> int,
    j: int,
    i: int,
    result: int,
    b_ptr: int,
    a_ptr: int,
    b_len: int,
    a_len: int,
    rest: Seq<int>,
    fuel: nat,
)
    requires
        0 <= j,
        0 <= i,
        is_u32(j + 1),
        is_u32(i + j + 1),
    ensures
        run(search_body(), mem, search_state(j, i, result, b_ptr, a_ptr, b_len, a_len, rest), fuel)
            == Some(search_state(j + 1, i, result, b_ptr, a_ptr, b_len, a_len, rest)),
{
    let is = search_body();
    let t0 = search_state(j, i, result, b_ptr, a_ptr, b_len, a_len, rest);
    let below = seq![i, result, b_ptr, a_ptr, b_len, a_len] + rest;
    let t1 = seq![1int, j, i + j] + below;
    let t2 = seq![j + 1, i + j] + below;
    let t3 = seq![i + j, j + 1] + below;
    let t4 = seq![1int, i + j, j + 1] + below;
    let t5 = seq![i + j + 1, j + 1] + below;
    let t6 = seq![j + 1, i + j + 1] + below;
    assert(t0 =~= seq![j, i + j] + below);
    assert(seq![1int] + t0 =~= t1);
    assert(seq![t1[1] + t1[0]] + t1.skip(2) =~= t2);
    assert(seq![t2[1], t2[0]] + t2.skip(2) =~= t3);
    assert(seq![1int] + t3 =~= t4);
    assert(seq![t4[1] + t4[0]] + t4.skip(2) =~= t5);
    assert(seq![t5[1], t5[0]] + t5.skip(2) =~= t6);
    assert(t6 =~= search_state(j + 1, i, result, b_ptr, a_ptr, b_len, a_len, rest));
    lemma_run_from(is, 0, mem, t0, fuel);
    lemma_run_from(is, 1, mem, t1, fuel);
    lemma_run_from(is, 2, mem, t2, fuel);
    lemma_run_from(is, 3, mem, t3, fuel);
    lemma_run_from(is, 4, mem, t4, fuel);
    lemma_run_from(is, 5, mem, t5, fuel);
    assert(is.skip(0) =~= is);
    assert(is.skip(6) =~= Seq::<Inst>::empty());
}

/// The code of `search_inner_loop` tells whether `b` occurs in `a` at
/// position `i`. On `[i, result, b_ptr, a_ptr, b_len, a_len]` (top first)
/// over `rest` it pushes 1 when the `b_len` cells from `a_ptr + i` equal the
/// `b_len` cells from `b_ptr` and 0 otherwise, and leaves the rest as it was.
pub proof fn lemma_search_inner_loop(
    mem: spec_fn(int) -> int,
    i: int,
    result: int,
    b_ptr: int,
    a_ptr: int,
    b_len: int,
    a_len: int,
    rest: Seq<int>,
    fuel: nat,
)
    requires
        is_u32(i),
        is_u32(b_len),
        0 <= a_ptr,
        0 <= b_ptr,
        is_u32(i + b_len),
        is_u32(a_ptr + i + b_len),
        is_u32(b_ptr + b_len),
        b_len < fuel,
        forall|k: int|
            0 <= k < b_len ==> is_u32(#[trigger] mem(a_ptr + i + k)) && is_u32(mem(b_ptr + k)),
    ensures
        run(
            search_inner_loop_insts(),
            mem,
            seq![i, result, b_ptr, a_ptr, b_len, a_len] + rest,
            fuel,
        ) == Some(
            seq![flag(cells_match(mem, a_ptr + i, b_ptr, b_len)), i, result, b_ptr, a_ptr, b_len, a_len]
                + rest,
        ),
{
    let states = |k: nat| search_state(k as int, i, result, b_ptr, a_ptr, b_len, a_len, rest);
    lemma_first_mismatch(mem, a_ptr + i, b_ptr, b_len, 0);
    let m = first_mismatch(mem, a_ptr + i, b_ptr, b_len, 0);
    let out = states(m as nat);
    assert forall|j: nat| j < m implies #[trigger] run(search_condition(), mem, states(j), fuel)
        == Some(seq![1int] + states(j)) by {
        assert(same_cell(mem, a_ptr + i, b_ptr, j as int));
        assert(is_u32(mem(a_ptr + i + j)));
        assert(a_ptr + i + j == (a_ptr + i) + j);
        lemma_search_condition(mem, j as int, i, result, b_ptr, a_ptr, b_len, a_len, rest, fuel);
    }
    assert forall|j: nat| j < m implies #[trigger] run(search_body(), mem, states(j), fuel)
        == Some(states(j + 1)) by {
        lemma_search_body(mem, j as int, i, result, b_ptr, a_ptr, b_len, a_len, rest, fuel);
    }
    assert(run(search_condition(), mem, states(m as nat), fuel) == Some(seq![0int] + out)) by {
        if m < b_len {
            assert(!same_cell(mem, a_ptr + i, b_ptr, m));
            assert(is_u32(mem(a_ptr + i + m)));
            assert(a_ptr + i + m == (a_ptr + i) + m);
        }
        lemma_search_condition(mem, m, i, result, b_ptr, a_ptr, b_len, a_len, rest, fuel);
    }
    lemma_while(search_condition(), search_body(), mem, states, fuel, m as nat, out);
    let is = search_inner_loop_insts();
    let below = seq![i, result, b_ptr, a_ptr, b_len, a_len] + rest;
    let s0 = below;
    let s1 = seq![i] + below;
    let s2 = seq![0int, i] + below;
    assert(s2 =~= states(0));
    assert(seq![s0[0]] + s0 =~= s1);
    assert(seq![0int] + s1 =~= s2);
    let s3 = out;
    let s4 = seq![i + m, m, i] + seq![result, b_ptr, a_ptr, b_len, a_len] + rest;
    let s5 = seq![m, i, result, b_ptr, a_ptr, b_len, a_len] + rest;
    let s6 = seq![b_len] + s5;
    let matched = flag(m == b_len);
    let s7 = seq![matched, i, result, b_ptr, a_ptr, b_len, a_len] + rest;
    assert(seq![s3[1], s3[0]] + s3.skip(2) =~= s4);
    assert(s4.drop_first() =~= s5);
    assert(seq![s5[5]] + s5 =~= s6);
    assert(seq![flag(s6[1] == s6[0])] + s6.skip(2) =~= s7);
    lemma_run_from(is, 0, mem, s0, fuel);
    lemma_run_from(is, 1, mem, s1, fuel);
    lemma_run_from(is, 2, mem, s2, fuel);
    lemma_run_from(is, 3, mem, s3, fuel);
    lemma_run_from(is, 4, mem, s4, fuel);
    lemma_run_from(is, 5, mem, s5, fuel);
    lemma_run_from(is, 6, mem, s6, fuel);
    assert(is.skip(0) =~= is);
    assert(is.skip(7) =~= Seq::<Inst>::empty());
    assert(step(is[2], mem, s2, fuel) == Some(s3));
    assert(run(is.skip(3), mem, s3, fuel) == Some(s7));
    assert(run(is.skip(2), mem, s2, fuel) == Some(s7));
    assert(run(is, mem, s0, fuel) == Some(s7));
    assert(matched == flag(cells_match(mem, a_ptr + i, b_ptr, b_len)));
}

} // verus!
