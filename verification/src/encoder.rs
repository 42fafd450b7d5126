//! Miden assembly instructions: their text encoding, and the lowering of the
//! abstract control-flow instructions (`break`, `return`, inlined functions)
//! into plain memory flags and conditionals.

use vstd::prelude::*;

use crate::memory::Memory;
use crate::text::{decimal, write_decimal};

verus! {

/// One instruction of the generated Miden program.
#[derive(Debug, PartialEq)]
pub enum Instruction<'a> {
    Comment(String),
    Drop,
    Push(u32),
    Assert,
    Dup(Option<u32>),
    Swap,
    MovUp(u32),
    MovDown(u32),
    Add,
    And,
    Or,
    Not,
    U32CheckedAdd,
    U32CheckedSub,
    U32CheckedMod,
    U32CheckedDiv,
    U32CheckedEq,
    U32CheckedLTE,
    U32CheckedLT,
    U32CheckedGTE,
    U32CheckedGT,
    U32CheckedNeq,
    U32CheckedAnd,
    U32CheckedOr,
    U32CheckedXOR,
    U32WrappingAdd,
    U32WrappingSub,
    U32OverflowingMul,
    U32CheckedMul,
    U32CheckedNot,
    AssertZero,
    U32CheckedSHL(Option<u32>),
    U32CheckedSHR(Option<u32>),
    Exec(&'a str),
    MemStore(Option<u32>),
    MemLoad(Option<u32>),
    AdvPush(u32),
    While { condition: Vec<Instruction<'a>>, body: Vec<Instruction<'a>> },
    Repeat { count: u32, body: Vec<Instruction<'a>> },
    If { condition: Vec<Instruction<'a>>, then: Vec<Instruction<'a>>, else_: Vec<Instruction<'a>> },
    Abstract(AbstractInstruction<'a>),
}

/// Control flow that has no direct Miden counterpart and must be lowered
/// by [`unabstract`] before encoding.
#[derive(Debug, PartialEq)]
pub enum AbstractInstruction<'a> {
    Break,
    Return,
    InlinedFunction(Vec<Instruction<'a>>),
}

/// The mathematical model of an instruction: nested bodies are sequences,
/// texts are sequences of characters, and the abstract instructions are
/// flattened into the same type.
pub enum Inst {
    Comment(Seq<char>),
    Drop,
    Push(u32),
    Assert,
    Dup(Option<u32>),
    Swap,
    MovUp(u32),
    MovDown(u32),
    Add,
    And,
    Or,
    Not,
    U32CheckedAdd,
    U32CheckedSub,
    U32CheckedMod,
    U32CheckedDiv,
    U32CheckedEq,
    U32CheckedLTE,
    U32CheckedLT,
    U32CheckedGTE,
    U32CheckedGT,
    U32CheckedNeq,
    U32CheckedAnd,
    U32CheckedOr,
    U32CheckedXOR,
    U32WrappingAdd,
    U32WrappingSub,
    U32OverflowingMul,
    U32CheckedMul,
    U32CheckedNot,
    AssertZero,
    U32CheckedSHL(Option<u32>),
    U32CheckedSHR(Option<u32>),
    Exec(Seq<char>),
    MemStore(Option<u32>),
    MemLoad(Option<u32>),
    AdvPush(u32),
    While { condition: Seq<Inst>, body: Seq<Inst> },
    Repeat { count: u32, body: Seq<Inst> },
    If { condition: Seq<Inst>, then: Seq<Inst>, else_: Seq<Inst> },
    Break,
    Return,
    Inlined(Seq<Inst>),
}

/// The model of one instruction.
pub open spec fn inst_view(i: Instruction) -> Inst
    decreases i,
{
    match i {
        Instruction::Comment(s) => Inst::Comment(s@),
        Instruction::Drop => Inst::Drop,
        Instruction::Push(v) => Inst::Push(v),
        Instruction::Assert => Inst::Assert,
        Instruction::Dup(v) => Inst::Dup(v),
        Instruction::Swap => Inst::Swap,
        Instruction::MovUp(v) => Inst::MovUp(v),
        Instruction::MovDown(v) => Inst::MovDown(v),
        Instruction::Add => Inst::Add,
        Instruction::And => Inst::And,
        Instruction::Or => Inst::Or,
        Instruction::Not => Inst::Not,
        Instruction::U32CheckedAdd => Inst::U32CheckedAdd,
        Instruction::U32CheckedSub => Inst::U32CheckedSub,
        Instruction::U32CheckedMod => Inst::U32CheckedMod,
        Instruction::U32CheckedDiv => Inst::U32CheckedDiv,
        Instruction::U32CheckedEq => Inst::U32CheckedEq,
        Instruction::U32CheckedLTE => Inst::U32CheckedLTE,
        Instruction::U32CheckedLT => Inst::U32CheckedLT,
        Instruction::U32CheckedGTE => Inst::U32CheckedGTE,
        Instruction::U32CheckedGT => Inst::U32CheckedGT,
        Instruction::U32CheckedNeq => Inst::U32CheckedNeq,
        Instruction::U32CheckedAnd => Inst::U32CheckedAnd,
        Instruction::U32CheckedOr => Inst::U32CheckedOr,
        Instruction::U32CheckedXOR => Inst::U32CheckedXOR,
        Instruction::U32WrappingAdd => Inst::U32WrappingAdd,
        Instruction::U32WrappingSub => Inst::U32WrappingSub,
        Instruction::U32OverflowingMul => Inst::U32OverflowingMul,
        Instruction::U32CheckedMul => Inst::U32CheckedMul,
        Instruction::U32CheckedNot => Inst::U32CheckedNot,
        Instruction::AssertZero => Inst::AssertZero,
        Instruction::U32CheckedSHL(v) => Inst::U32CheckedSHL(v),
        Instruction::U32CheckedSHR(v) => Inst::U32CheckedSHR(v),
        Instruction::Exec(s) => Inst::Exec(s@),
        Instruction::MemStore(v) => Inst::MemStore(v),
        Instruction::MemLoad(v) => Inst::MemLoad(v),
        Instruction::AdvPush(v) => Inst::AdvPush(v),
        Instruction::Repeat { count, body } => Inst::Repeat { count, body: view_seq(body@) },
        Instruction::While { condition, body } => Inst::While {
            condition: view_seq(condition@),
            body: view_seq(body@),
        },
        Instruction::If { condition, then, else_ } => Inst::If {
            condition: view_seq(condition@),
            then: view_seq(then@),
            else_: view_seq(else_@),
        },
        Instruction::Abstract(AbstractInstruction::Break) => Inst::Break,
        Instruction::Abstract(AbstractInstruction::Return) => Inst::Return,
        Instruction::Abstract(AbstractInstruction::InlinedFunction(f)) => Inst::Inlined(
            view_seq(f@),
        ),
    }
}

/// The model of a sequence of instructions, element by element.
pub open spec fn view_seq(s: Seq<Instruction>) -> Seq<Inst>
    decreases s,
{
    if s.len() == 0 {
        Seq::empty()
    } else {
        view_seq(s.drop_last()).push(inst_view(s.last()))
    }
}

impl View for Instruction<'_> {
    type V = Inst;

    open spec fn view(&self) -> Inst {
        inst_view(*self)
    }
}

pub proof fn lemma_view_seq_len(s: Seq<Instruction>)
    ensures
        view_seq(s).len() == s.len(),
    decreases s.len(),
{
    if s.len() > 0 {
        lemma_view_seq_len(s.drop_last());
    }
}

pub proof fn lemma_view_seq_index(s: Seq<Instruction>, i: int)
    requires
        0 <= i < s.len(),
    ensures
        view_seq(s)[i] == inst_view(s[i]),
    decreases s.len(),
{
    lemma_view_seq_len(s.drop_last());
    if i < s.len() - 1 {
        lemma_view_seq_index(s.drop_last(), i);
    }
}

/// The model of a sequence is the model of each of its instructions.
pub proof fn lemma_view_seq_map(s: Seq<Instruction>)
    ensures
        view_seq(s) == s.map_values(|i: Instruction| inst_view(i)),
    decreases s.len(),
{
    if s.len() > 0 {
        lemma_view_seq_map(s.drop_last());
        assert(view_seq(s) =~= s.map_values(|i: Instruction| inst_view(i)));
    } else {
        assert(view_seq(s) =~= s.map_values(|i: Instruction| inst_view(i)));
    }
}

pub proof fn lemma_view_seq_push(s: Seq<Instruction>, x: Instruction)
    ensures
        view_seq(s.push(x)) == view_seq(s).push(inst_view(x)),
{
    assert(s.push(x).drop_last() =~= s);
}

pub proof fn lemma_view_seq_add(a: Seq<Instruction>, b: Seq<Instruction>)
    ensures
        view_seq(a + b) == view_seq(a) + view_seq(b),
    decreases b.len(),
{
    if b.len() == 0 {
        assert(a + b =~= a);
        assert(view_seq(a) + view_seq(b) =~= view_seq(a));
    } else {
        lemma_view_seq_add(a, b.drop_last());
        assert((a + b).drop_last() =~= a + b.drop_last());
        assert(view_seq(a) + view_seq(b) =~= (view_seq(a) + view_seq(b.drop_last())).push(
            inst_view(b.last()),
        ));
    }
}


/// No abstract instruction occurs in `i`, at any depth.
pub open spec fn is_concrete(i: Inst) -> bool
    decreases i,
{
    match i {
        Inst::While { condition, body } => all_concrete(condition) && all_concrete(body),
        Inst::Repeat { body, .. } => all_concrete(body),
        Inst::If { condition, then, else_ } => all_concrete(condition) && all_concrete(then)
            && all_concrete(else_),
        Inst::Break | Inst::Return | Inst::Inlined(_) => false,
        _ => true,
    }
}

/// No abstract instruction occurs in `s`, at any depth.
pub open spec fn all_concrete(s: Seq<Inst>) -> bool
    decreases s,
{
    if s.len() == 0 {
        true
    } else {
        all_concrete(s.drop_last()) && is_concrete(s.last())
    }
}

pub proof fn lemma_all_concrete_index(s: Seq<Inst>, i: int)
    requires
        all_concrete(s),
        0 <= i < s.len(),
    ensures
        is_concrete(s[i]),
    decreases s.len(),
{
    if i < s.len() - 1 {
        lemma_all_concrete_index(s.drop_last(), i);
    }
}

/// How deeply loops and conditionals nest inside `i`.
pub open spec fn nesting(i: Inst) -> nat
    decreases i,
{
    match i {
        Inst::While { condition, body } => 1 + max_nat(nesting_seq(condition), nesting_seq(body)),
        Inst::Repeat { body, .. } => 1 + nesting_seq(body),
        Inst::If { condition, then, else_ } => 1 + max_nat(
            nesting_seq(condition),
            max_nat(nesting_seq(then), nesting_seq(else_)),
        ),
        _ => 0,
    }
}

pub open spec fn nesting_seq(s: Seq<Inst>) -> nat
    decreases s,
{
    if s.len() == 0 {
        0
    } else {
        max_nat(nesting_seq(s.drop_last()), nesting(s.last()))
    }
}

pub open spec fn max_nat(a: nat, b: nat) -> nat {
    if a >= b {
        a
    } else {
        b
    }
}

pub proof fn lemma_nesting_index(s: Seq<Inst>, i: int)
    requires
        0 <= i < s.len(),
    ensures
        nesting(s[i]) <= nesting_seq(s),
    decreases s.len(),
{
    if i < s.len() - 1 {
        lemma_nesting_index(s.drop_last(), i);
    }
}

/// Two spaces per level of nesting.
pub open spec fn indent(depth: nat) -> Seq<char>
    decreases depth,
{
    if depth == 0 {
        Seq::empty()
    } else {
        indent((depth - 1) as nat) + "  "@
    }
}

/// An instruction name followed, where there is one, by `.` and its immediate.
pub open spec fn with_immediate(plain: Seq<char>, dotted: Seq<char>, v: Option<u32>) -> Seq<char> {
    match v {
        Some(x) => dotted + decimal(x as nat),
        None => plain,
    }
}

/// The text of an instruction that is neither a loop, a conditional nor abstract.
pub open spec fn plain_text(i: Inst) -> Seq<char> {
    match i {
        Inst::Comment(s) => "# "@ + s,
        Inst::Drop => "drop"@,
        Inst::Push(v) => "push."@ + decimal(v as nat),
        Inst::Assert => "assert"@,
        Inst::Dup(v) => with_immediate("dup"@, "dup."@, v),
        Inst::Swap => "swap"@,
        Inst::MovUp(v) => "movup."@ + decimal(v as nat),
        Inst::MovDown(v) => "movdn."@ + decimal(v as nat),
        Inst::Add => "add"@,
        Inst::And => "and"@,
        Inst::Or => "or"@,
        Inst::Not => "not"@,
        Inst::U32CheckedAdd => "u32checked_add"@,
        Inst::U32CheckedSub => "u32checked_sub"@,
        Inst::U32CheckedMod => "u32checked_mod"@,
        Inst::U32CheckedDiv => "u32checked_div"@,
        Inst::U32CheckedEq => "u32checked_eq"@,
        Inst::U32CheckedLTE => "u32checked_lte"@,
        Inst::U32CheckedLT => "u32checked_lt"@,
        Inst::U32CheckedGTE => "u32checked_gte"@,
        Inst::U32CheckedGT => "u32checked_gt"@,
        Inst::U32CheckedNeq => "u32checked_neq"@,
        Inst::U32CheckedAnd => "u32checked_and"@,
        Inst::U32CheckedOr => "u32checked_or"@,
        Inst::U32CheckedXOR => "u32checked_xor"@,
        Inst::U32WrappingAdd => "u32wrapping_add"@,
        Inst::U32WrappingSub => "u32wrapping_sub"@,
        Inst::U32OverflowingMul => "u32overflowing_mul"@,
        Inst::U32CheckedMul => "u32checked_mul"@,
        Inst::U32CheckedNot => "u32checked_not"@,
        Inst::AssertZero => "assertz"@,
        Inst::U32CheckedSHL(v) => with_immediate("u32checked_shl"@, "u32checked_shl."@, v),
        Inst::U32CheckedSHR(v) => with_immediate("u32checked_shr"@, "u32checked_shr."@, v),
        Inst::Exec(name) => "exec."@ + name,
        Inst::MemStore(v) => with_immediate("mem_store"@, "mem_store."@, v),
        Inst::MemLoad(v) => with_immediate("mem_load"@, "mem_load."@, v),
        Inst::AdvPush(v) => "adv_push."@ + decimal(v as nat),
        _ => Seq::empty(),
    }
}

/// The first line of a loop that runs its body `count` times.
pub open spec fn repeat_head(count: u32) -> Seq<char> {
    "repeat."@ + decimal(count as nat) + "\n"@
}

/// The Miden assembly text of `i` at the given nesting depth, without a final newline.
pub open spec fn encoded(i: Inst, depth: nat) -> Seq<char>
    decreases i, 0int,
{
    match i {
        Inst::While { condition, body } => lines(condition, depth) + indent(depth)
            + "while.true"@ + "\n"@ + lines(body, depth + 1) + lines(condition, depth + 1)
            + indent(depth) + "end"@,
        Inst::Repeat { count, body } => indent(depth) + repeat_head(count) + lines(body, depth + 1)
            + indent(depth) + "end"@,
        Inst::If { condition, then, else_ } => lines(condition, depth) + indent(depth)
            + "if.true\n"@ + lines(then, depth + 1) + padding(then, depth) + else_part(else_, depth)
            + indent(depth) + "end"@,
        Inst::Break | Inst::Return | Inst::Inlined(_) => Seq::empty(),
        _ => indent(depth) + plain_text(i),
    }
}

/// Each instruction of `s` encoded at `depth` and followed by a newline.
pub open spec fn lines(s: Seq<Inst>, depth: nat) -> Seq<char>
    decreases s, 1int,
{
    if s.len() == 0 {
        Seq::empty()
    } else {
        lines(s.drop_last(), depth) + encoded(s.last(), depth) + "\n"@
    }
}

/// Appends `depth` levels of indentation.
fn write_indent(f: &mut String, depth: usize)
    ensures
        final(f)@ == old(f)@ + indent(depth as nat),
{
    let mut i: usize = 0;
    while i < depth
        invariant
            i <= depth,
            f@ == old(f)@ + indent(i as nat),
        decreases depth - i,
    {
        f.append("  ");
        i = i + 1;
        proof {
            assert(f@ =~= old(f)@ + indent(i as nat));
        }
    }
}

fn write_with_immediate(f: &mut String, plain: &str, dotted: &str, v: Option<u32>)
    ensures
        final(f)@ == old(f)@ + with_immediate(plain@, dotted@, v),
{
    match v {
        Some(x) => {
            f.append(dotted);
            write_decimal(f, x as u128);
            proof {
                assert(final(f)@ =~= old(f)@ + with_immediate(plain@, dotted@, v));
            }
        },
        None => {
            f.append(plain);
        },
    }
}

/// Appends every instruction of `instructions`, each followed by a newline.
fn encode_lines(instructions: &Vec<Instruction>, f: &mut String, depth: usize)
    requires
        all_concrete(view_seq(instructions@)),
        depth + nesting_seq(view_seq(instructions@)) <= usize::MAX,
    ensures
        final(f)@ == old(f)@ + lines(view_seq(instructions@), depth as nat),
    decreases instructions,
{
    let ghost s = view_seq(instructions@);
    proof {
        lemma_view_seq_len(instructions@);
    }
    let mut i: usize = 0;
    while i < instructions.len()
        invariant
            i <= instructions.len(),
            s == view_seq(instructions@),
            s.len() == instructions.len(),
            all_concrete(s),
            depth + nesting_seq(s) <= usize::MAX,
            f@ == old(f)@ + lines(s.take(i as int), depth as nat),
        decreases instructions.len() - i,
    {
        proof {
            lemma_view_seq_index(instructions@, i as int);
            lemma_all_concrete_index(s, i as int);
            lemma_nesting_index(s, i as int);
            assert(decreases_to!(instructions => instructions@[i as int]));
        }
        instructions[i].encode(f, depth);
        f.append("\n");
        proof {
            assert(s.take(i + 1).drop_last() =~= s.take(i as int));
            assert(f@ =~= old(f)@ + lines(s.take(i + 1), depth as nat));
        }
        i = i + 1;
    }
    proof {
        assert(s.take(i as int) =~= s);
    }
}

impl Instruction<'_> {
    /// Appends the text of an instruction that is neither a loop, a
    /// conditional nor abstract.
    fn encode_plain(&self, f: &mut String)
        ensures
            final(f)@ == old(f)@ + plain_text(self@),
    {
        match self {
            Instruction::Comment(s) => {
                f.append("# ");
                f.append(s.as_str());
            },
            Instruction::Drop => f.append("drop"),
            Instruction::Push(value) => {
                f.append("push.");
                write_decimal(f, *value as u128);
            },
            Instruction::Assert => f.append("assert"),
            Instruction::Dup(v) => write_with_immediate(f, "dup", "dup.", *v),
            Instruction::Swap => f.append("swap"),
            Instruction::MovUp(v) => {
                f.append("movup.");
                write_decimal(f, *v as u128);
            },
            Instruction::MovDown(v) => {
                f.append("movdn.");
                write_decimal(f, *v as u128);
            },
            Instruction::Add => f.append("add"),
            Instruction::And => f.append("and"),
            Instruction::Or => f.append("or"),
            Instruction::Not => f.append("not"),
            Instruction::U32CheckedAdd => f.append("u32checked_add"),
            Instruction::U32CheckedSub => f.append("u32checked_sub"),
            Instruction::U32CheckedMod => f.append("u32checked_mod"),
            Instruction::U32CheckedDiv => f.append("u32checked_div"),
            Instruction::U32CheckedEq => f.append("u32checked_eq"),
            Instruction::U32CheckedLTE => f.append("u32checked_lte"),
            Instruction::U32CheckedLT => f.append("u32checked_lt"),
            Instruction::U32CheckedGTE => f.append("u32checked_gte"),
            Instruction::U32CheckedGT => f.append("u32checked_gt"),
            Instruction::U32CheckedNeq => f.append("u32checked_neq"),
            Instruction::U32CheckedAnd => f.append("u32checked_and"),
            Instruction::U32CheckedOr => f.append("u32checked_or"),
            Instruction::U32CheckedXOR => f.append("u32checked_xor"),
            Instruction::U32WrappingAdd => f.append("u32wrapping_add"),
            Instruction::U32WrappingSub => f.append("u32wrapping_sub"),
            Instruction::U32OverflowingMul => f.append("u32overflowing_mul"),
            Instruction::U32CheckedMul => f.append("u32checked_mul"),
            Instruction::U32CheckedNot => f.append("u32checked_not"),
            Instruction::AssertZero => f.append("assertz"),
            Instruction::U32CheckedSHL(v) => write_with_immediate(
                f,
                "u32checked_shl",
                "u32checked_shl.",
                *v,
            ),
            Instruction::U32CheckedSHR(v) => write_with_immediate(
                f,
                "u32checked_shr",
                "u32checked_shr.",
                *v,
            ),
            Instruction::Exec(name) => {
                f.append("exec.");
                f.append(name);
            },
            Instruction::MemStore(v) => write_with_immediate(f, "mem_store", "mem_store.", *v),
            Instruction::MemLoad(v) => write_with_immediate(f, "mem_load", "mem_load.", *v),
            Instruction::AdvPush(v) => {
                f.append("adv_push.");
                write_decimal(f, *v as u128);
            },
            _ => {},
        }
        proof {
            assert(final(f)@ =~= old(f)@ + plain_text(self@));
        }
    }

    /// Appends the text of a loop.
    fn encode_while(&self, f: &mut String, depth: usize)
        requires
            self is While,
            is_concrete(self@),
            depth + nesting(self@) <= usize::MAX,
        ensures
            final(f)@ == old(f)@ + encoded(self@, depth as nat),
        decreases self, 0int,
    {
        if let Instruction::While { condition, body } = self {
            let ghost c = view_seq(condition@);
            let ghost b = view_seq(body@);
            let ghost d = depth as nat;
            assert(self@ == Inst::While { condition: c, body: b });
            encode_lines(condition, f, depth);
            write_indent(f, depth);
            f.append("while.true");
            f.append("\n");
            encode_lines(body, f, depth + 1);
            encode_lines(condition, f, depth + 1);
            write_indent(f, depth);
            f.append("end");
            proof {
                assert(final(f)@ =~= old(f)@ + (lines(c, d) + indent(d) + "while.true"@ + "\n"@
                    + lines(b, d + 1) + lines(c, d + 1) + indent(d) + "end"@));
            }
        }
    }

    /// Appends the text of a loop that runs its body a fixed number of times.
    fn encode_repeat(&self, f: &mut String, depth: usize)
        requires
            self is Repeat,
            is_concrete(self@),
            depth + nesting(self@) <= usize::MAX,
        ensures
            final(f)@ == old(f)@ + encoded(self@, depth as nat),
        decreases self, 0int,
    {
        if let Instruction::Repeat { count, body } = self {
            let ghost b = view_seq(body@);
            let ghost d = depth as nat;
            assert(self@ == Inst::Repeat { count: *count, body: b });
            write_indent(f, depth);
            f.append("repeat.");
            write_decimal(f, *count as u128);
            f.append("\n");
            encode_lines(body, f, depth + 1);
            write_indent(f, depth);
            f.append("end");
            proof {
                assert(final(f)@ =~= old(f)@ + (indent(d) + repeat_head(*count) + lines(b, d + 1)
                    + indent(d) + "end"@));
            }
        }
    }

    /// Appends the text of a conditional.
    #[verifier::spinoff_prover]
    #[verifier::rlimit(40)]
    fn encode_if(&self, f: &mut String, depth: usize)
        requires
            self is If,
            is_concrete(self@),
            depth + nesting(self@) <= usize::MAX,
        ensures
            final(f)@ == old(f)@ + encoded(self@, depth as nat),
        decreases self, 0int,
    {
        if let Instruction::If { condition, then, else_ } = self {
            let ghost c = view_seq(condition@);
            let ghost t = view_seq(then@);
            let ghost e = view_seq(else_@);
            let ghost d = depth as nat;
            assert(self@ == Inst::If { condition: c, then: t, else_: e });
            proof {
                lemma_view_seq_len(then@);
                lemma_view_seq_len(else_@);
            }
            encode_lines(condition, f, depth);
            write_indent(f, depth);
            f.append("if.true\n");
            encode_lines(then, f, depth + 1);
            let ghost after_then = f@;
            if then.len() == 0 {
                write_indent(f, depth);
                f.append("  push.0\n");
                write_indent(f, depth);
                f.append("  drop\n");
            }
            let ghost after_filler = f@;
            assert(after_filler =~= after_then + (if t.len() == 0 {
                indent(d) + "  push.0\n"@ + indent(d) + "  drop\n"@
            } else {
                Seq::empty()
            }));
            if else_.len() > 0 {
                write_indent(f, depth);
                f.append("else\n");
                encode_lines(else_, f, depth + 1);
            }
            let ghost after_else = f@;
            assert(after_else =~= after_filler + (if e.len() > 0 {
                indent(d) + "else\n"@ + lines(e, d + 1)
            } else {
                Seq::empty()
            }));
            write_indent(f, depth);
            f.append("end");
            proof {
                assert(final(f)@ =~= old(f)@ + encoded(self@, depth as nat));
            }
        }
    }

    /// Appends the Miden assembly text of this instruction, indented by
    /// `depth` levels and without a final newline.
    pub fn encode(&self, f: &mut String, depth: usize)
        requires
            is_concrete(self@),
            depth + nesting(self@) <= usize::MAX,
        ensures
            final(f)@ == old(f)@ + encoded(self@, depth as nat),
        decreases self, 1int,
    {
        match self {
            Instruction::While { .. } => self.encode_while(f, depth),
            Instruction::Repeat { .. } => self.encode_repeat(f, depth),
            Instruction::If { .. } => self.encode_if(f, depth),
            _ => {
                write_indent(f, depth);
                self.encode_plain(f);
                proof {
                    assert(final(f)@ =~= old(f)@ + encoded(self@, depth as nat));
                }
            },
        }
    }
}


/// No character of `t` is a newline.
pub open spec fn no_newline(t: Seq<char>) -> bool {
    forall|k: int| 0 <= k < t.len() ==> t[k] != '\n'
}

/// The comments and procedure names in `i`, at any depth, hold no newline.
pub open spec fn one_line_names(i: Inst) -> bool
    decreases i,
{
    match i {
        Inst::Comment(t) => no_newline(t),
        Inst::Exec(t) => no_newline(t),
        Inst::While { condition, body } => all_one_line_names(condition) && all_one_line_names(body),
        Inst::Repeat { body, .. } => all_one_line_names(body),
        Inst::If { condition, then, else_ } => all_one_line_names(condition) && all_one_line_names(
            then,
        ) && all_one_line_names(else_),
        _ => true,
    }
}

/// The comments and procedure names in `s`, at any depth, hold no newline.
pub open spec fn all_one_line_names(s: Seq<Inst>) -> bool
    decreases s,
{
    if s.len() == 0 {
        true
    } else {
        all_one_line_names(s.drop_last()) && one_line_names(s.last())
    }
}

/// `t` with two spaces after each newline: its lines indented one level
/// deeper, all but the first.
pub open spec fn deepen(t: Seq<char>) -> Seq<char>
    decreases t.len(),
{
    if t.len() == 0 {
        Seq::empty()
    } else {
        deepen(t.drop_last()) + if t.last() == '\n' {
            seq!['\n', ' ', ' ']
        } else {
            seq![t.last()]
        }
    }
}

proof fn lemma_deepen_add(a: Seq<char>, b: Seq<char>)
    ensures
        deepen(a + b) == deepen(a) + deepen(b),
    decreases b.len(),
{
    if b.len() == 0 {
        assert(a + b =~= a);
        assert(deepen(a) + deepen(b) =~= deepen(a));
    } else {
        lemma_deepen_add(a, b.drop_last());
        assert((a + b).drop_last() =~= a + b.drop_last());
        assert((a + b).last() == b.last());
        let tail = if b.last() == '\n' {
            seq!['\n', ' ', ' ']
        } else {
            seq![b.last()]
        };
        assert(deepen(a) + deepen(b) =~= deepen(a) + deepen(b.drop_last()) + tail);
    }
}

proof fn lemma_deepen_plain(t: Seq<char>)
    requires
        no_newline(t),
    ensures
        deepen(t) == t,
    decreases t.len(),
{
    if t.len() > 0 {
        lemma_deepen_plain(t.drop_last());
        assert(t.last() != '\n');
        assert(deepen(t) =~= t.drop_last() + seq![t.last()]);
        assert(t.drop_last() + seq![t.last()] =~= t);
    }
}

proof fn lemma_deepen_newline()
    ensures
        deepen("\n"@) == "\n"@ + "  "@,
{
    reveal_strlit("\n");
    reveal_strlit("  ");
    reveal_with_fuel(deepen, 2);
    assert("\n"@.drop_last() =~= Seq::<char>::empty());
    assert(deepen("\n"@) =~= "\n"@ + "  "@);
}

proof fn lemma_indent_shape(depth: nat)
    ensures
        no_newline(indent(depth)),
        "  "@ + indent(depth) == indent(depth + 1),
    decreases depth,
{
    reveal_strlit("  ");
    if depth > 0 {
        lemma_indent_shape((depth - 1) as nat);
        assert("  "@ + indent(depth) =~= indent(depth + 1));
    } else {
        assert("  "@ + indent(depth) =~= indent(depth + 1));
    }
}

proof fn lemma_no_newline_add(a: Seq<char>, b: Seq<char>)
    requires
        no_newline(a),
        no_newline(b),
    ensures
        no_newline(a + b),
{
    assert forall|k: int| 0 <= k < (a + b).len() implies (a + b)[k] != '\n' by {
        if k >= a.len() {
            assert((a + b)[k] == b[k - a.len()]);
        }
    }
}

proof fn lemma_decimal_one_line(n: nat)
    ensures
        no_newline(decimal(n)),
    decreases n,
{
    reveal_strlit("0");
    reveal_strlit("1");
    reveal_strlit("2");
    reveal_strlit("3");
    reveal_strlit("4");
    reveal_strlit("5");
    reveal_strlit("6");
    reveal_strlit("7");
    reveal_strlit("8");
    reveal_strlit("9");
    assert(no_newline(crate::text::digit_text(n % 10)));
    if n >= 10 {
        lemma_decimal_one_line(n / 10);
        lemma_no_newline_add(decimal(n / 10), crate::text::digit_text(n % 10));
    }
}

proof fn lemma_with_immediate_one_line(plain: Seq<char>, dotted: Seq<char>, v: Option<u32>)
    requires
        no_newline(plain),
        no_newline(dotted),
    ensures
        no_newline(with_immediate(plain, dotted, v)),
{
    if let Some(x) = v {
        lemma_decimal_one_line(x as nat);
        lemma_no_newline_add(dotted, decimal(x as nat));
    }
}

proof fn lemma_plain_text_one_line(i: Inst)
    requires
        one_line_names(i),
    ensures
        no_newline(plain_text(i)),
{
    reveal_strlit("# ");
    reveal_strlit("drop");
    reveal_strlit("push.");
    reveal_strlit("assert");
    reveal_strlit("dup");
    reveal_strlit("dup.");
    reveal_strlit("swap");
    reveal_strlit("movup.");
    reveal_strlit("add");
    reveal_strlit("and");
    reveal_strlit("or");
    reveal_strlit("not");
    reveal_strlit("u32checked_add");
    reveal_strlit("u32checked_sub");
    reveal_strlit("u32checked_mod");
    reveal_strlit("u32checked_div");
    reveal_strlit("u32checked_eq");
    reveal_strlit("u32checked_lte");
    reveal_strlit("u32checked_lt");
    reveal_strlit("u32checked_gte");
    reveal_strlit("u32checked_gt");
    reveal_strlit("u32checked_neq");
    reveal_strlit("u32checked_and");
    reveal_strlit("u32checked_or");
    reveal_strlit("u32checked_xor");
    reveal_strlit("u32wrapping_add");
    reveal_strlit("u32wrapping_sub");
    reveal_strlit("u32overflowing_mul");
    reveal_strlit("u32checked_mul");
    reveal_strlit("u32checked_not");
    reveal_strlit("assertz");
    reveal_strlit("movdn.");
    reveal_strlit("u32checked_shl");
    reveal_strlit("u32checked_shl.");
    reveal_strlit("u32checked_shr");
    reveal_strlit("u32checked_shr.");
    reveal_strlit("exec.");
    reveal_strlit("mem_store");
    reveal_strlit("mem_store.");
    reveal_strlit("mem_load");
    reveal_strlit("mem_load.");
    reveal_strlit("adv_push.");
    match i {
        Inst::Comment(t) => lemma_no_newline_add("# "@, t),
        Inst::Push(v) => {
            lemma_decimal_one_line(v as nat);
            lemma_no_newline_add("push."@, decimal(v as nat));
        },
        Inst::Dup(v) => lemma_with_immediate_one_line("dup"@, "dup."@, v),
        Inst::MovUp(v) => {
            lemma_decimal_one_line(v as nat);
            lemma_no_newline_add("movup."@, decimal(v as nat));
        },
        Inst::MovDown(v) => {
            lemma_decimal_one_line(v as nat);
            lemma_no_newline_add("movdn."@, decimal(v as nat));
        },
        Inst::U32CheckedSHL(v) => lemma_with_immediate_one_line(
            "u32checked_shl"@,
            "u32checked_shl."@,
            v,
        ),
        Inst::U32CheckedSHR(v) => lemma_with_immediate_one_line(
            "u32checked_shr"@,
            "u32checked_shr."@,
            v,
        ),
        Inst::Exec(t) => lemma_no_newline_add("exec."@, t),
        Inst::MemStore(v) => lemma_with_immediate_one_line("mem_store"@, "mem_store."@, v),
        Inst::MemLoad(v) => lemma_with_immediate_one_line("mem_load"@, "mem_load."@, v),
        Inst::AdvPush(v) => {
            lemma_decimal_one_line(v as nat);
            lemma_no_newline_add("adv_push."@, decimal(v as nat));
        },
        _ => {},
    }
}

/// A piece of text made of an indentation and one line: deepening it moves
/// the two spaces that start the next line to its end.
proof fn lemma_deepen_ends_line_piece(b: Seq<char>, line: Seq<char>, sp: Seq<char>, b1: Seq<char>)
    requires
        no_newline(b),
        line.len() > 0,
        line.last() == '\n',
        no_newline(line.drop_last()),
        sp == "  "@,
        sp + b == b1,
    ensures
        sp + deepen(b + line) == b1 + line + sp,
{
    reveal_strlit("  ");
    lemma_deepen_plain(b);
    lemma_deepen_plain(line.drop_last());
    assert(line =~= line.drop_last() + seq!['\n']);
    lemma_deepen_add(line.drop_last(), seq!['\n']);
    reveal_with_fuel(deepen, 2);
    assert(seq!['\n'].drop_last() =~= Seq::<char>::empty());
    assert(deepen(seq!['\n']) =~= seq!['\n', ' ', ' ']);
    lemma_deepen_add(b, line);
    assert(sp + deepen(b + line) =~= b1 + line + sp);
}

/// Encoding an instruction one level deeper gives its text at the
/// shallower level with two more spaces at the start of every line.
pub proof fn lemma_encoded_deeper(i: Inst, depth: nat)
    requires
        is_concrete(i),
        one_line_names(i),
    ensures
        encoded(i, depth + 1) == "  "@ + deepen(encoded(i, depth)),
    decreases i, 2int,
{
    let sp = "  "@;
    lemma_indent_shape(depth);
    lemma_deepen_plain(indent(depth));
    match i {
        Inst::While { .. } => lemma_while_deeper(i, depth),
        Inst::Repeat { .. } => lemma_repeat_deeper(i, depth),
        Inst::If { .. } => lemma_if_deeper(i, depth),
        _ => {
            lemma_plain_text_one_line(i);
            lemma_deepen_add(indent(depth), plain_text(i));
            lemma_deepen_plain(plain_text(i));
            assert(encoded(i, depth + 1) =~= sp + deepen(encoded(i, depth)));
        },
    }
}

/// `x` deepened and led by two spaces is `x1` with the two spaces moved to
/// its end: `x` ends a line, and the next line gets the spaces.
pub open spec fn carries(x: Seq<char>, x1: Seq<char>) -> bool {
    "  "@ + deepen(x) == x1 + "  "@
}

proof fn lemma_carries_add(x: Seq<char>, y: Seq<char>, x1: Seq<char>, y1: Seq<char>)
    requires
        carries(x, x1),
        carries(y, y1),
    ensures
        carries(x + y, x1 + y1),
{
    let sp = "  "@;
    lemma_deepen_add(x, y);
    assert(sp + deepen(x + y) =~= (sp + deepen(x)) + deepen(y));
    assert((x1 + sp) + deepen(y) =~= x1 + (sp + deepen(y)));
    assert(x1 + (y1 + sp) =~= x1 + y1 + sp);
}

proof fn lemma_carries_last(x: Seq<char>, y: Seq<char>, x1: Seq<char>, y1: Seq<char>)
    requires
        carries(x, x1),
        "  "@ + deepen(y) == y1,
    ensures
        "  "@ + deepen(x + y) == x1 + y1,
{
    let sp = "  "@;
    lemma_deepen_add(x, y);
    assert(sp + deepen(x + y) =~= (sp + deepen(x)) + deepen(y));
    assert((x1 + sp) + deepen(y) =~= x1 + (sp + deepen(y)));
}

/// The last line of a block: its indentation and `end`.
proof fn lemma_end_deeper(depth: nat)
    ensures
        "  "@ + deepen(indent(depth) + "end"@) == indent(depth + 1) + "end"@,
{
    reveal_strlit("end");
    lemma_indent_shape(depth);
    lemma_deepen_plain(indent(depth));
    lemma_deepen_plain("end"@);
    lemma_deepen_add(indent(depth), "end"@);
    assert("  "@ + (indent(depth) + "end"@) =~= ("  "@ + indent(depth)) + "end"@);
}

/// A line of a block: its indentation and `text`, which ends in the newline.
proof fn lemma_line_deeper(depth: nat, text: Seq<char>)
    requires
        text.len() > 0,
        text.last() == '\n',
        no_newline(text.drop_last()),
    ensures
        carries(indent(depth) + text, indent(depth + 1) + text),
{
    lemma_indent_shape(depth);
    lemma_deepen_ends_line_piece(indent(depth), text, "  "@, indent(depth + 1));
}

#[verifier::spinoff_prover]
proof fn lemma_while_deeper(i: Inst, depth: nat)
    requires
        i is While,
        is_concrete(i),
        one_line_names(i),
    ensures
        encoded(i, depth + 1) == "  "@ + deepen(encoded(i, depth)),
    decreases i, 1int,
{
    reveal_strlit("while.true");
    reveal_strlit("\n");
    reveal_strlit("while.true\n");
    let condition = i->While_condition;
    let body = i->While_body;
    let head = "while.true"@ + "\n"@;
    assert(head =~= "while.true\n"@);
    assert(head.drop_last() =~= "while.true"@);
    let a = lines(condition, depth);
    let h = indent(depth) + head;
    let d = lines(body, depth + 1);
    let e = lines(condition, depth + 1);
    let f = indent(depth) + "end"@;
    let a1 = lines(condition, depth + 1);
    let h1 = indent(depth + 1) + head;
    let d1 = lines(body, depth + 2);
    let e1 = lines(condition, depth + 2);
    let f1 = indent(depth + 1) + "end"@;
    lemma_lines_deeper(condition, depth);
    lemma_lines_deeper(body, depth + 1);
    lemma_lines_deeper(condition, depth + 1);
    lemma_line_deeper(depth, head);
    lemma_end_deeper(depth);
    lemma_carries_add(a, h, a1, h1);
    lemma_carries_add(a + h, d, a1 + h1, d1);
    lemma_carries_add(a + h + d, e, a1 + h1 + d1, e1);
    lemma_carries_last(a + h + d + e, f, a1 + h1 + d1 + e1, f1);
    assert(encoded(i, depth) =~= a + h + d + e + f);
    assert(encoded(i, depth + 1) =~= a1 + h1 + d1 + e1 + f1);
}

#[verifier::spinoff_prover]
proof fn lemma_repeat_deeper(i: Inst, depth: nat)
    requires
        i is Repeat,
        is_concrete(i),
        one_line_names(i),
    ensures
        encoded(i, depth + 1) == "  "@ + deepen(encoded(i, depth)),
    decreases i, 1int,
{
    reveal_strlit("repeat.");
    reveal_strlit("\n");
    let count = i->Repeat_count;
    let body = i->Repeat_body;
    let head = repeat_head(count);
    lemma_decimal_one_line(count as nat);
    lemma_no_newline_add("repeat."@, decimal(count as nat));
    assert(head.drop_last() =~= "repeat."@ + decimal(count as nat));
    let h = indent(depth) + head;
    let d = lines(body, depth + 1);
    let f = indent(depth) + "end"@;
    let h1 = indent(depth + 1) + head;
    let d1 = lines(body, depth + 2);
    let f1 = indent(depth + 1) + "end"@;
    lemma_lines_deeper(body, depth + 1);
    lemma_line_deeper(depth, head);
    lemma_end_deeper(depth);
    lemma_carries_add(h, d, h1, d1);
    lemma_carries_last(h + d, f, h1 + d1, f1);
    assert(encoded(i, depth) =~= h + d + f);
    assert(encoded(i, depth + 1) =~= h1 + d1 + f1);
}

/// The padding that an empty `then` branch gets.
pub open spec fn padding(then: Seq<Inst>, depth: nat) -> Seq<char> {
    if then.len() == 0 {
        indent(depth) + "  push.0\n"@ + indent(depth) + "  drop\n"@
    } else {
        Seq::empty()
    }
}

/// The `else` branch of a conditional, when it has one.
pub open spec fn else_part(else_: Seq<Inst>, depth: nat) -> Seq<char>
    decreases else_, 2int,
{
    if else_.len() > 0 {
        indent(depth) + "else\n"@ + lines(else_, depth + 1)
    } else {
        Seq::empty()
    }
}

proof fn lemma_padding_deeper(then: Seq<Inst>, depth: nat)
    ensures
        carries(padding(then, depth), padding(then, depth + 1)),
{
    reveal_strlit("  ");
    reveal_strlit("  push.0\n");
    reveal_strlit("  drop\n");
    let b = indent(depth);
    let b1 = indent(depth + 1);
    if then.len() == 0 {
        assert(no_newline("  push.0\n"@.drop_last()));
        assert(no_newline("  drop\n"@.drop_last()));
        lemma_line_deeper(depth, "  push.0\n"@);
        lemma_line_deeper(depth, "  drop\n"@);
        lemma_carries_add(b + "  push.0\n"@, b + "  drop\n"@, b1 + "  push.0\n"@, b1
            + "  drop\n"@);
        assert(padding(then, depth) =~= (b + "  push.0\n"@) + (b + "  drop\n"@));
        assert(padding(then, depth + 1) =~= (b1 + "  push.0\n"@) + (b1 + "  drop\n"@));
    } else {
        assert("  "@ + deepen(padding(then, depth)) =~= padding(then, depth + 1) + "  "@);
    }
}

proof fn lemma_else_deeper(i: Inst, depth: nat)
    requires
        i is If,
        is_concrete(i),
        one_line_names(i),
    ensures
        carries(else_part(i->If_else_, depth), else_part(i->If_else_, depth + 1)),
    decreases i, 0int,
{
    reveal_strlit("  ");
    reveal_strlit("else\n");
    let else_ = i->If_else_;
    let b = indent(depth);
    let b1 = indent(depth + 1);
    if else_.len() > 0 {
        assert(no_newline("else\n"@.drop_last()));
        lemma_line_deeper(depth, "else\n"@);
        lemma_lines_deeper(else_, depth + 1);
        lemma_carries_add(b + "else\n"@, lines(else_, depth + 1), b1 + "else\n"@, lines(
            else_,
            depth + 2,
        ));
    } else {
        assert("  "@ + deepen(else_part(else_, depth)) =~= else_part(else_, depth + 1) + "  "@);
    }
}

/// The lines of a conditional up to its `else` part.
pub open spec fn if_head(i: Inst, depth: nat) -> Seq<char> {
    lines(i->If_condition, depth) + (indent(depth) + "if.true\n"@) + lines(i->If_then, depth + 1)
        + padding(i->If_then, depth)
}

#[verifier::spinoff_prover]
#[verifier::rlimit(60)]
proof fn lemma_if_head_deeper(i: Inst, depth: nat)
    requires
        i is If,
        is_concrete(i),
        one_line_names(i),
    ensures
        carries(if_head(i, depth), if_head(i, depth + 1)),
    decreases i, 0int,
{
    reveal_strlit("if.true\n");
    let condition = i->If_condition;
    let then = i->If_then;
    let b = indent(depth);
    let b1 = indent(depth + 1);
    assert("if.true\n"@.drop_last() =~= "if.true"@) by {
        reveal_strlit("if.true");
    }
    assert(no_newline("if.true\n"@.drop_last()));
    let a = lines(condition, depth);
    let h = b + "if.true\n"@;
    let t = lines(then, depth + 1);
    let p = padding(then, depth);
    let a1 = lines(condition, depth + 1);
    let h1 = b1 + "if.true\n"@;
    let t1 = lines(then, depth + 2);
    let p1 = padding(then, depth + 1);
    lemma_lines_deeper(condition, depth);
    lemma_lines_deeper(then, depth + 1);
    lemma_line_deeper(depth, "if.true\n"@);
    lemma_padding_deeper(then, depth);
    lemma_carries_add(a, h, a1, h1);
    lemma_carries_add(a + h, t, a1 + h1, t1);
    lemma_carries_add(a + h + t, p, a1 + h1 + t1, p1);
}

#[verifier::spinoff_prover]
#[verifier::rlimit(60)]
proof fn lemma_if_deeper(i: Inst, depth: nat)
    requires
        i is If,
        is_concrete(i),
        one_line_names(i),
    ensures
        encoded(i, depth + 1) == "  "@ + deepen(encoded(i, depth)),
    decreases i, 1int,
{
    let else_ = i->If_else_;
    let hd = if_head(i, depth);
    let hd1 = if_head(i, depth + 1);
    let el = else_part(else_, depth);
    let el1 = else_part(else_, depth + 1);
    let f = indent(depth) + "end"@;
    let f1 = indent(depth + 1) + "end"@;
    lemma_if_head_deeper(i, depth);
    lemma_else_deeper(i, depth);
    lemma_end_deeper(depth);
    lemma_carries_add(hd, el, hd1, el1);
    lemma_carries_last(hd + el, f, hd1 + el1, f1);
    assert(encoded(i, depth) =~= hd + el + f);
    assert(encoded(i, depth + 1) =~= hd1 + el1 + f1);
}

/// Encoding a sequence one level deeper gives its text at the shallower
/// level with two more spaces at the start of every line, the empty line
/// after its last newline included.
pub proof fn lemma_lines_deeper(s: Seq<Inst>, depth: nat)
    requires
        all_concrete(s),
        all_one_line_names(s),
    ensures
        lines(s, depth + 1) + "  "@ == "  "@ + deepen(lines(s, depth)),
    decreases s, 0int,
{
    let sp = "  "@;
    if s.len() == 0 {
        assert(lines(s, depth + 1) + sp =~= sp + deepen(lines(s, depth)));
    } else {
        let rest = s.drop_last();
        lemma_lines_deeper(rest, depth);
        lemma_encoded_deeper(s.last(), depth);
        let a = lines(rest, depth);
        let e = encoded(s.last(), depth);
        lemma_deepen_add(a + e, "\n"@);
        lemma_deepen_add(a, e);
        lemma_deepen_newline();
        let a1 = lines(rest, depth + 1);
        let e1 = encoded(s.last(), depth + 1);
        let n = "\n"@;
        assert(lines(s, depth) == a + e + n);
        assert(lines(s, depth + 1) == a1 + e1 + n);
        assert(deepen(lines(s, depth)) == deepen(a) + deepen(e) + (n + sp));
        assert(sp + deepen(a) == a1 + sp);
        assert(sp + deepen(e) == e1);
        assert(sp + (deepen(a) + deepen(e) + (n + sp)) =~= (sp + deepen(a)) + deepen(e) + n + sp);
        assert((a1 + sp) + deepen(e) + n + sp =~= a1 + (sp + deepen(e)) + n + sp);
        assert(lines(s, depth + 1) + sp =~= sp + deepen(lines(s, depth)));
    }
}

/// The state threaded through the lowering of abstract instructions: the
/// instructions produced so far, whether the current flag may have been set
/// since the last guard was opened, the next free memory cell, and the cells
/// that hold the `break` and `return` flags, once allocated.
pub struct Lowering {
    pub out: Seq<Inst>,
    pub flipped: bool,
    pub next: int,
    pub brk: Option<u32>,
    pub ret: Option<u32>,
}

/// Setting a flag cell: push 1, store it at `p`, drop it.
pub open spec fn flag_store(p: u32) -> Seq<Inst> {
    seq![Inst::Push(1), Inst::MemStore(Some(p)), Inst::Drop]
}

/// The guard that tests a flag cell.
pub open spec fn flag_guard(p: u32) -> Seq<Inst> {
    seq![Inst::MemLoad(Some(p))]
}

/// Lowers one instruction, appending the result to `out`.
pub open spec fn lower_inst(
    out: Seq<Inst>,
    inst: Inst,
    next: int,
    brk: Option<u32>,
    ret: Option<u32>,
    flipped: bool,
) -> Lowering
    decreases inst, 0int,
{
    match inst {
        Inst::Break => match brk {
            Some(b) => Lowering { out: out + flag_store(b), flipped: true, next, brk, ret },
            None => Lowering {
                out: out + flag_store(next as u32),
                flipped,
                next: next + 1,
                brk: Some(next as u32),
                ret,
            },
        },
        Inst::Return => match ret {
            Some(r) => Lowering { out: out + flag_store(r), flipped: true, next, brk, ret },
            None => Lowering {
                out: out + flag_store(next as u32),
                flipped,
                next: next + 1,
                brk,
                ret: Some(next as u32),
            },
        },
        Inst::Inlined(f) => {
            let w = lower_prefix(f, f.len() as int, next, None, None, false);
            Lowering { out: out + w.out, flipped, next: w.next, brk, ret }
        },
        Inst::While { condition, body } => {
            let wb = lower_prefix(body, body.len() as int, next, None, ret, false);
            let wc = lower_prefix(condition, condition.len() as int, wb.next, wb.brk, wb.ret, true);
            Lowering {
                out: out.push(Inst::While { condition: wc.out, body: wb.out }),
                flipped,
                next: wc.next,
                brk,
                ret: wc.ret,
            }
        },
        Inst::Repeat { count, body } => {
            let wb = lower_prefix(body, body.len() as int, next, None, ret, false);
            Lowering {
                out: out.push(Inst::Repeat { count, body: wb.out }),
                flipped,
                next: wb.next,
                brk,
                ret: wb.ret,
            }
        },
        Inst::If { condition, then, else_ } => {
            let wc = lower_prefix(condition, condition.len() as int, next, None, None, true);
            let wt = lower_prefix(then, then.len() as int, wc.next, brk, ret, false);
            let we = lower_prefix(else_, else_.len() as int, wt.next, wt.brk, wt.ret, false);
            Lowering {
                out: out.push(Inst::If { condition: wc.out, then: wt.out, else_: we.out }),
                flipped,
                next: we.next,
                brk: we.brk,
                ret: we.ret,
            }
        },
        _ => Lowering { out: out.push(inst), flipped, next, brk, ret },
    }
}

/// The last instruction of `out` is a conditional guarded by `guard`, and
/// the flag has not been set since.
pub open spec fn can_extend_guard(out: Seq<Inst>, guard: Seq<Inst>, flipped: bool) -> bool {
    &&& !flipped
    &&& out.len() > 0
    &&& out.last() matches Inst::If { condition, .. }
    &&& condition == guard
}

/// Lowers the first `n` instructions of `s`. Once a flag cell is known, each
/// further instruction runs only while that flag is unset: it goes into the
/// `else` branch of a conditional on the flag, extending the previous such
/// conditional where the flag cannot have been set in between.
pub open spec fn lower_prefix(
    s: Seq<Inst>,
    n: int,
    next: int,
    brk: Option<u32>,
    ret: Option<u32>,
    is_condition: bool,
) -> Lowering
    decreases s, n,
{
    if n <= 0 || n > s.len() {
        Lowering { out: Seq::empty(), flipped: false, next, brk, ret }
    } else {
        let w = lower_prefix(s, n - 1, next, brk, ret, is_condition);
        let inst = s[n - 1];
        let flag = if w.brk is Some {
            w.brk
        } else {
            w.ret
        };
        match flag {
            Some(p) => {
                if can_extend_guard(w.out, flag_guard(p), w.flipped) {
                    let last = w.out.last();
                    let wi = lower_inst(last->If_else_, inst, w.next, None, w.ret, w.flipped);
                    Lowering {
                        out: w.out.drop_last().push(
                            Inst::If {
                                condition: last->If_condition,
                                then: last->If_then,
                                else_: wi.out,
                            },
                        ),
                        flipped: wi.flipped,
                        next: wi.next,
                        brk: w.brk,
                        ret: wi.ret,
                    }
                } else {
                    let wi = lower_inst(Seq::empty(), inst, w.next, None, w.ret, false);
                    Lowering {
                        out: w.out.push(
                            Inst::If {
                                condition: flag_guard(p),
                                then: if is_condition {
                                    seq![Inst::Push(0)]
                                } else {
                                    Seq::empty()
                                },
                                else_: wi.out,
                            },
                        ),
                        flipped: wi.flipped,
                        next: wi.next,
                        brk: w.brk,
                        ret: wi.ret,
                    }
                }
            },
            None => lower_inst(w.out, inst, w.next, w.brk, w.ret, w.flipped),
        }
    }
}

/// Lowers a whole sequence of instructions.
pub open spec fn lower(
    s: Seq<Inst>,
    next: int,
    brk: Option<u32>,
    ret: Option<u32>,
    is_condition: bool,
) -> Lowering {
    lower_prefix(s, s.len() as int, next, brk, ret, is_condition)
}

/// How many `break` and `return` instructions occur in `i`, at any depth:
/// a bound on the cells that lowering allocates.
pub open spec fn abstract_count(i: Inst) -> nat
    decreases i,
{
    match i {
        Inst::Break | Inst::Return => 1,
        Inst::Inlined(f) => abstract_count_seq(f),
        Inst::While { condition, body } => abstract_count_seq(condition) + abstract_count_seq(body),
        Inst::Repeat { body, .. } => abstract_count_seq(body),
        Inst::If { condition, then, else_ } => abstract_count_seq(condition) + abstract_count_seq(
            then,
        ) + abstract_count_seq(else_),
        _ => 0,
    }
}

pub open spec fn abstract_count_seq(s: Seq<Inst>) -> nat
    decreases s,
{
    if s.len() == 0 {
        0
    } else {
        abstract_count_seq(s.drop_last()) + abstract_count(s.last())
    }
}

pub proof fn lemma_abstract_count_take(s: Seq<Inst>, k: int)
    requires
        0 <= k <= s.len(),
    ensures
        abstract_count_seq(s.take(k)) <= abstract_count_seq(s),
    decreases s.len() - k,
{
    if k < s.len() {
        lemma_abstract_count_take(s, k + 1);
        assert(s.take(k + 1).drop_last() =~= s.take(k));
    } else {
        assert(s.take(k) =~= s);
    }
}

/// The guard of `condition` is the flag test on `p`.
fn is_flag_guard(condition: &Vec<Instruction>, p: u32) -> (b: bool)
    ensures
        b == (view_seq(condition@) == flag_guard(p)),
{
    proof {
        lemma_view_seq_len(condition@);
    }
    if condition.len() != 1 {
        return false;
    }
    proof {
        lemma_view_seq_index(condition@, 0);
    }
    match &condition[0] {
        Instruction::MemLoad(Some(q)) => {
            if *q == p {
                assert(view_seq(condition@) =~= flag_guard(p));
                true
            } else {
                assert(view_seq(condition@)[0] != flag_guard(p)[0]);
                false
            }
        },
        _ => {
            assert(view_seq(condition@)[0] != flag_guard(p)[0]);
            false
        },
    }
}

/// Appends the instructions that set the flag cell `p`.
fn push_flag_store(result: &mut Vec<Instruction>, p: u32)
    ensures
        view_seq(final(result)@) == view_seq(old(result)@) + flag_store(p),
{
    proof {
        lemma_view_seq_push(result@, Instruction::Push(1));
    }
    result.push(Instruction::Push(1));
    proof {
        lemma_view_seq_push(result@, Instruction::MemStore(Some(p)));
    }
    result.push(Instruction::MemStore(Some(p)));
    proof {
        lemma_view_seq_push(result@, Instruction::Drop);
    }
    result.push(Instruction::Drop);
    proof {
        assert(view_seq(final(result)@) =~= view_seq(old(result)@) + flag_store(p));
    }
}

/// Lowers one instruction onto the end of `result`.
fn unabstract_inst<'a>(
    result: &mut Vec<Instruction<'a>>,
    instruction: Instruction<'a>,
    allocate: &mut Memory,
    break_ptr: &mut Option<u32>,
    return_ptr: &mut Option<u32>,
    ptr_value_might_have_been_flipped: &mut bool,
)
    requires
        old(allocate).next_addr() + abstract_count(instruction@) <= u32::MAX,
    ensures
        ({
            let w = lower_inst(
                view_seq(old(result)@),
                instruction@,
                old(allocate).next_addr() as int,
                *old(break_ptr),
                *old(return_ptr),
                *old(ptr_value_might_have_been_flipped),
            );
            &&& view_seq(final(result)@) == w.out
            &&& *final(ptr_value_might_have_been_flipped) == w.flipped
            &&& final(allocate).next_addr() == w.next
            &&& *final(break_ptr) == w.brk
            &&& *final(return_ptr) == w.ret
        }),
        final(allocate).next_addr() <= old(allocate).next_addr() + abstract_count(instruction@),
    decreases instruction,
{
    match instruction {
        Instruction::Abstract(AbstractInstruction::Break) => {
            match *break_ptr {
                Some(b) => {
                    *ptr_value_might_have_been_flipped = true;
                    push_flag_store(result, b);
                },
                None => {
                    let ptr = allocate.allocate(1);
                    push_flag_store(result, ptr);
                    *break_ptr = Some(ptr);
                },
            }
        },
        Instruction::Abstract(AbstractInstruction::Return) => {
            match *return_ptr {
                Some(r) => {
                    *ptr_value_might_have_been_flipped = true;
                    push_flag_store(result, r);
                },
                None => {
                    let ptr = allocate.allocate(1);
                    push_flag_store(result, ptr);
                    *return_ptr = Some(ptr);
                },
            }
        },
        Instruction::Abstract(AbstractInstruction::InlinedFunction(func)) => {
            let mut no_break = None;
            let mut no_return = None;
            let mut lowered = unabstract(func, allocate, &mut no_break, &mut no_return, false);
            proof {
                lemma_view_seq_add(result@, lowered@);
            }
            result.append(&mut lowered);
        },
        Instruction::While { condition, body } => {
            let mut loop_break_ptr = None;
            let body = unabstract(body, allocate, &mut loop_break_ptr, return_ptr, false);
            let condition = unabstract(condition, allocate, &mut loop_break_ptr, return_ptr, true);
            let lowered = Instruction::While { condition: condition, body: body };
            proof {
                lemma_view_seq_push(result@, lowered);
            }
            result.push(lowered);
        },
        Instruction::Repeat { count, body } => {
            let mut loop_break_ptr = None;
            let body = unabstract(body, allocate, &mut loop_break_ptr, return_ptr, false);
            let lowered = Instruction::Repeat { count: count, body: body };
            proof {
                lemma_view_seq_push(result@, lowered);
            }
            result.push(lowered);
        },
        Instruction::If { condition, then, else_ } => {
            let mut no_break = None;
            let mut no_return = None;
            let condition = unabstract(condition, allocate, &mut no_break, &mut no_return, true);
            let then = unabstract(then, allocate, break_ptr, return_ptr, false);
            let else_ = unabstract(else_, allocate, break_ptr, return_ptr, false);
            let lowered = Instruction::If { condition: condition, then: then, else_: else_ };
            proof {
                lemma_view_seq_push(result@, lowered);
            }
            result.push(lowered);
        },
        other => {
            proof {
                lemma_view_seq_push(result@, other);
            }
            result.push(other);
        },
    }
}

/// Replaces every abstract instruction by plain Miden instructions.
///
/// A `break` or `return` sets a flag cell, allocated from `allocate` the
/// first time it is needed, and every instruction after it is guarded by a
/// test of that flag. Loops get a `break` flag of their own; inlined
/// functions get fresh flags.
pub fn unabstract<'a>(
    instructions: Vec<Instruction<'a>>,
    allocate: &mut Memory,
    break_ptr: &mut Option<u32>,
    return_ptr: &mut Option<u32>,
    is_condition: bool,
) -> (result: Vec<Instruction<'a>>)
    requires
        old(allocate).next_addr() + abstract_count_seq(view_seq(instructions@)) <= u32::MAX,
    ensures
        ({
            let w = lower(
                view_seq(instructions@),
                old(allocate).next_addr() as int,
                *old(break_ptr),
                *old(return_ptr),
                is_condition,
            );
            &&& view_seq(result@) == w.out
            &&& final(allocate).next_addr() == w.next
            &&& *final(break_ptr) == w.brk
            &&& *final(return_ptr) == w.ret
        }),
        final(allocate).next_addr() <= old(allocate).next_addr() + abstract_count_seq(
            view_seq(instructions@),
        ),
    decreases instructions,
{
    let ghost s = view_seq(instructions@);
    let ghost start = allocate.next_addr() as int;
    let ghost brk0 = *break_ptr;
    let ghost ret0 = *return_ptr;
    proof {
        lemma_view_seq_len(instructions@);
    }
    let total = instructions.len();
    let mut rest = instructions;
    let mut result: Vec<Instruction<'a>> = Vec::new();
    let mut ptr_value_might_have_been_flipped = false;
    let mut i: usize = 0;
    while rest.len() > 0
        invariant
            s == view_seq(instructions@),
            s.len() == instructions@.len(),
            i <= instructions@.len(),
            rest@ == instructions@.skip(i as int),
            rest@.len() + i == instructions@.len(),
            total == instructions@.len(),
            start + abstract_count_seq(s) <= u32::MAX,
            allocate.next_addr() <= start + abstract_count_seq(s.take(i as int)),
            ({
                let w = lower_prefix(s, i as int, start, brk0, ret0, is_condition);
                &&& view_seq(result@) == w.out
                &&& ptr_value_might_have_been_flipped == w.flipped
                &&& allocate.next_addr() == w.next
                &&& *break_ptr == w.brk
                &&& *return_ptr == w.ret
            }),
        decreases rest.len(),
    {
        assert(i < instructions@.len());
        let instruction = rest.remove(0);
        let ghost idx = i as int;
        i = i + 1;
        proof {
            lemma_view_seq_index(instructions@, idx);
            assert(instruction == instructions@[idx]);
            assert(decreases_to!(instructions => instructions@[idx]));
            assert(s.take(idx + 1).drop_last() =~= s.take(idx));
            lemma_abstract_count_take(s, idx + 1);
        }
        let flag = match *break_ptr {
            Some(b) => Some(b),
            None => *return_ptr,
        };
        match flag {
            Some(p) => {
                let mergeable = !ptr_value_might_have_been_flipped && result.len() > 0 && match &result[result.len() - 1] {
                    Instruction::If { condition, .. } => is_flag_guard(condition, p),
                    _ => false,
                };
                proof {
                    lemma_view_seq_len(result@);
                    if result@.len() > 0 {
                        lemma_view_seq_index(result@, result@.len() - 1);
                    }
                }
                if mergeable {
                    let ghost before = result@;
                    let last = result.pop().unwrap();
                    proof {
                        assert(before.drop_last() =~= result@);
                    }
                    if let Instruction::If { condition, then, mut else_ } = last {
                        let mut no_break = None;
                        unabstract_inst(
                            &mut else_,
                            instruction,
                            allocate,
                            &mut no_break,
                            return_ptr,
                            &mut ptr_value_might_have_been_flipped,
                        );
                        let extended = Instruction::If { condition, then, else_ };
                        proof {
                            lemma_view_seq_push(result@, extended);
                        }
                        result.push(extended);
                    }
                } else {
                    ptr_value_might_have_been_flipped = false;
                    let mut no_break = None;
                    let mut else_ = Vec::new();
                    unabstract_inst(
                        &mut else_,
                        instruction,
                        allocate,
                        &mut no_break,
                        return_ptr,
                        &mut ptr_value_might_have_been_flipped,
                    );
                    let mut condition = Vec::new();
                    condition.push(Instruction::MemLoad(Some(p)));
                    let mut then = Vec::new();
                    if is_condition {
                        then.push(Instruction::Push(0));
                    }
                    proof {
                        assert(view_seq(condition@) =~= flag_guard(p)) by {
                            lemma_view_seq_push(Seq::empty(), Instruction::MemLoad(Some(p)));
                            assert(condition@ =~= Seq::<Instruction>::empty().push(
                                Instruction::MemLoad(Some(p)),
                            ));
                        }
                        if is_condition {
                            lemma_view_seq_push(Seq::empty(), Instruction::Push(0));
                            assert(then@ =~= Seq::<Instruction>::empty().push(Instruction::Push(0)));
                        } else {
                            assert(then@ =~= Seq::<Instruction>::empty());
                        }
                    }
                    let guarded = Instruction::If { condition, then, else_ };
                    proof {
                        lemma_view_seq_push(result@, guarded);
                    }
                    result.push(guarded);
                }
            },
            None => {
                unabstract_inst(
                    &mut result,
                    instruction,
                    allocate,
                    break_ptr,
                    return_ptr,
                    &mut ptr_value_might_have_been_flipped,
                );
            },
        }
        proof {
            assert(rest@ =~= instructions@.skip(i as int));
        }
    }
    proof {
        assert(s.take(i as int) =~= s);
    }
    result
}


pub proof fn lemma_all_concrete_push(s: Seq<Inst>, x: Inst)
    ensures
        all_concrete(s.push(x)) == (all_concrete(s) && is_concrete(x)),
{
    assert(s.push(x).drop_last() =~= s);
}

pub proof fn lemma_all_concrete_add(a: Seq<Inst>, b: Seq<Inst>)
    ensures
        all_concrete(a + b) == (all_concrete(a) && all_concrete(b)),
    decreases b.len(),
{
    if b.len() == 0 {
        assert(a + b =~= a);
    } else {
        lemma_all_concrete_add(a, b.drop_last());
        assert((a + b).drop_last() =~= a + b.drop_last());
    }
}

proof fn lemma_flag_store_concrete(p: u32)
    ensures
        all_concrete(flag_store(p)),
{
    let e = Seq::<Inst>::empty();
    lemma_all_concrete_push(e, Inst::Push(1));
    lemma_all_concrete_push(e.push(Inst::Push(1)), Inst::MemStore(Some(p)));
    lemma_all_concrete_push(
        e.push(Inst::Push(1)).push(Inst::MemStore(Some(p))),
        Inst::Drop,
    );
    assert(flag_store(p) =~= e.push(Inst::Push(1)).push(Inst::MemStore(Some(p))).push(Inst::Drop));
}

proof fn lemma_singleton_concrete(x: Inst)
    requires
        is_concrete(x),
    ensures
        all_concrete(seq![x]),
{
    lemma_all_concrete_push(Seq::empty(), x);
    assert(seq![x] =~= Seq::<Inst>::empty().push(x));
}

/// Lowering one instruction onto concrete output leaves it concrete.
pub proof fn lemma_lower_inst_concrete(
    out: Seq<Inst>,
    inst: Inst,
    next: int,
    brk: Option<u32>,
    ret: Option<u32>,
    flipped: bool,
)
    requires
        all_concrete(out),
    ensures
        all_concrete(lower_inst(out, inst, next, brk, ret, flipped).out),
    decreases inst, 0int,
{
    match inst {
        Inst::Break | Inst::Return => {
            let p = if inst is Break {
                if brk is Some { brk->0 } else { next as u32 }
            } else {
                if ret is Some { ret->0 } else { next as u32 }
            };
            lemma_flag_store_concrete(p);
            lemma_all_concrete_add(out, flag_store(p));
        },
        Inst::Inlined(f) => {
            lemma_lower_prefix_concrete(f, f.len() as int, next, None, None, false);
            lemma_all_concrete_add(out, lower_prefix(f, f.len() as int, next, None, None, false).out);
        },
        Inst::While { condition, body } => {
            let wb = lower_prefix(body, body.len() as int, next, None, ret, false);
            lemma_lower_prefix_concrete(body, body.len() as int, next, None, ret, false);
            lemma_lower_prefix_concrete(condition, condition.len() as int, wb.next, wb.brk, wb.ret, true);
            let wc = lower_prefix(condition, condition.len() as int, wb.next, wb.brk, wb.ret, true);
            lemma_all_concrete_push(out, Inst::While { condition: wc.out, body: wb.out });
        },
        Inst::Repeat { count, body } => {
            let wb = lower_prefix(body, body.len() as int, next, None, ret, false);
            lemma_lower_prefix_concrete(body, body.len() as int, next, None, ret, false);
            lemma_all_concrete_push(out, Inst::Repeat { count, body: wb.out });
        },
        Inst::If { condition, then, else_ } => {
            let wc = lower_prefix(condition, condition.len() as int, next, None, None, true);
            let wt = lower_prefix(then, then.len() as int, wc.next, brk, ret, false);
            lemma_lower_prefix_concrete(condition, condition.len() as int, next, None, None, true);
            lemma_lower_prefix_concrete(then, then.len() as int, wc.next, brk, ret, false);
            lemma_lower_prefix_concrete(else_, else_.len() as int, wt.next, wt.brk, wt.ret, false);
            let we = lower_prefix(else_, else_.len() as int, wt.next, wt.brk, wt.ret, false);
            lemma_all_concrete_push(out, Inst::If { condition: wc.out, then: wt.out, else_: we.out });
        },
        _ => {
            lemma_all_concrete_push(out, inst);
        },
    }
}

/// Lowering a prefix of a sequence yields concrete instructions.
pub proof fn lemma_lower_prefix_concrete(
    s: Seq<Inst>,
    n: int,
    next: int,
    brk: Option<u32>,
    ret: Option<u32>,
    is_condition: bool,
)
    ensures
        all_concrete(lower_prefix(s, n, next, brk, ret, is_condition).out),
    decreases s, n,
{
    if n <= 0 || n > s.len() {
    } else {
        lemma_lower_prefix_concrete(s, n - 1, next, brk, ret, is_condition);
        let w = lower_prefix(s, n - 1, next, brk, ret, is_condition);
        let inst = s[n - 1];
        let flag = if w.brk is Some {
            w.brk
        } else {
            w.ret
        };
        match flag {
            Some(p) => {
                if can_extend_guard(w.out, flag_guard(p), w.flipped) {
                    let last = w.out.last();
                    assert(all_concrete(w.out.drop_last()) && is_concrete(last));
                    lemma_lower_inst_concrete(last->If_else_, inst, w.next, None, w.ret, w.flipped);
                    let wi = lower_inst(last->If_else_, inst, w.next, None, w.ret, w.flipped);
                    lemma_all_concrete_push(
                        w.out.drop_last(),
                        Inst::If { condition: last->If_condition, then: last->If_then, else_: wi.out },
                    );
                } else {
                    lemma_lower_inst_concrete(Seq::empty(), inst, w.next, None, w.ret, false);
                    let wi = lower_inst(Seq::empty(), inst, w.next, None, w.ret, false);
                    lemma_singleton_concrete(Inst::MemLoad(Some(p)));
                    lemma_singleton_concrete(Inst::Push(0));
                    lemma_all_concrete_push(Seq::empty(), Inst::Push(0));
                    let guarded = Inst::If {
                        condition: flag_guard(p),
                        then: if is_condition {
                            seq![Inst::Push(0)]
                        } else {
                            Seq::empty()
                        },
                        else_: wi.out,
                    };
                    lemma_all_concrete_push(w.out, guarded);
                }
            },
            None => {
                lemma_lower_inst_concrete(w.out, inst, w.next, w.brk, w.ret, w.flipped);
            },
        }
    }
}

/// Lowering removes every abstract instruction: what [`unabstract`]
/// returns can always be encoded.
pub proof fn lemma_lower_is_concrete(
    s: Seq<Inst>,
    next: int,
    brk: Option<u32>,
    ret: Option<u32>,
    is_condition: bool,
)
    ensures
        all_concrete(lower(s, next, brk, ret, is_condition).out),
{
    lemma_lower_prefix_concrete(s, s.len() as int, next, brk, ret, is_condition);
}

/// On concrete instructions with no flag yet, lowering changes nothing.
pub proof fn lemma_lower_inst_identity(out: Seq<Inst>, inst: Inst, next: int, flipped: bool)
    requires
        is_concrete(inst),
    ensures
        lower_inst(out, inst, next, None, None, flipped) == (Lowering {
            out: out.push(inst),
            flipped,
            next,
            brk: None,
            ret: None,
        }),
    decreases inst, 0int,
{
    match inst {
        Inst::While { condition, body } => {
            lemma_lower_prefix_identity(body, body.len() as int, next, false);
            lemma_lower_prefix_identity(condition, condition.len() as int, next, true);
            assert(body.take(body.len() as int) =~= body);
            assert(condition.take(condition.len() as int) =~= condition);
        },
        Inst::Repeat { body, .. } => {
            lemma_lower_prefix_identity(body, body.len() as int, next, false);
            assert(body.take(body.len() as int) =~= body);
        },
        Inst::If { condition, then, else_ } => {
            lemma_lower_prefix_identity(condition, condition.len() as int, next, true);
            lemma_lower_prefix_identity(then, then.len() as int, next, false);
            lemma_lower_prefix_identity(else_, else_.len() as int, next, false);
            assert(condition.take(condition.len() as int) =~= condition);
            assert(then.take(then.len() as int) =~= then);
            assert(else_.take(else_.len() as int) =~= else_);
        },
        _ => {},
    }
}

pub proof fn lemma_lower_prefix_identity(s: Seq<Inst>, n: int, next: int, is_condition: bool)
    requires
        all_concrete(s),
        0 <= n <= s.len(),
    ensures
        lower_prefix(s, n, next, None, None, is_condition) == (Lowering {
            out: s.take(n),
            flipped: false,
            next,
            brk: None,
            ret: None,
        }),
    decreases s, n,
{
    if n > 0 {
        lemma_lower_prefix_identity(s, n - 1, next, is_condition);
        lemma_all_concrete_index(s, n - 1);
        lemma_lower_inst_identity(s.take(n - 1), s[n - 1], next, false);
        assert(s.take(n - 1).push(s[n - 1]) =~= s.take(n));
    } else {
        assert(s.take(n) =~= Seq::<Inst>::empty());
    }
}

/// Lowering instructions that hold no abstract instruction, with no flag
/// cell yet, returns them unchanged and allocates nothing.
pub proof fn lemma_lower_identity(s: Seq<Inst>, next: int, is_condition: bool)
    requires
        all_concrete(s),
    ensures
        lower(s, next, None, None, is_condition).out == s,
        lower(s, next, None, None, is_condition).next == next,
        lower(s, next, None, None, is_condition).brk is None,
        lower(s, next, None, None, is_condition).ret is None,
{
    lemma_lower_prefix_identity(s, s.len() as int, next, is_condition);
    assert(s.take(s.len() as int) =~= s);
}

/// Once the return flag is known, lowering keeps it.
proof fn lemma_lower_inst_keeps_ret(
    out: Seq<Inst>,
    inst: Inst,
    next: int,
    brk: Option<u32>,
    r: u32,
    flipped: bool,
)
    ensures
        lower_inst(out, inst, next, brk, Some(r), flipped).ret == Some(r),
    decreases inst, 0int,
{
    match inst {
        Inst::Inlined(f) => {},
        Inst::While { condition, body } => {
            lemma_lower_prefix_keeps_ret(body, body.len() as int, next, None, r, false);
            let wb = lower_prefix(body, body.len() as int, next, None, Some(r), false);
            lemma_lower_prefix_keeps_ret(condition, condition.len() as int, wb.next, wb.brk, r, true);
        },
        Inst::Repeat { body, .. } => {
            lemma_lower_prefix_keeps_ret(body, body.len() as int, next, None, r, false);
        },
        Inst::If { condition, then, else_ } => {
            let wc = lower_prefix(condition, condition.len() as int, next, None, None, true);
            lemma_lower_prefix_keeps_ret(then, then.len() as int, wc.next, brk, r, false);
            let wt = lower_prefix(then, then.len() as int, wc.next, brk, Some(r), false);
            lemma_lower_prefix_keeps_ret(else_, else_.len() as int, wt.next, wt.brk, r, false);
        },
        _ => {},
    }
}

proof fn lemma_lower_prefix_keeps_ret(
    s: Seq<Inst>,
    n: int,
    next: int,
    brk: Option<u32>,
    r: u32,
    is_condition: bool,
)
    ensures
        lower_prefix(s, n, next, brk, Some(r), is_condition).ret == Some(r),
    decreases s, n,
{
    if 0 < n <= s.len() {
        lemma_lower_prefix_keeps_ret(s, n - 1, next, brk, r, is_condition);
        let w = lower_prefix(s, n - 1, next, brk, Some(r), is_condition);
        if w.brk is Some {
            let p = w.brk->0;
            if can_extend_guard(w.out, flag_guard(p), w.flipped) {
                lemma_lower_inst_keeps_ret(w.out.last()->If_else_, s[n - 1], w.next, None, r, w.flipped);
            } else {
                lemma_lower_inst_keeps_ret(Seq::empty(), s[n - 1], w.next, None, r, false);
            }
        } else {
            lemma_lower_inst_keeps_ret(Seq::empty(), s[n - 1], w.next, None, r, false);
            lemma_lower_inst_keeps_ret(w.out, s[n - 1], w.next, w.brk, r, w.flipped);
            if can_extend_guard(w.out, flag_guard(r), w.flipped) {
                lemma_lower_inst_keeps_ret(w.out.last()->If_else_, s[n - 1], w.next, None, r, w.flipped);
            }
        }
    }
}

/// The conditional that runs `body` only while the flag cell `p` is 0:
/// where a condition's code is lowered, the skipped branch leaves 0.
pub open spec fn guarded(p: u32, is_condition: bool, inst: Inst) -> bool {
    inst matches Inst::If { condition, then, .. } && condition == flag_guard(p) && then == (if is_condition {
        seq![Inst::Push(0)]
    } else {
        Seq::<Inst>::empty()
    })
}

proof fn lemma_lower_prefix_guards(
    s: Seq<Inst>,
    n: int,
    next: int,
    brk: Option<u32>,
    ret: Option<u32>,
    is_condition: bool,
    a: u32,
)
    requires
        brk == Some(a) || (brk is None && ret == Some(a)),
    ensures
        ({
            let w = lower_prefix(s, n, next, brk, ret, is_condition);
            &&& w.brk == brk
            &&& ret is Some ==> w.ret == ret
            &&& forall|k: int| 0 <= k < w.out.len() ==> guarded(a, is_condition, #[trigger] w.out[k])
        }),
    decreases n,
{
    if 0 < n <= s.len() {
        lemma_lower_prefix_guards(s, n - 1, next, brk, ret, is_condition, a);
        let w = lower_prefix(s, n - 1, next, brk, ret, is_condition);
        let inst = s[n - 1];
        if let Some(r) = ret {
            lemma_lower_prefix_keeps_ret(s, n - 1, next, brk, r, is_condition);
            lemma_lower_inst_keeps_ret(Seq::empty(), inst, w.next, None, r, false);
            if w.out.len() > 0 {
                lemma_lower_inst_keeps_ret(w.out.last()->If_else_, inst, w.next, None, r, w.flipped);
            }
        }
        let v = lower_prefix(s, n, next, brk, ret, is_condition);
        assert forall|k: int| 0 <= k < v.out.len() implies guarded(a, is_condition, #[trigger] v.out[k]) by {
            if k < v.out.len() - 1 {
                assert(guarded(a, is_condition, w.out[k]));
            }
        }
    }
}

/// Lowering code while a flag cell `a` is already known (the break flag, or
/// with no break flag the return flag) puts every instruction under a test
/// of that cell: each instruction of the result is a conditional whose
/// condition loads `a` and whose `then` branch is the skip (a 0 where a
/// condition's code is lowered), so the code runs only while no `break` or
/// `return` has set the flag. The break flag stays as it was, and a return
/// flag that was known stays too.
pub proof fn lemma_lower_keeps_guard(
    s: Seq<Inst>,
    next: int,
    brk: Option<u32>,
    ret: Option<u32>,
    is_condition: bool,
    a: u32,
)
    requires
        brk == Some(a) || (brk is None && ret == Some(a)),
    ensures
        ({
            let w = lower(s, next, brk, ret, is_condition);
            &&& w.brk == brk
            &&& ret is Some ==> w.ret == ret
            &&& forall|k: int| 0 <= k < w.out.len() ==> guarded(a, is_condition, #[trigger] w.out[k])
        }),
{
    lemma_lower_prefix_guards(s, s.len() as int, next, brk, ret, is_condition, a);
}

/// Lowering the first `n` instructions looks at those instructions only.
proof fn lemma_lower_prefix_agree(
    s: Seq<Inst>,
    t: Seq<Inst>,
    n: int,
    next: int,
    brk: Option<u32>,
    ret: Option<u32>,
    is_condition: bool,
)
    requires
        0 <= n <= s.len(),
        n <= t.len(),
        s.take(n) == t.take(n),
    ensures
        lower_prefix(s, n, next, brk, ret, is_condition) == lower_prefix(
            t,
            n,
            next,
            brk,
            ret,
            is_condition,
        ),
    decreases n,
{
    if n > 0 {
        assert(s.take(n - 1) =~= s.take(n).take(n - 1));
        assert(t.take(n - 1) =~= t.take(n).take(n - 1));
        assert(s[n - 1] == s.take(n)[n - 1]);
        assert(t[n - 1] == t.take(n)[n - 1]);
        lemma_lower_prefix_agree(s, t, n - 1, next, brk, ret, is_condition);
    }
}

/// After a `break` that follows plain code `pre`, the first `k` plain
/// instructions of `post` are gathered in the `else` branch of one test of
/// the fresh flag cell.
proof fn lemma_lower_after_break(
    pre: Seq<Inst>,
    post: Seq<Inst>,
    next: int,
    is_condition: bool,
    k: int,
)
    requires
        all_concrete(pre),
        all_concrete(post),
        0 <= k <= post.len(),
    ensures
        lower_prefix(
            pre + seq![Inst::Break] + post,
            pre.len() + 1 + k,
            next,
            None,
            None,
            is_condition,
        ) == (Lowering {
            out: if k == 0 {
                pre + flag_store(next as u32)
            } else {
                (pre + flag_store(next as u32)).push(
                    Inst::If {
                        condition: flag_guard(next as u32),
                        then: if is_condition {
                            seq![Inst::Push(0)]
                        } else {
                            Seq::empty()
                        },
                        else_: post.take(k),
                    },
                )
            },
            flipped: false,
            next: next + 1,
            brk: Some(next as u32),
            ret: None,
        }),
    decreases k,
{
    let s = pre + seq![Inst::Break] + post;
    let m = pre.len() as int;
    let head = pre + flag_store(next as u32);
    let then_c = if is_condition {
        seq![Inst::Push(0)]
    } else {
        Seq::<Inst>::empty()
    };
    if k == 0 {
        assert(s.take(m) =~= pre.take(m));
        lemma_lower_prefix_agree(s, pre, m, next, None, None, is_condition);
        lemma_lower_prefix_identity(pre, m, next, is_condition);
        assert(pre.take(m) =~= pre);
        assert(s[m] == Inst::Break);
        assert(lower_inst(pre, Inst::Break, next, None, None, false) == (Lowering {
            out: head,
            flipped: false,
            next: next + 1,
            brk: Some(next as u32),
            ret: None,
        }));
    } else {
        lemma_lower_after_break(pre, post, next, is_condition, k - 1);
        let w = lower_prefix(s, m + k, next, None, None, is_condition);
        assert(w.brk == Some(next as u32));
        assert(s[m + k] == post[k - 1]);
        lemma_all_concrete_index(post, k - 1);
        if k == 1 {
            lemma_lower_inst_identity(Seq::empty(), post[0], next + 1, false);
            assert(head.last() == Inst::Drop);
            assert(Seq::<Inst>::empty().push(post[0]) =~= post.take(1));
        } else {
            lemma_lower_inst_identity(post.take(k - 1), post[k - 1], next + 1, false);
            assert(post.take(k - 1).push(post[k - 1]) =~= post.take(k));
            let out = head.push(
                Inst::If {
                    condition: flag_guard(next as u32),
                    then: then_c,
                    else_: post.take(k - 1),
                },
            );
            assert(out.drop_last() =~= head);
        }
    }
}

/// What lowering leaves of a block in which a `break` follows plain code
/// `pre` and precedes plain code `post`: `pre` as it was, the store that sets
/// a fresh flag cell, and `post` moved into the `else` branch of a test of
/// that flag, so that it runs only while no `break` has happened.
pub proof fn lemma_lower_break_guards_rest(
    pre: Seq<Inst>,
    post: Seq<Inst>,
    next: int,
    is_condition: bool,
)
    requires
        all_concrete(pre),
        all_concrete(post),
        post.len() > 0,
    ensures
        lower(pre + seq![Inst::Break] + post, next, None, None, is_condition).out == pre + flag_store(
            next as u32,
        ) + seq![
            Inst::If {
                condition: flag_guard(next as u32),
                then: if is_condition {
                    seq![Inst::Push(0)]
                } else {
                    Seq::empty()
                },
                else_: post,
            },
        ],
        lower(pre + seq![Inst::Break] + post, next, None, None, is_condition).brk == Some(next as u32),
        lower(pre + seq![Inst::Break] + post, next, None, None, is_condition).next == next + 1,
{
    let s = pre + seq![Inst::Break] + post;
    lemma_lower_after_break(pre, post, next, is_condition, post.len() as int);
    assert(post.take(post.len() as int) =~= post);
    assert(s.len() == pre.len() + 1 + post.len());
}

/// Appends one instruction.
pub fn push_inst<'a>(v: &mut Vec<Instruction<'a>>, i: Instruction<'a>)
    ensures
        view_seq(final(v)@) == view_seq(old(v)@).push(i@),
{
    proof {
        lemma_view_seq_push(v@, i);
    }
    v.push(i);
}

} // verus!
