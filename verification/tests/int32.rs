use polylang::encoder::Instruction;
use polylang::int32::{
    abs_stack, add, decompose, div, gt, gte, lt, lte, modulo, mul, negate_stack, new,
    prepare_stack_for_arithmetic, shift_left, shift_right, sub,
};
use polylang::memory::Memory;
use std::collections::HashMap;

/// Runs instructions on a stack (top first) that starts with zeros, as the
/// machine's does, and a memory that starts zeroed; `Err` where the machine
/// faults.
fn execute(instructions: &[Instruction]) -> Result<Vec<u64>, String> {
    let mut stack = vec![0u64; 16];
    let mut memory: HashMap<u64, u64> = HashMap::new();
    run(instructions, &mut stack, &mut memory)?;
    Ok(stack)
}

fn run(
    instructions: &[Instruction],
    stack: &mut Vec<u64>,
    memory: &mut HashMap<u64, u64>,
) -> Result<(), String> {
    fn binary(stack: &mut Vec<u64>, f: impl Fn(u64, u64) -> u64) {
        let b = stack.remove(0);
        let a = stack.remove(0);
        stack.insert(0, f(a, b));
    }
    for instruction in instructions {
        match instruction {
            Instruction::Push(v) => stack.insert(0, *v as u64),
            Instruction::Drop => {
                stack.remove(0);
            }
            Instruction::Swap => stack.swap(0, 1),
            Instruction::Dup(None) => stack.insert(0, stack[0]),
            Instruction::Dup(Some(k)) => stack.insert(0, stack[*k as usize]),
            Instruction::MovUp(k) => {
                let v = stack.remove(*k as usize);
                stack.insert(0, v);
            }
            Instruction::MovDown(k) => {
                let v = stack.remove(0);
                stack.insert(*k as usize, v);
            }
            Instruction::MemLoad(Some(a)) => stack.insert(0, *memory.get(&(*a as u64)).unwrap_or(&0)),
            Instruction::MemStore(Some(a)) => {
                let v = stack.remove(0);
                memory.insert(*a as u64, v);
            }
            Instruction::U32CheckedSHR(Some(i)) => stack[0] >>= *i,
            Instruction::U32CheckedSHR(None) | Instruction::U32CheckedSHL(None) => {
                let b = stack.remove(0);
                let a = stack.remove(0);
                if b >= 32 {
                    return Err("shift out of range".to_string());
                }
                let v = if matches!(instruction, Instruction::U32CheckedSHR(None)) { a >> b } else { a << b };
                if v >= 1 << 32 {
                    return Err("u32 overflow".to_string());
                }
                stack.insert(0, v);
            }
            Instruction::U32CheckedEq => binary(stack, |a, b| (a == b) as u64),
            Instruction::U32CheckedGT => binary(stack, |a, b| (a > b) as u64),
            Instruction::And => binary(stack, |a, b| a & b),
            Instruction::U32CheckedAnd => binary(stack, |a, b| a & b),
            Instruction::Or => binary(stack, |a, b| a | b),
            Instruction::U32WrappingAdd => binary(stack, |a, b| (a + b) % (1 << 32)),
            Instruction::U32WrappingSub => binary(stack, |a, b| (a + (1 << 32) - b) % (1 << 32)),
            Instruction::Not => {
                assert!(stack[0] <= 1);
                stack[0] = 1 - stack[0];
            }
            Instruction::Assert => {
                if stack.remove(0) != 1 {
                    return Err("failed assertion".to_string());
                }
            }
            Instruction::AssertZero => {
                if stack.remove(0) != 0 {
                    return Err("failed assertion".to_string());
                }
            }
            Instruction::U32CheckedNot => stack[0] = (1 << 32) - 1 - stack[0],
            Instruction::U32CheckedMod => {
                let b = stack.remove(0);
                let a = stack.remove(0);
                if b == 0 {
                    return Err("division by zero".to_string());
                }
                stack.insert(0, a % b);
            }
            Instruction::U32CheckedDiv => {
                let b = stack.remove(0);
                let a = stack.remove(0);
                if b == 0 {
                    return Err("division by zero".to_string());
                }
                stack.insert(0, a / b);
            }
            Instruction::U32CheckedAdd | Instruction::U32CheckedMul => {
                let b = stack.remove(0);
                let a = stack.remove(0);
                let v = if matches!(instruction, Instruction::U32CheckedAdd) { a + b } else { a * b };
                if v >= 1 << 32 {
                    return Err("u32 overflow".to_string());
                }
                stack.insert(0, v);
            }
            Instruction::If { condition, then, else_ } => {
                run(condition, stack, memory)?;
                if stack.remove(0) == 1 {
                    run(then, stack, memory)?;
                } else {
                    run(else_, stack, memory)?;
                }
            }
            other => panic!("not modelled: {:?}", other),
        }
    }
    Ok(())
}

#[test]
fn test_prepare_stack_for_arithmetic() {
    let mut instructions = Vec::new();
    let mut memory = Memory::new();
    let a = new(&mut instructions, &mut memory, 2);
    let b = new(&mut instructions, &mut memory, -2);

    prepare_stack_for_arithmetic(&mut instructions, &memory, a, b);

    let stack = execute(&instructions).unwrap();
    assert_eq!(&stack[..5], &[4294967294, 2, 1, 0, 0]);
}

fn int32_add(a: i32, b: i32) -> Result<i32, String> {
    let mut instructions = Vec::new();
    let mut memory = Memory::new();
    let a = new(&mut instructions, &mut memory, a);
    let b = new(&mut instructions, &mut memory, b);
    let result = add(&mut instructions, &mut memory, a, b);
    memory.read(&mut instructions, result, 1);
    let stack = execute(&instructions)?;
    Ok(stack[0] as u32 as i32)
}

#[test]
fn int32_test_add() {
    assert_eq!(int32_add(0, 0), Ok(0));
    assert_eq!(int32_add(1, 0), Ok(1));
    assert_eq!(int32_add(0, 1), Ok(1));
    assert_eq!(int32_add(1, 1), Ok(2));
    assert_eq!(int32_add(1, -1), Ok(0));
    assert_eq!(int32_add(-1, 1), Ok(0));
    assert_eq!(int32_add(-1, -1), Ok(-2));

    assert!(int32_add(i32::MAX, 1).is_err());
    assert!(int32_add(i32::MIN, -1).is_err());
}

fn int32_gt(a: i32, b: i32) -> Result<bool, String> {
    let mut instructions = Vec::new();
    let mut memory = Memory::new();
    let a = new(&mut instructions, &mut memory, a);
    let b = new(&mut instructions, &mut memory, b);
    let result = gt(&mut instructions, &mut memory, a, b);
    memory.read(&mut instructions, result, 1);
    let stack = execute(&instructions)?;
    Ok(stack[0] == 1)
}

#[test]
fn test_gt() {
    assert_eq!(int32_gt(0, 0), Ok(false));
    assert_eq!(int32_gt(1, 0), Ok(true));
    assert_eq!(int32_gt(i32::MAX, 0), Ok(true));
    assert_eq!(int32_gt(-1, 0), Ok(false));
    assert_eq!(int32_gt(-2, 1), Ok(false));
    assert_eq!(int32_gt(-2, -1), Ok(false));
    assert_eq!(int32_gt(i32::MIN, 0), Ok(false));
}

#[test]
fn int32_gte_includes_equal_values() {
    for (a, b) in [(0, 0), (-3, -3), (5, -5), (-5, 5), (i32::MIN, i32::MAX), (i32::MAX, i32::MIN)] {
        let mut instructions = Vec::new();
        let mut memory = Memory::new();
        let x = new(&mut instructions, &mut memory, a);
        let y = new(&mut instructions, &mut memory, b);
        let result = gte(&mut instructions, &mut memory, x, y);
        memory.read(&mut instructions, result, 1);
        let stack = execute(&instructions).unwrap();
        assert_eq!(stack[0] == 1, a >= b, "{} >= {}", a, b);
    }
}

fn int32_sub(a: i32, b: i32) -> Result<i32, String> {
    let mut instructions = Vec::new();
    let mut memory = Memory::new();
    let a = new(&mut instructions, &mut memory, a);
    let b = new(&mut instructions, &mut memory, b);
    let result = sub(&mut instructions, &mut memory, a, b);
    memory.read(&mut instructions, result, 1);
    let stack = execute(&instructions)?;
    Ok(stack[0] as u32 as i32)
}

#[test]
fn test_sub() {
    assert_eq!(int32_sub(0, 0), Ok(0));
    assert_eq!(int32_sub(0, 1), Ok(-1));
    assert_eq!(int32_sub(1, 0), Ok(1));
    assert_eq!(int32_sub(1, 1), Ok(0));
    assert_eq!(int32_sub(i32::MAX, 0), Ok(i32::MAX));
    assert_eq!(int32_sub(i32::MAX, 1), Ok(i32::MAX - 1));
    assert_eq!(int32_sub(i32::MAX, i32::MAX), Ok(0));
    assert_eq!(int32_sub(i32::MIN, 0), Ok(i32::MIN));
    assert_eq!(int32_sub(i32::MIN, -1), Ok(i32::MIN + 1));
    assert_eq!(int32_sub(i32::MIN, i32::MIN), Ok(0));

    assert!(int32_sub(i32::MIN, 1).is_err());
    assert!(int32_sub(i32::MAX, -1).is_err());
}

#[test]
fn int32_lte_is_not_gt() {
    for (a, b) in [(0, 0), (-3, -3), (5, -5), (-5, 5), (i32::MIN, i32::MAX), (i32::MAX, i32::MIN)] {
        let mut instructions = Vec::new();
        let mut memory = Memory::new();
        let x = new(&mut instructions, &mut memory, a);
        let y = new(&mut instructions, &mut memory, b);
        let result = lte(&mut instructions, &mut memory, x, y);
        memory.read(&mut instructions, result, 1);
        let stack = execute(&instructions).unwrap();
        assert_eq!(stack[0] == 1, a <= b, "{} <= {}", a, b);
    }
}

#[test]
fn int32_lt_compares_signed_values() {
    for (a, b) in [(0, 0), (-3, -3), (5, -5), (-5, 5), (-7, -2), (i32::MIN, i32::MAX), (i32::MAX, i32::MIN)] {
        let mut instructions = Vec::new();
        let mut memory = Memory::new();
        let x = new(&mut instructions, &mut memory, a);
        let y = new(&mut instructions, &mut memory, b);
        let result = lt(&mut instructions, &mut memory, x, y);
        memory.read(&mut instructions, result, 1);
        let stack = execute(&instructions).unwrap();
        assert_eq!(stack[0] == 1, a < b, "{} < {}", a, b);
    }
}

/// Runs the code of `abs_stack` on `a`.
fn abs(a: i32) -> Result<i32, String> {
    let mut instructions = Vec::new();
    let mut memory = Memory::new();
    let a = new(&mut instructions, &mut memory, a);
    memory.read(&mut instructions, a, 1);
    abs_stack(&mut instructions);
    let stack = execute(&instructions)?;
    Ok(stack[0] as u32 as i32)
}

#[test]
fn test_abs() {
    assert_eq!(abs(0), Ok(0));
    assert_eq!(abs(1), Ok(1));
    assert_eq!(abs(-1), Ok(1));
    assert_eq!(abs(i32::MAX), Ok(i32::MAX));
    assert_eq!(abs(i32::MIN + 1), Ok(i32::MAX));
    assert_eq!(abs(2147483584), Ok(2147483584));

    assert!(abs(i32::MIN).is_err());
}

/// Runs the code of `negate_stack` on `a`.
fn negate(a: i32) -> Result<i32, String> {
    let mut instructions = Vec::new();
    let mut memory = Memory::new();
    let a = new(&mut instructions, &mut memory, a);
    memory.read(&mut instructions, a, 1);
    negate_stack(&mut instructions);
    let stack = execute(&instructions)?;
    Ok(stack[0] as u32 as i32)
}

#[test]
fn test_negate() {
    assert_eq!(negate(0), Ok(0));
    assert_eq!(negate(1), Ok(-1));
    assert_eq!(negate(-1), Ok(1));
    let _min_add_1 = i32::MIN + 1;
    assert_eq!(negate(i32::MAX), Ok(_min_add_1));
    assert_eq!(negate(i32::MIN + 1), Ok(i32::MAX));

    assert!(negate(i32::MIN).is_err());
}

fn int32_mul(a: i32, b: i32) -> Result<i32, String> {
    let mut instructions = Vec::new();
    let mut memory = Memory::new();
    let a = new(&mut instructions, &mut memory, a);
    let b = new(&mut instructions, &mut memory, b);
    let result = mul(&mut instructions, &mut memory, a, b);
    memory.read(&mut instructions, result, 1);
    let stack = execute(&instructions)?;
    Ok(stack[0] as u32 as i32)
}

#[test]
fn test_mul() {
    assert_eq!(int32_mul(0, 0), Ok(0));
    assert_eq!(int32_mul(0, 1), Ok(0));
    assert_eq!(int32_mul(1, 0), Ok(0));
    assert_eq!(int32_mul(1, 1), Ok(1));
    assert_eq!(int32_mul(1, -1), Ok(-1));
    assert_eq!(int32_mul(-1, 1), Ok(-1));
    assert_eq!(int32_mul(-1, -1), Ok(1));
    assert_eq!(int32_mul(i32::MAX, 0), Ok(0));
    assert_eq!(int32_mul(i32::MAX, 1), Ok(i32::MAX));
    let _negative_max = -i32::MAX;
    assert_eq!(int32_mul(i32::MAX, -1), Ok(_negative_max));
    assert_eq!(int32_mul(i32::MIN, 0), Ok(0));

    assert!(int32_mul(i32::MAX, 2).is_err());
    assert!(int32_mul(i32::MIN, 2).is_err());
    assert!(int32_mul(i32::MAX, i32::MIN).is_err());
    assert!(int32_mul(i32::MIN, i32::MAX).is_err());
    assert!(int32_mul(i32::MIN, i32::MIN).is_err());
    assert!(int32_mul(i32::MAX, i32::MAX).is_err());
    // negating i32::MIN overflows, that would be i32::MAX+1
    assert!(int32_mul(i32::MIN, -1).is_err());
}

#[test]
fn int32_mul_signs_and_limits() {
    assert_eq!(int32_mul(-7, 6), Ok(-42));
    assert_eq!(int32_mul(-46341, -46340), Ok(2147441940));
    assert_eq!(int32_mul(65536, -32767), Ok(-2147418112));
    // the absolute value of the product must stay below 2^31
    assert!(int32_mul(65536, -32768).is_err());
    assert!(int32_mul(i32::MIN, 1).is_err());
}

fn int32_div(a: i32, b: i32) -> Result<i32, String> {
    let mut instructions = Vec::new();
    let mut memory = Memory::new();
    let a = new(&mut instructions, &mut memory, a);
    let b = new(&mut instructions, &mut memory, b);
    let result = div(&mut instructions, &mut memory, a, b);
    memory.read(&mut instructions, result, 1);
    let stack = execute(&instructions)?;
    Ok(stack[0] as u32 as i32)
}

#[test]
fn test_div() {
    assert!(int32_div(0, 0).is_err());
    assert!(int32_div(1, 0).is_err());
    assert!(int32_div(i32::MIN, -1).is_err());

    assert_eq!(int32_div(0, 1), Ok(0));
    assert_eq!(int32_div(1, 1), Ok(1));
    assert_eq!(int32_div(1, -1), Ok(-1));
    assert_eq!(int32_div(-1, 1), Ok(-1));
    assert_eq!(int32_div(-1, -1), Ok(1));
    assert_eq!(int32_div(i32::MAX, 1), Ok(i32::MAX));
    let _negative_max = -i32::MAX;
    assert_eq!(int32_div(i32::MAX, -1), Ok(_negative_max));

    let _min_add_1 = i32::MIN + 1;
    assert_eq!(int32_div(i32::MIN + 1, 1), Ok(_min_add_1));

    let _max_divided_by_2 = i32::MAX / 2;
    assert_eq!(int32_div(i32::MAX, 2), Ok(_max_divided_by_2));
}

#[test]
fn int32_div_rounds_toward_zero() {
    assert_eq!(int32_div(7, 2), Ok(3));
    assert_eq!(int32_div(-7, 2), Ok(-3));
    assert_eq!(int32_div(7, -2), Ok(-3));
    assert_eq!(int32_div(-7, -2), Ok(3));
    assert_eq!(int32_div(1, 5), Ok(0));
    assert_eq!(int32_div(-1, 5), Ok(0));
    // the absolute value of i32::MIN does not fit
    assert!(int32_div(i32::MIN, 1).is_err());
    assert!(int32_div(5, i32::MIN).is_err());
}

fn int32_modulo(a: i32, b: i32) -> Result<i32, String> {
    let mut instructions = Vec::new();
    let mut memory = Memory::new();
    let a = new(&mut instructions, &mut memory, a);
    let b = new(&mut instructions, &mut memory, b);
    let result = modulo(&mut instructions, &mut memory, a, b);
    memory.read(&mut instructions, result, 1);
    let stack = execute(&instructions)?;
    Ok(stack[0] as u32 as i32)
}

#[test]
fn test_modulo() {
    assert!(int32_modulo(0, 0).is_err());
    assert!(int32_modulo(1, 0).is_err());
    assert!(int32_modulo(i32::MIN, -1).is_err());

    assert_eq!(int32_modulo(0, 1), Ok(0));
    assert_eq!(int32_modulo(1, 1), Ok(0));
    assert_eq!(int32_modulo(1, -1), Ok(0));
    assert_eq!(int32_modulo(-1, 1), Ok(0));
    assert_eq!(int32_modulo(-1, -1), Ok(0));
    assert_eq!(int32_modulo(i32::MAX, 1), Ok(0));
    assert_eq!(int32_modulo(i32::MAX, -1), Ok(0));
    assert_eq!(int32_modulo(-1, i32::MAX), Ok(-1));
}

#[test]
fn int32_modulo_takes_the_sign_of_the_dividend() {
    assert_eq!(int32_modulo(7, 3), Ok(1));
    assert_eq!(int32_modulo(-7, 3), Ok(-1));
    assert_eq!(int32_modulo(7, -3), Ok(1));
    assert_eq!(int32_modulo(-7, -3), Ok(-1));
    assert!(int32_modulo(i32::MIN, 1).is_err());
}

fn int32_shift(a: i32, b: i32, is_right: bool) -> Result<i32, String> {
    let mut instructions = Vec::new();
    let mut memory = Memory::new();
    let a = new(&mut instructions, &mut memory, a);
    let b = new(&mut instructions, &mut memory, b);
    let result = if is_right {
        shift_right(&mut instructions, &mut memory, a, b)
    } else {
        shift_left(&mut instructions, &mut memory, a, b)
    };
    memory.read(&mut instructions, result, 1);
    let stack = execute(&instructions)?;
    Ok(stack[0] as u32 as i32)
}

#[test]
fn test_shift_right() {
    assert_eq!(int32_shift(0, 0, true), Ok(0));
    assert_eq!(int32_shift(1, 0, true), Ok(1));
    assert_eq!(int32_shift(i32::MAX, 0, true), Ok(i32::MAX));
    assert_eq!(int32_shift(-1, 0, true), Ok(-1));
    assert_eq!(int32_shift(-2, 1, true), Ok(-1));
    assert!(int32_shift(-2, -1, true).is_err());
}

#[test]
fn test_shift_left() {
    assert_eq!(int32_shift(0, 0, false), Ok(0));
    assert_eq!(int32_shift(1, 0, false), Ok(1));
    assert_eq!(int32_shift(i32::MAX, 0, false), Ok(i32::MAX));
    assert_eq!(int32_shift(-1, 0, false), Ok(-1));
    assert_eq!(int32_shift(-2, 1, false), Ok(-4));
    assert!(int32_shift(-2, -1, false).is_err());
}

#[test]
fn int32_shift_right_rounds_toward_zero() {
    assert_eq!(int32_shift(-5, 1, true), Ok(-2));
    assert_eq!(int32_shift(5, 1, true), Ok(2));
    assert_eq!(int32_shift(-1, 1, true), Ok(0));
    assert_eq!(int32_shift(1000, 31, true), Ok(0));
    assert!(int32_shift(1, 32, true).is_err());
    assert!(int32_shift(i32::MIN, 1, true).is_err());
}

#[test]
fn int32_decompose_gives_sign_and_absolute_value() {
    for (value, sign, magnitude) in [(-5, 0x8000_0000u64, 5u64), (7, 0, 7), (0, 0, 0), (i32::MAX, 0, 0x7fff_ffff)] {
        let mut instructions = Vec::new();
        let mut memory = Memory::new();
        let n = new(&mut instructions, &mut memory, value);
        decompose(&mut instructions, &memory, n);
        let stack = execute(&instructions).unwrap();
        assert_eq!(&stack[..2], &[sign, magnitude], "{}", value);
    }
    let mut instructions = Vec::new();
    let mut memory = Memory::new();
    let n = new(&mut instructions, &mut memory, i32::MIN);
    decompose(&mut instructions, &memory, n);
    assert!(execute(&instructions).is_err());
}
