use polylang::boolean::{compile_and, compile_or};
use polylang::encoder::Instruction;
use polylang::float32::{add, div, gt, gte, lt, lte, mul, sub};
use polylang::memory::Memory;
use polylang::string::{search_inner_loop, starts_with_inner};
use polylang::uint32::find_msb;

fn encode_all(instructions: &[Instruction]) -> String {
    let mut out = String::new();
    for instruction in instructions {
        instruction.encode(&mut out, 0);
        out.push('\n');
    }
    out
}

#[test]
fn find_msb_checks_halving_steps() {
    let mut instructions = vec![];
    find_msb(&mut instructions);
    assert_eq!(instructions.len(), 8);
    assert_eq!(instructions[0], Instruction::Push(0));
    assert_eq!(instructions[1], Instruction::Swap);
    assert_eq!(
        instructions[2],
        Instruction::If {
            condition: vec![
                Instruction::Dup(None),
                Instruction::Push(65536),
                Instruction::U32CheckedGTE
            ],
            then: vec![
                Instruction::U32CheckedSHR(Some(16)),
                Instruction::Swap,
                Instruction::Push(16),
                Instruction::U32CheckedAdd,
                Instruction::Swap,
            ],
            else_: vec![],
        }
    );
    assert_eq!(
        instructions[6],
        Instruction::If {
            condition: vec![
                Instruction::Dup(None),
                Instruction::Push(2),
                Instruction::U32CheckedGTE
            ],
            then: vec![
                Instruction::Swap,
                Instruction::Push(1),
                Instruction::U32CheckedAdd,
                Instruction::Swap,
            ],
            else_: vec![],
        }
    );
    assert_eq!(instructions[7], Instruction::Drop);
}

#[test]
fn starts_with_inner_encodes() {
    let mut instructions = vec![];
    starts_with_inner(&mut instructions);
    assert_eq!(instructions.len(), 2);
    assert_eq!(instructions[0], Instruction::MovUp(2));
    let text = encode_all(&instructions);
    assert!(text.starts_with("movup.2\ndup\npush.0\nu32checked_gt\nif.true\n"));
    assert!(text.ends_with("  movup.2\n  push.1\n  u32checked_sub\n  dup\n  push.0\n  u32checked_gt\n  if.true\n    dup.2\n    mem_load\n    dup.2\n    mem_load\n    u32checked_eq\n    if.true\n      push.1\n    else\n      drop\n      drop\n      drop\n      push.0\n      push.0\n    end\n  else\n    drop\n    drop\n    drop\n    push.1\n    push.0\n  end\nend\n"));
}

#[test]
fn search_inner_loop_ends_with_match_test() {
    let instructions = search_inner_loop();
    assert_eq!(instructions.len(), 7);
    assert_eq!(
        instructions[3..],
        [
            Instruction::Swap,
            Instruction::Drop,
            Instruction::Dup(Some(5)),
            Instruction::U32CheckedEq
        ]
    );
    match &instructions[2] {
        Instruction::While { condition, body } => {
            assert_eq!(condition.len(), 1);
            assert_eq!(body.len(), 6);
        }
        other => panic!("expected a loop, got {:?}", other),
    }
}

/// Runs instructions on a stack, top first, with `mem` as the first element
/// of each memory cell.
fn run_with(instructions: &[Instruction], stack: &mut Vec<u64>, mem: &dyn Fn(u64) -> u64) {
    fn binary(stack: &mut Vec<u64>, f: impl Fn(u64, u64) -> u64) {
        let b = stack.remove(0);
        let a = stack.remove(0);
        assert!(a < 1 << 32 && b < 1 << 32);
        stack.insert(0, f(a, b));
    }
    for instruction in instructions {
        match instruction {
            Instruction::Push(v) => stack.insert(0, *v as u64),
            Instruction::Drop => {
                stack.remove(0);
            }
            Instruction::Swap => stack.swap(0, 1),
            Instruction::Dup(None) => stack.insert(0, stack[0]),
            Instruction::Dup(Some(k)) => stack.insert(0, stack[*k as usize]),
            Instruction::MovUp(k) => {
                let v = stack.remove(*k as usize);
                stack.insert(0, v);
            }
            Instruction::MovDown(k) => {
                let v = stack.remove(0);
                stack.insert(*k as usize, v);
            }
            Instruction::MemLoad(Some(addr)) => stack.insert(0, mem(*addr as u64)),
            Instruction::U32CheckedNeq => binary(stack, |a, b| (a != b) as u64),
            Instruction::And => binary(stack, |a, b| {
                assert!(a <= 1 && b <= 1);
                a & b
            }),
            Instruction::Or => binary(stack, |a, b| {
                assert!(a <= 1 && b <= 1);
                a | b
            }),
            Instruction::U32CheckedAnd => binary(stack, |a, b| a & b),
            Instruction::U32CheckedOr => binary(stack, |a, b| a | b),
            Instruction::U32CheckedXOR => binary(stack, |a, b| a ^ b),
            Instruction::Assert => assert_eq!(stack.remove(0), 1, "the machine faults"),
            Instruction::U32WrappingAdd => binary(stack, |a, b| (a + b) % (1 << 32)),
            Instruction::U32WrappingSub => binary(stack, |a, b| (a + (1 << 32) - b) % (1 << 32)),
            Instruction::U32OverflowingMul => {
                let b = stack.remove(0);
                let a = stack.remove(0);
                assert!(a < 1 << 32 && b < 1 << 32);
                stack.insert(0, (a * b) % (1 << 32));
                stack.insert(0, (a * b) >> 32);
            }
            Instruction::U32CheckedLTE => binary(stack, |a, b| (a <= b) as u64),
            Instruction::U32CheckedSHL(None) => binary(stack, |a, b| {
                assert!(b < 32);
                let r = a << b;
                assert!(r < 1 << 32);
                r
            }),
            Instruction::U32CheckedSHR(None) => binary(stack, |a, b| {
                assert!(b < 32);
                a >> b
            }),
            Instruction::U32CheckedSHL(Some(i)) => {
                stack[0] <<= *i;
                assert!(stack[0] < 1 << 32);
            }
            Instruction::MemLoad(None) => {
                let addr = stack.remove(0);
                stack.insert(0, mem(addr));
            }
            Instruction::U32CheckedGTE => binary(stack, |a, b| (a >= b) as u64),
            Instruction::U32CheckedGT => binary(stack, |a, b| (a > b) as u64),
            Instruction::U32CheckedLT => binary(stack, |a, b| (a < b) as u64),
            Instruction::U32CheckedEq => binary(stack, |a, b| (a == b) as u64),
            Instruction::U32CheckedAdd => binary(stack, |a, b| {
                assert!(a + b < 1 << 32);
                a + b
            }),
            Instruction::U32CheckedSub => binary(stack, |a, b| a.checked_sub(b).unwrap()),
            Instruction::U32CheckedSHR(Some(i)) => stack[0] >>= *i,
            Instruction::If { condition, then, else_ } => {
                run_with(condition, stack, mem);
                let flag = stack.remove(0);
                assert!(flag <= 1);
                if flag == 1 {
                    run_with(then, stack, mem);
                } else {
                    run_with(else_, stack, mem);
                }
            }
            Instruction::Repeat { count, body } => {
                for _ in 0..*count {
                    run_with(body, stack, mem);
                }
            }
            Instruction::While { condition, body } => loop {
                run_with(condition, stack, mem);
                let flag = stack.remove(0);
                assert!(flag <= 1);
                if flag == 0 {
                    break;
                }
                run_with(body, stack, mem);
            },
            other => panic!("not modelled: {:?}", other),
        }
    }
}

fn run(instructions: &[Instruction], stack: &mut Vec<u64>) {
    run_with(instructions, stack, &|_| 0);
}

/// Memory holding the bytes of `a` from 100 on and of `b` from 200 on.
fn strings(a: &'static str, b: &'static str) -> impl Fn(u64) -> u64 {
    move |addr| {
        if (100..100 + a.len() as u64).contains(&addr) {
            a.as_bytes()[(addr - 100) as usize] as u64
        } else if (200..200 + b.len() as u64).contains(&addr) {
            b.as_bytes()[(addr - 200) as usize] as u64
        } else {
            0
        }
    }
}

#[test]
fn starts_with_inner_replaces_operands_by_result() {
    let mut instructions = vec![];
    starts_with_inner(&mut instructions);
    for (a, b, expected) in [("hello", "he", 1), ("hello", "hx", 0), ("hello", "", 1), ("abc", "abc", 1), ("abc", "abd", 0)] {
        let mem = strings(a, b);
        // [b_ptr, a_ptr, len] over [55, 9, 8], top first
        let mut stack = vec![200, 100, b.len() as u64, 55, 9, 8];
        run_with(&instructions, &mut stack, &mem);
        assert_eq!(stack, vec![expected, 55, 9, 8], "{} starts with {}", a, b);
    }
}

#[test]
fn search_inner_loop_matches_at_position() {
    let instructions = search_inner_loop();
    for (a, b, i, expected) in [("hello", "ll", 2, 1), ("hello", "ll", 1, 0), ("hello", "lo", 3, 1), ("hello", "", 4, 1), ("abc", "c", 2, 1)] {
        let mem = strings(a, b);
        // [i, result, b_ptr, a_ptr, b_len, a_len] over [7], top first
        let mut stack = vec![i, 0, 200, 100, b.len() as u64, a.len() as u64, 7];
        run_with(&instructions, &mut stack, &mem);
        assert_eq!(stack, vec![expected, i, 0, 200, 100, b.len() as u64, a.len() as u64, 7], "{} at {} in {}", b, i, a);
    }
}

#[test]
fn find_msb_replaces_number_by_top_bit_position() {
    let mut instructions = vec![];
    find_msb(&mut instructions);
    for (n, expected) in [(0u64, 0u64), (1, 0), (2, 1), (3, 1), (4, 2), (255, 7), (256, 8), (65535, 15), (65536, 16), (u32::MAX as u64, 31)] {
        let mut stack = vec![n, 77];
        run(&instructions, &mut stack);
        assert_eq!(stack, vec![expected, 77], "msb of {}", n);
    }
}

/// Runs the code of a float comparison of the cells 10 and 11 holding `a`
/// and `b`, and returns the flag it would store.
fn float_comparison(
    compare: fn(&mut Vec<Instruction>, &mut Memory, u32, u32) -> u32,
    a: f32,
    b: f32,
) -> u64 {
    let mut instructions = vec![];
    let mut memory = Memory::starting_at(20);
    let result = compare(&mut instructions, &mut memory, 10, 11);
    assert_eq!(result, 20);
    assert_eq!(memory.static_alloc_ptr(), 21);
    assert_eq!(instructions.last(), Some(&Instruction::MemStore(Some(20))));
    let (a, b) = (a.to_bits() as u64, b.to_bits() as u64);
    let mem = move |addr: u64| if addr == 10 { a } else if addr == 11 { b } else { 0 };
    let mut stack = vec![77];
    run_with(&instructions[..instructions.len() - 1], &mut stack, &mem);
    // the result alone replaces the operands
    assert_eq!(stack.len(), 2);
    assert_eq!(stack[1], 77);
    stack[0]
}

fn float_samples() -> Vec<f32> {
    vec![
        0.0,
        -0.0,
        1.0,
        -1.0,
        1.5,
        2.0,
        -2.5,
        0.1,
        1e-40,
        -1e-40,
        3.4e38,
        -3.4e38,
        f32::INFINITY,
        f32::NEG_INFINITY,
        f32::NAN,
        f32::MIN_POSITIVE,
    ]
}

#[test]
fn float_lte_agrees_with_ieee() {
    for a in float_samples() {
        for b in float_samples() {
            assert_eq!(float_comparison(lte, a, b), (a <= b) as u64, "{} <= {}", a, b);
        }
    }
}

#[test]
fn float_gte_agrees_with_ieee() {
    for a in float_samples() {
        for b in float_samples() {
            assert_eq!(float_comparison(gte, a, b), (a >= b) as u64, "{} >= {}", a, b);
        }
    }
}

#[test]
fn float_lte_encodes_its_first_steps() {
    let mut instructions = vec![];
    let mut memory = Memory::starting_at(20);
    lte(&mut instructions, &mut memory, 10, 11);
    let text = encode_all(&instructions);
    assert!(text.starts_with("mem_load.10\ndup\npush.2139095040\nu32checked_and\nu32checked_shr.23\n"));
    assert!(text.ends_with("mem_store.20\n"));
}

/// Runs the code of `mul` on the cells 10 and 11 holding `a` and `b`, and
/// returns the bits it would store.
fn float_product(a: f32, b: f32) -> u32 {
    float_arithmetic(mul, a, b)
}

/// Runs the code of an arithmetic operation on the cells 10 and 11 holding
/// `a` and `b`, and returns the bits it would store.
fn float_arithmetic(
    operation: fn(&mut Vec<Instruction>, &mut Memory, u32, u32) -> u32,
    a: f32,
    b: f32,
) -> u32 {
    let mut instructions = vec![];
    let mut memory = Memory::starting_at(30);
    let result = operation(&mut instructions, &mut memory, 10, 11);
    assert_eq!(result, 30);
    assert_eq!(memory.static_alloc_ptr(), 31);
    assert_eq!(instructions.last(), Some(&Instruction::MemStore(Some(30))));
    let (a, b) = (a.to_bits() as u64, b.to_bits() as u64);
    let mem = move |addr: u64| if addr == 10 { a } else if addr == 11 { b } else { 0 };
    let mut stack = vec![77];
    run_with(&instructions[..instructions.len() - 1], &mut stack, &mem);
    assert_eq!(stack.len(), 2);
    assert_eq!(stack[1], 77);
    stack[0] as u32
}

#[test]
fn float_mul_exact_products() {
    let cases: Vec<(f32, f32)> = vec![
        (1.5, 2.0),
        (-2.0, 0.25),
        (3.0, -4.0),
        (1.0, 1.0),
        (1.75, 1.75),
        (-1.5, -1.5),
        (1024.0, 0.5),
    ];
    for (a, b) in cases {
        assert_eq!(f32::from_bits(float_product(a, b)), a * b, "{} * {}", a, b);
    }
}

/// The exact product of `a` and `b` cut toward zero to an `f32`; the
/// product of two `f32` significands is exact in an `f64`.
fn product_toward_zero(a: f32, b: f32) -> f32 {
    let exact = a as f64 * b as f64;
    let nearest = exact as f32;
    if (nearest as f64).abs() > exact.abs() {
        f32::from_bits(nearest.to_bits() - 1)
    } else {
        nearest
    }
}

#[test]
fn float_mul_cuts_the_exact_product_toward_zero() {
    let samples = [1.1f32, -1.1, 3.3, 0.7, 123.456, -0.001, 7e10, 2.5e-10, 1.0 / 3.0, 16777215.0];
    for &a in &samples {
        for &b in &samples {
            let bits = float_product(a, b);
            assert_eq!(bits, product_toward_zero(a, b).to_bits(), "{} * {}", a, b);
            assert!(close_to(f32::from_bits(bits), a * b), "{} * {}", a, b);
        }
    }
    // Rust rounds 1.1 * 3.3 up to the nearest float; the code cuts it down by
    // one unit in the last place.
    assert_eq!(float_product(1.1, 3.3) + 1, (1.1f32 * 3.3f32).to_bits());
}

/// Whether `result` is what Rust gives, up to the accuracy of the emulated
/// arithmetic.
fn close_to(result: f32, expected: f32) -> bool {
    result.is_nan() && expected.is_nan()
        || result == expected
        || (result - expected).abs() <= 1e-6 * (1.0 + expected.abs())
}

#[test]
fn float_mul_special_values() {
    assert_eq!(float_product(0.0, 5.0), 0.0f32.to_bits());
    assert_eq!(float_product(-0.0, 5.0), (-0.0f32).to_bits());
    assert_eq!(float_product(3.0, -0.0), (-0.0f32).to_bits());
    assert_eq!(float_product(0.0, 1.0), 0.0f32.to_bits());
    assert_eq!(float_product(f32::INFINITY, 2.0), f32::INFINITY.to_bits());
    assert_eq!(float_product(f32::INFINITY, -2.0), f32::NEG_INFINITY.to_bits());
    assert!(f32::from_bits(float_product(f32::INFINITY, 0.0)).is_nan());
    assert!(f32::from_bits(float_product(f32::NAN, 1.0)).is_nan());
    assert_eq!(float_product(3e38, 10.0), f32::INFINITY.to_bits());
    assert_eq!(float_product(-3e38, 10.0), f32::NEG_INFINITY.to_bits());
    assert_eq!(float_product(1e-30, 1e-30), 0.0f32.to_bits());
    assert_eq!(float_product(-1e-30, 1e-30), (-0.0f32).to_bits());
}

#[test]
fn float_edge_cases_agree_with_rust() {
    let edge_cases = [
        0.0,
        -0.0,
        1.0,
        -1.0,
        f32::INFINITY,
        f32::NEG_INFINITY,
        f32::NAN,
        f32::MAX,
        f32::MIN,
        f32::MAX / 2.,
        f32::MIN / 2.,
        f32::EPSILON,
        -f32::EPSILON,
    ];
    for (i, &a) in edge_cases.iter().enumerate() {
        for (j, &b) in edge_cases.iter().enumerate() {
            if i == j {
                continue;
            }
            let product = f32::from_bits(float_product(a, b));
            assert!(close_to(product, a * b), "{} * {} gave {}", a, b, product);
            let sum = f32::from_bits(float_arithmetic(add, a, b));
            assert!(close_to(sum, a + b), "{} + {} gave {}", a, b, sum);
            let quotient = f32::from_bits(float_arithmetic(div, a, b));
            assert!(close_to(quotient, a / b), "{} / {} gave {}", a, b, quotient);
            let difference = f32::from_bits(float_arithmetic(sub, a, b));
            assert!(close_to(difference, a - b), "{} - {} gave {}", a, b, difference);
            assert_eq!(float_comparison(lte, a, b), (a <= b) as u64, "{} <= {}", a, b);
            assert_eq!(float_comparison(gte, a, b), (a >= b) as u64, "{} >= {}", a, b);
            assert_eq!(float_comparison(lt, a, b), (a < b) as u64, "{} < {}", a, b);
            assert_eq!(float_comparison(gt, a, b), (a > b) as u64, "{} > {}", a, b);
        }
    }
}

#[test]
fn float_strict_comparisons_agree_with_ieee() {
    for a in float_samples() {
        for b in float_samples() {
            assert_eq!(float_comparison(lt, a, b), (a < b) as u64, "{} < {}", a, b);
            assert_eq!(float_comparison(gt, a, b), (a > b) as u64, "{} > {}", a, b);
        }
    }
    // equal values are neither below nor above each other
    assert_eq!(float_comparison(lt, -1.5, -1.5), 0);
    assert_eq!(float_comparison(gt, -2.0, -2.0), 0);
    assert_eq!(float_comparison(lt, f32::NEG_INFINITY, f32::NEG_INFINITY), 0);
    assert_eq!(float_comparison(gt, f32::INFINITY, f32::INFINITY), 0);
}

#[test]
fn test_custom() {
    assert_eq!(float_comparison(gt, f32::INFINITY, f32::MAX), (f32::INFINITY > f32::MAX) as u64);
}

#[test]
fn float_add_and_sub_exact_values() {
    let cases: Vec<(f32, f32)> = vec![
        (1.5, 2.25),
        (-2.5, 1.0),
        (1.0, -1.0),
        (3.0, 0.0),
        (0.0, -7.5),
        (1024.0, 0.5),
        (-0.75, -0.25),
    ];
    for (a, b) in cases {
        assert_eq!(f32::from_bits(float_arithmetic(add, a, b)), a + b, "{} + {}", a, b);
        assert_eq!(f32::from_bits(float_arithmetic(sub, a, b)), a - b, "{} - {}", a, b);
    }
    assert_eq!(float_arithmetic(add, f32::INFINITY, 1.0), f32::INFINITY.to_bits());
    assert!(f32::from_bits(float_arithmetic(add, f32::INFINITY, f32::NEG_INFINITY)).is_nan());
    assert!(f32::from_bits(float_arithmetic(sub, f32::INFINITY, f32::INFINITY)).is_nan());
    assert!(f32::from_bits(float_arithmetic(add, f32::NAN, 1.0)).is_nan());
}

#[test]
fn float_div_values() {
    let exact: Vec<(f32, f32)> = vec![(3.0, 2.0), (1.0, 4.0), (-6.0, 3.0), (7.5, -2.5), (1.0, 1.0)];
    for (a, b) in exact {
        assert_eq!(f32::from_bits(float_arithmetic(div, a, b)), a / b, "{} / {}", a, b);
    }
    for (a, b) in [(1.0f32, 3.0f32), (2.0, 7.0), (-5.0, 9.0), (1e10, 3e-5)] {
        let quotient = f32::from_bits(float_arithmetic(div, a, b));
        assert!(close_to(quotient, a / b), "{} / {} gave {}", a, b, quotient);
    }
    assert_eq!(float_arithmetic(div, 1.0, 0.0), f32::INFINITY.to_bits());
    assert_eq!(float_arithmetic(div, -1.0, 0.0), f32::NEG_INFINITY.to_bits());
    assert!(f32::from_bits(float_arithmetic(div, 0.0, 0.0)).is_nan());
    assert!(f32::from_bits(float_arithmetic(div, f32::INFINITY, f32::INFINITY)).is_nan());
    assert_eq!(float_arithmetic(div, 5.0, f32::INFINITY), 0.0f32.to_bits());
}

#[test]
fn float_div_stays_within_two_units_of_the_exact_quotient() {
    let samples = [1.1f32, -1.1, 3.3, 0.7, 123.456, -0.001, 7e10, 2.5e-10, 1.0 / 3.0, 16777215.0, 1.5];
    for &a in &samples {
        for &b in &samples {
            let bits = float_arithmetic(div, a, b);
            let exponent = ((bits >> 23) & 0xff) as i32;
            let unit = 2f64.powi(exponent - 150);
            let exact = a as f64 / b as f64;
            let result = f32::from_bits(bits) as f64;
            assert!((result - exact).abs() < 2.0 * unit, "{} / {} gave {}", a, b, result);
            assert!((result - exact).abs() < exact.abs() / 2097152.0, "{} / {}", a, b);
        }
    }
}

#[test]
fn float_sub_of_neighbours_keeps_the_aligned_difference() {
    // The smaller operand is shifted right to the larger one's exponent
    // before the subtraction, and the bit shifted out is lost: 2 less the
    // float just below it gives 2^-22, where the exact difference is 2^-23.
    let below_two = f32::from_bits(2.0f32.to_bits() - 1);
    let difference = float_arithmetic(sub, 2.0, below_two);
    assert_eq!(f32::from_bits(difference), 2f32.powi(-22));
    assert_eq!(2.0 - below_two, 2f32.powi(-23));
}

#[test]
fn float_special_values_follow_ieee() {
    // a zero operand gives the other one
    assert_eq!(float_arithmetic(add, 0.0, 3.5), 3.5f32.to_bits());
    assert_eq!(float_arithmetic(add, -2.0, -0.0), (-2.0f32).to_bits());
    assert_eq!(float_arithmetic(add, -0.0, 0.0), 0.0f32.to_bits());
    assert_eq!(float_arithmetic(add, 0.0, -0.0), (-0.0f32).to_bits());
    // infinities
    assert_eq!(float_arithmetic(add, f32::NEG_INFINITY, 5.0), f32::NEG_INFINITY.to_bits());
    assert_eq!(float_arithmetic(add, 5.0, f32::INFINITY), f32::INFINITY.to_bits());
    assert_eq!(float_arithmetic(add, f32::INFINITY, f32::INFINITY), f32::INFINITY.to_bits());
    assert_eq!(float_arithmetic(mul, f32::NEG_INFINITY, -0.5), f32::INFINITY.to_bits());
    assert_eq!(float_arithmetic(div, -0.0, 4.0), (-0.0f32).to_bits());
    assert_eq!(float_arithmetic(div, 4.0, f32::NEG_INFINITY), (-0.0f32).to_bits());
    assert_eq!(float_arithmetic(div, f32::NEG_INFINITY, 2.0), f32::NEG_INFINITY.to_bits());
    // the NaN that operations produce
    assert_eq!(float_arithmetic(mul, f32::NAN, 2.0), 0x7fc0_0000);
    assert_eq!(float_arithmetic(div, 0.0, 0.0), 0x7fc0_0000);
    assert_eq!(float_arithmetic(add, f32::INFINITY, f32::NEG_INFINITY), 0x7fc0_0000);
}

/// Runs a boolean operation on the cells 10 and 11 holding `a` and `b`.
fn boolean_operation(
    operation: fn(&mut Vec<Instruction>, &mut Memory, u32, u32) -> u32,
    a: bool,
    b: bool,
) -> u64 {
    let mut instructions = vec![];
    let mut memory = Memory::starting_at(50);
    let result = operation(&mut instructions, &mut memory, 10, 11);
    assert_eq!(result, 50);
    assert_eq!(
        instructions,
        vec![
            Instruction::MemLoad(Some(10)),
            Instruction::MemLoad(Some(11)),
            if operation == compile_and as fn(&mut Vec<Instruction>, &mut Memory, u32, u32) -> u32 {
                Instruction::And
            } else {
                Instruction::Or
            },
            Instruction::MemStore(Some(50)),
        ]
    );
    let mem = move |addr: u64| if addr == 10 { a as u64 } else if addr == 11 { b as u64 } else { 0 };
    let mut stack = vec![77];
    run_with(&instructions[..instructions.len() - 1], &mut stack, &mem);
    assert_eq!(stack.len(), 2);
    stack[0]
}

#[test]
fn boolean_and_or_truth_tables() {
    for a in [false, true] {
        for b in [false, true] {
            assert_eq!(boolean_operation(compile_and, a, b), (a && b) as u64);
            assert_eq!(boolean_operation(compile_or, a, b), (a || b) as u64);
        }
    }
}

#[test]
fn boolean_new_writes_only_true() {
    let mut instructions = vec![];
    let mut memory = Memory::starting_at(8);
    assert_eq!(polylang::boolean::new(&mut instructions, &mut memory, false), 8);
    assert!(instructions.is_empty());
    assert_eq!(polylang::boolean::new(&mut instructions, &mut memory, true), 9);
    assert_eq!(instructions, vec![Instruction::Push(1), Instruction::MemStore(Some(9))]);
}

#[test]
fn float_new_stores_the_bits() {
    let mut instructions = vec![];
    let mut memory = Memory::starting_at(8);
    assert_eq!(polylang::float32::new(&mut instructions, &mut memory, 1.5f32.to_bits()), 8);
    assert_eq!(instructions, vec![Instruction::Push(0x3fc0_0000), Instruction::MemStore(Some(8))]);
    assert_eq!(memory.static_alloc_ptr(), 9);
}

#[test]
fn uint64_operations_call_the_standard_library() {
    let mut instructions = vec![];
    let mut memory = Memory::starting_at(30);
    let result = polylang::uint64::add(&mut instructions, &mut memory, 10, 20);
    assert_eq!(result, 30);
    assert_eq!(memory.static_alloc_ptr(), 32);
    assert_eq!(
        instructions,
        vec![
            Instruction::MemLoad(Some(11)),
            Instruction::MemLoad(Some(10)),
            Instruction::MemLoad(Some(21)),
            Instruction::MemLoad(Some(20)),
            Instruction::Exec("u64::checked_add"),
            Instruction::MemStore(Some(30)),
            Instruction::MemStore(Some(31)),
        ]
    );
    let mut instructions = vec![];
    let flag = polylang::uint64::lt(&mut instructions, &mut memory, 10, 20);
    assert_eq!(flag, 32);
    assert_eq!(memory.static_alloc_ptr(), 33);
    assert_eq!(instructions[4], Instruction::Exec("u64::checked_lt"));
    assert_eq!(instructions[5..], [Instruction::MemStore(Some(32))]);
    let mut instructions = vec![];
    polylang::uint64::shift_left(&mut instructions, &mut memory, 10, 40, 1);
    assert_eq!(instructions[2..4], [Instruction::MemLoad(Some(40)), Instruction::Exec("u64::checked_shl")]);
}

#[test]
fn uint64_cast_from_uint32_zero_extends() {
    let mut instructions = vec![];
    let memory = Memory::starting_at(30);
    polylang::uint64::cast_from_uint32(&mut instructions, &memory, 5, 12);
    assert_eq!(
        instructions,
        vec![
            Instruction::MemLoad(Some(5)),
            Instruction::Push(0),
            Instruction::MemStore(Some(12)),
            Instruction::MemStore(Some(13)),
        ]
    );
}

/// Runs the code of `int32::add` on the cells 10 and 11 holding `a` and `b`.
fn int32_sum(a: i32, b: i32) -> i32 {
    let mut instructions = vec![];
    let mut memory = Memory::starting_at(60);
    let result = polylang::int32::add(&mut instructions, &mut memory, 10, 11);
    assert_eq!(result, 60);
    assert_eq!(instructions.last(), Some(&Instruction::MemStore(Some(60))));
    let (a, b) = (a as u32 as u64, b as u32 as u64);
    let mem = move |addr: u64| if addr == 10 { a } else if addr == 11 { b } else { 0 };
    let mut stack = vec![77];
    run_with(&instructions[..instructions.len() - 1], &mut stack, &mem);
    assert_eq!(stack.len(), 2);
    assert_eq!(stack[1], 77);
    stack[0] as u32 as i32
}

#[test]
fn int32_add_signed_values() {
    let cases: Vec<(i32, i32)> = vec![
        (1, 2),
        (-5, 3),
        (-5, -7),
        (i32::MAX, 0),
        (i32::MAX, -1),
        (i32::MIN, 1),
        (i32::MIN + 1, -1),
        (1_000_000, -2_000_000),
    ];
    for (a, b) in cases {
        assert_eq!(int32_sum(a, b), a + b, "{} + {}", a, b);
    }
}

#[test]
fn int32_new_writes_nonzero_bits() {
    let mut instructions = vec![];
    let mut memory = Memory::starting_at(3);
    assert_eq!(polylang::int32::new(&mut instructions, &mut memory, 0), 3);
    assert!(instructions.is_empty());
    assert_eq!(polylang::int32::new(&mut instructions, &mut memory, -1), 4);
    assert_eq!(instructions, vec![Instruction::Push(0xffff_ffff), Instruction::MemStore(Some(4))]);
}
