use polylang::encoder::{unabstract, AbstractInstruction, Instruction};
use polylang::memory::Memory;

#[test]
fn test_unabstract_break() {
    let instructions = vec![Instruction::While {
        condition: vec![Instruction::Push(1)],
        body: vec![
            Instruction::If {
                condition: vec![Instruction::Push(1)],
                then: vec![
                    Instruction::Abstract(AbstractInstruction::Break),
                    Instruction::Push(3),
                ],
                else_: vec![],
            },
            Instruction::If {
                condition: vec![Instruction::Push(1)],
                then: vec![Instruction::Push(1)],
                else_: vec![],
            },
            Instruction::Push(2),
        ],
    }];

    let expected = vec![Instruction::While {
        condition: vec![Instruction::If {
            condition: vec![Instruction::MemLoad(Some(1))],
            then: vec![Instruction::Push(0)],
            else_: vec![Instruction::Push(1)],
        }],
        body: vec![
            Instruction::If {
                condition: vec![Instruction::Push(1)],
                then: vec![
                    Instruction::Push(1),
                    Instruction::MemStore(Some(1)),
                    Instruction::Drop,
                    Instruction::If {
                        condition: vec![Instruction::MemLoad(Some(1))],
                        then: vec![],
                        else_: vec![Instruction::Push(3)],
                    },
                ],
                else_: vec![],
            },
            Instruction::If {
                condition: vec![Instruction::MemLoad(Some(1))],
                then: vec![],
                else_: vec![
                    Instruction::If {
                        condition: vec![Instruction::Push(1)],
                        then: vec![Instruction::Push(1)],
                        else_: vec![],
                    },
                    Instruction::Push(2),
                ],
            },
        ],
    }];

    // every allocation answers cell 1
    let unabstracted = unabstract(
        instructions,
        &mut Memory::starting_at(1),
        &mut None,
        &mut None,
        false,
    );
    assert_eq!(unabstracted, expected);
}

#[test]
fn test_unabstract_return() {
    let instructions = vec![
        Instruction::Push(1),
        Instruction::If {
            condition: vec![Instruction::Push(1)],
            then: vec![Instruction::Abstract(AbstractInstruction::Return)],
            else_: vec![],
        },
        Instruction::Push(2),
        Instruction::Push(3),
    ];

    let expected = vec![
        Instruction::Push(1),
        Instruction::If {
            condition: vec![Instruction::Push(1)],
            then: vec![
                Instruction::Push(1),
                Instruction::MemStore(Some(1)),
                Instruction::Drop,
            ],
            else_: vec![],
        },
        Instruction::If {
            condition: vec![Instruction::MemLoad(Some(1))],
            then: vec![],
            else_: vec![Instruction::Push(2), Instruction::Push(3)],
        },
    ];

    let unabstracted = unabstract(
        instructions,
        &mut Memory::starting_at(1),
        &mut None,
        &mut None,
        false,
    );
    assert_eq!(unabstracted, expected);
}

#[test]
fn test_unabstract_return_2() {
    let instructions = vec![
        Instruction::Push(199),
        Instruction::Abstract(AbstractInstruction::Return),
        Instruction::Push(200),
        Instruction::Abstract(AbstractInstruction::Return),
        Instruction::Push(201),
    ];

    let expected = vec![
        Instruction::Push(199),
        Instruction::Push(1),
        Instruction::MemStore(Some(1)),
        Instruction::Drop,
        Instruction::If {
            condition: vec![Instruction::MemLoad(Some(1))],
            then: vec![],
            else_: vec![
                Instruction::Push(200),
                Instruction::Push(1),
                Instruction::MemStore(Some(1)),
                Instruction::Drop,
            ],
        },
        Instruction::If {
            condition: vec![Instruction::MemLoad(Some(1))],
            then: vec![],
            else_: vec![Instruction::Push(201)],
        },
    ];

    // a counter that hands out 1, 2, 3, ...
    let mut memory = Memory::starting_at(1);
    let unabstracted = unabstract(instructions, &mut memory, &mut None, &mut None, false);
    assert_eq!(unabstracted, expected);
    // a single flag cell was needed
    assert_eq!(memory.static_alloc_ptr(), 2);
}

#[test]
fn unabstract_leaves_concrete_code_alone() {
    let instructions = vec![
        Instruction::Push(7),
        Instruction::While {
            condition: vec![Instruction::Dup(None)],
            body: vec![Instruction::Push(1), Instruction::U32CheckedSub],
        },
        Instruction::Drop,
    ];
    let expected = vec![
        Instruction::Push(7),
        Instruction::While {
            condition: vec![Instruction::Dup(None)],
            body: vec![Instruction::Push(1), Instruction::U32CheckedSub],
        },
        Instruction::Drop,
    ];
    let mut memory = Memory::new();
    let result = unabstract(instructions, &mut memory, &mut None, &mut None, false);
    assert_eq!(result, expected);
    assert_eq!(memory.static_alloc_ptr(), 7);
}

#[test]
fn unabstract_inlined_function_gets_fresh_flags() {
    let instructions = vec![Instruction::Abstract(AbstractInstruction::InlinedFunction(vec![
        Instruction::Push(5),
        Instruction::Abstract(AbstractInstruction::Return),
        Instruction::Push(6),
    ]))];
    let mut memory = Memory::new();
    let mut break_ptr = None;
    let mut return_ptr = None;
    let result = unabstract(instructions, &mut memory, &mut break_ptr, &mut return_ptr, false);
    let expected = vec![
        Instruction::Push(5),
        Instruction::Push(1),
        Instruction::MemStore(Some(7)),
        Instruction::Drop,
        Instruction::If {
            condition: vec![Instruction::MemLoad(Some(7))],
            then: vec![],
            else_: vec![Instruction::Push(6)],
        },
    ];
    assert_eq!(result, expected);
    // the outer flags stay unset
    assert_eq!(return_ptr, None);
    assert_eq!(break_ptr, None);
    assert_eq!(memory.static_alloc_ptr(), 8);
}

#[test]
fn unabstract_condition_guard_pushes_zero() {
    // In a condition, a guarded instruction yields 0 once the flag is set.
    let instructions = vec![
        Instruction::Abstract(AbstractInstruction::Break),
        Instruction::Push(9),
    ];
    let result = unabstract(
        instructions,
        &mut Memory::starting_at(40),
        &mut None,
        &mut None,
        true,
    );
    let expected = vec![
        Instruction::Push(1),
        Instruction::MemStore(Some(40)),
        Instruction::Drop,
        Instruction::If {
            condition: vec![Instruction::MemLoad(Some(40))],
            then: vec![Instruction::Push(0)],
            else_: vec![Instruction::Push(9)],
        },
    ];
    assert_eq!(result, expected);
}

#[test]
fn encode_plain_instructions() {
    let cases: Vec<(Instruction, &str)> = vec![
        (Instruction::Comment("hello".to_string()), "# hello"),
        (Instruction::Drop, "drop"),
        (Instruction::Push(1234), "push.1234"),
        (Instruction::Push(0), "push.0"),
        (Instruction::Push(4294967295), "push.4294967295"),
        (Instruction::Assert, "assert"),
        (Instruction::Dup(None), "dup"),
        (Instruction::Dup(Some(3)), "dup.3"),
        (Instruction::Swap, "swap"),
        (Instruction::MovUp(2), "movup.2"),
        (Instruction::MovDown(5), "movdn.5"),
        (Instruction::U32CheckedNeq, "u32checked_neq"),
        (Instruction::U32CheckedAnd, "u32checked_and"),
        (Instruction::U32CheckedOr, "u32checked_or"),
        (Instruction::U32CheckedXOR, "u32checked_xor"),
        (Instruction::Add, "add"),
        (Instruction::And, "and"),
        (Instruction::Or, "or"),
        (Instruction::U32CheckedAdd, "u32checked_add"),
        (Instruction::U32CheckedSub, "u32checked_sub"),
        (Instruction::U32CheckedMod, "u32checked_mod"),
        (Instruction::U32CheckedDiv, "u32checked_div"),
        (Instruction::U32CheckedMul, "u32checked_mul"),
        (Instruction::U32CheckedNot, "u32checked_not"),
        (Instruction::AssertZero, "assertz"),
        (Instruction::U32CheckedEq, "u32checked_eq"),
        (Instruction::U32CheckedLTE, "u32checked_lte"),
        (Instruction::U32CheckedLT, "u32checked_lt"),
        (Instruction::U32CheckedGTE, "u32checked_gte"),
        (Instruction::U32CheckedGT, "u32checked_gt"),
        (Instruction::U32CheckedSHL(Some(4)), "u32checked_shl.4"),
        (Instruction::U32CheckedSHL(None), "u32checked_shl"),
        (Instruction::U32CheckedSHR(Some(16)), "u32checked_shr.16"),
        (Instruction::U32CheckedSHR(None), "u32checked_shr"),
        (Instruction::Exec("u64::checked_add"), "exec.u64::checked_add"),
        (Instruction::MemStore(Some(1234)), "mem_store.1234"),
        (Instruction::MemStore(None), "mem_store"),
        (Instruction::MemLoad(Some(5)), "mem_load.5"),
        (Instruction::MemLoad(None), "mem_load"),
        (Instruction::AdvPush(1234), "adv_push.1234"),
    ];
    for (instruction, text) in cases {
        let mut out = String::new();
        instruction.encode(&mut out, 0);
        assert_eq!(out, text);
        let mut indented = String::from(">");
        instruction.encode(&mut indented, 2);
        assert_eq!(indented, format!(">    {}", text));
    }
}

#[test]
fn encode_while_repeats_condition() {
    let instruction = Instruction::While {
        condition: vec![Instruction::Dup(None)],
        body: vec![Instruction::Push(1), Instruction::U32CheckedSub],
    };
    let mut out = String::new();
    instruction.encode(&mut out, 1);
    assert_eq!(
        out,
        "  dup\n  while.true\n    push.1\n    u32checked_sub\n    dup\n  end"
    );
}

#[test]
fn encode_if_with_empty_then_and_else() {
    let instruction = Instruction::If {
        condition: vec![Instruction::MemLoad(Some(1))],
        then: vec![],
        else_: vec![Instruction::Push(2)],
    };
    let mut out = String::new();
    instruction.encode(&mut out, 1);
    assert_eq!(
        out,
        "  mem_load.1\n  if.true\n    push.0\n    drop\n  else\n    push.2\n  end"
    );

    let without_else = Instruction::If {
        condition: vec![],
        then: vec![Instruction::Drop],
        else_: vec![],
    };
    let mut out = String::new();
    without_else.encode(&mut out, 0);
    assert_eq!(out, "if.true\n  drop\nend");
}

#[test]
fn encoding_one_level_deeper_indents_every_line() {
    let inst = Instruction::If {
        condition: vec![Instruction::Push(1)],
        then: vec![Instruction::While { condition: vec![Instruction::Push(0)], body: vec![Instruction::Drop] }],
        else_: vec![Instruction::Comment("note".to_string())],
    };
    let mut shallow = String::new();
    inst.encode(&mut shallow, 0);
    let mut deep = String::new();
    inst.encode(&mut deep, 1);
    let expected = format!("  {}", shallow.replace('\n', "\n  "));
    assert_eq!(deep, expected);
}

#[test]
fn break_moves_the_rest_of_the_block_behind_its_flag() {
    let instructions = vec![
        Instruction::Push(7),
        Instruction::Abstract(AbstractInstruction::Break),
        Instruction::Push(8),
        Instruction::Drop,
    ];
    let mut memory = Memory::starting_at(5);
    let mut break_ptr = None;
    let mut return_ptr = None;
    let unabstracted = unabstract(instructions, &mut memory, &mut break_ptr, &mut return_ptr, false);
    let expected = vec![
        Instruction::Push(7),
        Instruction::Push(1),
        Instruction::MemStore(Some(5)),
        Instruction::Drop,
        Instruction::If {
            condition: vec![Instruction::MemLoad(Some(5))],
            then: vec![],
            else_: vec![Instruction::Push(8), Instruction::Drop],
        },
    ];
    assert_eq!(unabstracted, expected);
    assert_eq!(break_ptr, Some(5));
    assert_eq!(return_ptr, None);
}

#[test]
fn known_flag_guards_every_instruction() {
    let instructions = vec![
        Instruction::Push(1),
        Instruction::Abstract(AbstractInstruction::Return),
        Instruction::Push(2),
    ];
    let mut memory = Memory::starting_at(40);
    let mut break_ptr = Some(9);
    let mut return_ptr = None;
    let unabstracted = unabstract(instructions, &mut memory, &mut break_ptr, &mut return_ptr, true);
    for instruction in &unabstracted {
        match instruction {
            Instruction::If { condition, then, .. } => {
                assert_eq!(condition, &vec![Instruction::MemLoad(Some(9))]);
                assert_eq!(then, &vec![Instruction::Push(0)]);
            }
            other => panic!("unguarded instruction {:?}", other),
        }
    }
    assert_eq!(break_ptr, Some(9));
    // the return allocates its own flag
    assert_eq!(return_ptr, Some(40));
}

#[test]
fn encode_repeat_block() {
    let instruction = Instruction::Repeat {
        count: 24,
        body: vec![Instruction::Dup(None), Instruction::Drop],
    };
    let mut out = String::new();
    instruction.encode(&mut out, 1);
    assert_eq!(out, "  repeat.24\n    dup\n    drop\n  end");
}
