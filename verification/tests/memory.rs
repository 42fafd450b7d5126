use polylang::encoder::Instruction;
use polylang::memory::{Memory, ValueSource};

#[test]
fn memory_starts_after_reserved_cells() {
    let mut memory = Memory::new();
    assert_eq!(memory.static_alloc_ptr(), 7);
    assert_eq!(memory.allocate(5), 7);
    assert_eq!(memory.allocate(1), 12);
    assert_eq!(memory.static_alloc_ptr(), 13);
}

#[test]
fn memory_write_stores_each_value_in_turn() {
    let memory = Memory::new();
    let mut instructions = vec![Instruction::Drop];
    memory.write(
        &mut instructions,
        10,
        &[
            ValueSource::Immediate(0),
            ValueSource::Memory(3),
            ValueSource::Stack,
        ],
    );
    assert_eq!(
        instructions,
        vec![
            Instruction::Drop,
            Instruction::Push(0),
            Instruction::MemStore(Some(10)),
            Instruction::MemLoad(Some(3)),
            Instruction::MemStore(Some(11)),
            Instruction::MemStore(Some(12)),
        ]
    );
}

#[test]
fn memory_read_loads_highest_cell_first() {
    let memory = Memory::new();
    let mut instructions = vec![];
    memory.read(&mut instructions, 20, 3);
    assert_eq!(
        instructions,
        vec![
            Instruction::MemLoad(Some(22)),
            Instruction::MemLoad(Some(21)),
            Instruction::MemLoad(Some(20)),
        ]
    );
    let mut none = vec![];
    memory.read(&mut none, 20, 0);
    assert!(none.is_empty());
}

#[test]
fn value_source_load() {
    let mut instructions = vec![];
    ValueSource::Immediate(4).load(&mut instructions);
    ValueSource::Memory(9).load(&mut instructions);
    ValueSource::Stack.load(&mut instructions);
    assert_eq!(
        instructions,
        vec![Instruction::Push(4), Instruction::MemLoad(Some(9))]
    );
}

#[test]
fn read_code_leaves_first_cell_on_top() {
    let memory = Memory::new();
    let mut instructions = vec![];
    memory.read(&mut instructions, 10, 3);
    let cells = |addr: u32| 100 + addr as u64;
    let mut stack: Vec<u64> = vec![42];
    for instruction in &instructions {
        match instruction {
            Instruction::MemLoad(Some(addr)) => stack.insert(0, cells(*addr)),
            other => panic!("unexpected {:?}", other),
        }
    }
    assert_eq!(stack, vec![110, 111, 112, 42]);
}
