use polylang::abi::ReadError;
use polylang::prover::ThisError;
use polylang::prover::{mont_red_cst, stack_values, RunOutput, SelfDestructError};

/// The internal (Montgomery) form of `v`: v * 2^64 mod p.
fn to_internal(v: u64) -> u64 {
    let p: u128 = 0xFFFF_FFFF_0000_0001;
    (((v as u128) << 64) % p) as u64
}

#[test]
fn mont_red_cst_recovers_values() {
    assert_eq!(mont_red_cst(0), 0);
    assert_eq!(mont_red_cst(0xFFFF_FFFF), 1);
    for v in [0u64, 1, 2, 3, 255, 1 << 20, 4294967295, 1 << 40, 0xFFFF_FFFF_0000_0000] {
        assert_eq!(mont_red_cst(to_internal(v) as u128), v);
    }
}

fn word(v: u64) -> [u64; 4] {
    [to_internal(v), 0, 0, 0]
}

#[test]
fn run_output_hash_and_self_destruct() {
    let stack: Vec<u64> = [10u64, 20, 30, 40, 1, 99]
        .iter()
        .map(|v| to_internal(*v))
        .collect();
    let output = RunOutput::from_final_state(&stack, &vec![]);
    assert_eq!(output.hash(), &[10, 20, 30, 40]);
    assert_eq!(output.self_destructed(), Ok(true));

    let kept = RunOutput::from_final_state(
        &[1u64, 2, 3, 4, 0].iter().map(|v| to_internal(*v)).collect(),
        &vec![],
    );
    assert_eq!(kept.self_destructed(), Ok(false));

    let invalid = RunOutput::from_final_state(
        &[1u64, 2, 3, 4, 7].iter().map(|v| to_internal(*v)).collect(),
        &vec![],
    );
    assert_eq!(
        invalid.self_destructed(),
        Err(SelfDestructError::InvalidValue(7))
    );
}

#[test]
fn run_output_logs_oldest_first() {
    // Two messages: "hi" (older) then "yo" (newer).
    // Cells 4 and 5 point to the newest node; each node pair (prev, ptr)
    // leads to the one before it.
    let memory = vec![
        (4, word(100)),
        (5, word(200)),
        // newest string "yo": len 2 at 200, data at 300
        (200, word(2)),
        (201, word(300)),
        (300, word(b'y' as u64)),
        (301, word(b'o' as u64)),
        // link to the older node
        (100, word(110)),
        (101, word(210)),
        // older string "hi"
        (210, word(2)),
        (211, word(310)),
        (310, word(b'h' as u64)),
        (311, word(b'i' as u64)),
        // end of the list
        (110, word(0)),
        (111, word(0)),
    ];
    let output = RunOutput::from_final_state(&vec![0, 0, 0, 0, 0], &memory);
    assert_eq!(output.logs(), vec!["hi".to_string(), "yo".to_string()]);

    let empty = RunOutput::from_final_state(&vec![], &vec![(5, word(0))]);
    assert!(empty.logs().is_empty());
    let nothing = RunOutput::from_final_state(&vec![], &vec![]);
    assert!(nothing.logs().is_empty());
}

#[test]
fn later_memory_words_win() {
    let memory = vec![(5, word(9)), (5, word(0))];
    let output = RunOutput::from_final_state(&vec![], &memory);
    assert!(output.logs().is_empty());
}

#[test]
fn initial_stack_is_reversed_hash() {
    assert_eq!(stack_values(&[1, 2, 3, 4]), vec![4, 3, 2, 1]);
}

#[test]
fn self_destruct_error_text() {
    assert_eq!(SelfDestructError::InvalidValue(2).message(), "Invalid self destructed value: 2");
    let output = RunOutput::from_final_state(
        &[0u64, 0, 0, 0, 2].iter().map(|v| to_internal(*v)).collect(),
        &vec![],
    );
    assert_eq!(output.self_destructed().unwrap_err().message(), "Invalid self destructed value: 2");
}

#[test]
fn this_error_texts() {
    assert_eq!(ThisError::MissingThisType.message(), "Missing this type");
    assert_eq!(ThisError::MissingThisAddr.message(), "Missing this addr");
    assert_eq!(ThisError::Read(ReadError::Hash).message(), "invalid address for hash");
}

#[test]
fn mont_red_is_canonical_and_additive() {
    let p: u128 = 0xFFFF_FFFF_0000_0001;
    assert_eq!(mont_red_cst(0), 0);
    assert_eq!(mont_red_cst(8589934590), 2);
    let samples = [0u64, 1, 2, 12345, 0xFFFF_FFFF, 1 << 40, 0x7FFF_FFFF_FFFF_FFFF, 0xFFFF_FFFF_0000_0000];
    for &x in &samples {
        let r = mont_red_cst(x as u128) as u128;
        assert!(r < p);
        assert_eq!((r << 64) % p, x as u128 % p);
    }
    for &a in &samples {
        for &b in &samples {
            if let Some(s) = a.checked_add(b) {
                let ra = mont_red_cst(a as u128) as u128;
                let rb = mont_red_cst(b as u128) as u128;
                let rs = mont_red_cst(s as u128) as u128;
                assert_eq!((ra + rb) % p, rs % p);
            }
        }
    }
}
