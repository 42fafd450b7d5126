use polylang::abi::{ParseError, PrimitiveType, ReadError, Struct, Type, Value};
use polylang::decimal::IntErrorKind;
use polylang::prover::{RunOutput, ThisError};

/// The internal (Montgomery) form of `v`: v * 2^64 mod p.
fn to_internal(v: u64) -> u64 {
    let p: u128 = 0xFFFF_FFFF_0000_0001;
    (((v as u128) << 64) % p) as u64
}

fn word(v: u64) -> [u64; 4] {
    [to_internal(v), 0, 0, 0]
}

fn output(memory: Vec<(u64, [u64; 4])>) -> RunOutput {
    RunOutput::from_final_state(&vec![], &memory)
}

fn record() -> Struct {
    Struct {
        name: "Account".to_string(),
        fields: vec![
            ("id".to_string(), Type::PrimitiveType(PrimitiveType::UInt32)),
            ("name".to_string(), Type::String),
        ],
    }
}

#[test]
fn serialize_each_kind() {
    assert_eq!(Value::Boolean(true).serialize(), vec![1]);
    assert_eq!(Value::Boolean(false).serialize(), vec![0]);
    assert_eq!(Value::UInt32(7).serialize(), vec![7]);
    assert_eq!(Value::UInt64(0x1_0000_0002).serialize(), vec![1, 2]);
    assert_eq!(Value::Int32(-1).serialize(), vec![u64::MAX]);
    assert_eq!(Value::Int32(5).serialize(), vec![5]);
    assert_eq!(Value::Hash([1, 2, 3, 4]).serialize(), vec![1, 2, 3, 4]);
    assert_eq!(Value::String("hé".to_string()).serialize(), vec![3, 104, 195, 169]);
    let v = Value::StructValue(vec![
        ("id".to_string(), Value::UInt32(9)),
        ("name".to_string(), Value::String("a".to_string())),
    ]);
    assert_eq!(v.serialize(), vec![9, 1, 97]);
}

#[test]
fn widths() {
    assert_eq!(Type::PrimitiveType(PrimitiveType::Boolean).miden_width(), 1);
    assert_eq!(Type::PrimitiveType(PrimitiveType::UInt32).miden_width(), 1);
    assert_eq!(Type::PrimitiveType(PrimitiveType::Int32).miden_width(), 1);
    assert_eq!(Type::PrimitiveType(PrimitiveType::UInt64).miden_width(), 2);
    assert_eq!(Type::Hash.miden_width(), 4);
    assert_eq!(Type::String.miden_width(), 2);
    assert_eq!(Type::Struct(record()).miden_width(), 3);
}

#[test]
fn read_primitives() {
    let out = output(vec![
        (10, word(1)),
        (11, word(42)),
        (12, word(0xFFFF_FFFF)),
        (13, [to_internal(1), to_internal(2), 0, 0]),
    ]);
    let boolean = PrimitiveType::Boolean;
    assert_eq!(boolean.read(&out, 10), Ok(Value::Boolean(true)));
    assert_eq!(PrimitiveType::UInt32.read(&out, 11), Ok(Value::UInt32(42)));
    assert_eq!(PrimitiveType::UInt64.read(&out, 13), Ok(Value::UInt64(0x1_0000_0002)));
    assert_eq!(boolean.read(&out, 99), Err(ReadError::Boolean));
    assert_eq!(PrimitiveType::UInt32.read(&out, 99), Err(ReadError::UInt32));
    assert_eq!(PrimitiveType::Int32.read(&out, 99), Err(ReadError::Int32));
    assert_eq!(PrimitiveType::UInt64.read(&out, 99), Err(ReadError::UInt64));
    assert_eq!(Type::Hash.read(&out, 10), Ok(Value::Hash([1, 0, 0, 0])));
    assert_eq!(Type::Hash.read(&out, 99), Err(ReadError::Hash));
}

#[test]
fn read_strings() {
    let out = output(vec![
        (20, word(2)),
        (21, word(30)),
        (30, word(b'h' as u64)),
        (31, word(b'i' as u64)),
        (40, word(2)),
        (41, word(50)),
        (50, word(b'x' as u64)),
        (60, word(1)),
        (61, word(70)),
        (70, word(0xff)),
        (80, word(3)),
    ]);
    assert_eq!(Type::String.read(&out, 20), Ok(Value::String("hi".to_string())));
    assert_eq!(Type::String.read(&out, 40), Err(ReadError::StringByte));
    assert_eq!(Type::String.read(&out, 60), Err(ReadError::InvalidUtf8));
    assert_eq!(Type::String.read(&out, 80), Err(ReadError::StringDataPtr));
    assert_eq!(Type::String.read(&out, 90), Err(ReadError::StringLength));
}

#[test]
fn read_record_fields_in_order() {
    let out = output(vec![
        (100, word(5)),
        (101, word(1)),
        (102, word(200)),
        (200, word(b'z' as u64)),
    ]);
    let expected = Value::StructValue(vec![
        ("id".to_string(), Value::UInt32(5)),
        ("name".to_string(), Value::String("z".to_string())),
    ]);
    assert_eq!(record().read(&out, 100), Ok(expected));
    assert_eq!(record().read(&out, 101), Err(ReadError::StringDataPtr));
}

#[test]
fn read_error_messages() {
    assert_eq!(ReadError::Boolean.message(), "invalid address for boolean");
    assert_eq!(ReadError::StringDataPtr.message(), "invalid address for string data ptr");
    assert_eq!(ReadError::InvalidUtf8.message(), "invalid utf-8 sequence");
}

#[test]
fn parse_primitives() {
    assert_eq!(PrimitiveType::Boolean.parse("true"), Ok(Value::Boolean(true)));
    assert_eq!(PrimitiveType::Boolean.parse("false"), Ok(Value::Boolean(false)));
    assert_eq!(PrimitiveType::Boolean.parse("yes"), Err(ParseError::InvalidBool));
    assert_eq!(PrimitiveType::UInt32.parse("+42"), Ok(Value::UInt32(42)));
    assert_eq!(PrimitiveType::UInt32.parse("4294967295"), Ok(Value::UInt32(4294967295)));
    assert_eq!(PrimitiveType::UInt32.parse("4294967296"), Err(ParseError::InvalidInt(IntErrorKind::PosOverflow)));
    assert_eq!(PrimitiveType::UInt32.parse("-1"), Err(ParseError::InvalidInt(IntErrorKind::InvalidDigit)));
    assert_eq!(PrimitiveType::Int32.parse("-2147483648"), Ok(Value::Int32(i32::MIN)));
    assert_eq!(PrimitiveType::Int32.parse("2147483648"), Err(ParseError::InvalidInt(IntErrorKind::PosOverflow)));
    assert_eq!(PrimitiveType::Int32.parse("-2147483649"), Err(ParseError::InvalidInt(IntErrorKind::NegOverflow)));
    assert_eq!(PrimitiveType::Int32.parse("-"), Err(ParseError::InvalidInt(IntErrorKind::InvalidDigit)));
    assert_eq!(PrimitiveType::UInt64.parse("18446744073709551615"), Ok(Value::UInt64(u64::MAX)));
    assert_eq!(PrimitiveType::UInt64.parse(""), Err(ParseError::InvalidInt(IntErrorKind::Empty)));
    assert_eq!(PrimitiveType::UInt64.parse("1 "), Err(ParseError::InvalidInt(IntErrorKind::InvalidDigit)));
}

#[test]
fn parse_hash_record_and_string() {
    assert_eq!(Type::Hash.parse("1,2,3,4"), Ok(Value::Hash([1, 2, 3, 4])));
    assert_eq!(Type::Hash.parse("1,x,3,4"), Err(ParseError::InvalidInt(IntErrorKind::InvalidDigit)));
    assert_eq!(Type::String.parse("a,b"), Ok(Value::String("a,b".to_string())));
    let expected = Value::StructValue(vec![
        ("id".to_string(), Value::UInt32(5)),
        ("name".to_string(), Value::String("hi".to_string())),
    ]);
    assert_eq!(record().parse("5,hi,"), Ok(expected));
    assert_eq!(record().parse("5,hi"), Err(ParseError::InvalidValue));
    assert_eq!(record().parse("x,hi,"), Err(ParseError::InvalidInt(IntErrorKind::InvalidDigit)));
}

#[test]
fn parsed_values_serialize_to_their_numbers() {
    let v = PrimitiveType::UInt64.parse("4294967298").unwrap();
    assert_eq!(v.serialize(), vec![1, 2]);
}

#[test]
fn this_is_read_from_the_abi_address() {
    let out = output(vec![(7, word(3))]);
    let t = Type::PrimitiveType(PrimitiveType::UInt32);
    assert_eq!(out.this(None, Some(7)), Err(ThisError::MissingThisType));
    assert_eq!(out.this(Some(&t), None), Err(ThisError::MissingThisAddr));
    assert_eq!(out.this(Some(&t), Some(7)), Ok(Value::UInt32(3)));
    assert_eq!(out.this(Some(&t), Some(8)), Err(ThisError::Read(ReadError::UInt32)));
}

#[test]
fn failure_report_joins_program_and_machine_errors() {
    let out = output(vec![(1, word(4)), (2, word(10)), (10, word(b'b' as u64)), (11, word(b'o' as u64)), (12, word(b'o' as u64)), (13, word(b'm' as u64))]);
    assert_eq!(out.failure_report("assertion failed"), Ok("boom: assertion failed".to_string()));
    let empty = output(vec![(1, word(0)), (2, word(10))]);
    assert_eq!(empty.failure_report("assertion failed"), Ok("assertion failed".to_string()));
    let missing = output(vec![]);
    assert_eq!(missing.failure_report("x"), Err(ReadError::StringLength));
}

fn std_kind(e: std::num::ParseIntError) -> IntErrorKind {
    match e.kind() {
        std::num::IntErrorKind::Empty => IntErrorKind::Empty,
        std::num::IntErrorKind::InvalidDigit => IntErrorKind::InvalidDigit,
        std::num::IntErrorKind::PosOverflow => IntErrorKind::PosOverflow,
        std::num::IntErrorKind::NegOverflow => IntErrorKind::NegOverflow,
        other => panic!("unexpected kind {:?}", other),
    }
}

#[test]
fn integer_errors_agree_with_std() {
    let texts = [
        "", "+", "-", "0", "+7", "-7", "--1", "+-1", "1+", "12a", "a12", "99999999999x", "4294967295",
        "4294967296", "-2147483648", "-2147483649", "-99999999999x", "18446744073709551616", " 1", "١",
    ];
    for t in texts {
        let ours = PrimitiveType::UInt32.parse(t);
        match t.parse::<u32>() {
            Ok(v) => assert_eq!(ours, Ok(Value::UInt32(v)), "u32 {:?}", t),
            Err(e) => assert_eq!(ours, Err(ParseError::InvalidInt(std_kind(e))), "u32 {:?}", t),
        }
        let ours = PrimitiveType::Int32.parse(t);
        match t.parse::<i32>() {
            Ok(v) => assert_eq!(ours, Ok(Value::Int32(v)), "i32 {:?}", t),
            Err(e) => assert_eq!(ours, Err(ParseError::InvalidInt(std_kind(e))), "i32 {:?}", t),
        }
        let ours = PrimitiveType::UInt64.parse(t);
        match t.parse::<u64>() {
            Ok(v) => assert_eq!(ours, Ok(Value::UInt64(v)), "u64 {:?}", t),
            Err(e) => assert_eq!(ours, Err(ParseError::InvalidInt(std_kind(e))), "u64 {:?}", t),
        }
    }
}

#[test]
fn parse_error_messages_agree_with_std() {
    assert_eq!(ParseError::InvalidBool.message(), "yes".parse::<bool>().unwrap_err().to_string());
    for t in ["", "x", "4294967296"] {
        let e = t.parse::<u32>().unwrap_err();
        assert_eq!(ParseError::InvalidInt(std_kind(e.clone())).message(), e.to_string());
    }
    let e = "-2147483649".parse::<i32>().unwrap_err();
    assert_eq!(ParseError::InvalidInt(std_kind(e.clone())).message(), e.to_string());
    assert_eq!(ParseError::InvalidValue.message(), "invalid value");
}
