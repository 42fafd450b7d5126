//! The interface between a compiled program and its caller: the types of
//! `this` and of the parameters, the values they take, how values are laid
//! out on the advice tape, and how they are read back from memory.

use vstd::prelude::*;

use crate::prover::{RunOutput, word_at};
use crate::decimal::{IntErrorKind, integer_value, parse_integer};
use crate::text::{chars_of, split_on, split_once, split_once_spec, split_string, str_eq, string_from_utf8};

verus! {

#[derive(Debug, Clone, Copy, PartialEq, Eq)]
pub enum PrimitiveType {
    Boolean,
    UInt32,
    UInt64,
    Int32,
}

/// A record type: its name and its fields in layout order.
#[derive(Debug, PartialEq, Eq)]
pub struct Struct {
    pub name: String,
    pub fields: Vec<(String, Type)>,
}

#[derive(Debug, PartialEq, Eq)]
pub enum Type {
    PrimitiveType(PrimitiveType),
    Struct(Struct),
    Hash,
    String,
}

/// A value of one of the ABI types.
#[derive(Debug, PartialEq)]
pub enum Value {
    Boolean(bool),
    UInt32(u32),
    UInt64(u64),
    Hash([u64; 4]),
    Int32(i32),
    String(String),
    StructValue(Vec<(String, Value)>),
}

/// The model of a value: strings are sequences of characters, and the
/// fields of a record a sequence of names and values.
pub enum ValueModel {
    Boolean(bool),
    UInt32(u32),
    UInt64(u64),
    Hash(Seq<u64>),
    Int32(i32),
    String(Seq<char>),
    StructValue(Seq<(Seq<char>, ValueModel)>),
}

pub open spec fn value_view(v: Value) -> ValueModel
    decreases v,
{
    match v {
        Value::Boolean(b) => ValueModel::Boolean(b),
        Value::UInt32(x) => ValueModel::UInt32(x),
        Value::UInt64(x) => ValueModel::UInt64(x),
        Value::Hash(h) => ValueModel::Hash(h@),
        Value::Int32(x) => ValueModel::Int32(x),
        Value::String(s) => ValueModel::String(s@),
        Value::StructValue(fields) => ValueModel::StructValue(fields_view(fields@)),
    }
}

pub open spec fn fields_view(fields: Seq<(String, Value)>) -> Seq<(Seq<char>, ValueModel)>
    decreases fields,
{
    if fields.len() == 0 {
        Seq::empty()
    } else {
        fields_view(fields.drop_last()).push((fields.last().0@, value_view(fields.last().1)))
    }
}

impl View for Value {
    type V = ValueModel;

    open spec fn view(&self) -> ValueModel {
        value_view(*self)
    }
}

/// The field elements of a value on the advice tape.
pub open spec fn serialized(v: Value) -> Seq<u64>
    decreases v,
{
    match v {
        Value::Boolean(b) => seq![if b { 1u64 } else { 0u64 }],
        Value::UInt32(x) => seq![x as u64],
        Value::UInt64(x) => seq![x / 0x1_0000_0000, x % 0x1_0000_0000],
        Value::Int32(x) => seq![if x >= 0 { x as u64 } else { (x + 0x1_0000_0000_0000_0000) as u64 }],
        Value::Hash(h) => h@,
        Value::String(s) => {
            let bytes = vstd::utf8::encode_utf8(s@);
            seq![bytes.len() as u64] + bytes.map_values(|b: u8| b as u64)
        },
        Value::StructValue(fields) => serialized_fields(fields@),
    }
}

/// The values of the fields, one after the other.
pub open spec fn serialized_fields(fields: Seq<(String, Value)>) -> Seq<u64>
    decreases fields,
{
    if fields.len() == 0 {
        Seq::empty()
    } else {
        serialized_fields(fields.drop_last()) + serialized(fields.last().1)
    }
}

impl Value {
    /// The field elements of this value on the advice tape: a boolean as 0
    /// or 1, an unsigned integer as itself, a 64-bit integer as its high and
    /// low halves, a signed integer as its 64-bit two's complement, a hash
    /// as its four elements, a string as its byte length followed by its
    /// UTF-8 bytes, and a record as its fields in order.
    pub fn serialize(&self) -> (out: Vec<u64>)
        ensures
            out@ == serialized(*self),
        decreases self, 1int,
    {
        match self {
            Value::Boolean(b) => {
                let mut out = Vec::new();
                out.push(if *b { 1u64 } else { 0u64 });
                proof {
                    assert(out@ =~= serialized(*self));
                }
                out
            },
            Value::UInt32(x) => {
                let mut out = Vec::new();
                out.push(*x as u64);
                proof {
                    assert(out@ =~= serialized(*self));
                }
                out
            },
            Value::UInt64(x) => {
                let mut out = Vec::new();
                let high = *x >> 32;
                let low = *x & 0xffffffff;
                assert(high == *x / 0x1_0000_0000 && low == *x % 0x1_0000_0000) by (bit_vector)
                    requires
                        high == *x >> 32,
                        low == *x & 0xffffffff,
                ;
                out.push(high);
                out.push(low);
                proof {
                    assert(out@ =~= serialized(*self));
                }
                out
            },
            Value::Int32(x) => {
                let mut out = Vec::new();
                let y = *x as u64;
                assert(y == if *x >= 0 { *x as u64 } else { (*x + 0x1_0000_0000_0000_0000) as u64 }) by (bit_vector)
                    requires
                        y == *x as u64,
                ;
                out.push(y);
                proof {
                    assert(out@ =~= serialized(*self));
                }
                out
            },
            Value::Hash(h) => {
                let mut out = Vec::new();
                out.push(h[0]);
                out.push(h[1]);
                out.push(h[2]);
                out.push(h[3]);
                proof {
                    assert(out@ =~= serialized(*self));
                }
                out
            },
            Value::String(s) => {
                let bytes = s.as_str().as_bytes();
                let mut out = Vec::new();
                out.push(bytes.len() as u64);
                let mut i: usize = 0;
                while i < bytes.len()
                    invariant
                        i <= bytes@.len(),
                        bytes@ == vstd::utf8::encode_utf8(s@),
                        out@ == seq![bytes@.len() as u64] + bytes@.take(i as int).map_values(|b: u8| b as u64),
                    decreases bytes@.len() - i,
                {
                    out.push(bytes[i] as u64);
                    i = i + 1;
                    proof {
                        assert(out@ =~= seq![bytes@.len() as u64] + bytes@.take(i as int).map_values(|b: u8| b as u64));
                    }
                }
                proof {
                    assert(bytes@.take(i as int) =~= bytes@);
                }
                out
            },
            Value::StructValue(fields) => serialize_fields(fields),
        }
    }
}

fn serialize_fields(fields: &Vec<(String, Value)>) -> (out: Vec<u64>)
    ensures
        out@ == serialized_fields(fields@),
    decreases fields, 0int,
{
    let mut out: Vec<u64> = Vec::new();
    let mut i: usize = 0;
    while i < fields.len()
        invariant
            i <= fields@.len(),
            out@ == serialized_fields(fields@.take(i as int)),
        decreases fields@.len() - i,
    {
        proof {
            assert(decreases_to!(fields => fields@[i as int]));
            assert(decreases_to!(fields@[i as int] => fields@[i as int].1));
        }
        let mut part = fields[i].1.serialize();
        out.append(&mut part);
        proof {
            assert(fields@.take(i + 1).drop_last() =~= fields@.take(i as int));
        }
        i = i + 1;
    }
    proof {
        assert(fields@.take(i as int) =~= fields@);
    }
    out
}

/// Memory cells taken by a value of type `t`.
pub open spec fn width(t: Type) -> nat
    decreases t,
{
    match t {
        Type::PrimitiveType(PrimitiveType::UInt64) => 2,
        Type::PrimitiveType(_) => 1,
        Type::Struct(s) => width_fields(s.fields@),
        Type::Hash => 4,
        Type::String => 2,
    }
}

pub open spec fn width_fields(fields: Seq<(String, Type)>) -> nat
    decreases fields,
{
    if fields.len() == 0 {
        0
    } else {
        width_fields(fields.drop_last()) + width(fields.last().1)
    }
}

pub proof fn lemma_width_fields_take(fields: Seq<(String, Type)>, k: int)
    requires
        0 <= k <= fields.len(),
    ensures
        width_fields(fields.take(k)) <= width_fields(fields),
    decreases fields.len() - k,
{
    if k < fields.len() {
        lemma_width_fields_take(fields, k + 1);
        assert(fields.take(k + 1).drop_last() =~= fields.take(k));
    } else {
        assert(fields.take(k) =~= fields);
    }
}

impl Type {
    /// Memory cells taken by a value of this type.
    pub fn miden_width(&self) -> (w: u32)
        requires
            width(*self) <= u32::MAX,
        ensures
            w == width(*self),
        decreases self, 1int,
    {
        match self {
            Type::PrimitiveType(PrimitiveType::UInt64) => 2,
            Type::PrimitiveType(_) => 1,
            Type::Struct(s) => fields_width(&s.fields),
            Type::Hash => 4,
            Type::String => 2,
        }
    }
}

fn fields_width(fields: &Vec<(String, Type)>) -> (w: u32)
    requires
        width_fields(fields@) <= u32::MAX,
    ensures
        w == width_fields(fields@),
    decreases fields, 0int,
{
    let mut w: u32 = 0;
    let mut i: usize = 0;
    while i < fields.len()
        invariant
            i <= fields@.len(),
            width_fields(fields@) <= u32::MAX,
            w == width_fields(fields@.take(i as int)),
        decreases fields@.len() - i,
    {
        proof {
            assert(decreases_to!(fields => fields@[i as int]));
            assert(decreases_to!(fields@[i as int] => fields@[i as int].1));
            assert(fields@.take(i + 1).drop_last() =~= fields@.take(i as int));
            lemma_width_fields_take(fields@, i + 1);
        }
        w = w + fields[i].1.miden_width();
        i = i + 1;
    }
    proof {
        assert(fields@.take(i as int) =~= fields@);
    }
    w
}

/// Why a value could not be read from memory: which read found no word,
/// or that the bytes of a string are not UTF-8.
#[derive(Debug, Clone, Copy, PartialEq, Eq)]
pub enum ReadError {
    Boolean,
    UInt32,
    Int32,
    UInt64,
    Hash,
    StringLength,
    StringDataPtr,
    StringByte,
    InvalidUtf8,
}

pub open spec fn read_error_text(e: ReadError) -> Seq<char> {
    match e {
        ReadError::Boolean => "invalid address for boolean"@,
        ReadError::UInt32 => "invalid address for uint32"@,
        ReadError::Int32 => "invalid address for int32"@,
        ReadError::UInt64 => "invalid address for uint64"@,
        ReadError::Hash => "invalid address for hash"@,
        ReadError::StringLength => "invalid address for string length"@,
        ReadError::StringDataPtr => "invalid address for string data ptr"@,
        ReadError::StringByte => "invalid address for string byte"@,
        ReadError::InvalidUtf8 => "invalid utf-8 sequence"@,
    }
}

impl ReadError {
    /// The text of this error.
    pub fn message(&self) -> (s: String)
        ensures
            s@ == read_error_text(*self),
    {
        let text = match self {
            ReadError::Boolean => "invalid address for boolean",
            ReadError::UInt32 => "invalid address for uint32",
            ReadError::Int32 => "invalid address for int32",
            ReadError::UInt64 => "invalid address for uint64",
            ReadError::Hash => "invalid address for hash",
            ReadError::StringLength => "invalid address for string length",
            ReadError::StringDataPtr => "invalid address for string data ptr",
            ReadError::StringByte => "invalid address for string byte",
            ReadError::InvalidUtf8 => "invalid utf-8 sequence",
        };
        text.to_owned()
    }
}

pub open spec fn primitive_error(p: PrimitiveType) -> ReadError {
    match p {
        PrimitiveType::Boolean => ReadError::Boolean,
        PrimitiveType::UInt32 => ReadError::UInt32,
        PrimitiveType::Int32 => ReadError::Int32,
        PrimitiveType::UInt64 => ReadError::UInt64,
    }
}

/// The value of a primitive type held in the first elements of a word.
pub open spec fn primitive_value(p: PrimitiveType, w: Seq<u64>) -> ValueModel {
    match p {
        PrimitiveType::Boolean => ValueModel::Boolean(w[0] != 0),
        PrimitiveType::UInt32 => ValueModel::UInt32(w[0] as u32),
        PrimitiveType::Int32 => ValueModel::Int32(w[0] as i32),
        PrimitiveType::UInt64 => ValueModel::UInt64((w[0] << 32u64) | w[1]),
    }
}

/// The bytes of a string of `len` bytes stored one per cell (in the first
/// element of each word) from `data` on, if every word exists.
pub open spec fn string_bytes_at(mem: Map<u64, [u64; 4]>, data: int, len: int) -> Option<Seq<u8>> {
    if forall|i: int| 0 <= i < len ==> #[trigger] word_at(mem, data + i) is Some {
        Some(Seq::new(len as nat, |i: int| word_at(mem, data + i)->0[0] as u8))
    } else {
        None
    }
}

/// The value of type `t` stored in memory from `addr` on, or the first
/// read that failed.
pub open spec fn read_spec(t: Type, mem: Map<u64, [u64; 4]>, addr: int) -> Result<ValueModel, ReadError>
    decreases t, 1int,
{
    match t {
        Type::PrimitiveType(p) => match word_at(mem, addr) {
            Some(w) => Ok(primitive_value(p, w)),
            None => Err(primitive_error(p)),
        },
        Type::Hash => match word_at(mem, addr) {
            Some(w) => Ok(ValueModel::Hash(w)),
            None => Err(ReadError::Hash),
        },
        Type::String => match word_at(mem, addr) {
            None => Err(ReadError::StringLength),
            Some(lw) => match word_at(mem, addr + 1) {
                None => Err(ReadError::StringDataPtr),
                Some(dw) => match string_bytes_at(mem, dw[0] as int, lw[0] as int) {
                    None => Err(ReadError::StringByte),
                    Some(bytes) => if vstd::utf8::valid_utf8(bytes) {
                        Ok(ValueModel::String(vstd::utf8::decode_utf8(bytes)))
                    } else {
                        Err(ReadError::InvalidUtf8)
                    },
                },
            },
        },
        Type::Struct(s) => match read_fields_spec(s.fields@, mem, addr) {
            Ok(fields) => Ok(ValueModel::StructValue(fields)),
            Err(e) => Err(e),
        },
    }
}

/// The fields stored one after the other from `addr` on.
pub open spec fn read_fields_spec(fields: Seq<(String, Type)>, mem: Map<u64, [u64; 4]>, addr: int) -> Result<
    Seq<(Seq<char>, ValueModel)>,
    ReadError,
>
    decreases fields, 0int,
{
    if fields.len() == 0 {
        Ok(Seq::empty())
    } else {
        match read_spec(fields[0].1, mem, addr) {
            Err(e) => Err(e),
            Ok(v) => match read_fields_spec(fields.drop_first(), mem, addr + width(fields[0].1)) {
                Err(e) => Err(e),
                Ok(rest) => Ok(seq![(fields[0].0@, v)] + rest),
            },
        }
    }
}

/// Reading `t` at `addr` runs to its end without a fault: booleans hold 0
/// or 1, 32-bit integers fit, and no address computation overflows.
pub open spec fn read_ok(t: Type, mem: Map<u64, [u64; 4]>, addr: int) -> bool
    decreases t, 1int,
{
    match t {
        Type::PrimitiveType(PrimitiveType::Boolean) => word_at(mem, addr) matches Some(w) ==> (w[0] == 0 || w[0] == 1),
        Type::PrimitiveType(PrimitiveType::UInt32) => word_at(mem, addr) matches Some(w) ==> w[0] <= u32::MAX,
        Type::PrimitiveType(PrimitiveType::Int32) => word_at(mem, addr) matches Some(w) ==> w[0] <= i32::MAX,
        Type::PrimitiveType(PrimitiveType::UInt64) | Type::Hash => true,
        Type::String => word_at(mem, addr) matches Some(lw) ==> {
            &&& addr + 1 <= u64::MAX
            &&& word_at(mem, addr + 1) matches Some(dw) ==> {
                // the byte loop stops at a missing word before its address overflows
                ||| dw[0] + lw[0] <= u64::MAX + 1
                ||| exists|j: int| 0 <= j && dw[0] + j <= u64::MAX && #[trigger] word_at(mem, dw[0] + j) is None
            }
        },
        Type::Struct(s) => read_fields_ok(s.fields@, mem, addr),
    }
}

pub open spec fn read_fields_ok(fields: Seq<(String, Type)>, mem: Map<u64, [u64; 4]>, addr: int) -> bool
    decreases fields, 0int,
{
    if fields.len() == 0 {
        true
    } else {
        &&& width(fields[0].1) <= u32::MAX
        &&& read_ok(fields[0].1, mem, addr)
        &&& read_spec(fields[0].1, mem, addr) is Ok ==> {
            &&& addr + width(fields[0].1) <= u64::MAX
            &&& read_fields_ok(fields.drop_first(), mem, addr + width(fields[0].1))
        }
    }
}

impl PrimitiveType {
    /// Reads a value of this type from the word at `addr`.
    pub fn read(&self, output: &RunOutput, addr: u64) -> (r: Result<Value, ReadError>)
        requires
            read_ok(Type::PrimitiveType(*self), output.memory_view(), addr as int),
        ensures
            match (r, read_spec(Type::PrimitiveType(*self), output.memory_view(), addr as int)) {
                (Ok(v), Ok(m)) => v@ == m,
                (Err(e), Err(f)) => e == f,
                _ => false,
            },
    {
        let w = match output.word(addr) {
            Some(w) => w,
            None => {
                return Err(match self {
                    PrimitiveType::Boolean => ReadError::Boolean,
                    PrimitiveType::UInt32 => ReadError::UInt32,
                    PrimitiveType::Int32 => ReadError::Int32,
                    PrimitiveType::UInt64 => ReadError::UInt64,
                });
            },
        };
        match self {
            PrimitiveType::Boolean => Ok(Value::Boolean(w[0] != 0)),
            PrimitiveType::UInt32 => Ok(Value::UInt32(w[0] as u32)),
            PrimitiveType::Int32 => Ok(Value::Int32(w[0] as i32)),
            PrimitiveType::UInt64 => {
                let high = w[0];
                let low = w[1];
                Ok(Value::UInt64((high << 32) | low))
            },
        }
    }
}

fn read_string(output: &RunOutput, addr: u64) -> (r: Result<Value, ReadError>)
    requires
        read_ok(Type::String, output.memory_view(), addr as int),
    ensures
        match (r, read_spec(Type::String, output.memory_view(), addr as int)) {
            (Ok(v), Ok(m)) => v@ == m,
            (Err(e), Err(f)) => e == f,
            _ => false,
        },
{
    let ghost mem = output.memory_view();
    let length = match output.word(addr) {
        Some(w) => w[0],
        None => return Err(ReadError::StringLength),
    };
    let data_ptr = match output.word(addr + 1) {
        Some(w) => w[0],
        None => return Err(ReadError::StringDataPtr),
    };
    let mut bytes: Vec<u8> = Vec::new();
    let mut i: u64 = 0;
    while i < length
        invariant
            i <= length,
            mem == output.memory_view(),
            word_at(mem, addr as int) matches Some(lw) && lw[0] == length,
            word_at(mem, addr + 1) matches Some(dw) && dw[0] == data_ptr,
            read_ok(Type::String, mem, addr as int),
            bytes@.len() == i,
            forall|j: int| 0 <= j < i ==> #[trigger] word_at(mem, data_ptr + j) is Some,
            forall|j: int| 0 <= j < i ==> #[trigger] bytes@[j] == word_at(mem, data_ptr + j)->0[0] as u8,
        decreases length - i,
    {
        assert(data_ptr + i <= u64::MAX);
        match output.word(data_ptr + i) {
            Some(w) => bytes.push(w[0] as u8),
            None => {
                proof {
                    assert(!(word_at(mem, data_ptr + i as int) is Some));
                    assert(string_bytes_at(mem, data_ptr as int, length as int) is None);
                }
                return Err(ReadError::StringByte);
            },
        }
        i = i + 1;
    }
    proof {
        assert(string_bytes_at(mem, data_ptr as int, length as int) == Some(bytes@)) by {
            assert(bytes@ =~= Seq::new(length as nat, |k: int| word_at(mem, data_ptr + k)->0[0] as u8));
        }
    }
    match string_from_utf8(bytes) {
        Some(s) => Ok(Value::String(s)),
        None => Err(ReadError::InvalidUtf8),
    }
}

impl Type {
    /// Reads a value of this type stored in memory from `addr` on.
    pub fn read(&self, output: &RunOutput, addr: u64) -> (r: Result<Value, ReadError>)
        requires
            read_ok(*self, output.memory_view(), addr as int),
        ensures
            match (r, read_spec(*self, output.memory_view(), addr as int)) {
                (Ok(v), Ok(m)) => v@ == m,
                (Err(e), Err(f)) => e == f,
                _ => false,
            },
        decreases self, 1int,
    {
        match self {
            Type::PrimitiveType(p) => p.read(output, addr),
            Type::Struct(s) => s.read(output, addr),
            Type::Hash => match output.word(addr) {
                Some(w) => Ok(Value::Hash(w)),
                None => Err(ReadError::Hash),
            },
            Type::String => read_string(output, addr),
        }
    }
}

impl Struct {
    /// Reads the fields of this record stored one after the other from
    /// `addr` on.
    pub fn read(&self, output: &RunOutput, addr: u64) -> (r: Result<Value, ReadError>)
        requires
            read_ok(Type::Struct(*self), output.memory_view(), addr as int),
        ensures
            match (r, read_spec(Type::Struct(*self), output.memory_view(), addr as int)) {
                (Ok(v), Ok(m)) => v@ == m,
                (Err(e), Err(f)) => e == f,
                _ => false,
            },
        decreases self, 0int,
    {
        let ghost mem = output.memory_view();
        let ghost all = self.fields@;
        let mut fields: Vec<(String, Value)> = Vec::new();
        let mut current_addr = addr;
        let mut i: usize = 0;
        proof {
            assert(all.skip(0) =~= all);
            assert forall|tail: Seq<(Seq<char>, ValueModel)>| true implies fields_view(fields@) + tail =~= tail by {}
        }
        while i < self.fields.len()
            invariant
                i <= all.len(),
                all == self.fields@,
                mem == output.memory_view(),
                read_fields_ok(all.skip(i as int), mem, current_addr as int),
                read_fields_spec(all, mem, addr as int) == (match read_fields_spec(all.skip(i as int), mem, current_addr as int) {
                    Ok(rest) => Ok(fields_view(fields@) + rest),
                    Err(e) => Err(e),
                }),
            decreases all.len() - i,
        {
            let ghost rest = all.skip(i as int);
            let ghost old_fields = fields@;
            let ghost cur = current_addr as int;
            proof {
                assert(rest[0] == all[i as int]);
                assert(rest.drop_first() =~= all.skip(i + 1));
                assert(decreases_to!(self => self.fields));
                assert(decreases_to!(self.fields => self.fields@[i as int]));
                assert(decreases_to!(self.fields@[i as int] => self.fields@[i as int].1));
            }
            let (name, type_) = &self.fields[i];
            let value = match type_.read(output, current_addr) {
                Ok(v) => v,
                Err(e) => return Err(e),
            };
            let field_width = type_.miden_width();
            fields.push((name.clone(), value));
            current_addr = current_addr + field_width as u64;
            i = i + 1;
            proof {
                let x = (name@, value@);
                assert(fields@.drop_last() =~= old_fields);
                assert(fields_view(fields@) == fields_view(old_fields).push(x));
                assert(read_fields_spec(rest, mem, cur) == (match read_fields_spec(rest.drop_first(), mem, current_addr as int) {
                    Ok(t) => Ok(seq![x] + t),
                    Err(e) => Err::<Seq<(Seq<char>, ValueModel)>, ReadError>(e),
                }));
                assert forall|t: Seq<(Seq<char>, ValueModel)>| true implies
                    fields_view(old_fields) + (seq![x] + t) =~= fields_view(fields@) + t by {}
            }
        }
        proof {
            assert(all.skip(i as int).len() == 0);
            assert(fields_view(fields@) + Seq::empty() =~= fields_view(fields@));
        }
        Ok(Value::StructValue(fields))
    }
}

/// Why a value could not be parsed from text.
#[derive(Debug, Clone, Copy, PartialEq, Eq)]
pub enum ParseError {
    /// Not `true` or `false`.
    InvalidBool,
    /// Not a decimal integer of the type, for the reason given.
    InvalidInt(IntErrorKind),
    /// A record field is not followed by a `,`.
    InvalidValue,
}

/// The text of a parse error, as std words its boolean and integer errors.
pub open spec fn parse_error_text(e: ParseError) -> Seq<char> {
    match e {
        ParseError::InvalidBool => "provided string was not `true` or `false`"@,
        ParseError::InvalidInt(IntErrorKind::Empty) => "cannot parse integer from empty string"@,
        ParseError::InvalidInt(IntErrorKind::InvalidDigit) => "invalid digit found in string"@,
        ParseError::InvalidInt(IntErrorKind::PosOverflow) => "number too large to fit in target type"@,
        ParseError::InvalidInt(IntErrorKind::NegOverflow) => "number too small to fit in target type"@,
        ParseError::InvalidValue => "invalid value"@,
    }
}

impl ParseError {
    /// The text of this error.
    pub fn message(&self) -> (s: String)
        ensures
            s@ == parse_error_text(*self),
    {
        let text = match self {
            ParseError::InvalidBool => "provided string was not `true` or `false`",
            ParseError::InvalidInt(IntErrorKind::Empty) => "cannot parse integer from empty string",
            ParseError::InvalidInt(IntErrorKind::InvalidDigit) => "invalid digit found in string",
            ParseError::InvalidInt(IntErrorKind::PosOverflow) => "number too large to fit in target type",
            ParseError::InvalidInt(IntErrorKind::NegOverflow) => "number too small to fit in target type",
            ParseError::InvalidValue => "invalid value",
        };
        text.to_owned()
    }
}

/// A `u64` written as text, as std parses it.
pub open spec fn parse_u64_spec(s: Seq<char>) -> Result<u64, IntErrorKind> {
    match integer_value(s, false, 0, u64::MAX as int) {
        Ok(v) => Ok(v as u64),
        Err(e) => Err(e),
    }
}

/// The value of a primitive type written as text.
pub open spec fn parse_primitive_spec(p: PrimitiveType, s: Seq<char>) -> Result<ValueModel, ParseError> {
    match p {
        PrimitiveType::Boolean => if s == "true"@ {
            Ok(ValueModel::Boolean(true))
        } else if s == "false"@ {
            Ok(ValueModel::Boolean(false))
        } else {
            Err(ParseError::InvalidBool)
        },
        PrimitiveType::UInt32 => match integer_value(s, false, 0, u32::MAX as int) {
            Ok(v) => Ok(ValueModel::UInt32(v as u32)),
            Err(e) => Err(ParseError::InvalidInt(e)),
        },
        PrimitiveType::UInt64 => match parse_u64_spec(s) {
            Ok(v) => Ok(ValueModel::UInt64(v)),
            Err(e) => Err(ParseError::InvalidInt(e)),
        },
        PrimitiveType::Int32 => match integer_value(s, true, i32::MIN as int, i32::MAX as int) {
            Ok(v) => Ok(ValueModel::Int32(v as i32)),
            Err(e) => Err(ParseError::InvalidInt(e)),
        },
    }
}

/// The comma-separated elements of a hash, each a `u64`: their values, or
/// the error of the first that is not a `u64`.
pub open spec fn parse_hash_pieces(pieces: Seq<Seq<char>>) -> Result<Seq<u64>, ParseError>
    decreases pieces.len(),
{
    if pieces.len() == 0 {
        Ok(Seq::empty())
    } else {
        match parse_hash_pieces(pieces.drop_last()) {
            Err(e) => Err(e),
            Ok(vs) => match parse_u64_spec(pieces.last()) {
                Ok(v) => Ok(vs.push(v)),
                Err(e) => Err(ParseError::InvalidInt(e)),
            },
        }
    }
}

/// The value of type `t` written as text: a record as each field followed
/// by a `,`, a hash as four comma-separated elements, a string as itself.
pub open spec fn parse_spec(t: Type, s: Seq<char>) -> Result<ValueModel, ParseError>
    decreases t, 1int,
{
    match t {
        Type::PrimitiveType(p) => parse_primitive_spec(p, s),
        Type::Struct(st) => match parse_fields_spec(st.fields@, s) {
            Ok(fields) => Ok(ValueModel::StructValue(fields)),
            Err(e) => Err(e),
        },
        Type::Hash => match parse_hash_pieces(split_on(s, ',')) {
            Ok(vs) => Ok(ValueModel::Hash(vs)),
            Err(e) => Err(e),
        },
        Type::String => Ok(ValueModel::String(s)),
    }
}

pub open spec fn parse_fields_spec(fields: Seq<(String, Type)>, s: Seq<char>) -> Result<
    Seq<(Seq<char>, ValueModel)>,
    ParseError,
>
    decreases fields, 0int,
{
    if fields.len() == 0 {
        Ok(Seq::empty())
    } else {
        match split_once_spec(s, ',') {
            None => Err(ParseError::InvalidValue),
            Some((piece, rest)) => match parse_spec(fields[0].1, piece) {
                Err(e) => Err(e),
                Ok(v) => match parse_fields_spec(fields.drop_first(), rest) {
                    Err(e) => Err(e),
                    Ok(vs) => Ok(seq![(fields[0].0@, v)] + vs),
                },
            },
        }
    }
}

/// Parsing `t` from `s` does not fault: a hash whose elements all parse has
/// exactly four of them.
pub open spec fn parse_ok(t: Type, s: Seq<char>) -> bool
    decreases t, 1int,
{
    match t {
        Type::Hash => parse_hash_pieces(split_on(s, ',')) is Ok ==> split_on(s, ',').len() == 4,
        Type::Struct(st) => parse_fields_ok(st.fields@, s),
        _ => true,
    }
}

pub open spec fn parse_fields_ok(fields: Seq<(String, Type)>, s: Seq<char>) -> bool
    decreases fields, 0int,
{
    if fields.len() == 0 {
        true
    } else {
        split_once_spec(s, ',') matches Some((piece, rest)) ==> {
            &&& parse_ok(fields[0].1, piece)
            &&& parse_spec(fields[0].1, piece) is Ok ==> parse_fields_ok(fields.drop_first(), rest)
        }
    }
}

proof fn lemma_integer_value_range(s: Seq<char>, signed: bool, lo: int, hi: int)
    ensures
        integer_value(s, signed, lo, hi) matches Ok(v) ==> lo <= v <= hi,
{
    if s.len() > 0 {
        let d = if s[0] == '+' || (s[0] == '-' && signed) { s.skip(1) } else { s };
        lemma_scan_range(d, s.len() > 0 && s[0] == '-' && signed, lo, hi);
    }
}

proof fn lemma_scan_range(d: Seq<char>, negative: bool, lo: int, hi: int)
    ensures
        crate::decimal::scan_digits(d, negative, lo, hi) matches Ok(v) ==> (d.len() == 0 && v == 0)
            || lo <= v <= hi,
    decreases d.len(),
{
    if d.len() > 0 {
        lemma_scan_range(d.drop_last(), negative, lo, hi);
    }
}

fn parse_u64(s: &str) -> (r: Result<u64, IntErrorKind>)
    ensures
        r == parse_u64_spec(s@),
{
    let chars = chars_of(s);
    proof {
        lemma_integer_value_range(s@, false, 0, u64::MAX as int);
    }
    match parse_integer(&chars, false, 0, u64::MAX as i128) {
        Ok(v) => Ok(v as u64),
        Err(e) => Err(e),
    }
}

impl PrimitiveType {
    /// Parses a value of this type from text.
    pub fn parse(&self, value: &str) -> (r: Result<Value, ParseError>)
        ensures
            match (r, parse_primitive_spec(*self, value@)) {
                (Ok(v), Ok(m)) => v@ == m,
                (Err(e), Err(f)) => e == f,
                _ => false,
            },
    {
        match self {
            PrimitiveType::Boolean => {
                if str_eq(value, "true") {
                    Ok(Value::Boolean(true))
                } else if str_eq(value, "false") {
                    Ok(Value::Boolean(false))
                } else {
                    Err(ParseError::InvalidBool)
                }
            },
            PrimitiveType::UInt32 => {
                let chars = chars_of(value);
                proof {
                    lemma_integer_value_range(value@, false, 0, u32::MAX as int);
                }
                match parse_integer(&chars, false, 0, u32::MAX as i128) {
                    Ok(v) => Ok(Value::UInt32(v as u32)),
                    Err(e) => Err(ParseError::InvalidInt(e)),
                }
            },
            PrimitiveType::UInt64 => match parse_u64(value) {
                Ok(v) => Ok(Value::UInt64(v)),
                Err(e) => Err(ParseError::InvalidInt(e)),
            },
            PrimitiveType::Int32 => {
                let chars = chars_of(value);
                proof {
                    lemma_integer_value_range(value@, true, i32::MIN as int, i32::MAX as int);
                }
                match parse_integer(&chars, true, i32::MIN as i128, i32::MAX as i128) {
                    Ok(v) => Ok(Value::Int32(v as i32)),
                    Err(e) => Err(ParseError::InvalidInt(e)),
                }
            },
        }
    }
}

fn parse_hash(value: &str) -> (r: Result<Value, ParseError>)
    requires
        parse_ok(Type::Hash, value@),
    ensures
        match (r, parse_spec(Type::Hash, value@)) {
            (Ok(v), Ok(m)) => v@ == m,
            (Err(e), Err(f)) => e == f,
            _ => false,
        },
{
    let pieces = split_string(value, ',');
    let ghost ps = pieces@.map_values(|p: String| p@);
    let mut bytes: Vec<u64> = Vec::new();
    let mut i: usize = 0;
    while i < pieces.len()
        invariant
            i <= pieces@.len(),
            ps == pieces@.map_values(|p: String| p@),
            ps == split_on(value@, ','),
            parse_hash_pieces(ps.take(i as int)) == Ok::<Seq<u64>, ParseError>(bytes@),
        decreases pieces@.len() - i,
    {
        proof {
            assert(ps.take(i + 1).drop_last() =~= ps.take(i as int));
            assert(ps.take(i + 1).last() == pieces@[i as int]@);
        }
        match parse_u64(pieces[i].as_str()) {
            Ok(v) => bytes.push(v),
            Err(e) => {
                proof {
                    lemma_parse_hash_pieces_error(ps, i as int + 1);
                }
                return Err(ParseError::InvalidInt(e));
            },
        }
        i = i + 1;
    }
    proof {
        assert(ps.take(i as int) =~= ps);
        lemma_parse_hash_pieces_len(ps);
    }
    let hash = [bytes[0], bytes[1], bytes[2], bytes[3]];
    proof {
        assert(hash@ =~= bytes@);
    }
    Ok(Value::Hash(hash))
}

proof fn lemma_parse_hash_pieces_len(ps: Seq<Seq<char>>)
    ensures
        parse_hash_pieces(ps) matches Ok(vs) ==> vs.len() == ps.len(),
    decreases ps.len(),
{
    if ps.len() > 0 {
        lemma_parse_hash_pieces_len(ps.drop_last());
    }
}

/// An error among the first pieces is the error of all of them.
proof fn lemma_parse_hash_pieces_error(ps: Seq<Seq<char>>, k: int)
    requires
        0 <= k <= ps.len(),
        parse_hash_pieces(ps.take(k)) is Err,
    ensures
        parse_hash_pieces(ps) == parse_hash_pieces(ps.take(k)),
    decreases ps.len() - k,
{
    if k < ps.len() {
        assert(ps.take(k + 1).drop_last() =~= ps.take(k));
        lemma_parse_hash_pieces_error(ps, k + 1);
    } else {
        assert(ps.take(k) =~= ps);
    }
}

impl Type {
    /// Parses a value of this type from text.
    pub fn parse(&self, value: &str) -> (r: Result<Value, ParseError>)
        requires
            parse_ok(*self, value@),
        ensures
            match (r, parse_spec(*self, value@)) {
                (Ok(v), Ok(m)) => v@ == m,
                (Err(e), Err(f)) => e == f,
                _ => false,
            },
        decreases self, 1int,
    {
        match self {
            Type::PrimitiveType(p) => p.parse(value),
            Type::Struct(s) => s.parse(value),
            Type::Hash => parse_hash(value),
            Type::String => Ok(Value::String(value.to_owned())),
        }
    }
}

impl Struct {
    /// Parses the fields of this record from text, each followed by a `,`.
    pub fn parse(&self, value: &str) -> (r: Result<Value, ParseError>)
        requires
            parse_ok(Type::Struct(*self), value@),
        ensures
            match (r, parse_spec(Type::Struct(*self), value@)) {
                (Ok(v), Ok(m)) => v@ == m,
                (Err(e), Err(f)) => e == f,
                _ => false,
            },
        decreases self, 0int,
    {
        let ghost all = self.fields@;
        let mut fields: Vec<(String, Value)> = Vec::new();
        let mut rest: String = value.to_owned();
        let mut i: usize = 0;
        proof {
            assert(all.skip(0) =~= all);
            assert forall|tail: Seq<(Seq<char>, ValueModel)>| true implies fields_view(fields@) + tail =~= tail by {}
        }
        while i < self.fields.len()
            invariant
                i <= all.len(),
                all == self.fields@,
                parse_fields_ok(all.skip(i as int), rest@),
                parse_fields_spec(all, value@) == (match parse_fields_spec(all.skip(i as int), rest@) {
                    Ok(tail) => Ok(fields_view(fields@) + tail),
                    Err(e) => Err(e),
                }),
            decreases all.len() - i,
        {
            let ghost remaining = all.skip(i as int);
            let ghost old_fields = fields@;
            let ghost old_rest = rest@;
            proof {
                assert(remaining[0] == all[i as int]);
                assert(remaining.drop_first() =~= all.skip(i + 1));
                assert(decreases_to!(self => self.fields));
                assert(decreases_to!(self.fields => self.fields@[i as int]));
                assert(decreases_to!(self.fields@[i as int] => self.fields@[i as int].1));
            }
            let (name, type_) = &self.fields[i];
            let (field_value, tail) = match split_once(rest.as_str(), ',') {
                Some(parts) => parts,
                None => return Err(ParseError::InvalidValue),
            };
            let value = match type_.parse(field_value.as_str()) {
                Ok(v) => v,
                Err(e) => return Err(e),
            };
            fields.push((name.clone(), value));
            rest = tail;
            i = i + 1;
            proof {
                let x = (name@, value@);
                assert(fields@.drop_last() =~= old_fields);
                assert(fields_view(fields@) == fields_view(old_fields).push(x));
                assert forall|t: Seq<(Seq<char>, ValueModel)>| true implies
                    fields_view(old_fields) + (seq![x] + t) =~= fields_view(fields@) + t by {}
            }
        }
        proof {
            assert(all.skip(i as int).len() == 0);
            assert(fields_view(fields@) + Seq::empty() =~= fields_view(fields@));
        }
        Ok(Value::StructValue(fields))
    }
}

} // verus!
