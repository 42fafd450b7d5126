//! The stable, serialisable description of collections: their properties,
//! methods, indexes and directives, and the field types they use.

use vstd::prelude::*;

use crate::text::{split_on, split_string};

verus! {

#[derive(Debug, PartialEq)]
pub struct Root(pub Vec<RootNode>);

#[derive(Debug, PartialEq)]
pub enum RootNode {
    Collection(Collection),
    Unknown,
}

#[derive(Debug, PartialEq)]
pub struct Collection {
    pub namespace: Namespace,
    pub name: String,
    pub attributes: Vec<CollectionAttribute>,
}

#[derive(Debug, PartialEq)]
pub struct Namespace {
    pub value: String,
}

#[derive(Debug, PartialEq)]
pub enum CollectionAttribute {
    Property(Property),
    Method(Method),
    Index(Index),
    Directive(Directive),
    Unknown,
}

#[derive(Debug, PartialEq)]
pub struct Property {
    pub name: String,
    pub type_: Type,
    pub directives: Vec<Directive>,
    pub required: bool,
}

#[derive(Debug, PartialEq)]
pub struct Method {
    pub name: String,
    pub attributes: Vec<MethodAttribute>,
    pub code: String,
}

#[derive(Debug, PartialEq)]
pub struct Index {
    pub fields: Vec<IndexField>,
}

#[derive(Debug, PartialEq)]
pub struct IndexField {
    pub direction: Direction,
    pub field_path: Vec<String>,
}

#[derive(Debug, PartialEq)]
pub enum Direction {
    Asc,
    Desc,
}

#[derive(Debug, PartialEq)]
pub enum MethodAttribute {
    Directive(Directive),
    Parameter(Parameter),
    ReturnValue(ReturnValue),
    Unknown,
}

#[derive(Debug, Default, PartialEq)]
pub struct Directive {
    pub name: String,
    pub arguments: Vec<DirectiveArgument>,
}

#[derive(Debug, PartialEq)]
pub enum DirectiveArgument {
    FieldReference(FieldReference),
    Unknown,
}

#[derive(Debug, PartialEq)]
pub struct FieldReference {
    pub path: Vec<String>,
}

#[derive(Debug, PartialEq)]
pub struct Parameter {
    pub name: String,
    pub type_: Type,
    pub required: bool,
}

#[derive(Debug, PartialEq)]
pub struct ReturnValue {
    pub name: String,
    pub type_: Type,
}

#[derive(Debug, PartialEq)]
pub enum Type {
    Primitive(Primitive),
    Array(Array),
    Mapping(MapType),
    Object(Object),
    Record(Record),
    ForeignRecord(ForeignRecord),
    PublicKey(PublicKey),
    Unknown,
}

#[derive(Debug, PartialEq, Clone)]
pub struct Primitive {
    pub value: PrimitiveType,
}

#[derive(Debug, PartialEq, Clone)]
pub enum PrimitiveType {
    String,
    Number,
    F32,
    F64,
    U32,
    U64,
    I32,
    I64,
    Boolean,
    Bytes,
}

#[derive(Debug, PartialEq)]
pub struct Array {
    pub value: Box<Type>,
}

#[derive(Debug, PartialEq)]
pub struct MapType {
    pub key: Box<Type>,
    pub value: Box<Type>,
}

#[derive(Debug, PartialEq)]
pub struct Object {
    pub fields: Vec<ObjectField>,
}

#[derive(Debug, PartialEq)]
pub struct ObjectField {
    pub name: String,
    pub type_: Type,
    pub required: bool,
}

#[derive(Debug, PartialEq, Clone)]
pub struct Record {}

#[derive(Debug, PartialEq, Clone)]
pub struct PublicKey {}

#[derive(Debug, PartialEq, Clone)]
pub struct ForeignRecord {
    pub collection: String,
}

/// The name of a primitive type as written in Polylang.
pub open spec fn primitive_text(p: PrimitiveType) -> Seq<char> {
    match p {
        PrimitiveType::String => "string"@,
        PrimitiveType::Number => "number"@,
        PrimitiveType::F32 => "f32"@,
        PrimitiveType::F64 => "f64"@,
        PrimitiveType::U32 => "u32"@,
        PrimitiveType::U64 => "u64"@,
        PrimitiveType::I32 => "i32"@,
        PrimitiveType::I64 => "i64"@,
        PrimitiveType::Boolean => "boolean"@,
        PrimitiveType::Bytes => "bytes"@,
    }
}

/// A type as written in Polylang source: `string[]`, `map<string, number>`,
/// `{ name: string; age?: number; }`, the collection name of a foreign
/// record, and so on.
pub open spec fn type_text(t: Type) -> Seq<char>
    decreases t,
{
    match t {
        Type::Primitive(p) => primitive_text(p.value),
        Type::Array(a) => type_text(*a.value) + "[]"@,
        Type::Mapping(m) => "map<"@ + type_text(*m.key) + ", "@ + type_text(*m.value) + ">"@,
        Type::Object(o) => "{ "@ + fields_text(o.fields@) + "}"@,
        Type::Record(_) => "record"@,
        Type::ForeignRecord(fr) => fr.collection@,
        Type::PublicKey(_) => "PublicKey"@,
        Type::Unknown => "UNKNOWN"@,
    }
}

/// Each field as `name: type; ` (with `?` after the name of an optional
/// field), in order.
pub open spec fn fields_text(fields: Seq<ObjectField>) -> Seq<char>
    decreases fields,
{
    if fields.len() == 0 {
        Seq::empty()
    } else {
        let f = fields.last();
        fields_text(fields.drop_last()) + f.name@ + (if f.required {
            Seq::empty()
        } else {
            "?"@
        }) + ": "@ + type_text(f.type_) + ";"@ + " "@
    }
}

/// The text of an array type is the text of its element type followed by
/// `[]`, whatever the element type is.
pub proof fn lemma_array_text(a: Array)
    ensures
        type_text(Type::Array(a)) == type_text(*a.value) + seq!['[', ']'],
        type_text(Type::Array(a)).len() == type_text(*a.value).len() + 2,
        type_text(Type::Array(a)).last() == ']',
        type_text(Type::Array(a))[type_text(Type::Array(a)).len() - 2] == '[',
        type_text(Type::Array(a)).take(type_text(*a.value).len() as int) == type_text(*a.value),
{
    reveal_strlit("[]");
    assert(type_text(Type::Array(a)).take(type_text(*a.value).len() as int) =~= type_text(*a.value));
}

/// The text of a map type is `map<`, the key type's text, `, `, the value
/// type's text and `>`.
pub proof fn lemma_map_text(m: MapType)
    ensures
        type_text(Type::Mapping(m)) == seq!['m', 'a', 'p', '<'] + type_text(*m.key) + seq![',', ' '] + type_text(
            *m.value,
        ) + seq!['>'],
{
    reveal_strlit("map<");
    reveal_strlit(", ");
    reveal_strlit(">");
}

/// The text of an object type is its fields' text between `{ ` and `}`, and
/// each field adds `name: type; `, with `?` after the name of an optional
/// field, after the fields before it.
pub proof fn lemma_object_text(o: Object, fields: Seq<ObjectField>, field: ObjectField)
    ensures
        type_text(Type::Object(o)) == seq!['{', ' '] + fields_text(o.fields@) + seq!['}'],
        fields_text(Seq::<ObjectField>::empty()) == Seq::<char>::empty(),
        fields_text(fields.push(field)) == fields_text(fields) + field.name@ + (if field.required {
            Seq::<char>::empty()
        } else {
            seq!['?']
        }) + seq![':', ' '] + type_text(field.type_) + seq![';', ' '],
{
    reveal_strlit("{ ");
    reveal_strlit("}");
    reveal_strlit("?");
    reveal_strlit(": ");
    reveal_strlit(";");
    reveal_strlit(" ");
    assert(fields.push(field).drop_last() =~= fields);
    assert(";"@ + " "@ =~= seq![';', ' ']);
    assert(fields_text(fields.push(field)) =~= fields_text(fields) + field.name@ + (if field.required {
        Seq::<char>::empty()
    } else {
        seq!['?']
    }) + seq![':', ' '] + type_text(field.type_) + seq![';', ' ']);
}

impl PrimitiveType {
    /// The name of this primitive type.
    pub fn to_string(&self) -> (s: String)
        ensures
            s@ == primitive_text(*self),
    {
        let name = match self {
            PrimitiveType::String => "string",
            PrimitiveType::Number => "number",
            PrimitiveType::F32 => "f32",
            PrimitiveType::F64 => "f64",
            PrimitiveType::U32 => "u32",
            PrimitiveType::U64 => "u64",
            PrimitiveType::I32 => "i32",
            PrimitiveType::I64 => "i64",
            PrimitiveType::Boolean => "boolean",
            PrimitiveType::Bytes => "bytes",
        };
        name.to_owned()
    }
}

fn write_fields(fields: &Vec<ObjectField>, f: &mut String)
    ensures
        final(f)@ == old(f)@ + fields_text(fields@),
    decreases fields, 0int,
{
    let mut i: usize = 0;
    while i < fields.len()
        invariant
            i <= fields@.len(),
            f@ == old(f)@ + fields_text(fields@.take(i as int)),
        decreases fields@.len() - i,
    {
        let field = &fields[i];
        proof {
            assert(decreases_to!(fields => fields@[i as int]));
        }
        f.append(field.name.as_str());
        if !field.required {
            f.append("?");
        }
        f.append(": ");
        field.type_.write_to(f);
        f.append(";");
        f.append(" ");
        proof {
            assert(fields@.take(i + 1).drop_last() =~= fields@.take(i as int));
            assert(f@ =~= old(f)@ + fields_text(fields@.take(i + 1)));
        }
        i = i + 1;
    }
    proof {
        assert(fields@.take(i as int) =~= fields@);
    }
}

impl Type {
    /// Appends the Polylang text of this type.
    pub fn write_to(&self, f: &mut String)
        ensures
            final(f)@ == old(f)@ + type_text(*self),
        decreases self, 1int,
    {
        match self {
            Type::Primitive(p) => {
                let s = p.value.to_string();
                f.append(s.as_str());
            },
            Type::Array(a) => {
                a.value.write_to(f);
                f.append("[]");
            },
            Type::Mapping(m) => {
                f.append("map<");
                m.key.write_to(f);
                f.append(", ");
                m.value.write_to(f);
                f.append(">");
            },
            Type::Object(o) => {
                f.append("{ ");
                write_fields(&o.fields, f);
                f.append("}");
            },
            Type::Record(_) => f.append("record"),
            Type::ForeignRecord(fr) => f.append(fr.collection.as_str()),
            Type::PublicKey(_) => f.append("PublicKey"),
            Type::Unknown => f.append("UNKNOWN"),
        }
        proof {
            assert(final(f)@ =~= old(f)@ + type_text(*self));
        }
    }

    /// The Polylang text of this type.
    pub fn to_string(&self) -> (s: String)
        ensures
            s@ == type_text(*self),
    {
        let mut s = String::new();
        self.write_to(&mut s);
        proof {
            assert(s@ =~= type_text(*self));
        }
        s
    }
}

impl FieldReference {
    /// The reference named by a dotted identifier such as `person.name`:
    /// its path is the identifier cut at every `.`.
    pub fn from_identifier(identifier: &str) -> (r: FieldReference)
        ensures
            r.path@.map_values(|p: String| p@) == split_on(identifier@, '.'),
    {
        FieldReference { path: split_string(identifier, '.') }
    }
}

impl DirectiveArgument {
    /// The argument for an identifier written in a directive.
    pub fn from_identifier(identifier: &str) -> (a: DirectiveArgument)
        ensures
            a matches DirectiveArgument::FieldReference(r) && r.path@.map_values(|p: String| p@)
                == split_on(identifier@, '.'),
    {
        DirectiveArgument::FieldReference(FieldReference::from_identifier(identifier))
    }
}

} // verus!
