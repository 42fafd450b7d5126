use polylang::stableast::{
    Array, DirectiveArgument, FieldReference, ForeignRecord, MapType, Object, ObjectField,
    Primitive, PrimitiveType, PublicKey, Record, Type,
};

#[test]
fn type_display_string() {
    let type_ = Type::Primitive(Primitive {
        value: PrimitiveType::String,
    });

    assert_eq!(type_.to_string(), "string");
}

#[test]
fn type_display_object() {
    let type_ = Type::Object(Object {
        fields: vec![
            ObjectField {
                name: "b".to_string(),
                type_: Type::Primitive(Primitive {
                    value: PrimitiveType::Boolean,
                }),
                required: true,
            },
            ObjectField {
                name: "num".to_string(),
                type_: Type::Primitive(Primitive {
                    value: PrimitiveType::Number,
                }),
                required: false,
            },
            ObjectField {
                name: "emptyObject".to_string(),
                type_: Type::Object(Object { fields: vec![] }),
                required: true,
            },
            ObjectField {
                name: "col".to_string(),
                type_: Type::ForeignRecord(ForeignRecord {
                    collection: "Col".to_string(),
                }),
                required: true,
            },
            ObjectField {
                name: "stringArray".to_string(),
                type_: Type::Array(Array {
                    value: Box::new(Type::Primitive(Primitive {
                        value: PrimitiveType::String,
                    })),
                }),
                required: true,
            },
            ObjectField {
                name: "mapStringToNumber".to_string(),
                type_: Type::Mapping(MapType {
                    key: Box::new(Type::Primitive(Primitive {
                        value: PrimitiveType::String,
                    })),
                    value: Box::new(Type::Primitive(Primitive {
                        value: PrimitiveType::Number,
                    })),
                }),
                required: true,
            },
            ObjectField {
                name: "publicKey".to_string(),
                type_: Type::PublicKey(PublicKey {}),
                required: true,
            },
        ],
    });

    assert_eq!(
        type_.to_string(),
        "{ b: boolean; num?: number; emptyObject: { }; col: Col; stringArray: string[]; mapStringToNumber: map<string, number>; publicKey: PublicKey; }"
    );
}

#[test]
fn type_display_remaining_kinds() {
    assert_eq!(Type::Record(Record {}).to_string(), "record");
    assert_eq!(Type::Unknown.to_string(), "UNKNOWN");
    let names = [
        (PrimitiveType::String, "string"),
        (PrimitiveType::Number, "number"),
        (PrimitiveType::F32, "f32"),
        (PrimitiveType::F64, "f64"),
        (PrimitiveType::U32, "u32"),
        (PrimitiveType::U64, "u64"),
        (PrimitiveType::I32, "i32"),
        (PrimitiveType::I64, "i64"),
        (PrimitiveType::Boolean, "boolean"),
        (PrimitiveType::Bytes, "bytes"),
    ];
    for (p, name) in names {
        assert_eq!(p.to_string(), name);
        assert_eq!(Type::Primitive(Primitive { value: p }).to_string(), name);
    }
    let nested = Type::Array(Array {
        value: Box::new(Type::Array(Array {
            value: Box::new(Type::Primitive(Primitive {
                value: PrimitiveType::U32,
            })),
        })),
    });
    assert_eq!(nested.to_string(), "u32[][]");
}

#[test]
fn field_reference_splits_on_dots() {
    let r = FieldReference::from_identifier("person.name");
    assert_eq!(r.path, vec!["person".to_string(), "name".to_string()]);
    let single = FieldReference::from_identifier("owner");
    assert_eq!(single.path, vec!["owner".to_string()]);
    let empty = FieldReference::from_identifier("");
    assert_eq!(empty.path, vec!["".to_string()]);
    let edges = FieldReference::from_identifier(".a..b.");
    assert_eq!(
        edges.path,
        vec!["", "a", "", "b", ""]
            .into_iter()
            .map(String::from)
            .collect::<Vec<_>>()
    );
    let unicode = FieldReference::from_identifier("ą.ż");
    assert_eq!(unicode.path, vec!["ą".to_string(), "ż".to_string()]);
    assert_eq!(
        DirectiveArgument::from_identifier("a.b"),
        DirectiveArgument::FieldReference(FieldReference {
            path: vec!["a".to_string(), "b".to_string()]
        })
    );
}
