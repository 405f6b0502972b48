//! Every validation failure: the shape check, the three declaration
//! checks, the tag-form check, and unknown partition references, with
//! first-error ordering.

use substruct::schema::{
    parse_schema, Error, InputShape, PartsDecl, RawField, RawInput, TagForm,
};

fn raw_field(name: &str, ty: &str, tag: Option<TagForm>) -> RawField {
    RawField {
        name: name.to_string(),
        ty: ty.to_string(),
        vis: String::new(),
        tag,
    }
}

fn literal(t: &str) -> Option<TagForm> {
    Some(TagForm::Literal(t.to_string()))
}

fn input_with(shape: InputShape, fields: Vec<RawField>, parts: Option<PartsDecl>) -> RawInput {
    RawInput {
        name: "Rec".to_string(),
        vis: String::new(),
        generics: String::new(),
        shape,
        fields,
        parts,
    }
}

fn names(parts: Vec<&str>) -> Option<PartsDecl> {
    Some(PartsDecl::Names(parts.iter().map(|p| p.to_string()).collect()))
}

#[test]
fn rejects_non_record_shapes() {
    for shape in [
        InputShape::TupleStruct,
        InputShape::UnitStruct,
        InputShape::EnumType,
        InputShape::UnionType,
    ] {
        let input = input_with(shape, vec![], names(vec!["A"]));
        assert_eq!(parse_schema(input), Err(Error::UnsupportedShape));
    }
}

#[test]
fn rejects_empty_record() {
    // A named-field record with zero fields is an unsupported shape, and
    // that outranks any declaration problem.
    let empty = input_with(InputShape::NamedFieldStruct, vec![], names(vec!["A"]));
    assert_eq!(parse_schema(empty), Err(Error::UnsupportedShape));
    let empty_no_decl = input_with(InputShape::NamedFieldStruct, vec![], None);
    assert_eq!(parse_schema(empty_no_decl), Err(Error::UnsupportedShape));
}

#[test]
fn rejects_missing_partition_declaration() {
    let input = input_with(
        InputShape::NamedFieldStruct,
        vec![raw_field("a", "u8", None)],
        None,
    );
    assert_eq!(parse_schema(input), Err(Error::MissingPartitionDeclaration));
}

#[test]
fn rejects_empty_partition_declaration() {
    // A schema with zero declared partitions is refused outright.
    let input = input_with(
        InputShape::NamedFieldStruct,
        vec![raw_field("a", "u8", None)],
        names(vec![]),
    );
    assert_eq!(parse_schema(input), Err(Error::EmptyPartitionDeclaration));
}

#[test]
fn rejects_malformed_partition_declaration() {
    let input = input_with(
        InputShape::NamedFieldStruct,
        vec![raw_field("a", "u8", None)],
        Some(PartsDecl::Malformed),
    );
    assert_eq!(parse_schema(input), Err(Error::MalformedPartitionDeclaration));
}

#[test]
fn rejects_malformed_field_tag() {
    let input = input_with(
        InputShape::NamedFieldStruct,
        vec![raw_field("good", "u8", literal("a")), raw_field("bad", "u8", Some(TagForm::Malformed))],
        names(vec!["A"]),
    );
    assert_eq!(
        parse_schema(input),
        Err(Error::MalformedFieldTag { field: "bad".to_string() })
    );
}

#[test]
fn rejects_unknown_partition_reference() {
    // A tag naming a partition absent from {A, B} is refused, and the
    // error names the field and the offending token.
    let input = input_with(
        InputShape::NamedFieldStruct,
        vec![raw_field("a", "u8", literal("a")), raw_field("b", "u8", literal("a,Z"))],
        names(vec!["A", "B"]),
    );
    assert_eq!(
        parse_schema(input),
        Err(Error::UnknownPartitionReference { field: "b".to_string(), token: "Z".to_string() })
    );
}

#[test]
fn unknown_reference_rejected_regardless_of_other_fields() {
    // The surrounding fields are all valid; the lone bad token still
    // aborts the pass.
    let input = input_with(
        InputShape::NamedFieldStruct,
        vec![
            raw_field("a", "u8", literal("a")),
            raw_field("x", "u8", literal("nowhere")),
            raw_field("b", "u8", None),
        ],
        names(vec!["A"]),
    );
    assert_eq!(
        parse_schema(input),
        Err(Error::UnknownPartitionReference {
            field: "x".to_string(),
            token: "nowhere".to_string(),
        })
    );
}

#[test]
fn empty_tag_is_an_unknown_reference() {
    // An empty tag string has one empty token, which resolves to nothing.
    let input = input_with(
        InputShape::NamedFieldStruct,
        vec![raw_field("a", "u8", literal(""))],
        names(vec!["A"]),
    );
    assert_eq!(
        parse_schema(input),
        Err(Error::UnknownPartitionReference { field: "a".to_string(), token: String::new() })
    );
}

#[test]
fn first_error_wins_across_fields() {
    // A malformed tag on an earlier field is reported before a later
    // field's unknown reference.
    let input = input_with(
        InputShape::NamedFieldStruct,
        vec![
            raw_field("early", "u8", Some(TagForm::Malformed)),
            raw_field("late", "u8", literal("Z")),
        ],
        names(vec!["A"]),
    );
    assert_eq!(
        parse_schema(input),
        Err(Error::MalformedFieldTag { field: "early".to_string() })
    );
}

#[test]
fn first_unresolvable_token_is_reported() {
    let input = input_with(
        InputShape::NamedFieldStruct,
        vec![raw_field("f", "u8", literal("a, Y ,Z"))],
        names(vec!["A"]),
    );
    assert_eq!(
        parse_schema(input),
        Err(Error::UnknownPartitionReference { field: "f".to_string(), token: "Y".to_string() })
    );
}

#[test]
fn shape_is_checked_before_the_declaration() {
    let input = input_with(InputShape::EnumType, vec![], None);
    assert_eq!(parse_schema(input), Err(Error::UnsupportedShape));
}
