//! End-to-end generation cases: parse a raw record description, emit the
//! projection and complement types, and check every part of the output.

use substruct::emit::{emit, generate, GeneratedStruct};
use substruct::schema::{
    parse_schema, Field, InputShape, PartsDecl, RawField, RawInput, TagForm,
};

fn raw_field(name: &str, ty: &str, vis: &str, tag: Option<&str>) -> RawField {
    RawField {
        name: name.to_string(),
        ty: ty.to_string(),
        vis: vis.to_string(),
        tag: tag.map(|t| TagForm::Literal(t.to_string())),
    }
}

fn raw_input(
    name: &str,
    vis: &str,
    generics: &str,
    fields: Vec<RawField>,
    parts: Vec<&str>,
) -> RawInput {
    RawInput {
        name: name.to_string(),
        vis: vis.to_string(),
        generics: generics.to_string(),
        shape: InputShape::NamedFieldStruct,
        fields,
        parts: Some(PartsDecl::Names(parts.iter().map(|p| p.to_string()).collect())),
    }
}

fn bare_field(name: &str, ty: &str, vis: &str) -> Field {
    Field {
        name: name.to_string(),
        ty: ty.to_string(),
        vis: vis.to_string(),
        raw_tag: None,
    }
}

fn generated(name: &str, vis: &str, generics: &str, fields: Vec<Field>) -> GeneratedStruct {
    GeneratedStruct {
        name: name.to_string(),
        vis: vis.to_string(),
        generics: generics.to_string(),
        fields,
    }
}

#[test]
fn private_struct_no_generics() {
    let sut = raw_input(
        "Sut",
        "",
        "",
        vec![
            raw_field("a", "u8", "", Some("a")),
            raw_field("b", "u8", "", None),
        ],
        vec!["A"],
    );
    let schema = parse_schema(sut).unwrap();
    let out = emit(&schema);
    assert_eq!(
        out,
        vec![
            generated("ASut", "", "", vec![bare_field("a", "u8", "")]),
            generated("CoASut", "", "", vec![bare_field("b", "u8", "")]),
        ]
    );

    let sut1 = raw_input(
        "Sut1",
        "pub(crate)",
        "",
        vec![
            raw_field("a", "i32", "", Some("a")),
            raw_field("b", "i32", "", Some("a,b")),
            raw_field("c", "i32", "", None),
        ],
        vec!["A", "B"],
    );
    let schema1 = parse_schema(sut1).unwrap();
    let out1 = emit(&schema1);
    assert_eq!(
        out1,
        vec![
            generated(
                "ASut1",
                "pub(crate)",
                "",
                vec![bare_field("a", "i32", ""), bare_field("b", "i32", "")]
            ),
            generated("CoASut1", "pub(crate)", "", vec![bare_field("c", "i32", "")]),
            generated("BSut1", "pub(crate)", "", vec![bare_field("b", "i32", "")]),
            generated(
                "CoBSut1",
                "pub(crate)",
                "",
                vec![bare_field("a", "i32", ""), bare_field("c", "i32", "")]
            ),
        ]
    );
}

#[test]
fn private_struct_generics_without_phantom() {
    let sut = raw_input(
        "Sut",
        "",
        "<T>",
        vec![raw_field("a", "T", "", None), raw_field("b", "u8", "", None)],
        vec!["A"],
    );
    let schema = parse_schema(sut).unwrap();
    let out = emit(&schema);
    assert_eq!(
        out,
        vec![
            generated("ASut", "", "<T>", vec![]),
            generated(
                "CoASut",
                "",
                "<T>",
                vec![bare_field("a", "T", ""), bare_field("b", "u8", "")]
            ),
        ]
    );
}

#[test]
fn projection_and_complement_of_single_partition() {
    // A tagged field lands in the projection, an untagged one in the
    // complement, and the generated names carry the partition prefix.
    let input = raw_input(
        "Rec",
        "pub",
        "",
        vec![
            raw_field("a", "u8", "pub", Some("A")),
            raw_field("b", "u8", "", None),
        ],
        vec!["A"],
    );
    let schema = parse_schema(input).unwrap();
    let out = emit(&schema);
    assert_eq!(out.len(), 2);
    assert_eq!(out[0].name, "ARec");
    assert_eq!(out[0].fields, vec![bare_field("a", "u8", "pub")]);
    assert_eq!(out[1].name, "CoARec");
    assert_eq!(out[1].fields, vec![bare_field("b", "u8", "")]);
}

#[test]
fn tags_resolve_case_insensitively_and_trimmed() {
    let input = raw_input(
        "Rec",
        "",
        "",
        vec![
            raw_field("x", "u8", "", Some("  fIrSt , SECOND  ")),
            raw_field("y", "u8", "", Some("second")),
        ],
        vec!["First", "Second"],
    );
    let schema = parse_schema(input).unwrap();
    let out = emit(&schema);
    assert_eq!(out.len(), 4);
    assert_eq!(out[0].name, "FirstRec");
    assert_eq!(out[0].fields, vec![bare_field("x", "u8", "")]);
    assert_eq!(out[1].name, "CoFirstRec");
    assert_eq!(out[1].fields, vec![bare_field("y", "u8", "")]);
    assert_eq!(out[2].name, "SecondRec");
    assert_eq!(
        out[2].fields,
        vec![bare_field("x", "u8", ""), bare_field("y", "u8", "")]
    );
    assert_eq!(out[3].name, "CoSecondRec");
    assert_eq!(out[3].fields, Vec::<Field>::new());
}

#[test]
fn duplicate_partition_names_collapse() {
    let input = raw_input(
        "Rec",
        "",
        "",
        vec![raw_field("a", "u8", "", Some("a"))],
        vec!["A", "A"],
    );
    let schema = parse_schema(input).unwrap();
    assert_eq!(schema.partitions, vec!["A".to_string()]);
    let out = emit(&schema);
    assert_eq!(out.len(), 2);
}

#[test]
fn generate_runs_the_whole_pass() {
    let input = raw_input(
        "Whole",
        "pub",
        "<T, U>",
        vec![
            raw_field("left", "T", "pub", Some("l")),
            raw_field("right", "U", "", None),
        ],
        vec!["L"],
    );
    let out = generate(input).unwrap();
    assert_eq!(
        out,
        vec![
            generated("LWhole", "pub", "<T, U>", vec![bare_field("left", "T", "pub")]),
            generated("CoLWhole", "pub", "<T, U>", vec![bare_field("right", "U", "")]),
        ]
    );
}

#[test]
fn generate_reports_the_first_failure_and_emits_nothing() {
    let input = raw_input(
        "Whole",
        "",
        "",
        vec![raw_field("f", "u8", "", Some("missing"))],
        vec!["Here"],
    );
    let r = generate(input);
    assert!(matches!(
        r,
        Err(substruct::schema::Error::UnknownPartitionReference { .. })
    ));
}

#[test]
fn field_order_is_preserved_in_both_lists() {
    let input = raw_input(
        "Rec",
        "",
        "",
        vec![
            raw_field("f0", "u8", "", Some("p")),
            raw_field("f1", "u8", "", None),
            raw_field("f2", "u8", "", Some("p")),
            raw_field("f3", "u8", "", None),
            raw_field("f4", "u8", "", Some("p")),
        ],
        vec!["P"],
    );
    let schema = parse_schema(input).unwrap();
    let out = emit(&schema);
    let member_names: Vec<&str> = out[0].fields.iter().map(|f| f.name.as_str()).collect();
    let complement_names: Vec<&str> = out[1].fields.iter().map(|f| f.name.as_str()).collect();
    assert_eq!(member_names, vec!["f0", "f2", "f4"]);
    assert_eq!(complement_names, vec!["f1", "f3"]);
}
