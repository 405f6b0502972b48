//! The partition table itself: completeness, disjointness, the
//! untagged-field rule and the round trip, checked on concrete schemas.

use substruct::engine::build_table;
use substruct::schema::{parse_schema, InputShape, PartsDecl, RawField, RawInput, TagForm};

fn raw_field(name: &str, tag: Option<&str>) -> RawField {
    RawField {
        name: name.to_string(),
        ty: "u8".to_string(),
        vis: String::new(),
        tag: tag.map(|t| TagForm::Literal(t.to_string())),
    }
}

fn input(fields: Vec<RawField>, parts: Vec<&str>) -> RawInput {
    RawInput {
        name: "Rec".to_string(),
        vis: String::new(),
        generics: String::new(),
        shape: InputShape::NamedFieldStruct,
        fields,
        parts: Some(PartsDecl::Names(parts.iter().map(|p| p.to_string()).collect())),
    }
}

#[test]
fn every_field_in_exactly_one_list_per_partition() {
    let schema = parse_schema(input(
        vec![
            raw_field("a", Some("a")),
            raw_field("b", Some("a,b")),
            raw_field("c", None),
        ],
        vec!["A", "B"],
    ))
    .unwrap();
    let table = build_table(&schema);
    assert_eq!(table.len(), 2);
    for slot in &table {
        for field in &schema.fields {
            let in_members = slot.members.iter().filter(|f| f.name == field.name).count();
            let in_complement = slot.complement.iter().filter(|f| f.name == field.name).count();
            assert_eq!(in_members + in_complement, 1);
        }
        // Round trip: members and complement together are the schema's
        // fields, with no duplication and no omission.
        assert_eq!(slot.members.len() + slot.complement.len(), schema.fields.len());
    }
}

#[test]
fn untagged_field_is_in_every_complement_and_no_members() {
    let schema = parse_schema(input(
        vec![raw_field("tagged", Some("a")), raw_field("plain", None)],
        vec!["A", "B"],
    ))
    .unwrap();
    let table = build_table(&schema);
    for slot in &table {
        assert!(slot.members.iter().all(|f| f.name != "plain"));
        assert!(slot.complement.iter().any(|f| f.name == "plain"));
    }
}

#[test]
fn table_rows_follow_declaration_order() {
    let schema = parse_schema(input(
        vec![raw_field("a", Some("one,three"))],
        vec!["One", "Two", "Three"],
    ))
    .unwrap();
    let table = build_table(&schema);
    let order: Vec<&str> = table.iter().map(|s| s.partition.as_str()).collect();
    assert_eq!(order, vec!["One", "Two", "Three"]);
    assert_eq!(table[0].members.len(), 1);
    assert_eq!(table[1].members.len(), 0);
    assert_eq!(table[2].members.len(), 1);
}

#[test]
fn tag_metadata_is_kept_on_schema_fields_but_stripped_on_emission() {
    let schema = parse_schema(input(vec![raw_field("a", Some("a"))], vec!["A"])).unwrap();
    assert_eq!(schema.fields[0].raw_tag, Some("a".to_string()));
    let out = substruct::emit::emit(&schema);
    assert!(out.iter().all(|g| g.fields.iter().all(|f| f.raw_tag.is_none())));
}
