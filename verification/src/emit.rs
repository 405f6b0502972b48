//! The type emitter: for every declared partition, in declaration order,
//! two generated record-type definitions — the projection and its
//! complement — with field order, field visibility and the schema's
//! generic-parameter list kept, and tag metadata stripped.

use vstd::prelude::*;

use crate::engine::{build_table, complement_of, members_of};
use crate::schema::{
    error_matches, field_views, lemma_schema_from_raw_is_schema_v, parse_ok, parse_schema,
    schema_v_of_raw, Error, Field, FieldV, RawInput, Schema,
};

verus! {

/// A generated record-type definition.
#[derive(Debug, Clone, PartialEq, Eq)]
pub struct GeneratedStruct {
    pub name: String,
    pub vis: String,
    pub generics: String,
    pub fields: Vec<Field>,
}

/// The mathematical value of a [`GeneratedStruct`].
pub struct GeneratedStructV {
    pub name: Seq<char>,
    pub vis: Seq<char>,
    pub generics: Seq<char>,
    pub fields: Seq<FieldV>,
}

impl View for GeneratedStruct {
    type V = GeneratedStructV;

    open spec fn view(&self) -> GeneratedStructV {
        GeneratedStructV {
            name: self.name@,
            vis: self.vis@,
            generics: self.generics@,
            fields: field_views(self.fields@),
        }
    }
}

/// The field as it is emitted: the tag is an input directive, not data, and
/// is stripped.
pub open spec fn strip(f: FieldV) -> FieldV {
    FieldV { tag: None, ..f }
}

/// Every field stripped of its tag, order kept.
pub open spec fn strip_all(fs: Seq<FieldV>) -> Seq<FieldV> {
    fs.map_values(|f: FieldV| strip(f))
}

/// The field without its tag.
fn strip_field(f: &Field) -> (r: Field)
    ensures
        r@ == strip(f@),
{
    Field { name: f.name.clone(), ty: f.ty.clone(), vis: f.vis.clone(), raw_tag: None }
}

/// The fields without their tags, order kept.
fn strip_fields(v: &Vec<Field>) -> (r: Vec<Field>)
    ensures
        field_views(r@) == strip_all(field_views(v@)),
{
    let mut r: Vec<Field> = Vec::new();
    let mut i: usize = 0;
    while i < v.len()
        invariant
            i <= v@.len(),
            r@.len() == i,
            forall|j: int| 0 <= j < i ==> (#[trigger] r@[j])@ == strip(v@[j]@),
        decreases v@.len() - i,
    {
        r.push(strip_field(&v[i]));
        i += 1;
    }
    assert(field_views(r@) =~= strip_all(field_views(v@)));
    r
}

/// Emits the generated record types of a well-formed schema: for partition
/// `i`, the projection type `out[2 i]` named after the partition and the
/// schema, holding the partition's members, and the complement type
/// `out[2 i + 1]` with the name prefixed `Co`, holding the rest; both carry
/// the schema's visibility and generic-parameter list verbatim, and no tag.
pub fn emit(schema: &Schema) -> (out: Vec<GeneratedStruct>)
    requires
        schema.wf(),
    ensures
        out@.len() == 2 * schema@.partitions.len(),
        forall|i: int|
            0 <= i < schema@.partitions.len() ==> {
                &&& out@[2 * i]@.name == #[trigger] schema@.partitions[i] + schema@.name
                &&& out@[2 * i]@.vis == schema@.vis
                &&& out@[2 * i]@.generics == schema@.generics
                &&& out@[2 * i]@.fields == strip_all(
                    members_of(schema@.fields, schema@.partitions[i]),
                )
                &&& out@[2 * i + 1]@.name == "Co"@ + schema@.partitions[i] + schema@.name
                &&& out@[2 * i + 1]@.vis == schema@.vis
                &&& out@[2 * i + 1]@.generics == schema@.generics
                &&& out@[2 * i + 1]@.fields == strip_all(
                    complement_of(schema@.fields, schema@.partitions[i]),
                )
            },
{
    let table = build_table(schema);
    let mut out: Vec<GeneratedStruct> = Vec::new();
    let mut i: usize = 0;
    while i < table.len()
        invariant
            i <= table@.len(),
            table@.len() == schema@.partitions.len(),
            forall|x: int|
                0 <= x < table@.len() ==> {
                    &&& (#[trigger] table@[x])@.partition == schema@.partitions[x]
                    &&& table@[x]@.members == members_of(schema@.fields, schema@.partitions[x])
                    &&& table@[x]@.complement == complement_of(
                        schema@.fields,
                        schema@.partitions[x],
                    )
                },
            out@.len() == 2 * i,
            forall|x: int|
                0 <= x < i ==> {
                    &&& out@[2 * x]@.name == #[trigger] schema@.partitions[x] + schema@.name
                    &&& out@[2 * x]@.vis == schema@.vis
                    &&& out@[2 * x]@.generics == schema@.generics
                    &&& out@[2 * x]@.fields == strip_all(
                        members_of(schema@.fields, schema@.partitions[x]),
                    )
                    &&& out@[2 * x + 1]@.name == "Co"@ + schema@.partitions[x] + schema@.name
                    &&& out@[2 * x + 1]@.vis == schema@.vis
                    &&& out@[2 * x + 1]@.generics == schema@.generics
                    &&& out@[2 * x + 1]@.fields == strip_all(
                        complement_of(schema@.fields, schema@.partitions[x]),
                    )
                },
        decreases table@.len() - i,
    {
        let slot = &table[i];
        let proj_name = slot.partition.clone().concat(schema.name.as_str());
        let co_name = String::from_str("Co").concat(slot.partition.as_str()).concat(
            schema.name.as_str(),
        );
        out.push(
            GeneratedStruct {
                name: proj_name,
                vis: schema.vis.clone(),
                generics: schema.generics.clone(),
                fields: strip_fields(&slot.members),
            },
        );
        out.push(
            GeneratedStruct {
                name: co_name,
                vis: schema.vis.clone(),
                generics: schema.generics.clone(),
                fields: strip_fields(&slot.complement),
            },
        );
        i += 1;
    }
    out
}

/// One whole generation pass: validates the raw input and emits the
/// generated types, or reports the first validation failure and emits
/// nothing. The output is as [`emit`] states it, over the validated value
/// of the input.
pub fn generate(raw: RawInput) -> (r: Result<Vec<GeneratedStruct>, Error>)
    ensures
        r is Ok <==> parse_ok(raw),
        r matches Err(e) ==> error_matches(raw, e),
        r matches Ok(out) ==> {
            let s = schema_v_of_raw(raw);
            &&& out@.len() == 2 * s.partitions.len()
            &&& forall|i: int|
                0 <= i < s.partitions.len() ==> {
                    &&& out@[2 * i]@.name == #[trigger] s.partitions[i] + s.name
                    &&& out@[2 * i]@.vis == s.vis
                    &&& out@[2 * i]@.generics == s.generics
                    &&& out@[2 * i]@.fields == strip_all(members_of(s.fields, s.partitions[i]))
                    &&& out@[2 * i + 1]@.name == "Co"@ + s.partitions[i] + s.name
                    &&& out@[2 * i + 1]@.vis == s.vis
                    &&& out@[2 * i + 1]@.generics == s.generics
                    &&& out@[2 * i + 1]@.fields == strip_all(
                        complement_of(s.fields, s.partitions[i]),
                    )
                }
        },
{
    match parse_schema(raw) {
        Err(e) => Err(e),
        Ok(schema) => {
            proof {
                lemma_schema_from_raw_is_schema_v(schema@, raw);
            }
            Ok(emit(&schema))
        },
    }
}

} // verus!
