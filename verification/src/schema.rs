//! The schema data model and its parser: raw structural input is validated,
//! in declaration order and then field order, into a well-formed [`Schema`],
//! or rejected with the first error encountered.

use vstd::prelude::*;

use crate::text::{eq_lower, lower_seq, tokenize, tokens_of};

verus! {

/// The shape of the record definition handed in by the host: only a struct
/// with named fields is supported.
#[derive(Debug, Clone, PartialEq, Eq)]
pub enum InputShape {
    NamedFieldStruct,
    TupleStruct,
    UnitStruct,
    EnumType,
    UnionType,
}

/// The schema-level partition declaration as the host found it: a list of
/// bare identifiers, or something else entirely.
#[derive(Debug, Clone, PartialEq, Eq)]
pub enum PartsDecl {
    Names(Vec<String>),
    Malformed,
}

/// A per-field tag as the host found it: a single string literal, or
/// something else entirely.
#[derive(Debug, Clone, PartialEq, Eq)]
pub enum TagForm {
    Literal(String),
    Malformed,
}

/// One field of the record definition before validation.
#[derive(Debug, Clone, PartialEq, Eq)]
pub struct RawField {
    pub name: String,
    pub ty: String,
    pub vis: String,
    pub tag: Option<TagForm>,
}

/// The record definition plus its partition declaration, before validation.
#[derive(Debug, Clone, PartialEq, Eq)]
pub struct RawInput {
    pub name: String,
    pub vis: String,
    pub generics: String,
    pub shape: InputShape,
    pub fields: Vec<RawField>,
    pub parts: Option<PartsDecl>,
}

/// A validated field: its tag, if any, is the raw comma-separated list of
/// partition names it belongs to.
#[derive(Debug, Clone, PartialEq, Eq)]
pub struct Field {
    pub name: String,
    pub ty: String,
    pub vis: String,
    pub raw_tag: Option<String>,
}

/// The mathematical value of a [`Field`].
pub struct FieldV {
    pub name: Seq<char>,
    pub ty: Seq<char>,
    pub vis: Seq<char>,
    pub tag: Option<Seq<char>>,
}

impl View for Field {
    type V = FieldV;

    open spec fn view(&self) -> FieldV {
        FieldV {
            name: self.name@,
            ty: self.ty@,
            vis: self.vis@,
            tag: match self.raw_tag {
                Some(t) => Some(t@),
                None => None,
            },
        }
    }
}

/// A validated schema: its partitions are non-empty and duplicate-free, and
/// every tag token on every field resolves to one of them.
#[derive(Debug, Clone, PartialEq, Eq)]
pub struct Schema {
    pub name: String,
    pub vis: String,
    pub generics: String,
    pub fields: Vec<Field>,
    pub partitions: Vec<String>,
}

/// The mathematical value of a [`Schema`].
pub struct SchemaV {
    pub name: Seq<char>,
    pub vis: Seq<char>,
    pub generics: Seq<char>,
    pub fields: Seq<FieldV>,
    pub partitions: Seq<Seq<char>>,
}

/// The sequences of characters behind a sequence of strings.
pub open spec fn views_of(v: Seq<String>) -> Seq<Seq<char>> {
    v.map_values(|p: String| p@)
}

/// The mathematical values behind a sequence of fields.
pub open spec fn field_views(v: Seq<Field>) -> Seq<FieldV> {
    v.map_values(|f: Field| f@)
}

impl View for Schema {
    type V = SchemaV;

    open spec fn view(&self) -> SchemaV {
        SchemaV {
            name: self.name@,
            vis: self.vis@,
            generics: self.generics@,
            fields: field_views(self.fields@),
            partitions: views_of(self.partitions@),
        }
    }
}

/// The first validation failure of a generation pass; it aborts the pass
/// with no output.
#[derive(Debug, Clone, PartialEq, Eq)]
pub enum Error {
    UnsupportedShape,
    MissingPartitionDeclaration,
    EmptyPartitionDeclaration,
    MalformedPartitionDeclaration,
    MalformedFieldTag { field: String },
    UnknownPartitionReference { field: String, token: String },
}

/// Whether a tag token names one of the declared partitions, comparing
/// case-insensitively.
pub open spec fn token_resolves(tok: Seq<char>, parts: Seq<Seq<char>>) -> bool {
    exists|j: int| 0 <= j < parts.len() && lower_seq(tok) == lower_seq(parts[j])
}

/// Whether every token of the tag resolves to a declared partition.
pub open spec fn tag_resolves(tag: Seq<char>, parts: Seq<Seq<char>>) -> bool {
    forall|k: int| 0 <= k < tokens_of(tag).len() ==> token_resolves(
        #[trigger] tokens_of(tag)[k],
        parts,
    )
}

/// Whether a validated field's tag, if present, resolves fully.
pub open spec fn field_tag_wf(f: FieldV, parts: Seq<Seq<char>>) -> bool {
    match f.tag {
        None => true,
        Some(t) => tag_resolves(t, parts),
    }
}

impl Schema {
    /// Well-formedness: at least one partition, no duplicate partition
    /// names, and every field tag resolves against the partitions.
    pub open spec fn wf(self) -> bool {
        &&& self@.partitions.len() >= 1
        &&& forall|i: int, j: int|
            0 <= i < j < self@.partitions.len() ==> self@.partitions[i] != self@.partitions[j]
        &&& forall|i: int|
            0 <= i < self@.fields.len() ==> field_tag_wf(#[trigger] self@.fields[i], self@.partitions)
    }
}

/// The declared names with exact duplicates collapsed onto their first
/// occurrence, order kept.
pub open spec fn dedup_names(s: Seq<Seq<char>>) -> Seq<Seq<char>>
    decreases s.len(),
{
    if s.len() == 0 {
        Seq::empty()
    } else {
        let d = dedup_names(s.drop_last());
        if s.drop_last().contains(s.last()) {
            d
        } else {
            d.push(s.last())
        }
    }
}

/// Collapsing duplicates changes no membership.
pub proof fn lemma_dedup_names_membership(s: Seq<Seq<char>>)
    ensures
        forall|x: Seq<char>| #![auto] dedup_names(s).contains(x) <==> s.contains(x),
    decreases s.len(),
{
    let d = dedup_names(s);
    if s.len() > 0 {
        let dl = s.drop_last();
        let ddl = dedup_names(dl);
        lemma_dedup_names_membership(dl);
        assert(forall|j: int| 0 <= j < dl.len() ==> #[trigger] dl[j] == s[j]);
        assert(s.last() == s[s.len() - 1]);
        assert forall|x: Seq<char>| s.contains(x) implies d.contains(x) by {
            let i = choose|i: int| 0 <= i < s.len() && s[i] == x;
            if i < s.len() - 1 {
                assert(dl[i] == x);
                assert(dl.contains(x));
                assert(ddl.contains(x));
                let i2 = choose|i2: int| 0 <= i2 < ddl.len() && ddl[i2] == x;
                assert(d[i2] == x);
                assert(d.contains(x));
            } else {
                if dl.contains(x) {
                    assert(ddl.contains(x));
                    let i2 = choose|i2: int| 0 <= i2 < ddl.len() && ddl[i2] == x;
                    assert(d[i2] == x);
                    assert(d.contains(x));
                } else {
                    assert(d == ddl.push(s.last()));
                    assert(d[d.len() - 1] == x);
                    assert(d.contains(x));
                }
            }
        }
        assert forall|x: Seq<char>| d.contains(x) implies s.contains(x) by {
            let i = choose|i: int| 0 <= i < d.len() && d[i] == x;
            if i < ddl.len() {
                assert(ddl[i] == x);
                assert(ddl.contains(x));
                assert(dl.contains(x));
                let j = choose|j: int| 0 <= j < dl.len() && dl[j] == x;
                assert(s[j] == x);
                assert(s.contains(x));
            } else {
                assert(x == s.last());
                assert(s[s.len() - 1] == x);
                assert(s.contains(x));
            }
        }
    }
}

/// Collapsing duplicates leaves each name exactly once.
pub proof fn lemma_dedup_names_distinct(s: Seq<Seq<char>>)
    ensures
        forall|i: int, j: int|
            0 <= i < j < dedup_names(s).len() ==> dedup_names(s)[i] != dedup_names(s)[j],
    decreases s.len(),
{
    if s.len() > 0 {
        let dl = s.drop_last();
        lemma_dedup_names_distinct(dl);
        lemma_dedup_names_membership(dl);
        let d = dedup_names(dl);
        if !dl.contains(s.last()) {
            assert forall|i: int, j: int|
                0 <= i < j < dedup_names(s).len() implies dedup_names(s)[i] != dedup_names(
                s,
            )[j] by {
                if j == d.len() {
                    assert(d.contains(d[i]));
                }
            }
        }
    }
}

/// Collapsing duplicates changes what no token resolves to.
pub proof fn lemma_token_resolves_dedup(tok: Seq<char>, parts: Seq<Seq<char>>)
    ensures
        token_resolves(tok, dedup_names(parts)) <==> token_resolves(tok, parts),
{
    lemma_dedup_names_membership(parts);
    let d = dedup_names(parts);
    if token_resolves(tok, parts) {
        let j = choose|j: int| 0 <= j < parts.len() && lower_seq(tok) == lower_seq(parts[j]);
        assert(parts.contains(parts[j]));
        assert(d.contains(parts[j]));
        let j2 = choose|j2: int| 0 <= j2 < d.len() && d[j2] == parts[j];
        assert(token_resolves(tok, d));
    }
    if token_resolves(tok, d) {
        let j = choose|j: int| 0 <= j < d.len() && lower_seq(tok) == lower_seq(d[j]);
        assert(dedup_names(parts).contains(d[j]));
        assert(parts.contains(d[j]));
        let j2 = choose|j2: int| 0 <= j2 < parts.len() && parts[j2] == d[j];
        assert(token_resolves(tok, parts));
    }
}

/// Collapsing duplicates changes what no tag resolves to.
pub proof fn lemma_tag_resolves_dedup(tag: Seq<char>, parts: Seq<Seq<char>>)
    ensures
        tag_resolves(tag, dedup_names(parts)) <==> tag_resolves(tag, parts),
{
    assert forall|k: int|
        0 <= k < tokens_of(tag).len() implies (token_resolves(
        #[trigger] tokens_of(tag)[k],
        dedup_names(parts),
    ) <==> token_resolves(tokens_of(tag)[k], parts)) by {
        lemma_token_resolves_dedup(tokens_of(tag)[k], parts);
    }
}

/// Whether the input's shape is the one supported kind of record.
pub open spec fn shape_ok(r: RawInput) -> bool {
    r.shape is NamedFieldStruct
}

/// Whether the partition declaration is present, well-formed and non-empty.
pub open spec fn decl_ok(r: RawInput) -> bool {
    match r.parts {
        Some(PartsDecl::Names(v)) => v@.len() > 0,
        _ => false,
    }
}

/// The declared partition names, in declaration order.
pub open spec fn decl_list(r: RawInput) -> Seq<Seq<char>>
    recommends
        decl_ok(r),
{
    match r.parts {
        Some(PartsDecl::Names(v)) => views_of(v@),
        _ => Seq::empty(),
    }
}

/// Whether one raw field passes validation: its tag, if present, is a
/// string literal whose every token resolves.
pub open spec fn raw_field_ok(f: RawField, parts: Seq<Seq<char>>) -> bool {
    match f.tag {
        None => true,
        Some(TagForm::Literal(t)) => tag_resolves(t@, parts),
        Some(TagForm::Malformed) => false,
    }
}

/// Whether every field before index `i` passes validation.
pub open spec fn fields_ok_before(r: RawInput, i: int) -> bool {
    forall|j: int| 0 <= j < i ==> raw_field_ok(#[trigger] r.fields@[j], decl_list(r))
}

/// Whether the whole input passes validation. An empty field list is a
/// shape violation: only a non-empty named-field record is supported.
pub open spec fn parse_ok(r: RawInput) -> bool {
    &&& shape_ok(r)
    &&& r.fields@.len() > 0
    &&& decl_ok(r)
    &&& forall|i: int|
        0 <= i < r.fields@.len() ==> raw_field_ok(#[trigger] r.fields@[i], decl_list(r))
}

/// The tag tokens of a raw field whose tag is a string literal.
pub open spec fn field_tokens(f: RawField) -> Seq<Seq<char>>
    recommends
        f.tag matches Some(TagForm::Literal(_)),
{
    match f.tag {
        Some(TagForm::Literal(t)) => tokens_of(t@),
        _ => Seq::empty(),
    }
}

/// Whether field `i` is the first offending field and its tag is malformed.
pub open spec fn malformed_tag_at(r: RawInput, i: int) -> bool {
    &&& 0 <= i < r.fields@.len()
    &&& fields_ok_before(r, i)
    &&& r.fields@[i].tag matches Some(TagForm::Malformed)
}

/// Whether field `i` is the first offending field and token `k` of its tag
/// is the first of its tokens that resolves to no declared partition.
pub open spec fn unknown_at(r: RawInput, i: int, k: int) -> bool {
    &&& 0 <= i < r.fields@.len()
    &&& fields_ok_before(r, i)
    &&& r.fields@[i].tag matches Some(TagForm::Literal(_))
    &&& 0 <= k < field_tokens(r.fields@[i]).len()
    &&& forall|k2: int|
        0 <= k2 < k ==> token_resolves(#[trigger] field_tokens(r.fields@[i])[k2], decl_list(r))
    &&& !token_resolves(field_tokens(r.fields@[i])[k], decl_list(r))
}

/// Whether `e` is exactly the first validation failure of `r`.
pub open spec fn error_matches(r: RawInput, e: Error) -> bool {
    match e {
        Error::UnsupportedShape => !shape_ok(r) || r.fields@.len() == 0,
        Error::MissingPartitionDeclaration => shape_ok(r) && r.fields@.len() > 0 && r.parts
            is None,
        Error::MalformedPartitionDeclaration => shape_ok(r) && r.fields@.len() > 0 && (r.parts
            matches Some(PartsDecl::Malformed)),
        Error::EmptyPartitionDeclaration => {
            &&& shape_ok(r)
            &&& r.fields@.len() > 0
            &&& match r.parts {
                Some(PartsDecl::Names(v)) => v@.len() == 0,
                _ => false,
            }
        },
        Error::MalformedFieldTag { field } => {
            &&& shape_ok(r)
            &&& decl_ok(r)
            &&& exists|i: int| #[trigger] malformed_tag_at(r, i) && field@ == r.fields@[i].name@
        },
        Error::UnknownPartitionReference { field, token } => {
            &&& shape_ok(r)
            &&& decl_ok(r)
            &&& exists|i: int, k: int|
                #[trigger] unknown_at(r, i, k) && field@ == r.fields@[i].name@ && token@
                    == field_tokens(r.fields@[i])[k]
        },
    }
}

/// Whether a validated field carries over one raw field: same name, type
/// and visibility, and the tag is exactly the raw literal, if one was given.
pub open spec fn field_from_raw(f: FieldV, rf: RawField) -> bool {
    &&& f.name == rf.name@
    &&& f.ty == rf.ty@
    &&& f.vis == rf.vis@
    &&& match rf.tag {
        None => f.tag is None,
        Some(TagForm::Literal(t)) => f.tag == Some(t@),
        Some(TagForm::Malformed) => false,
    }
}

/// Whether a schema is exactly the validated form of the raw input: header
/// carried over verbatim, fields in order, partitions deduplicated.
pub open spec fn schema_from_raw(s: SchemaV, r: RawInput) -> bool {
    &&& s.name == r.name@
    &&& s.vis == r.vis@
    &&& s.generics == r.generics@
    &&& s.partitions == dedup_names(decl_list(r))
    &&& s.fields.len() == r.fields@.len()
    &&& forall|i: int|
        0 <= i < s.fields.len() ==> field_from_raw(#[trigger] s.fields[i], r.fields@[i])
}

/// The mathematical value of the field a raw field validates to.
pub open spec fn field_v_of_raw(rf: RawField) -> FieldV {
    FieldV {
        name: rf.name@,
        ty: rf.ty@,
        vis: rf.vis@,
        tag: match rf.tag {
            Some(TagForm::Literal(t)) => Some(t@),
            _ => None,
        },
    }
}

/// The mathematical value of the schema a raw input validates to.
pub open spec fn schema_v_of_raw(r: RawInput) -> SchemaV {
    SchemaV {
        name: r.name@,
        vis: r.vis@,
        generics: r.generics@,
        fields: r.fields@.map_values(|rf: RawField| field_v_of_raw(rf)),
        partitions: dedup_names(decl_list(r)),
    }
}

/// A schema that carries over the raw input is exactly its validated value.
pub proof fn lemma_schema_from_raw_is_schema_v(s: SchemaV, r: RawInput)
    requires
        schema_from_raw(s, r),
    ensures
        s == schema_v_of_raw(r),
{
    assert forall|i: int| 0 <= i < s.fields.len() implies s.fields[i] == schema_v_of_raw(
        r,
    ).fields[i] by {
        assert(field_from_raw(s.fields[i], r.fields@[i]));
        assert(schema_v_of_raw(r).fields[i] == field_v_of_raw(r.fields@[i]));
        match r.fields@[i].tag {
            None => {},
            Some(TagForm::Literal(_)) => {},
            Some(TagForm::Malformed) => {},
        }
    }
    assert(s.fields =~= schema_v_of_raw(r).fields);
}

/// Whether one of the strings equals `s`.
fn vec_contains_str(v: &Vec<String>, s: &String) -> (r: bool)
    ensures
        r == views_of(v@).contains(s@),
{
    let mut i: usize = 0;
    while i < v.len()
        invariant
            i <= v@.len(),
            forall|j: int| 0 <= j < i ==> views_of(v@)[j] != s@,
        decreases v@.len() - i,
    {
        if v[i] == *s {
            assert(views_of(v@)[i as int] == s@);
            return true;
        }
        i += 1;
    }
    assert(!views_of(v@).contains(s@));
    false
}

/// The declared names with exact duplicates collapsed, order kept.
fn dedup_strings(v: &Vec<String>) -> (r: Vec<String>)
    ensures
        views_of(r@) == dedup_names(views_of(v@)),
{
    let mut r: Vec<String> = Vec::new();
    let mut i: usize = 0;
    assert(views_of(v@.take(0)) =~= Seq::<Seq<char>>::empty());
    while i < v.len()
        invariant
            i <= v@.len(),
            views_of(r@) == dedup_names(views_of(v@.take(i as int))),
        decreases v@.len() - i,
    {
        let ghost pre = views_of(v@.take(i as int));
        let ghost cur = views_of(v@.take(i + 1));
        assert(cur.drop_last() =~= pre);
        assert(cur.last() == v@[i as int]@);
        proof {
            lemma_dedup_names_membership(pre);
        }
        if !vec_contains_str(&r, &v[i]) {
            r.push(v[i].clone());
            assert(views_of(r@) =~= dedup_names(pre).push(v@[i as int]@));
        }
        i += 1;
    }
    assert(v@.take(v@.len() as int) =~= v@);
    r
}

/// Whether the token names one of the declared partitions,
/// case-insensitively.
fn token_resolves_exec(tok: &String, parts: &Vec<String>) -> (r: bool)
    ensures
        r == token_resolves(tok@, views_of(parts@)),
{
    let mut j: usize = 0;
    while j < parts.len()
        invariant
            j <= parts@.len(),
            forall|j2: int| 0 <= j2 < j ==> lower_seq(tok@) != lower_seq(views_of(parts@)[j2]),
        decreases parts@.len() - j,
    {
        if eq_lower(tok.as_str(), parts[j].as_str()) {
            assert(lower_seq(tok@) == lower_seq(views_of(parts@)[j as int]));
            return true;
        }
        j += 1;
    }
    false
}

/// Validates the raw input into a schema, or reports the first failure:
/// shape first (a named-field record with at least one field), then the
/// partition declaration, then each field in order (tag form before tag
/// resolution, tokens in order).
pub fn parse_schema(raw: RawInput) -> (r: Result<Schema, Error>)
    ensures
        r is Ok <==> parse_ok(raw),
        r matches Ok(s) ==> s.wf() && schema_from_raw(s@, raw),
        r matches Err(e) ==> error_matches(raw, e),
{
    match raw.shape {
        InputShape::NamedFieldStruct => {},
        _ => {
            return Err(Error::UnsupportedShape);
        },
    }
    if raw.fields.len() == 0 {
        return Err(Error::UnsupportedShape);
    }
    let names: &Vec<String> = match &raw.parts {
        None => {
            return Err(Error::MissingPartitionDeclaration);
        },
        Some(PartsDecl::Malformed) => {
            return Err(Error::MalformedPartitionDeclaration);
        },
        Some(PartsDecl::Names(v)) => v,
    };
    if names.len() == 0 {
        return Err(Error::EmptyPartitionDeclaration);
    }
    assert(views_of(names@) == decl_list(raw));
    let parts = dedup_strings(names);
    let mut out_fields: Vec<Field> = Vec::new();
    let mut i: usize = 0;
    while i < raw.fields.len()
        invariant
            i <= raw.fields@.len(),
            decl_ok(raw),
            shape_ok(raw),
            views_of(names@) == decl_list(raw),
            views_of(parts@) == dedup_names(decl_list(raw)),
            fields_ok_before(raw, i as int),
            out_fields@.len() == i,
            forall|j: int|
                0 <= j < i ==> field_from_raw(#[trigger] out_fields@[j]@, raw.fields@[j]),
        decreases raw.fields@.len() - i,
    {
        let rf = &raw.fields[i];
        match &rf.tag {
            None => {
                out_fields.push(
                    Field {
                        name: rf.name.clone(),
                        ty: rf.ty.clone(),
                        vis: rf.vis.clone(),
                        raw_tag: None,
                    },
                );
            },
            Some(TagForm::Malformed) => {
                assert(malformed_tag_at(raw, i as int));
                return Err(Error::MalformedFieldTag { field: rf.name.clone() });
            },
            Some(TagForm::Literal(t)) => {
                let toks = tokenize(t.as_str());
                assert(raw.fields@[i as int] == *rf);
                assert(field_tokens(raw.fields@[i as int]) == tokens_of(t@));
                let mut k: usize = 0;
                while k < toks.len()
                    invariant
                        k <= toks@.len(),
                        toks@.len() == tokens_of(t@).len(),
                        forall|x: int| 0 <= x < toks@.len() ==> toks@[x]@ == tokens_of(t@)[x],
                        views_of(names@) == decl_list(raw),
                        shape_ok(raw),
                        decl_ok(raw),
                        i < raw.fields@.len(),
                        fields_ok_before(raw, i as int),
                        field_tokens(raw.fields@[i as int]) == tokens_of(t@),
                        raw.fields@[i as int].tag matches Some(TagForm::Literal(_)),
                        raw.fields@[i as int].name@ == rf.name@,
                        forall|k2: int|
                            0 <= k2 < k ==> token_resolves(
                                #[trigger] tokens_of(t@)[k2],
                                decl_list(raw),
                            ),
                    decreases toks@.len() - k,
                {
                    if !token_resolves_exec(&toks[k], names) {
                        assert(unknown_at(raw, i as int, k as int));
                        assert(!raw_field_ok(raw.fields@[i as int], decl_list(raw)));
                        return Err(
                            Error::UnknownPartitionReference {
                                field: rf.name.clone(),
                                token: toks[k].clone(),
                            },
                        );
                    }
                    k += 1;
                }
                assert(raw.fields@[i as int] == *rf);
                assert(tag_resolves(t@, decl_list(raw)));
                out_fields.push(
                    Field {
                        name: rf.name.clone(),
                        ty: rf.ty.clone(),
                        vis: rf.vis.clone(),
                        raw_tag: Some(t.clone()),
                    },
                );
            },
        }
        i += 1;
    }
    let schema = Schema {
        name: raw.name,
        vis: raw.vis,
        generics: raw.generics,
        fields: out_fields,
        partitions: parts,
    };
    proof {
        lemma_dedup_names_membership(decl_list(raw));
        assert(decl_list(raw).contains(decl_list(raw)[0]));
        lemma_dedup_names_distinct(decl_list(raw));
        assert forall|x: int| 0 <= x < schema@.fields.len() implies field_tag_wf(
            #[trigger] schema@.fields[x],
            schema@.partitions,
        ) by {
            assert(field_from_raw(schema@.fields[x], raw.fields@[x]));
            assert(raw_field_ok(raw.fields@[x], decl_list(raw)));
            match schema@.fields[x].tag {
                None => {},
                Some(t) => {
                    lemma_tag_resolves_dedup(t, decl_list(raw));
                },
            }
        }
    }
    Ok(schema)
}

} // verus!
