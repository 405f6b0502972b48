//! The partition engine: one linear, order-preserving pass over the schema
//! fields builds, for every declared partition, the list of member fields
//! and its complement.

use vstd::prelude::*;

use crate::schema::{field_views, Field, FieldV, Schema};
use crate::text::{eq_lower, lower_seq, tokenize, tokens_of};

verus! {

/// The tag tokens of a field: none when the field is untagged.
pub open spec fn tag_tokens(f: FieldV) -> Seq<Seq<char>> {
    match f.tag {
        None => Seq::empty(),
        Some(t) => tokens_of(t),
    }
}

/// Whether the field belongs to partition `p`: some token of its tag
/// resolves to `p`, case-insensitively. An untagged field belongs to no
/// partition.
pub open spec fn in_partition(f: FieldV, p: Seq<char>) -> bool {
    f.tag is Some && exists|k: int|
        0 <= k < tag_tokens(f).len() && lower_seq(#[trigger] tag_tokens(f)[k]) == lower_seq(p)
}

/// A tag token that lower-cases to `p` puts the field into partition `p`.
pub proof fn lemma_in_partition_witness(f: FieldV, p: Seq<char>, t: Seq<char>, k: int)
    requires
        f.tag == Some(t),
        0 <= k < tokens_of(t).len(),
        lower_seq(tokens_of(t)[k]) == lower_seq(p),
    ensures
        in_partition(f, p),
{
    assert(tag_tokens(f) == tokens_of(t));
    assert(0 <= k < tag_tokens(f).len() && lower_seq(tag_tokens(f)[k]) == lower_seq(p));
}

/// The fields that belong to partition `p`, in schema order.
pub open spec fn members_of(fields: Seq<FieldV>, p: Seq<char>) -> Seq<FieldV> {
    fields.filter(|f: FieldV| in_partition(f, p))
}

/// The fields that do not belong to partition `p`, in schema order.
pub open spec fn complement_of(fields: Seq<FieldV>, p: Seq<char>) -> Seq<FieldV> {
    fields.filter(|f: FieldV| !in_partition(f, p))
}

/// One partition's row of the table: the partition name, the fields of its
/// projection, and the fields of its complement.
#[derive(Debug, Clone, PartialEq, Eq)]
pub struct PartitionSlot {
    pub partition: String,
    pub members: Vec<Field>,
    pub complement: Vec<Field>,
}

/// The mathematical value of a [`PartitionSlot`].
pub struct SlotV {
    pub partition: Seq<char>,
    pub members: Seq<FieldV>,
    pub complement: Seq<FieldV>,
}

impl View for PartitionSlot {
    type V = SlotV;

    open spec fn view(&self) -> SlotV {
        SlotV {
            partition: self.partition@,
            members: field_views(self.members@),
            complement: field_views(self.complement@),
        }
    }
}

/// Extending the scanned prefix by one field appends that field to the
/// members or to the complement, to exactly one of the two.
pub proof fn lemma_partition_step(s: Seq<FieldV>, p: Seq<char>, j: int)
    requires
        0 <= j < s.len(),
    ensures
        members_of(s.take(j + 1), p) == if in_partition(s[j], p) {
            members_of(s.take(j), p).push(s[j])
        } else {
            members_of(s.take(j), p)
        },
        complement_of(s.take(j + 1), p) == if !in_partition(s[j], p) {
            complement_of(s.take(j), p).push(s[j])
        } else {
            complement_of(s.take(j), p)
        },
{
    reveal(Seq::filter);
    assert(s.take(j + 1).drop_last() =~= s.take(j));
    assert(s.take(j + 1).last() == s[j]);
}

impl Field {
    /// A field equal to this one.
    pub fn duplicate(&self) -> (r: Field)
        ensures
            r == *self,
    {
        Field {
            name: self.name.clone(),
            ty: self.ty.clone(),
            vis: self.vis.clone(),
            raw_tag: match &self.raw_tag {
                Some(t) => Some(t.clone()),
                None => None,
            },
        }
    }
}

/// Whether the field belongs to partition `p`.
pub fn field_in_partition(f: &Field, p: &String) -> (b: bool)
    ensures
        b == in_partition(f@, p@),
{
    match &f.raw_tag {
        None => false,
        Some(t) => {
            let toks = tokenize(t.as_str());
            let mut k: usize = 0;
            while k < toks.len()
                invariant
                    k <= toks@.len(),
                    f@.tag == Some(t@),
                    toks@.len() == tokens_of(t@).len(),
                    forall|x: int| 0 <= x < toks@.len() ==> toks@[x]@ == tokens_of(t@)[x],
                    forall|k2: int|
                        0 <= k2 < k ==> lower_seq(#[trigger] tokens_of(t@)[k2]) != lower_seq(p@),
                decreases toks@.len() - k,
            {
                if eq_lower(toks[k].as_str(), p.as_str()) {
                    proof {
                        lemma_in_partition_witness(f@, p@, t@, k as int);
                    }
                    return true;
                }
                k += 1;
            }
            false
        },
    }
}

/// Builds the partition table of a well-formed schema: one slot per
/// declared partition, in declaration order, each holding the partition's
/// members and complement in schema field order.
pub fn build_table(schema: &Schema) -> (table: Vec<PartitionSlot>)
    requires
        schema.wf(),
    ensures
        table@.len() == schema@.partitions.len(),
        forall|i: int|
            0 <= i < table@.len() ==> {
                &&& (#[trigger] table@[i])@.partition == schema@.partitions[i]
                &&& table@[i]@.members == members_of(schema@.fields, schema@.partitions[i])
                &&& table@[i]@.complement == complement_of(schema@.fields, schema@.partitions[i])
            },
{
    let mut table: Vec<PartitionSlot> = Vec::new();
    let mut i: usize = 0;
    while i < schema.partitions.len()
        invariant
            i <= schema@.partitions.len(),
            table@.len() == i,
            forall|x: int|
                0 <= x < i ==> {
                    &&& (#[trigger] table@[x])@.partition == schema@.partitions[x]
                    &&& table@[x]@.members == members_of(schema@.fields, schema@.partitions[x])
                    &&& table@[x]@.complement == complement_of(
                        schema@.fields,
                        schema@.partitions[x],
                    )
                },
        decreases schema@.partitions.len() - i,
    {
        let p = &schema.partitions[i];
        let mut members: Vec<Field> = Vec::new();
        let mut complement: Vec<Field> = Vec::new();
        let mut j: usize = 0;
        assert(schema@.fields.take(0) =~= Seq::<FieldV>::empty());
        assert(field_views(members@) =~= members_of(schema@.fields.take(0), p@)) by {
            reveal(Seq::filter);
        }
        assert(field_views(complement@) =~= complement_of(schema@.fields.take(0), p@)) by {
            reveal(Seq::filter);
        }
        while j < schema.fields.len()
            invariant
                j <= schema@.fields.len(),
                schema@.fields.len() == schema.fields@.len(),
                p@ == schema@.partitions[i as int],
                field_views(members@) == members_of(schema@.fields.take(j as int), p@),
                field_views(complement@) == complement_of(schema@.fields.take(j as int), p@),
            decreases schema@.fields.len() - j,
        {
            let f = &schema.fields[j];
            assert(f@ == schema@.fields[j as int]);
            proof {
                lemma_partition_step(schema@.fields, p@, j as int);
            }
            if field_in_partition(f, p) {
                members.push(f.duplicate());
                assert(field_views(members@) =~= members_of(
                    schema@.fields.take(j + 1),
                    p@,
                ));
            } else {
                complement.push(f.duplicate());
                assert(field_views(complement@) =~= complement_of(
                    schema@.fields.take(j + 1),
                    p@,
                ));
            }
            j += 1;
        }
        assert(schema@.fields.take(schema.fields@.len() as int) =~= schema@.fields);
        table.push(PartitionSlot { partition: p.clone(), members, complement });
        i += 1;
    }
    table
}

} // verus!
