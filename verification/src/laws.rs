//! The laws of the partition engine and parser, stated and proved once for
//! all schemas: completeness and disjointness of each partition's split,
//! the untagged-field rule, order preservation, the round trip of members
//! and complement, and rejection of unknown partition references.

use vstd::prelude::*;

use crate::engine::{complement_of, in_partition, members_of};
use crate::schema::{
    decl_ok, decl_list, error_matches, malformed_tag_at, parse_ok, raw_field_ok, shape_ok,
    Error, FieldV, RawInput, TagForm,
};

verus! {

/// Membership in a pushed sequence: the old members, or the new element.
proof fn lemma_push_contains<A>(s: Seq<A>, x: A, y: A)
    ensures
        s.push(x).contains(y) <==> s.contains(y) || y == x,
{
    if s.push(x).contains(y) {
        let i = choose|i: int| 0 <= i < s.push(x).len() && s.push(x)[i] == y;
        if i < s.len() {
            assert(s[i] == y);
            assert(s.contains(y));
        }
    }
    if s.contains(y) {
        let i = choose|i: int| 0 <= i < s.len() && s[i] == y;
        assert(s.push(x)[i] == y);
        assert(s.push(x).contains(y));
    }
    assert(s.push(x)[s.len() as int] == x);
}

/// Completeness and disjointness: a field of the schema is in the members
/// of a partition exactly when it belongs to it, and in the complement
/// exactly when it does not — one of the two, never both, never neither.
pub proof fn lemma_partition_complete(fields: Seq<FieldV>, p: Seq<char>, f: FieldV)
    ensures
        members_of(fields, p).contains(f) <==> fields.contains(f) && in_partition(f, p),
        complement_of(fields, p).contains(f) <==> fields.contains(f) && !in_partition(f, p),
    decreases fields.len(),
{
    reveal(Seq::filter);
    if fields.len() == 0 {
        assert(!fields.contains(f));
        assert(!members_of(fields, p).contains(f));
        assert(!complement_of(fields, p).contains(f));
    } else {
        let dl = fields.drop_last();
        let last = fields.last();
        lemma_partition_complete(dl, p, f);
        assert(dl.push(last) =~= fields);
        lemma_push_contains(dl, last, f);
        if in_partition(last, p) {
            assert(members_of(fields, p) == members_of(dl, p).push(last));
            lemma_push_contains(members_of(dl, p), last, f);
            assert(complement_of(fields, p) == complement_of(dl, p));
        } else {
            assert(complement_of(fields, p) == complement_of(dl, p).push(last));
            lemma_push_contains(complement_of(dl, p), last, f);
            assert(members_of(fields, p) == members_of(dl, p));
        }
    }
}

/// The untagged-field rule: a field with no tag is in no partition's
/// members and, if it is a field of the schema, in every complement.
pub proof fn lemma_untagged_in_every_complement(fields: Seq<FieldV>, p: Seq<char>, f: FieldV)
    requires
        f.tag is None,
    ensures
        !members_of(fields, p).contains(f),
        fields.contains(f) ==> complement_of(fields, p).contains(f),
{
    assert(!in_partition(f, p));
    lemma_partition_complete(fields, p, f);
}

/// Whether `a` is an order-preserving selection of elements of `b`.
pub open spec fn is_subsequence_of(a: Seq<FieldV>, b: Seq<FieldV>) -> bool
    decreases a.len() + b.len(),
{
    if a.len() == 0 {
        true
    } else if b.len() == 0 {
        false
    } else {
        (a.last() == b.last() && is_subsequence_of(a.drop_last(), b.drop_last()))
            || is_subsequence_of(a, b.drop_last())
    }
}

/// Order preservation: members and complement keep the fields in their
/// original schema order.
pub proof fn lemma_order_preserved(fields: Seq<FieldV>, p: Seq<char>)
    ensures
        is_subsequence_of(members_of(fields, p), fields),
        is_subsequence_of(complement_of(fields, p), fields),
    decreases fields.len(),
{
    reveal(Seq::filter);
    if fields.len() == 0 {
    } else {
        let dl = fields.drop_last();
        let last = fields.last();
        lemma_order_preserved(dl, p);
        assert(fields.drop_last() == dl);
        if in_partition(last, p) {
            assert(members_of(fields, p) == members_of(dl, p).push(last));
            assert(members_of(fields, p).last() == last);
            assert(members_of(fields, p).drop_last() =~= members_of(dl, p));
            assert(is_subsequence_of(members_of(fields, p), fields));
            assert(complement_of(fields, p) == complement_of(dl, p));
            assert(is_subsequence_of(complement_of(fields, p), fields));
        } else {
            assert(complement_of(fields, p) == complement_of(dl, p).push(last));
            assert(complement_of(fields, p).last() == last);
            assert(complement_of(fields, p).drop_last() =~= complement_of(dl, p));
            assert(is_subsequence_of(complement_of(fields, p), fields));
            assert(members_of(fields, p) == members_of(dl, p));
            assert(is_subsequence_of(members_of(fields, p), fields));
        }
    }
}

/// The round trip: members and complement together hold exactly the
/// schema's fields — as multisets, so with no duplication and no omission.
pub proof fn lemma_round_trip(fields: Seq<FieldV>, p: Seq<char>)
    ensures
        members_of(fields, p).to_multiset().add(complement_of(fields, p).to_multiset())
            == fields.to_multiset(),
    decreases fields.len(),
{
    broadcast use vstd::seq_lib::group_to_multiset_ensures;

    reveal(Seq::filter);
    if fields.len() == 0 {
        assert(members_of(fields, p).to_multiset().add(
            complement_of(fields, p).to_multiset(),
        ) =~= fields.to_multiset());
    } else {
        let dl = fields.drop_last();
        let last = fields.last();
        lemma_round_trip(dl, p);
        assert(dl.push(last) =~= fields);
        assert(dl.push(last).to_multiset() =~= dl.to_multiset().insert(last));
        if in_partition(last, p) {
            assert(members_of(fields, p) == members_of(dl, p).push(last));
            assert(members_of(dl, p).push(last).to_multiset() =~= members_of(
                dl,
                p,
            ).to_multiset().insert(last));
            assert(complement_of(fields, p) == complement_of(dl, p));
            assert(members_of(fields, p).to_multiset().add(
                complement_of(fields, p).to_multiset(),
            ) =~= fields.to_multiset());
        } else {
            assert(complement_of(fields, p) == complement_of(dl, p).push(last));
            assert(complement_of(dl, p).push(last).to_multiset() =~= complement_of(
                dl,
                p,
            ).to_multiset().insert(last));
            assert(members_of(fields, p) == members_of(dl, p));
            assert(members_of(fields, p).to_multiset().add(
                complement_of(fields, p).to_multiset(),
            ) =~= fields.to_multiset());
        }
    }
}

/// Unknown-reference rejection: when the shape and the declaration are
/// fine and no field tag is malformed, any first validation failure that
/// the parser can report for an input with an unresolvable tag token is
/// the unknown-partition-reference error.
pub proof fn lemma_unknown_reference_rejected(r: RawInput, e: Error)
    requires
        shape_ok(r),
        decl_ok(r),
        forall|i: int|
            0 <= i < r.fields@.len() ==> !((#[trigger] r.fields@[i]).tag matches Some(
                TagForm::Malformed,
            )),
        exists|i: int|
            0 <= i < r.fields@.len() && !raw_field_ok(#[trigger] r.fields@[i], decl_list(r)),
        error_matches(r, e),
    ensures
        !parse_ok(r),
        (e matches Error::UnknownPartitionReference { .. }),
{
    let i0 = choose|i: int|
        0 <= i < r.fields@.len() && !raw_field_ok(#[trigger] r.fields@[i], decl_list(r));
    assert(!parse_ok(r));
    match e {
        Error::UnsupportedShape => {
            assert(false);
        },
        Error::MissingPartitionDeclaration => {
            assert(false);
        },
        Error::EmptyPartitionDeclaration => {
            assert(false);
        },
        Error::MalformedPartitionDeclaration => {
            assert(false);
        },
        Error::MalformedFieldTag { field } => {
            let i = choose|i: int| #[trigger]
                malformed_tag_at(r, i) && field@ == r.fields@[i].name@;
            assert(r.fields@[i].tag matches Some(TagForm::Malformed));
            assert(false);
        },
        Error::UnknownPartitionReference { .. } => {},
    }
}

} // verus!
