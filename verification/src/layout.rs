//! Layout calculator: pure functions from a schema node to its statically
//! known total size and to per-field byte offsets. These never fail; any
//! inconsistency in the node is a front-end verification defect, which
//! well-formedness (`wf`) rules out.

use vstd::prelude::*;

use crate::schema::{fields_size, fixed_size, is_fixed_size, wf, FieldDef, Schema};

verus! {

/// Prefix sums of field sizes never decrease: the offset of a later field
/// is never below the offset of an earlier one.
pub proof fn lemma_fields_size_monotone(fields: Seq<FieldDef>, i: int, j: int)
    requires
        0 <= i <= j <= fields.len(),
    ensures
        fields_size(fields, i) <= fields_size(fields, j),
    decreases j,
{
    if i < j {
        lemma_fields_size_monotone(fields, i, j - 1);
    }
}

/// Whether the node's encoded size is statically known (no runtime header
/// is needed to delimit it).
pub fn is_statically_sized(s: &Schema) -> (b: bool)
    ensures
        b == is_fixed_size(*s),
{
    match s {
        Schema::Byte => true,
        Schema::Array { .. } => true,
        Schema::Struct { .. } => true,
        _ => false,
    }
}

/// The exact byte size of a fixed-size node, derived from the schema alone.
pub fn total_size_of(s: &Schema) -> (n: usize)
    requires
        wf(*s),
        is_fixed_size(*s),
    ensures
        n == fixed_size(*s),
        n <= 0xffff_ffff,
    decreases *s,
{
    match s {
        Schema::Byte => 1,
        Schema::Array { inner, item_count } => {
            let inner_size = total_size_of(inner);
            *item_count * inner_size
        },
        Schema::Struct { fields } => struct_size_of(fields),
        _ => 0,
    }
}

/// The summed byte size of a struct's field list.
pub fn struct_size_of(fields: &Vec<FieldDef>) -> (n: usize)
    requires
        forall|i: int|
            0 <= i < fields@.len() ==> wf(#[trigger] fields@[i].typ) && is_fixed_size(
                fields@[i].typ,
            ),
        fields_size(fields@, fields@.len() as int) <= 0xffff_ffff,
    ensures
        n == fields_size(fields@, fields@.len() as int),
        n <= 0xffff_ffff,
    decreases fields@,
{
    let ghost all: int = fields@.len() as int;
    let mut total: usize = 0;
    let mut i: usize = 0;
    while i < fields.len()
        invariant
            0 <= i <= fields@.len(),
            total == fields_size(fields@, i as int),
            fields_size(fields@, all) <= 0xffff_ffff,
            all == fields@.len(),
            forall|k: int|
                0 <= k < fields@.len() ==> wf(#[trigger] fields@[k].typ) && is_fixed_size(
                    fields@[k].typ,
                ),
        decreases fields@.len() - i,
    {
        proof {
            lemma_fields_size_monotone(fields@, i + 1 as int, all);
        }
        let step = total_size_of(&fields[i].typ);
        total = total + step;
        i = i + 1;
    }
    total
}

/// The byte offset of field `i` within a struct buffer: the sum of the
/// sizes of the fields before it.
pub fn field_offset(fields: &Vec<FieldDef>, i: usize) -> (off: usize)
    requires
        i <= fields@.len(),
        forall|k: int|
            0 <= k < fields@.len() ==> wf(#[trigger] fields@[k].typ) && is_fixed_size(
                fields@[k].typ,
            ),
        fields_size(fields@, fields@.len() as int) <= 0xffff_ffff,
    ensures
        off == fields_size(fields@, i as int),
        off <= 0xffff_ffff,
{
    let ghost all: int = fields@.len() as int;
    let mut total: usize = 0;
    let mut k: usize = 0;
    while k < i
        invariant
            0 <= k <= i <= fields@.len(),
            total == fields_size(fields@, k as int),
            fields_size(fields@, all) <= 0xffff_ffff,
            all == fields@.len(),
            forall|m: int|
                0 <= m < fields@.len() ==> wf(#[trigger] fields@[m].typ) && is_fixed_size(
                    fields@[m].typ,
                ),
        decreases i - k,
    {
        proof {
            lemma_fields_size_monotone(fields@, k + 1 as int, all);
        }
        let step = total_size_of(&fields[k].typ);
        total = total + step;
        k = k + 1;
    }
    proof {
        lemma_fields_size_monotone(fields@, i as int, all);
    }
    total
}

} // verus!
