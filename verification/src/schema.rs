//! The verified schema: one type definition per node, built from a closed
//! set of composable kinds. Nodes are immutable; every algorithm in this
//! crate is a pure function over a node.
//!
//! A node is *fixed-size* when its encoded byte length is determined by the
//! schema alone (`Byte`, `Array`, `Struct`); every other kind records its
//! shape in a runtime header and is *variable-size*.

use vstd::prelude::*;

verus! {

/// A named field of a `Struct` or `Table` node.
pub struct FieldDef {
    pub name: String,
    pub typ: Schema,
}

/// One declared alternative of a `Union` node, tagged by its discriminant.
pub struct UnionArm {
    pub id: u32,
    pub typ: Schema,
}

/// A type definition: the closed set of kinds the format composes.
pub enum Schema {
    /// The atomic unit: a single raw byte.
    Byte,
    /// Zero-length buffer means absent; otherwise the inner encoding.
    Opt { inner: Box<Schema> },
    /// A 4-byte discriminant followed by the matching arm's encoding.
    Union { arms: Vec<UnionArm> },
    /// Exactly `item_count` encodings of a fixed-size inner type, no header.
    Array { inner: Box<Schema>, item_count: usize },
    /// Ordered fixed-size fields at statically known offsets, no header.
    Struct { fields: Vec<FieldDef> },
    /// An item-count header followed by fixed-size item encodings.
    FixVec { inner: Box<Schema> },
    /// A total-size header, an offset table, then variable-size items.
    DynVec { inner: Box<Schema> },
    /// Same physical shape as `DynVec`, but named heterogeneous fields.
    Table { fields: Vec<FieldDef> },
}

/// Whether the encoded byte length of `s` is determined by the schema alone.
pub open spec fn is_fixed_size(s: Schema) -> bool {
    match s {
        Schema::Byte => true,
        Schema::Array { .. } => true,
        Schema::Struct { .. } => true,
        _ => false,
    }
}

/// The statically known byte size of a fixed-size node. Meaningful only
/// when `is_fixed_size` holds (and 0 on the variable-size kinds).
pub open spec fn fixed_size(s: Schema) -> nat
    decreases s, 0int,
{
    match s {
        Schema::Byte => 1,
        Schema::Array { inner, item_count } => item_count as nat * fixed_size(*inner),
        Schema::Struct { fields } => fields_size(fields@, fields@.len() as int),
        _ => 0,
    }
}

/// Total byte size of the first `k` fields; `fields_size(fields, i)` is
/// therefore also the byte offset of field `i` within its parent buffer.
pub open spec fn fields_size(fields: Seq<FieldDef>, k: int) -> nat
    decreases fields, k,
{
    if k <= 0 || k > fields.len() {
        0
    } else {
        fields_size(fields, k - 1) + fixed_size(fields[k - 1].typ)
    }
}

/// Well-formedness, as the external schema front end guarantees it:
/// members of fixed-layout composites are themselves fixed-size, union
/// discriminants are unique, and every statically known size fits in a
/// header unit (a machine bound the wire format itself imposes).
pub open spec fn wf(s: Schema) -> bool
    decreases s, 1int,
{
    &&& match s {
        Schema::Byte => true,
        Schema::Opt { inner } => wf(*inner),
        Schema::Union { arms } => {
            &&& forall|i: int| 0 <= i < arms@.len() ==> wf(#[trigger] arms@[i].typ)
            &&& forall|i: int, j: int|
                0 <= i < j < arms@.len() ==> arms@[i].id != arms@[j].id
        },
        Schema::Array { inner, .. } => wf(*inner) && is_fixed_size(*inner),
        Schema::Struct { fields } => {
            forall|i: int|
                0 <= i < fields@.len() ==> wf(#[trigger] fields@[i].typ) && is_fixed_size(
                    fields@[i].typ,
                )
        },
        Schema::FixVec { inner } => wf(*inner) && is_fixed_size(*inner),
        Schema::DynVec { inner } => wf(*inner),
        Schema::Table { fields } => {
            forall|i: int| 0 <= i < fields@.len() ==> wf(#[trigger] fields@[i].typ)
        },
    }
    &&& (is_fixed_size(s) ==> fixed_size(s) <= 0xffff_ffff)
}

/// Decide well-formedness at run time: exactly the [`wf`] predicate. A
/// schema front end hands over nodes this accepts; everything else in the
/// crate takes `wf` as a precondition.
#[verifier::loop_isolation(false)]
pub fn check_wf(s: &Schema) -> (b: bool)
    ensures
        b == wf(*s),
    decreases *s,
{
    match s {
        Schema::Byte => true,
        Schema::Opt { inner } => check_wf(inner),
        Schema::Union { arms } => {
            let mut i: usize = 0;
            while i < arms.len()
                invariant
                    0 <= i <= arms@.len(),
                    forall|k: int| 0 <= k < i ==> wf(#[trigger] arms@[k].typ),
                    forall|k: int, j: int| 0 <= k < j < i ==> arms@[k].id != arms@[j].id,
                decreases arms@.len() - i,
            {
                if !check_wf(&arms[i].typ) {
                    return false;
                }
                let mut j: usize = 0;
                while j < i
                    invariant
                        0 <= j <= i < arms@.len(),
                        forall|k: int| 0 <= k < j ==> arms@[k].id != arms@[i as int].id,
                    decreases i - j,
                {
                    if arms[j].id == arms[i].id {
                        return false;
                    }
                    j = j + 1;
                }
                i = i + 1;
            }
            true
        },
        Schema::Array { inner, item_count } => {
            if !(check_wf(inner) && crate::layout::is_statically_sized(inner)) {
                return false;
            }
            let item = crate::layout::total_size_of(inner);
            proof {
                assert((*item_count as int) * (item as int) <= (usize::MAX as int) * 0xffff_ffff)
                    by (nonlinear_arith)
                    requires
                        0 <= (*item_count as int),
                        (*item_count as int) <= usize::MAX as int,
                        0 <= (item as int),
                        (item as int) <= 0xffff_ffff,
                ;
            }
            (*item_count as u128) * (item as u128) <= 0xffff_ffff
        },
        Schema::Struct { fields } => {
            let mut total: u128 = 0;
            let mut i: usize = 0;
            while i < fields.len()
                invariant
                    0 <= i <= fields@.len(),
                    forall|k: int|
                        0 <= k < i ==> wf(#[trigger] fields@[k].typ) && is_fixed_size(
                            fields@[k].typ,
                        ),
                    total == fields_size(fields@, i as int),
                    total as int <= 0xffff_ffff * (i as int),
                decreases fields@.len() - i,
            {
                if !(check_wf(&fields[i].typ) && crate::layout::is_statically_sized(
                    &fields[i].typ,
                )) {
                    return false;
                }
                let step = crate::layout::total_size_of(&fields[i].typ);
                proof {
                    assert(0xffff_ffff * (i as int) + 0xffff_ffff == 0xffff_ffff * (i as int + 1))
                        by (nonlinear_arith);
                    assert(0xffff_ffff * (i as int + 1) <= 0xffff_ffff * 0x1_0000_0000_0000_0000)
                        by (nonlinear_arith)
                        requires
                            0 <= (i as int),
                            (i as int) + 1 <= 0x1_0000_0000_0000_0000,
                    ;
                }
                total = total + (step as u128);
                i = i + 1;
            }
            total <= 0xffff_ffff
        },
        Schema::FixVec { inner } => check_wf(inner) && crate::layout::is_statically_sized(inner),
        Schema::DynVec { inner } => check_wf(inner),
        Schema::Table { fields } => {
            let mut i: usize = 0;
            while i < fields.len()
                invariant
                    0 <= i <= fields@.len(),
                    forall|k: int| 0 <= k < i ==> wf(#[trigger] fields@[k].typ),
                decreases fields@.len() - i,
            {
                if !check_wf(&fields[i].typ) {
                    return false;
                }
                i = i + 1;
            }
            true
        },
    }
}

} // verus!
