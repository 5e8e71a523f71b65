//! Accessor derivation: over an already-validated buffer, every member is
//! reachable by a pure, constant-time slice-range computation. Nothing
//! here re-validates; successful decoding guarantees each range below is
//! in bounds.

use vstd::prelude::*;

use crate::decode::{check, observed_count, offset_entry};
use crate::header::{le32_at, read_unit};
use crate::layout::{field_offset, lemma_fields_size_monotone, total_size_of};
use crate::schema::{fields_size, fixed_size, wf, Schema};

verus! {

/// A buffer that decoding accepts for `s`, in strict or compatibility
/// mode. Everything an accessor computes is safe on such a buffer.
pub open spec fn accepted(s: Schema, b: Seq<u8>) -> bool {
    check(s, b, true) is Ok || check(s, b, false) is Ok
}

/// How many members of a validated buffer accessors may address: the
/// declared count for the fixed-layout kinds and for tables (whose extra
/// compatible fields are counted but not addressable), and the observed
/// count for the vector kinds.
pub open spec fn member_limit(s: Schema, b: Seq<u8>) -> nat {
    match s {
        Schema::Byte => 0,
        Schema::Opt { .. } => 0,
        Schema::Union { .. } => 0,
        Schema::Array { item_count, .. } => item_count as nat,
        Schema::Struct { fields } => fields@.len(),
        Schema::FixVec { .. } => le32_at(b, 0),
        Schema::DynVec { .. } => observed_count(s, b),
        Schema::Table { fields } => fields@.len(),
    }
}

/// The starting byte of member `i` in a validated buffer of `s`; the
/// member's region ends where member `i + 1` would start (for the last
/// member that boundary is the buffer's total size).
pub open spec fn member_lo(s: Schema, b: Seq<u8>, i: nat) -> nat {
    match s {
        Schema::Byte => 0,
        Schema::Opt { .. } => 0,
        Schema::Union { .. } => 0,
        Schema::Array { inner, .. } => i * fixed_size(*inner),
        Schema::Struct { fields } => fields_size(fields@, i as int),
        Schema::FixVec { inner } => 4 + i * fixed_size(*inner),
        Schema::DynVec { .. } | Schema::Table { .. } => offset_entry(
            b,
            observed_count(s, b) as int,
            i as int,
        ),
    }
}

/// Whether an optional value is present: presence is exactly a non-empty
/// buffer, and the value's view is the whole buffer.
pub fn opt_is_some(b: &[u8]) -> (r: bool)
    ensures
        r == (b@.len() != 0),
{
    b.len() != 0
}

/// The discriminant of a validated union buffer: its first header unit.
pub fn union_discriminant(s: &Schema, b: &[u8]) -> (id: u32)
    requires
        s is Union,
        accepted(*s, b@),
    ensures
        id as nat == le32_at(b@, 0),
{
    read_unit(b, 0)
}

/// The inner view of a validated union buffer: everything after the
/// discriminant.
pub fn union_inner_slice<'a>(s: &Schema, b: &'a [u8]) -> (r: &'a [u8])
    requires
        s is Union,
        accepted(*s, b@),
    ensures
        r@ == b@.skip(4),
{
    let r = vstd::slice::slice_subrange(b, 4, b.len());
    proof {
        assert(r@ =~= b@.skip(4));
    }
    r
}

/// The byte range `[lo, hi)` of member `i` of a validated buffer: a fixed
/// offset computation for the fixed-layout kinds, a stride past the count
/// header for item vectors, and an offset-table lookup for the
/// variable-size kinds. The range always lies within the buffer.
pub fn member_range(s: &Schema, b: &[u8], i: usize) -> (r: (usize, usize))
    requires
        wf(*s),
        accepted(*s, b@),
        (i as nat) < member_limit(*s, b@),
    ensures
        r.0 == member_lo(*s, b@, i as nat),
        r.1 == member_lo(*s, b@, i as nat + 1),
        r.0 <= r.1 <= b@.len(),
{
    match s {
        Schema::Byte | Schema::Opt { .. } | Schema::Union { .. } => {
            proof {
                assert(false);
            }
            (0, 0)
        },
        Schema::Array { inner, item_count } => {
            let item = total_size_of(inner);
            proof {
                let count = (*item_count) as int;
                assert((i as int + 1) * (item as int) <= count * (item as int) && (i as int) * (
                item as int) + (item as int) == (i as int + 1) * (item as int) && 0 <= (i as int) * (
                item as int)) by (nonlinear_arith)
                    requires
                        0 <= (i as int),
                        (i as int) < count,
                        0 <= (item as int),
                ;
            }
            let lo = i * item;
            (lo, lo + item)
        },
        Schema::Struct { fields } => {
            // Anchors the field count in a machine word, so `i + 1` below
            // cannot overflow.
            let _n = fields.len();
            let lo = field_offset(fields, i);
            let hi = field_offset(fields, i + 1);
            proof {
                lemma_fields_size_monotone(fields@, i as int, i as int + 1);
                lemma_fields_size_monotone(fields@, i as int + 1, fields@.len() as int);
            }
            (lo, hi)
        },
        Schema::FixVec { inner } => {
            let item = total_size_of(inner);
            let blen = b.len();
            let ghost count = le32_at(b@, 0);
            proof {
                assert(b@.len() == 4 + (item as nat) * count);
                assert((i as int + 1) * (item as int) <= (count as int) * (item as int) && (
                i as int) * (item as int) + (item as int) == (i as int + 1) * (item as int) && 0 <= (
                i as int) * (item as int)) by (nonlinear_arith)
                    requires
                        0 <= (i as int),
                        (i as int) < (count as int),
                        0 <= (item as int),
                ;
            }
            let lo = 4 + i * item;
            (lo, lo + item)
        },
        Schema::DynVec { .. } | Schema::Table { .. } => {
            let ghost count_g = observed_count(*s, b@);
            let first = read_unit(b, 4);
            let count: usize = (first / 4 - 1) as usize;
            proof {
                assert(count == count_g);
                crate::decode::lemma_offsets_chain(b@, count_g as int, i as int + 1, count_g as int);
            }
            let lo = read_unit(b, 4 * (i + 1)) as usize;
            let hi: usize = if i + 1 < count {
                read_unit(b, 4 * (i + 2)) as usize
            } else {
                b.len()
            };
            (lo, hi)
        },
    }
}

/// Member `i` of a validated buffer, as the sub-slice of the buffer of
/// record its range delimits: zero-copy, constant-time, no re-validation.
pub fn member_slice<'a>(s: &Schema, b: &'a [u8], i: usize) -> (r: &'a [u8])
    requires
        wf(*s),
        accepted(*s, b@),
        (i as nat) < member_limit(*s, b@),
    ensures
        r@ == b@.subrange(
            member_lo(*s, b@, i as nat) as int,
            member_lo(*s, b@, i as nat + 1) as int,
        ),
{
    let (lo, hi) = member_range(s, b, i);
    vstd::slice::slice_subrange(b, lo, hi)
}

} // verus!
