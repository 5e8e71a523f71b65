//! Decoder / validator: for a schema node and an untrusted byte slice,
//! verify header integrity, the declared total size, offset-table
//! monotonicity, and every member region, without copying any data.
//!
//! The spec function [`check`] is the single source of truth: it gives, for
//! every node, slice and compatibility flag, either acceptance or the exact
//! structural error. The executable [`validate`] returns precisely that
//! outcome, and a successful validation guarantees that every accessor
//! range of the `access` module stays in bounds.

use vstd::prelude::*;

use crate::header::{le32_at, read_unit};
use crate::schema::{fixed_size, wf, FieldDef, Schema, UnionArm};

verus! {

/// The structural errors decoding can report. Encoding never fails; all of
/// these are detected while validating an untrusted slice, and a nested
/// member's error is propagated unchanged.
#[derive(Clone, Copy, Debug, PartialEq, Eq, Structural)]
pub enum DecodeError {
    /// The slice is shorter than the minimum header or offset-table region
    /// for its kind.
    HeaderTooShort,
    /// The declared or statically known total size disagrees with the
    /// actual slice length.
    SizeMismatch,
    /// The first offset-table entry is not a multiple of 4 or is smaller
    /// than the minimum header-table size.
    OffsetMisaligned,
    /// Two adjacent offset-table entries decrease.
    OffsetNotMonotonic,
    /// A table's observed field count is below the schema's declared
    /// count, or above it while compatibility mode is disabled.
    FieldCountMismatch,
    /// A union tag not present in the schema's declared discriminant set.
    UnknownDiscriminant,
}

/// Offset-table entry `i` of a buffer holding `count` items: entries
/// `0 .. count` are read from the table, and the synthetic trailing entry
/// `count` is the buffer's total size, closing the last item's range.
pub open spec fn offset_entry(b: Seq<u8>, count: int, i: int) -> nat {
    if i < count {
        le32_at(b, 4 * (i + 1))
    } else {
        b.len()
    }
}

/// No adjacent pair of offset-table entries decreases (the synthetic
/// trailing entry included).
pub open spec fn offsets_monotonic(b: Seq<u8>, count: int) -> bool {
    forall|i: int|
        #![trigger offset_entry(b, count, i), offset_entry(b, count, i + 1)]
        0 <= i < count ==> offset_entry(b, count, i) <= offset_entry(b, count, i + 1)
}

/// Validation outcome of one union buffer tail against the declared arms,
/// in declaration order: the first arm carrying the read discriminant
/// decides; when no arm carries it, the discriminant is unknown.
pub open spec fn check_union(
    arms: Seq<UnionArm>,
    id: nat,
    rest: Seq<u8>,
    compat: bool,
) -> Result<(), DecodeError>
    decreases arms, 0int,
{
    if arms.len() == 0 {
        Err(DecodeError::UnknownDiscriminant)
    } else if arms[0].id as nat == id {
        check(arms[0].typ, rest, compat)
    } else {
        check_union(arms.subrange(1, arms.len() as int), id, rest, compat)
    }
}

/// Validation outcome of items `i ..` of a vector buffer, each against its
/// offset-delimited region; the first failing item's error is the result.
pub open spec fn check_items(
    inner: Schema,
    b: Seq<u8>,
    count: int,
    i: int,
    compat: bool,
) -> Result<(), DecodeError>
    decreases inner, count - i,
{
    if i >= count {
        Ok(())
    } else {
        let lo = offset_entry(b, count, i) as int;
        let hi = offset_entry(b, count, i + 1) as int;
        match check(inner, b.subrange(lo, hi), compat) {
            Ok(_) => check_items(inner, b, count, i + 1, compat),
            Err(e) => Err(e),
        }
    }
}

/// Validation outcome of declared fields `i ..` of a table buffer holding
/// `count >= fields.len()` observed fields. Only declared fields are
/// decoded; extra trailing fields are counted but never type-checked,
/// since the schema has no type for them.
pub open spec fn check_declared_fields(
    fields: Seq<FieldDef>,
    b: Seq<u8>,
    count: int,
    i: int,
    compat: bool,
) -> Result<(), DecodeError>
    decreases fields, fields.len() - i,
{
    if i < 0 || i >= fields.len() {
        Ok(())
    } else {
        let lo = offset_entry(b, count, i) as int;
        let hi = offset_entry(b, count, i + 1) as int;
        match check(fields[i].typ, b.subrange(lo, hi), compat) {
            Ok(_) => check_declared_fields(fields, b, count, i + 1, compat),
            Err(e) => Err(e),
        }
    }
}

/// The decode/validate algorithm: acceptance, or the exact structural
/// error, of `b` as an encoding of `s`. `compat` permits a table's
/// observed field count to exceed the declared count. A bare-header
/// table buffer observes zero fields, so a schema that declares fields
/// rejects it as a count mismatch: accessors to the declared fields
/// could never be served from it.
pub open spec fn check(s: Schema, b: Seq<u8>, compat: bool) -> Result<(), DecodeError>
    decreases s, 0int,
{
    match s {
        Schema::Byte => {
            if b.len() == 1 {
                Ok(())
            } else {
                Err(DecodeError::SizeMismatch)
            }
        },
        Schema::Opt { inner } => {
            if b.len() == 0 {
                Ok(())
            } else {
                check(*inner, b, compat)
            }
        },
        Schema::Union { arms } => {
            if b.len() < 4 {
                Err(DecodeError::HeaderTooShort)
            } else {
                check_union(arms@, le32_at(b, 0), b.skip(4), compat)
            }
        },
        Schema::Array { .. } | Schema::Struct { .. } => {
            if b.len() == fixed_size(s) {
                Ok(())
            } else {
                Err(DecodeError::SizeMismatch)
            }
        },
        Schema::FixVec { inner } => {
            if b.len() < 4 {
                Err(DecodeError::HeaderTooShort)
            } else {
                let count = le32_at(b, 0);
                if count == 0 {
                    if b.len() == 4 {
                        Ok(())
                    } else {
                        Err(DecodeError::SizeMismatch)
                    }
                } else if b.len() == 4 + fixed_size(*inner) * count {
                    Ok(())
                } else {
                    Err(DecodeError::SizeMismatch)
                }
            }
        },
        Schema::DynVec { inner } => {
            if b.len() < 4 {
                Err(DecodeError::HeaderTooShort)
            } else if b.len() != le32_at(b, 0) {
                Err(DecodeError::SizeMismatch)
            } else if b.len() == 4 {
                Ok(())
            } else if b.len() < 8 {
                Err(DecodeError::HeaderTooShort)
            } else {
                let first = le32_at(b, 4);
                if first % 4 != 0 || first < 8 {
                    Err(DecodeError::OffsetMisaligned)
                } else {
                    let count = (first / 4 - 1) as int;
                    if b.len() < 4 * (count + 1) {
                        Err(DecodeError::HeaderTooShort)
                    } else if !offsets_monotonic(b, count) {
                        Err(DecodeError::OffsetNotMonotonic)
                    } else {
                        check_items(*inner, b, count, 0, compat)
                    }
                }
            }
        },
        Schema::Table { fields } => {
            if b.len() < 4 {
                Err(DecodeError::HeaderTooShort)
            } else if b.len() != le32_at(b, 0) {
                Err(DecodeError::SizeMismatch)
            } else if b.len() == 4 {
                if fields@.len() == 0 {
                    Ok(())
                } else {
                    Err(DecodeError::FieldCountMismatch)
                }
            } else if b.len() < 8 {
                Err(DecodeError::HeaderTooShort)
            } else {
                let first = le32_at(b, 4);
                if first % 4 != 0 || first < 8 {
                    Err(DecodeError::OffsetMisaligned)
                } else {
                    let count = (first / 4 - 1) as int;
                    if count < fields@.len() {
                        Err(DecodeError::FieldCountMismatch)
                    } else if count > fields@.len() && !compat {
                        Err(DecodeError::FieldCountMismatch)
                    } else if b.len() < 4 * (count + 1) {
                        Err(DecodeError::HeaderTooShort)
                    } else if !offsets_monotonic(b, count) {
                        Err(DecodeError::OffsetNotMonotonic)
                    } else {
                        check_declared_fields(fields@, b, count, 0, compat)
                    }
                }
            }
        },
    }
}

/// The member count a validated buffer serves to accessors: the observed
/// (not the declared) count, so extra compatible table fields are counted.
pub open spec fn observed_count(s: Schema, b: Seq<u8>) -> nat {
    match s {
        Schema::Byte => 0,
        Schema::Opt { .. } => if b.len() == 0 {
            0nat
        } else {
            1nat
        },
        Schema::Union { .. } => 1,
        Schema::Array { item_count, .. } => item_count as nat,
        Schema::Struct { fields } => fields@.len(),
        Schema::FixVec { .. } => le32_at(b, 0),
        Schema::DynVec { .. } | Schema::Table { .. } => {
            if b.len() == 4 {
                0nat
            } else {
                (le32_at(b, 4) / 4 - 1) as nat
            }
        },
    }
}

/// Entries of a monotonic offset table never decrease over any distance.
pub proof fn lemma_offsets_chain(b: Seq<u8>, count: int, i: int, j: int)
    requires
        offsets_monotonic(b, count),
        0 <= i <= j <= count,
    ensures
        offset_entry(b, count, i) <= offset_entry(b, count, j),
    decreases j - i,
{
    if i < j {
        lemma_offsets_chain(b, count, i + 1, j);
    }
}

/// The result of a successful validation: the validated slice itself is
/// the buffer of record (never copied); this records the metadata needed
/// to serve accessors — the observed member count.
#[derive(Clone, Copy, Debug, PartialEq, Eq, Structural)]
pub struct ViewMeta {
    pub count: usize,
}

/// Check the offset-table region of a buffer whose observed item count is
/// `count`: the table must fit the buffer and its entries must not
/// decrease. On success, returns the `count + 1` absolute offsets, the
/// synthetic trailing entry (the buffer length) included.
fn check_offset_table(b: &[u8], count: usize) -> (r: Result<Vec<usize>, DecodeError>)
    requires
        count < 0x1_0000_0000,
    ensures
        r is Ok ==> {
            &&& 4 * (count as int + 1) <= b@.len()
            &&& offsets_monotonic(b@, count as int)
            &&& r->Ok_0@.len() == count + 1
            &&& forall|j: int| 0 <= j <= count ==> r->Ok_0@[j] == offset_entry(b@, count as int, j)
        },
        r is Err ==> {
            ||| (b@.len() < 4 * (count as int + 1) && r->Err_0 == DecodeError::HeaderTooShort)
            ||| (4 * (count as int + 1) <= b@.len() && !offsets_monotonic(b@, count as int)
                && r->Err_0 == DecodeError::OffsetNotMonotonic)
        },
{
    let ghost cg: int = count as int;
    let need: u64 = 4 * (count as u64 + 1);
    let blen: usize = b.len();
    if (blen as u64) < need {
        return Err(DecodeError::HeaderTooShort);
    }
    let mut offs: Vec<usize> = Vec::new();
    let mut i: usize = 0;
    while i < count
        invariant
            0 <= i <= count,
            cg == count as int,
            4 * (cg + 1) <= blen,
            blen == b@.len(),
            offs@.len() == i,
            forall|j: int| 0 <= j < i ==> offs@[j] == offset_entry(b@, cg, j),
        decreases count - i,
    {
        let pos: usize = 4 * (i + 1);
        let entry = read_unit(b, pos);
        offs.push(entry as usize);
        i = i + 1;
    }
    offs.push(blen);
    let mut i: usize = 0;
    while i < count
        invariant
            0 <= i <= count,
            cg == count as int,
            4 * (cg + 1) <= b@.len(),
            offs@.len() == count + 1,
            forall|j: int| 0 <= j <= count ==> offs@[j] == offset_entry(b@, cg, j),
            forall|j: int|
                #![trigger offset_entry(b@, cg, j), offset_entry(b@, cg, j + 1)]
                0 <= j < i ==> offset_entry(b@, cg, j) <= offset_entry(b@, cg, j + 1),
        decreases count - i,
    {
        if offs[i] > offs[i + 1] {
            proof {
                assert(offset_entry(b@, cg, i as int) > offset_entry(b@, cg, i as int + 1));
                assert(!offsets_monotonic(b@, cg));
            }
            return Err(DecodeError::OffsetNotMonotonic);
        }
        i = i + 1;
    }
    proof {
        assert(offsets_monotonic(b@, cg));
    }
    Ok(offs)
}

/// Validate items `0 ..` of a vector of variable-size items, each against
/// its offset-delimited region, in order.
fn validate_items(inner: &Schema, b: &[u8], count: usize, offs: &Vec<usize>, compatible: bool) -> (r:
    Result<(), DecodeError>)
    requires
        wf(*inner),
        offs@.len() == count + 1,
        forall|j: int| 0 <= j <= count ==> offs@[j] == offset_entry(b@, count as int, j),
        offsets_monotonic(b@, count as int),
    ensures
        r is Ok <==> check_items(*inner, b@, count as int, 0, compatible) is Ok,
        r is Err ==> check_items(*inner, b@, count as int, 0, compatible) == Err::<
            (),
            DecodeError,
        >(r->Err_0),
    decreases *inner, 1int,
{
    let ghost cg: int = count as int;
    let mut i: usize = 0;
    while i < count
        invariant
            0 <= i <= count,
            cg == count as int,
            wf(*inner),
            offs@.len() == count + 1,
            forall|j: int| 0 <= j <= count ==> offs@[j] == offset_entry(b@, cg, j),
            offsets_monotonic(b@, cg),
            check_items(*inner, b@, cg, 0, compatible) == check_items(
                *inner,
                b@,
                cg,
                i as int,
                compatible,
            ),
        decreases count - i,
    {
        proof {
            lemma_offsets_chain(b@, cg, i as int + 1, cg);
        }
        let lo = offs[i];
        let hi = offs[i + 1];
        let sub = vstd::slice::slice_subrange(b, lo, hi);
        match validate(inner, sub, compatible) {
            Ok(_) => {},
            Err(e) => {
                return Err(e);
            },
        }
        i = i + 1;
    }
    Ok(())
}

/// Validate the schema's declared fields of a table buffer holding
/// `count >= fields.len()` observed fields, in order. Extra trailing
/// fields are left unread: the schema has no type to check them against.
fn validate_declared_fields(
    fields: &Vec<FieldDef>,
    b: &[u8],
    count: usize,
    offs: &Vec<usize>,
    compatible: bool,
) -> (r: Result<(), DecodeError>)
    requires
        forall|j: int| 0 <= j < fields@.len() ==> wf(#[trigger] fields@[j].typ),
        fields@.len() <= count,
        offs@.len() == count + 1,
        forall|j: int| 0 <= j <= count ==> offs@[j] == offset_entry(b@, count as int, j),
        offsets_monotonic(b@, count as int),
    ensures
        r is Ok <==> check_declared_fields(fields@, b@, count as int, 0, compatible) is Ok,
        r is Err ==> check_declared_fields(fields@, b@, count as int, 0, compatible) == Err::<
            (),
            DecodeError,
        >(r->Err_0),
    decreases fields@, 1int,
{
    let ghost cg: int = count as int;
    let mut i: usize = 0;
    while i < fields.len()
        invariant
            0 <= i <= fields@.len() <= count,
            cg == count as int,
            forall|j: int| 0 <= j < fields@.len() ==> wf(#[trigger] fields@[j].typ),
            offs@.len() == count + 1,
            forall|j: int| 0 <= j <= count ==> offs@[j] == offset_entry(b@, cg, j),
            offsets_monotonic(b@, cg),
            check_declared_fields(fields@, b@, cg, 0, compatible) == check_declared_fields(
                fields@,
                b@,
                cg,
                i as int,
                compatible,
            ),
        decreases fields@.len() - i,
    {
        proof {
            lemma_offsets_chain(b@, cg, i as int + 1, cg);
        }
        let lo = offs[i];
        let hi = offs[i + 1];
        let sub = vstd::slice::slice_subrange(b, lo, hi);
        match validate(&fields[i].typ, sub, compatible) {
            Ok(_) => {},
            Err(e) => {
                return Err(e);
            },
        }
        i = i + 1;
    }
    Ok(())
}

/// Decode `b` as an encoding of `s`: verify every structural invariant the
/// format demands and return either the view metadata or the exact error
/// [`check`] assigns. The input is only read; a success guarantees every
/// accessor range over `b` is in bounds.
pub fn validate(s: &Schema, b: &[u8], compatible: bool) -> (r: Result<ViewMeta, DecodeError>)
    requires
        wf(*s),
    ensures
        r is Ok <==> check(*s, b@, compatible) is Ok,
        r is Err ==> check(*s, b@, compatible) == Err::<(), DecodeError>(r->Err_0),
        r is Ok ==> r->Ok_0.count == observed_count(*s, b@),
    decreases *s, 0int,
{
    match s {
        Schema::Byte => {
            if b.len() == 1 {
                Ok(ViewMeta { count: 0 })
            } else {
                Err(DecodeError::SizeMismatch)
            }
        },
        Schema::Opt { inner } => {
            if b.len() == 0 {
                Ok(ViewMeta { count: 0 })
            } else {
                match validate(inner, b, compatible) {
                    Ok(_) => Ok(ViewMeta { count: 1 }),
                    Err(e) => Err(e),
                }
            }
        },
        Schema::Union { arms } => {
            if b.len() < 4 {
                return Err(DecodeError::HeaderTooShort);
            }
            let id = read_unit(b, 0);
            let ghost id_n: nat = id as nat;
            let rest = vstd::slice::slice_subrange(b, 4, b.len());
            proof {
                assert(rest@ =~= b@.skip(4));
            }
            proof {
                assert(arms@.skip(0) =~= arms@);
            }
            let mut i: usize = 0;
            while i < arms.len()
                invariant
                    0 <= i <= arms@.len(),
                    wf(*s),
                    s is Union,
                    arms@ == s->Union_arms@,
                    b@.len() >= 4,
                    id_n == le32_at(b@, 0),
                    id_n == id as nat,
                    rest@ == b@.skip(4),
                    check_union(arms@.skip(i as int), id_n, rest@, compatible) == check_union(
                        arms@,
                        id_n,
                        rest@,
                        compatible,
                    ),
                decreases arms@.len() - i,
            {
                let ghost tail = arms@.skip(i as int);
                proof {
                    assert(tail[0] == arms@[i as int]);
                }
                if arms[i].id == id {
                    proof {
                        assert(tail[0].id as nat == id_n);
                        assert(check_union(tail, id_n, rest@, compatible) == check(
                            tail[0].typ,
                            rest@,
                            compatible,
                        ));
                    }
                    let rr = validate(&arms[i].typ, rest, compatible);
                    match rr {
                        Ok(_) => {
                            return Ok(ViewMeta { count: 1 });
                        },
                        Err(e) => {
                            return Err(e);
                        },
                    }
                }
                proof {
                    assert(tail.subrange(1, tail.len() as int) =~= arms@.skip(i as int + 1));
                    assert(check_union(tail, id_n, rest@, compatible) == check_union(
                        tail.subrange(1, tail.len() as int),
                        id_n,
                        rest@,
                        compatible,
                    ));
                }
                i = i + 1;
            }
            proof {
                assert(arms@.skip(arms@.len() as int).len() == 0);
            }
            Err(DecodeError::UnknownDiscriminant)
        },
        Schema::Array { .. } => {
            let total = crate::layout::total_size_of(s);
            if b.len() == total {
                let count = match s {
                    Schema::Array { item_count, .. } => *item_count,
                    _ => 0,
                };
                Ok(ViewMeta { count })
            } else {
                Err(DecodeError::SizeMismatch)
            }
        },
        Schema::Struct { fields } => {
            let total = crate::layout::total_size_of(s);
            if b.len() == total {
                Ok(ViewMeta { count: fields.len() })
            } else {
                Err(DecodeError::SizeMismatch)
            }
        },
        Schema::FixVec { inner } => {
            if b.len() < 4 {
                return Err(DecodeError::HeaderTooShort);
            }
            let count = read_unit(b, 0);
            if count == 0 {
                if b.len() == 4 {
                    Ok(ViewMeta { count: 0 })
                } else {
                    Err(DecodeError::SizeMismatch)
                }
            } else {
                let item = crate::layout::total_size_of(inner);
                proof {
                    assert((item as int) * (count as int) <= 0xffff_ffff * 0xffff_ffff)
                        by (nonlinear_arith)
                        requires
                            0 <= item as int <= 0xffff_ffff,
                            0 <= count as int <= 0xffff_ffff,
                    ;
                }
                let expected: u64 = 4 + (item as u64) * (count as u64);
                if (b.len() as u64) == expected {
                    Ok(ViewMeta { count: count as usize })
                } else {
                    Err(DecodeError::SizeMismatch)
                }
            }
        },
        Schema::DynVec { inner } => {
            if b.len() < 4 {
                return Err(DecodeError::HeaderTooShort);
            }
            let total = read_unit(b, 0);
            if (b.len() as u64) != (total as u64) {
                return Err(DecodeError::SizeMismatch);
            }
            if b.len() == 4 {
                return Ok(ViewMeta { count: 0 });
            }
            if b.len() < 8 {
                return Err(DecodeError::HeaderTooShort);
            }
            let first = read_unit(b, 4);
            if first % 4 != 0 || first < 8 {
                return Err(DecodeError::OffsetMisaligned);
            }
            let count = first / 4 - 1;
            let offs = match check_offset_table(b, count as usize) {
                Ok(offs) => offs,
                Err(e) => {
                    return Err(e);
                },
            };
            match validate_items(inner, b, count as usize, &offs, compatible) {
                Ok(_) => Ok(ViewMeta { count: count as usize }),
                Err(e) => Err(e),
            }
        },
        Schema::Table { fields } => {
            if b.len() < 4 {
                return Err(DecodeError::HeaderTooShort);
            }
            let total = read_unit(b, 0);
            if (b.len() as u64) != (total as u64) {
                return Err(DecodeError::SizeMismatch);
            }
            if b.len() == 4 {
                if fields.len() == 0 {
                    return Ok(ViewMeta { count: 0 });
                } else {
                    return Err(DecodeError::FieldCountMismatch);
                }
            }
            if b.len() < 8 {
                return Err(DecodeError::HeaderTooShort);
            }
            let first = read_unit(b, 4);
            if first % 4 != 0 || first < 8 {
                return Err(DecodeError::OffsetMisaligned);
            }
            let count = first / 4 - 1;
            if (count as u64) < (fields.len() as u64) {
                return Err(DecodeError::FieldCountMismatch);
            }
            if (count as u64) > (fields.len() as u64) && !compatible {
                return Err(DecodeError::FieldCountMismatch);
            }
            let offs = match check_offset_table(b, count as usize) {
                Ok(offs) => offs,
                Err(e) => {
                    return Err(e);
                },
            };
            match validate_declared_fields(fields, b, count as usize, &offs, compatible) {
                Ok(_) => Ok(ViewMeta { count: count as usize }),
                Err(e) => Err(e),
            }
        },
    }
}

} // verus!
