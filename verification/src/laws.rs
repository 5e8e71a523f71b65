//! The guarantees the format gives as a whole, proved over the spec
//! functions of `encode`, `decode` and `access`: encoding never produces a
//! buffer decoding rejects, every member of an encoded buffer reads back
//! exactly, and corrupted headers are rejected with the exact error the
//! design assigns.

use vstd::prelude::*;

use crate::access::member_lo;
use crate::decode::{
    check, check_declared_fields, check_items, check_union, observed_count, offset_entry,
    offsets_monotonic, DecodeError,
};
use crate::encode::{
    concat_bytes, dyn_offset, dyn_total, encode_dyn_spec, lemma_concat_extract, lemma_concat_len,
    lemma_concat_take_step, lemma_offsets_bytes_at, lemma_offsets_bytes_len, lemma_prefix_subrange,
    lemma_shift_subrange, lemma_take_all, lemma_total_len_monotone, lemma_total_len_uniform,
    offsets_bytes, total_len,
};
use crate::header::{le32_at, le_bytes, lemma_le32_embedded, lemma_le_bytes_roundtrip};
use crate::schema::{fields_size, fixed_size, wf, FieldDef, Schema, UnionArm};

verus! {

/// The first declared arm carrying the read discriminant decides a union
/// buffer's validation.
proof fn lemma_check_union_found(arms: Seq<UnionArm>, k: int, id: nat, rest: Seq<u8>, c: bool)
    requires
        0 <= k < arms.len(),
        arms[k].id as nat == id,
        forall|j: int| 0 <= j < k ==> (#[trigger] arms[j]).id as nat != id,
    ensures
        check_union(arms, id, rest, c) == check(arms[k].typ, rest, c),
    decreases k,
{
    if k > 0 {
        let sub = arms.subrange(1, arms.len() as int);
        lemma_check_union_found(sub, k - 1, id, rest, c);
        assert(sub[k - 1] == arms[k]);
    }
}

/// A discriminant no arm carries leaves a union buffer unknown.
proof fn lemma_check_union_missing(arms: Seq<UnionArm>, id: nat, rest: Seq<u8>, c: bool)
    requires
        forall|j: int| 0 <= j < arms.len() ==> (#[trigger] arms[j]).id as nat != id,
    ensures
        check_union(arms, id, rest, c) == Err::<(), DecodeError>(DecodeError::UnknownDiscriminant),
    decreases arms.len(),
{
    if arms.len() > 0 {
        let sub = arms.subrange(1, arms.len() as int);
        lemma_check_union_missing(sub, id, rest, c);
    }
}

/// When every remaining item's region validates, the item sweep accepts.
proof fn lemma_check_items_all_ok(inner: Schema, b: Seq<u8>, count: int, i: int, c: bool)
    requires
        0 <= i <= count,
        forall|j: int|
            i <= j < count ==> (#[trigger] check(
                inner,
                b.subrange(
                    offset_entry(b, count, j) as int,
                    offset_entry(b, count, j + 1) as int,
                ),
                c,
            )) is Ok,
    ensures
        check_items(inner, b, count, i, c) is Ok,
    decreases count - i,
{
    if i < count {
        assert(check(
            inner,
            b.subrange(offset_entry(b, count, i) as int, offset_entry(b, count, i + 1) as int),
            c,
        ) is Ok);
        lemma_check_items_all_ok(inner, b, count, i + 1, c);
        assert(check_items(inner, b, count, i, c) == check_items(inner, b, count, i + 1, c));
    }
}

/// When every remaining declared field's region validates, the field
/// sweep accepts.
proof fn lemma_check_fields_all_ok(fields: Seq<FieldDef>, b: Seq<u8>, count: int, i: int, c: bool)
    requires
        0 <= i <= fields.len(),
        forall|j: int|
            i <= j < fields.len() ==> (#[trigger] check(
                fields[j].typ,
                b.subrange(
                    offset_entry(b, count, j) as int,
                    offset_entry(b, count, j + 1) as int,
                ),
                c,
            )) is Ok,
    ensures
        check_declared_fields(fields, b, count, i, c) is Ok,
    decreases fields.len() - i,
{
    if i < fields.len() {
        assert(check(
            fields[i].typ,
            b.subrange(offset_entry(b, count, i) as int, offset_entry(b, count, i + 1) as int),
            c,
        ) is Ok);
        lemma_check_fields_all_ok(fields, b, count, i + 1, c);
        assert(check_declared_fields(fields, b, count, i, c) == check_declared_fields(
            fields,
            b,
            count,
            i + 1,
            c,
        ));
    }
}

/// The total-size header of an offset-table encoding reads back as the
/// buffer's length.
proof fn lemma_dyn_header(children: Seq<Seq<u8>>)
    requires
        dyn_total(children) <= 0xffff_ffff,
    ensures
        encode_dyn_spec(children).len() == dyn_total(children),
        le32_at(encode_dyn_spec(children), 0) == dyn_total(children),
{
    let n = children.len() as int;
    let head = le_bytes(dyn_total(children) as u32);
    let table = offsets_bytes(children, n);
    let body = concat_bytes(children);
    lemma_offsets_bytes_len(children, n);
    lemma_concat_len(children);
    lemma_le_bytes_roundtrip(dyn_total(children) as u32);
    lemma_prefix_subrange(head + table, body, 0, 4);
    lemma_prefix_subrange(head, table, 0, 4);
    assert(head.subrange(0, 4) =~= head);
    lemma_le32_embedded(encode_dyn_spec(children), 0, dyn_total(children) as u32);
}

/// Offset-table entry `j` of an offset-table encoding reads back as the
/// encoder's offset for member `j`; the synthetic trailing entry equals
/// the offset just past the last member.
proof fn lemma_dyn_entry(children: Seq<Seq<u8>>, j: int)
    requires
        dyn_total(children) <= 0xffff_ffff,
        0 <= j <= children.len(),
    ensures
        offset_entry(encode_dyn_spec(children), children.len() as int, j) == dyn_offset(
            children,
            j,
        ),
{
    let n = children.len() as int;
    let buf = encode_dyn_spec(children);
    let head = le_bytes(dyn_total(children) as u32);
    let table = offsets_bytes(children, n);
    let body = concat_bytes(children);
    lemma_offsets_bytes_len(children, n);
    lemma_concat_len(children);
    lemma_take_all(children);
    lemma_total_len_monotone(children, j, n);
    lemma_le_bytes_roundtrip(dyn_total(children) as u32);
    if j < n {
        lemma_prefix_subrange(head + table, body, 4 * (j + 1), 4 * (j + 1) + 4);
        lemma_shift_subrange(head, table, 4 * j, 4 * j + 4);
        lemma_offsets_bytes_at(children, n, j);
        lemma_le32_embedded(buf, 4 * (j + 1), dyn_offset(children, j) as u32);
    }
}

/// Member `j` of an offset-table encoding occupies exactly the region
/// its table entry and the next entry delimit.
proof fn lemma_dyn_member(children: Seq<Seq<u8>>, j: int)
    requires
        dyn_total(children) <= 0xffff_ffff,
        0 <= j < children.len(),
    ensures
        encode_dyn_spec(children).subrange(
            dyn_offset(children, j) as int,
            dyn_offset(children, j + 1) as int,
        ) == children[j],
{
    let n = children.len() as int;
    let head = le_bytes(dyn_total(children) as u32);
    let table = offsets_bytes(children, n);
    let body = concat_bytes(children);
    lemma_offsets_bytes_len(children, n);
    lemma_concat_len(children);
    lemma_take_all(children);
    lemma_le_bytes_roundtrip(dyn_total(children) as u32);
    lemma_concat_take_step(children, j);
    lemma_total_len_monotone(children, j + 1, n);
    lemma_shift_subrange(
        head + table,
        body,
        total_len(children.take(j)) as int,
        total_len(children.take(j + 1)) as int,
    );
    lemma_concat_extract(children, j);
}

/// Dissection of an offset-table encoding: where the header, each table
/// entry and each member lie in `encode_dyn_spec(children)`, and that its
/// offset table never decreases.
pub proof fn lemma_dyn_encoding_shape(children: Seq<Seq<u8>>)
    requires
        dyn_total(children) <= 0xffff_ffff,
    ensures
        encode_dyn_spec(children).len() == dyn_total(children),
        le32_at(encode_dyn_spec(children), 0) == dyn_total(children),
        forall|j: int|
            0 <= j <= children.len() ==> #[trigger] offset_entry(
                encode_dyn_spec(children),
                children.len() as int,
                j,
            ) == dyn_offset(children, j),
        offsets_monotonic(encode_dyn_spec(children), children.len() as int),
        forall|j: int|
            0 <= j < children.len() ==> encode_dyn_spec(children).subrange(
                dyn_offset(children, j) as int,
                dyn_offset(children, j + 1) as int,
            ) == children[j],
{
    let buf = encode_dyn_spec(children);
    let n = children.len() as int;
    lemma_dyn_header(children);
    assert forall|j: int| 0 <= j <= n implies #[trigger] offset_entry(buf, n, j) == dyn_offset(
        children,
        j,
    ) by {
        lemma_dyn_entry(children, j);
    }
    assert forall|j: int| 0 <= j < n implies #[trigger] offset_entry(buf, n, j) <= offset_entry(
        buf,
        n,
        j + 1,
    ) by {
        lemma_concat_take_step(children, j);
    }
    assert forall|j: int| 0 <= j < n implies buf.subrange(
        dyn_offset(children, j) as int,
        dyn_offset(children, j + 1) as int,
    ) == children[j] by {
        lemma_dyn_member(children, j);
    }
}

/// Round-trip for options: the empty buffer is the valid "absent" value,
/// and any non-empty valid inner encoding is the valid "present" value,
/// whose view is the buffer itself. (A present value whose inner encoding
/// is empty is indistinguishable from absence by design.)
pub proof fn law_roundtrip_option(s: Schema, v: Seq<u8>, c: bool)
    requires
        s is Opt,
        check(*s->Opt_inner, v, c) is Ok,
        v.len() != 0,
    ensures
        check(s, Seq::<u8>::empty(), c) is Ok,
        observed_count(s, Seq::<u8>::empty()) == 0,
        check(s, v, c) is Ok,
        observed_count(s, v) == 1,
{
}

/// Round-trip for unions: tagging a valid encoding of declared arm `k`
/// with that arm's discriminant yields a valid buffer, whose discriminant
/// reads back and whose inner view is the arm's encoding.
pub proof fn law_roundtrip_union(s: Schema, k: int, v: Seq<u8>, c: bool)
    requires
        s is Union,
        wf(s),
        0 <= k < s->Union_arms@.len(),
        check(s->Union_arms@[k].typ, v, c) is Ok,
    ensures
        check(s, le_bytes(s->Union_arms@[k].id) + v, c) is Ok,
        le32_at(le_bytes(s->Union_arms@[k].id) + v, 0) == s->Union_arms@[k].id,
        (le_bytes(s->Union_arms@[k].id) + v).skip(4) == v,
{
    let arms = s->Union_arms@;
    let id = arms[k].id;
    let buf = le_bytes(id) + v;
    lemma_le_bytes_roundtrip(id);
    assert(buf.subrange(0, 4) =~= le_bytes(id));
    lemma_le32_embedded(buf, 0, id);
    assert(buf.skip(4) =~= v);
    assert forall|j: int| 0 <= j < k implies (#[trigger] arms[j]).id as nat != id as nat by {
        assert(arms[j].id != arms[k].id);
    }
    lemma_check_union_found(arms, k, id as nat, v, c);
}

/// A union buffer whose discriminant no arm declares is rejected as
/// unknown, whatever its payload.
pub proof fn law_union_unknown_discriminant(s: Schema, b: Seq<u8>, c: bool)
    requires
        s is Union,
        b.len() >= 4,
        forall|j: int|
            0 <= j < s->Union_arms@.len() ==> (#[trigger] s->Union_arms@[j]).id as nat != le32_at(
                b,
                0,
            ),
    ensures
        check(s, b, c) == Err::<(), DecodeError>(DecodeError::UnknownDiscriminant),
{
    lemma_check_union_missing(s->Union_arms@, le32_at(b, 0), b.skip(4), c);
}

/// Round-trip for arrays: concatenating `item_count` members of the
/// item's exact size yields a valid buffer, and member `i` reads back
/// from its stride range.
pub proof fn law_roundtrip_array(s: Schema, children: Seq<Seq<u8>>, c: bool)
    requires
        s is Array,
        wf(s),
        children.len() == s->Array_item_count,
        forall|j: int|
            0 <= j < children.len() ==> (#[trigger] children[j]).len() == fixed_size(
                *s->Array_inner,
            ),
    ensures
        check(s, concat_bytes(children), c) is Ok,
        forall|j: int|
            0 <= j < children.len() ==> concat_bytes(children).subrange(
                j * fixed_size(*s->Array_inner) as int,
                (j + 1) * fixed_size(*s->Array_inner) as int,
            ) == children[j],
{
    let buf = concat_bytes(children);
    let size = fixed_size(*s->Array_inner);
    let n = children.len() as int;
    lemma_concat_len(children);
    lemma_take_all(children);
    lemma_total_len_uniform(children, size, n);
    assert(buf.len() == n * size);
    assert forall|j: int| 0 <= j < n implies buf.subrange(
        j * size as int,
        (j + 1) * size as int,
    ) == children[j] by {
        lemma_concat_extract(children, j);
        lemma_total_len_uniform(children, size, j);
        lemma_total_len_uniform(children, size, j + 1);
    }
}

/// The byte sizes of a struct's encoded fields sum like the layout
/// calculator's prefix sums.
proof fn lemma_struct_prefix_sums(fields: Seq<FieldDef>, children: Seq<Seq<u8>>, i: int)
    requires
        children.len() == fields.len(),
        0 <= i <= fields.len(),
        forall|j: int|
            0 <= j < children.len() ==> (#[trigger] children[j]).len() == fixed_size(
                fields[j].typ,
            ),
    ensures
        total_len(children.take(i)) == fields_size(fields, i),
    decreases i,
{
    if i > 0 {
        lemma_struct_prefix_sums(fields, children, i - 1);
        lemma_concat_take_step(children, i - 1);
    }
}

/// Round-trip for structs: concatenating one valid encoding per field, in
/// declared order, yields a valid buffer, and field `i` reads back from
/// its statically known offset range.
pub proof fn law_roundtrip_struct(s: Schema, children: Seq<Seq<u8>>, c: bool)
    requires
        s is Struct,
        wf(s),
        children.len() == s->Struct_fields@.len(),
        forall|j: int|
            0 <= j < children.len() ==> (#[trigger] children[j]).len() == fixed_size(
                s->Struct_fields@[j].typ,
            ),
    ensures
        check(s, concat_bytes(children), c) is Ok,
        forall|j: int|
            0 <= j < children.len() ==> concat_bytes(children).subrange(
                fields_size(s->Struct_fields@, j) as int,
                fields_size(s->Struct_fields@, j + 1) as int,
            ) == children[j],
{
    let fields = s->Struct_fields@;
    let buf = concat_bytes(children);
    let n = children.len() as int;
    lemma_concat_len(children);
    lemma_take_all(children);
    lemma_struct_prefix_sums(fields, children, n);
    assert(buf.len() == fields_size(fields, n));
    assert forall|j: int| 0 <= j < n implies buf.subrange(
        fields_size(fields, j) as int,
        fields_size(fields, j + 1) as int,
    ) == children[j] by {
        lemma_concat_extract(children, j);
        lemma_struct_prefix_sums(fields, children, j);
        lemma_struct_prefix_sums(fields, children, j + 1);
    }
}

/// Round-trip for vectors of fixed-size items: an item-count header
/// followed by that many exact-size encodings is a valid buffer, its
/// count reads back, and item `i` reads back from its stride range.
pub proof fn law_roundtrip_fixvec(s: Schema, children: Seq<Seq<u8>>, c: bool)
    requires
        s is FixVec,
        wf(s),
        children.len() <= 0xffff_ffff,
        forall|j: int|
            0 <= j < children.len() ==> (#[trigger] children[j]).len() == fixed_size(
                *s->FixVec_inner,
            ),
    ensures
        check(s, le_bytes(children.len() as u32) + concat_bytes(children), c) is Ok,
        observed_count(s, le_bytes(children.len() as u32) + concat_bytes(children))
            == children.len(),
        forall|j: int|
            0 <= j < children.len() ==> (le_bytes(children.len() as u32) + concat_bytes(
                children,
            )).subrange(
                4 + j * fixed_size(*s->FixVec_inner) as int,
                4 + (j + 1) * fixed_size(*s->FixVec_inner) as int,
            ) == children[j],
{
    let size = fixed_size(*s->FixVec_inner);
    let n = children.len() as int;
    let body = concat_bytes(children);
    let buf = le_bytes(n as u32) + body;
    lemma_le_bytes_roundtrip(n as u32);
    assert(buf.subrange(0, 4) =~= le_bytes(n as u32));
    lemma_le32_embedded(buf, 0, n as u32);
    lemma_concat_len(children);
    lemma_take_all(children);
    lemma_total_len_uniform(children, size, n);
    assert(buf.len() == 4 + n * size);
    assert forall|j: int| 0 <= j < n implies buf.subrange(
        4 + j * size as int,
        4 + (j + 1) * size as int,
    ) == children[j] by {
        lemma_concat_extract(children, j);
        lemma_total_len_uniform(children, size, j);
        lemma_total_len_uniform(children, size, j + 1);
        lemma_total_len_monotone(children, j + 1, n);
        lemma_concat_take_step(children, j);
        lemma_shift_subrange(
            le_bytes(n as u32),
            body,
            total_len(children.take(j)) as int,
            total_len(children.take(j + 1)) as int,
        );
    }
}

/// Round-trip for vectors of variable-size items: the encoder's offset
/// table always satisfies every structural check, so a buffer built from
/// valid item encodings is valid, its observed count is the number of
/// items encoded, and item `i` reads back from its offset range.
#[verifier::rlimit(100)]
pub proof fn law_roundtrip_dynvec(s: Schema, children: Seq<Seq<u8>>, c: bool)
    requires
        s is DynVec,
        wf(s),
        dyn_total(children) <= 0xffff_ffff,
        forall|j: int|
            0 <= j < children.len() ==> (#[trigger] check(*s->DynVec_inner, children[j], c)) is Ok,
    ensures
        check(s, encode_dyn_spec(children), c) is Ok,
        observed_count(s, encode_dyn_spec(children)) == children.len(),
        forall|j: int|
            0 <= j <= children.len() ==> #[trigger] member_lo(
                s,
                encode_dyn_spec(children),
                j as nat,
            ) == dyn_offset(children, j),
        forall|j: int|
            0 <= j < children.len() ==> encode_dyn_spec(children).subrange(
                dyn_offset(children, j) as int,
                dyn_offset(children, j + 1) as int,
            ) == children[j],
{
    let buf = encode_dyn_spec(children);
    let n = children.len() as int;
    lemma_dyn_encoding_shape(children);
    if n == 0 {
        assert(buf.len() == 4);
    } else {
        assert(offset_entry(buf, n, 0) == dyn_offset(children, 0));
        assert(le32_at(buf, 4) == dyn_offset(children, 0));
        assert(total_len(children.take(0)) == 0);
        assert(dyn_offset(children, 0) == 4 * (n + 1));
        assert((4 * (n + 1)) % 4 == 0 && (4 * (n + 1)) / 4 == n + 1) by (nonlinear_arith);
        assert(buf.len() >= 4 * (n + 1));
        assert forall|j: int|
            0 <= j < n implies (#[trigger] check(
            *s->DynVec_inner,
            buf.subrange(offset_entry(buf, n, j) as int, offset_entry(buf, n, j + 1) as int),
            c,
        )) is Ok by {
            assert(buf.subrange(offset_entry(buf, n, j) as int, offset_entry(buf, n, j + 1) as int)
                == children[j]);
        }
        lemma_check_items_all_ok(*s->DynVec_inner, buf, n, 0, c);
    }
}

/// Round-trip for tables, the compatibility rule included: a buffer built
/// from one valid encoding per declared field — plus, in compatibility
/// mode only, any extra trailing members — is valid, counts all observed
/// fields, and each declared field reads back from its offset range.
#[verifier::rlimit(100)]
pub proof fn law_roundtrip_table(s: Schema, children: Seq<Seq<u8>>, c: bool)
    requires
        s is Table,
        wf(s),
        dyn_total(children) <= 0xffff_ffff,
        children.len() >= s->Table_fields@.len(),
        children.len() > s->Table_fields@.len() ==> c == true,
        forall|j: int|
            0 <= j < s->Table_fields@.len() ==> (#[trigger] check(
                s->Table_fields@[j].typ,
                children[j],
                c,
            )) is Ok,
    ensures
        check(s, encode_dyn_spec(children), c) is Ok,
        observed_count(s, encode_dyn_spec(children)) == children.len(),
        forall|j: int|
            0 <= j <= children.len() ==> #[trigger] member_lo(
                s,
                encode_dyn_spec(children),
                j as nat,
            ) == dyn_offset(children, j),
        forall|j: int|
            0 <= j < s->Table_fields@.len() ==> encode_dyn_spec(children).subrange(
                dyn_offset(children, j) as int,
                dyn_offset(children, j + 1) as int,
            ) == children[j],
{
    let fields = s->Table_fields@;
    let buf = encode_dyn_spec(children);
    let n = children.len() as int;
    lemma_dyn_encoding_shape(children);
    if n == 0 {
        assert(buf.len() == 4);
    } else {
        assert(offset_entry(buf, n, 0) == dyn_offset(children, 0));
        assert(le32_at(buf, 4) == dyn_offset(children, 0));
        assert(total_len(children.take(0)) == 0);
        assert(dyn_offset(children, 0) == 4 * (n + 1));
        assert((4 * (n + 1)) % 4 == 0 && (4 * (n + 1)) / 4 == n + 1) by (nonlinear_arith);
        assert(buf.len() >= 4 * (n + 1));
        assert forall|j: int|
            0 <= j < fields.len() implies (#[trigger] check(
            fields[j].typ,
            buf.subrange(offset_entry(buf, n, j) as int, offset_entry(buf, n, j + 1) as int),
            c,
        )) is Ok by {
            assert(buf.subrange(offset_entry(buf, n, j) as int, offset_entry(buf, n, j + 1) as int)
                == children[j]);
        }
        lemma_check_fields_all_ok(fields, buf, n, 0, c);
    }
}

/// Strict mode rejects a table buffer with extra trailing members as a
/// field-count mismatch, whatever those members hold.
#[verifier::rlimit(100)]
pub proof fn law_table_strict_rejects_extra(s: Schema, children: Seq<Seq<u8>>)
    requires
        s is Table,
        dyn_total(children) <= 0xffff_ffff,
        children.len() > s->Table_fields@.len(),
    ensures
        check(s, encode_dyn_spec(children), false) == Err::<(), DecodeError>(
            DecodeError::FieldCountMismatch,
        ),
{
    let buf = encode_dyn_spec(children);
    let n = children.len() as int;
    lemma_dyn_encoding_shape(children);
    assert(n > 0);
    assert(offset_entry(buf, n, 0) == dyn_offset(children, 0));
    assert(le32_at(buf, 4) == dyn_offset(children, 0));
    assert(total_len(children.take(0)) == 0);
    assert(dyn_offset(children, 0) == 4 * (n + 1));
    assert((4 * (n + 1)) % 4 == 0 && (4 * (n + 1)) / 4 == n + 1) by (nonlinear_arith);
    assert(buf.len() >= 8);
}

/// Any header-bearing kind rejects a slice shorter than one header unit.
pub proof fn law_short_buffer(s: Schema, b: Seq<u8>, c: bool)
    requires
        b.len() < 4,
        s is Union || s is FixVec || s is DynVec || s is Table,
    ensures
        check(s, b, c) == Err::<(), DecodeError>(DecodeError::HeaderTooShort),
{
}

/// Rewriting the declared total-size header of an accepted offset-table
/// buffer to any other value is caught as a size mismatch.
pub proof fn law_size_mismatch(s: Schema, b: Seq<u8>, c: bool, v: u32)
    requires
        s is DynVec || s is Table,
        check(s, b, c) is Ok,
        v as nat != b.len(),
    ensures
        check(s, le_bytes(v) + b.skip(4), c) == Err::<(), DecodeError>(DecodeError::SizeMismatch),
{
    let b2 = le_bytes(v) + b.skip(4);
    lemma_le_bytes_roundtrip(v);
    assert(b2.subrange(0, 4) =~= le_bytes(v));
    lemma_le32_embedded(b2, 0, v);
    assert(b2.len() == b.len());
}

/// Swapping two distinct offset-table entries (other than the first,
/// which doubles as the item count) of an accepted multi-item buffer is
/// caught as an offset-order violation. `b2` is `b` with entries `i` and
/// `j` exchanged and all else unchanged.
#[verifier::rlimit(100)]
pub proof fn law_offset_swap(s: Schema, b: Seq<u8>, b2: Seq<u8>, c: bool, i: int, j: int)
    requires
        s is DynVec || s is Table,
        check(s, b, c) is Ok,
        b.len() > 4,
        1 <= i < j < observed_count(s, b),
        offset_entry(b, observed_count(s, b) as int, i) != offset_entry(
            b,
            observed_count(s, b) as int,
            j,
        ),
        b2.len() == b.len(),
        le32_at(b2, 0) == le32_at(b, 0),
        offset_entry(b2, observed_count(s, b) as int, i) == offset_entry(
            b,
            observed_count(s, b) as int,
            j,
        ),
        offset_entry(b2, observed_count(s, b) as int, j) == offset_entry(
            b,
            observed_count(s, b) as int,
            i,
        ),
        forall|k: int|
            0 <= k < observed_count(s, b) && k != i && k != j ==> #[trigger] offset_entry(
                b2,
                observed_count(s, b) as int,
                k,
            ) == offset_entry(b, observed_count(s, b) as int, k),
    ensures
        check(s, b2, c) == Err::<(), DecodeError>(DecodeError::OffsetNotMonotonic),
{
    let count = observed_count(s, b) as int;
    let oi = offset_entry(b, count, i);
    let oj = offset_entry(b, count, j);
    crate::decode::lemma_offsets_chain(b, count, i, j);
    assert(oi < oj);
    assert(offset_entry(b2, count, 0) == offset_entry(b, count, 0));
    assert(le32_at(b2, 4) == le32_at(b, 4));
    assert(offset_entry(b2, count, count) == offset_entry(b, count, count));
    if j == i + 1 {
        assert(offset_entry(b2, count, i) > offset_entry(b2, count, i + 1));
        assert(!offsets_monotonic(b2, count));
    } else if offset_entry(b, count, i + 1) < oj {
        assert(offset_entry(b2, count, i) > offset_entry(b2, count, i + 1));
        assert(!offsets_monotonic(b2, count));
    } else {
        crate::decode::lemma_offsets_chain(b, count, i + 1, j - 1);
        assert(offset_entry(b, count, j - 1) == oj);
        assert(offset_entry(b2, count, j - 1) > offset_entry(b2, count, j));
        assert(!offsets_monotonic(b2, count));
    }
}

} // verus!
