use molecule_core::decode::{validate, DecodeError};
use molecule_core::encode::{encode_dynvec, encode_fixvec};
use molecule_core::schema::{FieldDef, Schema, UnionArm};

fn byte() -> Schema {
    Schema::Byte
}

fn byte_array(n: usize) -> Schema {
    Schema::Array { inner: Box::new(byte()), item_count: n }
}

fn byte_fixvec() -> Schema {
    Schema::FixVec { inner: Box::new(byte()) }
}

fn bytes_value(payload: &[u8]) -> Vec<u8> {
    let children: Vec<Vec<u8>> = payload.iter().map(|b| vec![*b]).collect();
    encode_fixvec(&children)
}

#[test]
fn short_buffers_are_header_too_short() {
    let shorts: Vec<Vec<u8>> = vec![Vec::new(), vec![1], vec![1, 2], vec![1, 2, 3]];
    let headed: Vec<Schema> = vec![
        Schema::Union { arms: vec![UnionArm { id: 0, typ: byte() }] },
        byte_fixvec(),
        Schema::DynVec { inner: Box::new(byte_fixvec()) },
        Schema::Table { fields: vec![FieldDef { name: String::from("f"), typ: byte() }] },
    ];
    for schema in &headed {
        for b in &shorts {
            assert_eq!(validate(schema, b, false), Err(DecodeError::HeaderTooShort));
            assert_eq!(validate(schema, b, true), Err(DecodeError::HeaderTooShort));
        }
    }
}

#[test]
fn mutated_total_size_is_size_mismatch() {
    let schema = Schema::DynVec { inner: Box::new(byte_fixvec()) };
    let buf = encode_dynvec(&vec![bytes_value(&[1, 2]), bytes_value(&[3])]);
    assert!(validate(&schema, &buf, false).is_ok());
    for wrong in [0u8, 1, buf[0] - 1, buf[0] + 1, 0xff] {
        let mut bad = buf.clone();
        bad[0] = wrong;
        assert_eq!(validate(&schema, &bad, false), Err(DecodeError::SizeMismatch));
    }
}

#[test]
fn mutated_table_total_size_is_size_mismatch() {
    let schema = Schema::Table {
        fields: vec![FieldDef { name: String::from("f"), typ: byte_fixvec() }],
    };
    let buf = encode_dynvec(&vec![bytes_value(&[7, 7])]);
    assert!(validate(&schema, &buf, false).is_ok());
    let mut bad = buf.clone();
    bad[0] = bad[0] + 2;
    assert_eq!(validate(&schema, &bad, false), Err(DecodeError::SizeMismatch));
}

#[test]
fn swapped_offsets_are_not_monotonic() {
    let schema = Schema::DynVec { inner: Box::new(byte_fixvec()) };
    let item0 = bytes_value(&[0x11, 0x22]);
    let item1 = bytes_value(&[0x31, 0x32, 0x33, 0x34, 0x35, 0x36]);
    let item2 = bytes_value(&[0x41]);
    let buf = encode_dynvec(&vec![item0, item1, item2]);
    assert!(validate(&schema, &buf, false).is_ok());
    // Swap the second and third offset-table entries (the first doubles
    // as the item count and must stay).
    let mut bad = buf.clone();
    for k in 0..4 {
        bad.swap(8 + k, 12 + k);
    }
    assert_eq!(validate(&schema, &bad, false), Err(DecodeError::OffsetNotMonotonic));
}

#[test]
fn misaligned_first_offset_is_offset_misaligned() {
    // A 9-byte buffer declaring total 9 whose first offset is 5.
    let schema = Schema::DynVec { inner: Box::new(byte()) };
    let bad = vec![9u8, 0, 0, 0, 5, 0, 0, 0, 0xaa];
    assert_eq!(validate(&schema, &bad, false), Err(DecodeError::OffsetMisaligned));
    // A first offset below the minimum header-table size is equally bad.
    let bad2 = vec![8u8, 0, 0, 0, 4, 0, 0, 0];
    assert_eq!(validate(&schema, &bad2, false), Err(DecodeError::OffsetMisaligned));
}

#[test]
fn fixed_size_kinds_reject_wrong_lengths() {
    assert_eq!(validate(&byte_array(4), &[1, 2, 3], false), Err(DecodeError::SizeMismatch));
    assert_eq!(validate(&byte_array(4), &[1, 2, 3, 4, 5], true), Err(DecodeError::SizeMismatch));
    assert_eq!(validate(&byte(), &[], false), Err(DecodeError::SizeMismatch));
    let two_fields = Schema::Struct {
        fields: vec![
            FieldDef { name: String::from("a"), typ: byte() },
            FieldDef { name: String::from("b"), typ: byte_array(2) },
        ],
    };
    assert_eq!(validate(&two_fields, &[1, 2], false), Err(DecodeError::SizeMismatch));
    assert!(validate(&two_fields, &[1, 2, 3], false).is_ok());
}

#[test]
fn fixvec_length_must_match_count() {
    let schema = Schema::FixVec { inner: Box::new(byte_array(4)) };
    // Count 2 of 4-byte items wants 4 + 8 bytes.
    let mut buf = vec![2u8, 0, 0, 0];
    buf.extend([0u8; 7]);
    assert_eq!(validate(&schema, &buf, false), Err(DecodeError::SizeMismatch));
    buf.push(0);
    assert!(validate(&schema, &buf, false).is_ok());
    // A zero count demands a bare header.
    assert_eq!(validate(&schema, &[0, 0, 0, 0, 9], false), Err(DecodeError::SizeMismatch));
}

#[test]
fn unknown_union_discriminant_is_rejected() {
    let schema = Schema::Union {
        arms: vec![
            UnionArm { id: 1, typ: byte() },
            UnionArm { id: 3, typ: byte_array(2) },
        ],
    };
    let bad = vec![99u8, 0, 0, 0, 0xab, 0xcd];
    assert_eq!(validate(&schema, &bad, false), Err(DecodeError::UnknownDiscriminant));
    assert_eq!(validate(&schema, &bad, true), Err(DecodeError::UnknownDiscriminant));
}

#[test]
fn nested_member_error_propagates_unchanged() {
    // The single item claims two byte items but carries only one.
    let schema = Schema::DynVec { inner: Box::new(byte_fixvec()) };
    let buf = vec![13u8, 0, 0, 0, 8, 0, 0, 0, 2, 0, 0, 0, 0x55];
    assert_eq!(validate(&schema, &buf, false), Err(DecodeError::SizeMismatch));
    // A union arm's inner error also comes through as-is.
    let u = Schema::Union { arms: vec![UnionArm { id: 0, typ: byte_array(2) }] };
    assert_eq!(validate(&u, &[0, 0, 0, 0, 1], false), Err(DecodeError::SizeMismatch));
}

#[test]
fn empty_table_buffer_with_declared_fields_is_count_mismatch() {
    let schema = Schema::Table {
        fields: vec![FieldDef { name: String::from("f"), typ: byte() }],
    };
    let buf = vec![4u8, 0, 0, 0];
    assert_eq!(validate(&schema, &buf, false), Err(DecodeError::FieldCountMismatch));
    assert_eq!(validate(&schema, &buf, true), Err(DecodeError::FieldCountMismatch));
}
