use molecule_core::access::{member_range, member_slice, opt_is_some, union_discriminant, union_inner_slice};
use molecule_core::decode::validate;
use molecule_core::encode::{
    encode_dynvec, encode_fixed, encode_fixvec, encode_option_none, encode_option_some,
    encode_union,
};
use molecule_core::schema::{FieldDef, Schema, UnionArm};

fn byte() -> Schema {
    Schema::Byte
}

fn byte_array(n: usize) -> Schema {
    Schema::Array { inner: Box::new(byte()), item_count: n }
}

fn byte_fixvec() -> Schema {
    Schema::FixVec { inner: Box::new(byte()) }
}

/// A FixVec-of-bytes buffer holding the given payload.
fn bytes_value(payload: &[u8]) -> Vec<u8> {
    let children: Vec<Vec<u8>> = payload.iter().map(|b| vec![*b]).collect();
    encode_fixvec(&children)
}

#[test]
fn empty_fixvec_encodes_to_one_header_unit() {
    let schema = Schema::FixVec { inner: Box::new(byte_array(4)) };
    let buf = encode_fixvec(&Vec::new());
    assert_eq!(buf, vec![0u8, 0, 0, 0]);
    let view = validate(&schema, &buf, false).unwrap();
    assert_eq!(view.count, 0);
}

#[test]
fn fixvec_roundtrip_items_read_back() {
    let schema = Schema::FixVec { inner: Box::new(byte_array(2)) };
    let children = vec![vec![0xaa, 0xbb], vec![0xcc, 0xdd], vec![0xee, 0xff]];
    let buf = encode_fixvec(&children);
    assert_eq!(buf.len(), 4 + 3 * 2);
    assert_eq!(&buf[0..4], &[3, 0, 0, 0]);
    let view = validate(&schema, &buf, false).unwrap();
    assert_eq!(view.count, 3);
    for i in 0..3 {
        assert_eq!(member_slice(&schema, &buf, i), &children[i][..]);
    }
}

#[test]
fn two_item_dynvec_layout_is_exact() {
    let schema = Schema::DynVec { inner: Box::new(byte_fixvec()) };
    // Encoded item lengths 6 and 10: FixVec-of-bytes values of 2 and 6 bytes.
    let item0 = bytes_value(&[0x11, 0x22]);
    let item1 = bytes_value(&[0x31, 0x32, 0x33, 0x34, 0x35, 0x36]);
    assert_eq!(item0.len(), 6);
    assert_eq!(item1.len(), 10);
    let buf = encode_dynvec(&vec![item0.clone(), item1.clone()]);

    // total = 4 * 3 + 6 + 10 = 28 at bytes 0-3, offsets 12 and 18 next.
    assert_eq!(buf.len(), 28);
    assert_eq!(&buf[0..4], &[28, 0, 0, 0]);
    assert_eq!(&buf[4..8], &[12, 0, 0, 0]);
    assert_eq!(&buf[8..12], &[18, 0, 0, 0]);
    assert_eq!(&buf[12..18], &item0[..]);
    assert_eq!(&buf[18..28], &item1[..]);

    let view = validate(&schema, &buf, false).unwrap();
    assert_eq!(view.count, 2);
    assert_eq!(member_range(&schema, &buf, 0), (12, 18));
    assert_eq!(member_range(&schema, &buf, 1), (18, 28));
    assert_eq!(member_slice(&schema, &buf, 0), &item0[..]);
    assert_eq!(member_slice(&schema, &buf, 1), &item1[..]);
}

#[test]
fn empty_dynvec_is_a_bare_total_size() {
    let schema = Schema::DynVec { inner: Box::new(byte_fixvec()) };
    let buf = encode_dynvec(&Vec::new());
    assert_eq!(buf, vec![4u8, 0, 0, 0]);
    let view = validate(&schema, &buf, false).unwrap();
    assert_eq!(view.count, 0);
}

#[test]
fn union_discriminant_roundtrip() {
    let schema = Schema::Union {
        arms: vec![
            UnionArm { id: 1, typ: byte() },
            UnionArm { id: 3, typ: byte_array(2) },
        ],
    };
    let buf = encode_union(3, &vec![0xab, 0xcd]);
    assert_eq!(buf, vec![3u8, 0, 0, 0, 0xab, 0xcd]);
    let view = validate(&schema, &buf, false).unwrap();
    assert_eq!(view.count, 1);
    assert_eq!(union_discriminant(&schema, &buf), 3);
    assert_eq!(union_inner_slice(&schema, &buf), &[0xab, 0xcd]);
}

#[test]
fn option_roundtrip_none_and_some() {
    let schema = Schema::Opt { inner: Box::new(byte_fixvec()) };
    let none = encode_option_none();
    assert_eq!(none.len(), 0);
    assert!(!opt_is_some(&none));
    assert_eq!(validate(&schema, &none, false).unwrap().count, 0);

    let inner = bytes_value(&[9, 8, 7]);
    let some = encode_option_some(&inner);
    assert_eq!(some, inner);
    assert!(opt_is_some(&some));
    assert_eq!(validate(&schema, &some, false).unwrap().count, 1);
}

#[test]
fn array_roundtrip_members_at_strides() {
    let schema = byte_array(3);
    let children = vec![vec![1u8], vec![2u8], vec![3u8]];
    let buf = encode_fixed(&children);
    assert_eq!(buf, vec![1u8, 2, 3]);
    let view = validate(&schema, &buf, false).unwrap();
    assert_eq!(view.count, 3);
    assert_eq!(member_range(&schema, &buf, 1), (1, 2));
    assert_eq!(member_slice(&schema, &buf, 2), &[3u8]);
}

#[test]
fn struct_roundtrip_fields_at_offsets() {
    let schema = Schema::Struct {
        fields: vec![
            FieldDef { name: String::from("tag"), typ: byte() },
            FieldDef { name: String::from("pair"), typ: byte_array(2) },
            FieldDef { name: String::from("quad"), typ: byte_array(4) },
        ],
    };
    let children = vec![vec![7u8], vec![0x10, 0x20], vec![1, 2, 3, 4]];
    let buf = encode_fixed(&children);
    assert_eq!(buf.len(), 7);
    let view = validate(&schema, &buf, false).unwrap();
    assert_eq!(view.count, 3);
    assert_eq!(member_range(&schema, &buf, 0), (0, 1));
    assert_eq!(member_range(&schema, &buf, 1), (1, 3));
    assert_eq!(member_range(&schema, &buf, 2), (3, 7));
    assert_eq!(member_slice(&schema, &buf, 1), &[0x10, 0x20]);
}

#[test]
fn table_roundtrip_declared_fields_read_back() {
    let schema = Schema::Table {
        fields: vec![
            FieldDef { name: String::from("head"), typ: byte_fixvec() },
            FieldDef { name: String::from("tail"), typ: byte_fixvec() },
        ],
    };
    let f0 = bytes_value(&[1]);
    let f1 = bytes_value(&[2, 3]);
    let buf = encode_dynvec(&vec![f0.clone(), f1.clone()]);
    let view = validate(&schema, &buf, false).unwrap();
    assert_eq!(view.count, 2);
    assert_eq!(member_slice(&schema, &buf, 0), &f0[..]);
    assert_eq!(member_slice(&schema, &buf, 1), &f1[..]);
}

#[test]
fn empty_table_roundtrip() {
    let schema = Schema::Table { fields: Vec::new() };
    let buf = encode_dynvec(&Vec::new());
    assert_eq!(buf, vec![4u8, 0, 0, 0]);
    assert_eq!(validate(&schema, &buf, false).unwrap().count, 0);
    assert_eq!(validate(&schema, &buf, true).unwrap().count, 0);
}

#[test]
fn nested_composite_roundtrip() {
    // A table holding an option and a vector of two-byte arrays.
    let schema = Schema::Table {
        fields: vec![
            FieldDef {
                name: String::from("maybe"),
                typ: Schema::Opt { inner: Box::new(byte_fixvec()) },
            },
            FieldDef {
                name: String::from("pairs"),
                typ: Schema::FixVec { inner: Box::new(byte_array(2)) },
            },
        ],
    };
    let maybe = bytes_value(&[0x5a]);
    let pairs = encode_fixvec(&vec![vec![1, 2], vec![3, 4]]);
    let buf = encode_dynvec(&vec![maybe.clone(), pairs.clone()]);
    let view = validate(&schema, &buf, false).unwrap();
    assert_eq!(view.count, 2);
    assert_eq!(member_slice(&schema, &buf, 0), &maybe[..]);
    assert_eq!(member_slice(&schema, &buf, 1), &pairs[..]);
}
