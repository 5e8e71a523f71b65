use molecule_core::header::{push_unit, read_unit};
use molecule_core::layout::{field_offset, is_statically_sized, total_size_of};
use molecule_core::schema::{check_wf, FieldDef, Schema, UnionArm};
use molecule_core::HEADER_UNIT;

fn byte() -> Schema {
    Schema::Byte
}

fn byte_array(n: usize) -> Schema {
    Schema::Array { inner: Box::new(byte()), item_count: n }
}

#[test]
fn header_unit_is_four_bytes_little_endian() {
    assert_eq!(HEADER_UNIT, 4);
    let mut out: Vec<u8> = Vec::new();
    push_unit(&mut out, 0xdead_beef);
    assert_eq!(out, vec![0xef, 0xbe, 0xad, 0xde]);
    assert_eq!(read_unit(&out, 0), 0xdead_beef);
}

#[test]
fn push_unit_appends_after_existing_bytes() {
    let mut out: Vec<u8> = vec![0x01];
    push_unit(&mut out, 28);
    push_unit(&mut out, 12);
    assert_eq!(out, vec![0x01, 28, 0, 0, 0, 12, 0, 0, 0]);
    assert_eq!(read_unit(&out, 1), 28);
    assert_eq!(read_unit(&out, 5), 12);
}

#[test]
fn fixed_kinds_are_statically_sized() {
    assert!(is_statically_sized(&byte()));
    assert!(is_statically_sized(&byte_array(7)));
    assert!(is_statically_sized(&Schema::Struct { fields: Vec::new() }));
    assert!(!is_statically_sized(&Schema::FixVec { inner: Box::new(byte()) }));
    assert!(!is_statically_sized(&Schema::DynVec { inner: Box::new(byte()) }));
    assert!(!is_statically_sized(&Schema::Opt { inner: Box::new(byte()) }));
    assert!(!is_statically_sized(&Schema::Union { arms: Vec::new() }));
    assert!(!is_statically_sized(&Schema::Table { fields: Vec::new() }));
}

#[test]
fn total_size_multiplies_and_sums() {
    assert_eq!(total_size_of(&byte()), 1);
    assert_eq!(total_size_of(&byte_array(5)), 5);
    let nested = Schema::Array { inner: Box::new(byte_array(3)), item_count: 4 };
    assert_eq!(total_size_of(&nested), 12);
    let st = Schema::Struct {
        fields: vec![
            FieldDef { name: String::from("a"), typ: byte() },
            FieldDef { name: String::from("b"), typ: byte_array(3) },
            FieldDef { name: String::from("c"), typ: nested },
        ],
    };
    assert_eq!(total_size_of(&st), 1 + 3 + 12);
}

#[test]
fn field_offsets_are_prefix_sums() {
    let fields = vec![
        FieldDef { name: String::from("a"), typ: byte_array(2) },
        FieldDef { name: String::from("b"), typ: byte() },
        FieldDef { name: String::from("c"), typ: byte_array(4) },
    ];
    assert_eq!(field_offset(&fields, 0), 0);
    assert_eq!(field_offset(&fields, 1), 2);
    assert_eq!(field_offset(&fields, 2), 3);
    assert_eq!(field_offset(&fields, 3), 7);
}

#[test]
fn well_formedness_is_decidable() {
    let good = Schema::Union {
        arms: vec![
            UnionArm { id: 0, typ: byte() },
            UnionArm { id: 7, typ: byte_array(2) },
        ],
    };
    assert!(check_wf(&good));
    let duplicate_ids = Schema::Union {
        arms: vec![
            UnionArm { id: 7, typ: byte() },
            UnionArm { id: 7, typ: byte_array(2) },
        ],
    };
    assert!(!check_wf(&duplicate_ids));
    // Fixed-layout composites demand fixed-size members.
    let vec_in_array = Schema::Array {
        inner: Box::new(Schema::DynVec { inner: Box::new(byte()) }),
        item_count: 2,
    };
    assert!(!check_wf(&vec_in_array));
    let vec_in_struct = Schema::Struct {
        fields: vec![FieldDef {
            name: String::from("v"),
            typ: Schema::FixVec { inner: Box::new(byte()) },
        }],
    };
    assert!(!check_wf(&vec_in_struct));
    // A fixed size beyond what a header unit can carry is refused.
    let oversized = Schema::Array { inner: Box::new(byte_array(0x1_0000)), item_count: 0x1_0000 };
    assert!(!check_wf(&oversized));
    assert!(check_wf(&Schema::Table { fields: Vec::new() }));
}

#[test]
fn zero_sized_struct_has_empty_encoding() {
    let empty = Schema::Struct { fields: Vec::new() };
    assert_eq!(total_size_of(&empty), 0);
    assert!(molecule_core::decode::validate(&empty, &[], false).is_ok());
}
