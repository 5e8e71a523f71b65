use molecule_core::access::member_slice;
use molecule_core::decode::{validate, DecodeError};
use molecule_core::encode::{encode_dynvec, encode_fixvec};
use molecule_core::schema::{FieldDef, Schema};

fn byte_fixvec() -> Schema {
    Schema::FixVec { inner: Box::new(Schema::Byte) }
}

fn bytes_value(payload: &[u8]) -> Vec<u8> {
    let children: Vec<Vec<u8>> = payload.iter().map(|b| vec![*b]).collect();
    encode_fixvec(&children)
}

#[test]
fn extra_trailing_field_needs_compatibility_mode() {
    let schema = Schema::Table {
        fields: vec![
            FieldDef { name: String::from("a"), typ: byte_fixvec() },
            FieldDef { name: String::from("b"), typ: byte_fixvec() },
        ],
    };
    let f0 = bytes_value(&[1]);
    let f1 = bytes_value(&[2, 3]);
    let extra = vec![0xde, 0xad];
    let buf = encode_dynvec(&vec![f0.clone(), f1.clone(), extra]);

    let view = validate(&schema, &buf, true).unwrap();
    // The extra field is counted but not addressed by accessors.
    assert_eq!(view.count, 3);
    assert_eq!(member_slice(&schema, &buf, 0), &f0[..]);
    assert_eq!(member_slice(&schema, &buf, 1), &f1[..]);

    assert_eq!(validate(&schema, &buf, false), Err(DecodeError::FieldCountMismatch));
}

#[test]
fn extra_field_content_is_not_validated() {
    // The trailing field is garbage under every schema, yet compatibility
    // mode accepts it: no type exists to check it against.
    let schema = Schema::Table {
        fields: vec![FieldDef { name: String::from("a"), typ: byte_fixvec() }],
    };
    let f0 = bytes_value(&[9]);
    let junk = vec![0xff, 0xff, 0xff];
    let buf = encode_dynvec(&vec![f0.clone(), junk]);
    let view = validate(&schema, &buf, true).unwrap();
    assert_eq!(view.count, 2);
    assert_eq!(member_slice(&schema, &buf, 0), &f0[..]);
}

#[test]
fn missing_declared_field_fails_both_modes() {
    let schema = Schema::Table {
        fields: vec![
            FieldDef { name: String::from("a"), typ: byte_fixvec() },
            FieldDef { name: String::from("b"), typ: byte_fixvec() },
        ],
    };
    let buf = encode_dynvec(&vec![bytes_value(&[1])]);
    assert_eq!(validate(&schema, &buf, true), Err(DecodeError::FieldCountMismatch));
    assert_eq!(validate(&schema, &buf, false), Err(DecodeError::FieldCountMismatch));
}

#[test]
fn exact_field_count_is_accepted_in_both_modes() {
    let schema = Schema::Table {
        fields: vec![FieldDef { name: String::from("a"), typ: byte_fixvec() }],
    };
    let buf = encode_dynvec(&vec![bytes_value(&[5, 6])]);
    assert_eq!(validate(&schema, &buf, false).unwrap().count, 1);
    assert_eq!(validate(&schema, &buf, true).unwrap().count, 1);
}

#[test]
fn compatibility_mode_does_not_relax_vectors() {
    // DynVec has no declared count: both modes behave alike on it.
    let schema = Schema::DynVec { inner: Box::new(byte_fixvec()) };
    let buf = encode_dynvec(&vec![bytes_value(&[1]), bytes_value(&[2])]);
    assert_eq!(validate(&schema, &buf, false).unwrap().count, 2);
    assert_eq!(validate(&schema, &buf, true).unwrap().count, 2);
}
