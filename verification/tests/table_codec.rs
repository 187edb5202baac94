//! Round trips and failure modes of the table codec.

use rpfm_lib::DecodedData;
use rpfm_lib::DecodeReason;
use rpfm_lib::Definition;
use rpfm_lib::Field;
use rpfm_lib::FieldType;
use rpfm_lib::RpfmError;
use rpfm_lib::Table;

fn field(name: &str, field_type: FieldType) -> Field {
    Field {
        name: name.to_owned(),
        field_type,
        is_key: false,
        is_reference: None,
        lookup: None,
        default_value: None,
        ca_order: -1,
        max_length: 0,
        description: String::new(),
    }
}

fn key_field(name: &str, field_type: FieldType) -> Field {
    let mut f = field(name, field_type);
    f.is_key = true;
    f
}

fn cells_equal(a: &DecodedData, b: &DecodedData) -> bool {
    match (a, b) {
        (DecodedData::Boolean(x), DecodedData::Boolean(y)) => x == y,
        (DecodedData::I16(x), DecodedData::I16(y)) => x == y,
        (DecodedData::I32(x), DecodedData::I32(y)) => x == y,
        (DecodedData::I64(x), DecodedData::I64(y)) => x == y,
        (DecodedData::F32(x), DecodedData::F32(y)) => x == y,
        (DecodedData::StringU8(x), DecodedData::StringU8(y)) => x == y,
        (DecodedData::StringU16(x), DecodedData::StringU16(y)) => x == y,
        (DecodedData::OptionalStringU8(x), DecodedData::OptionalStringU8(y)) => x == y,
        (DecodedData::OptionalStringU16(x), DecodedData::OptionalStringU16(y)) => x == y,
        (DecodedData::SequenceU16(x), DecodedData::SequenceU16(y)) => rows_equal(x, y),
        (DecodedData::SequenceU32(x), DecodedData::SequenceU32(y)) => rows_equal(x, y),
        _ => false,
    }
}

fn rows_equal(a: &Vec<Vec<DecodedData>>, b: &Vec<Vec<DecodedData>>) -> bool {
    a.len() == b.len()
        && a.iter().zip(b.iter()).all(|(ra, rb)| {
            ra.len() == rb.len() && ra.iter().zip(rb.iter()).all(|(ca, cb)| cells_equal(ca, cb))
        })
}

#[test]
fn round_trip_all_primitive_types() {
    let def = Definition {
        version: 1,
        fields: vec![
            field("flag", FieldType::Boolean),
            field("short", FieldType::I16),
            field("int", FieldType::I32),
            field("long", FieldType::I64),
            field("ratio", FieldType::F32),
            field("name", FieldType::StringU8),
            field("wide_name", FieldType::StringU16),
            field("note", FieldType::OptionalStringU8),
            field("wide_note", FieldType::OptionalStringU16),
        ],
    };
    let rows = vec![vec![
        DecodedData::Boolean(true),
        DecodedData::I16(-5),
        DecodedData::I32(123456),
        DecodedData::I64(-9876543210),
        DecodedData::F32(0x3F000000), // the bit pattern of one half
        DecodedData::StringU8("sword".to_owned()),
        DecodedData::StringU16("crossbow \u{1F3F9}".to_owned()),
        DecodedData::OptionalStringU8(String::new()),
        DecodedData::OptionalStringU16("present".to_owned()),
    ]];
    let table = Table::from_rows(def.clone(), rows.clone()).unwrap();
    let bytes = table.encode().unwrap();
    let back = Table::decode(def, &bytes).unwrap();
    assert!(rows_equal(back.get_ref_table_data(), &rows));
    let bytes_again = back.encode().unwrap();
    assert_eq!(bytes, bytes_again);
}

#[test]
fn decode_then_encode_is_byte_exact() {
    // A table image written by hand: two rows of [I16, Boolean].
    let def = Definition {
        version: 1,
        fields: vec![field("a", FieldType::I16), field("b", FieldType::Boolean)],
    };
    let bytes: Vec<u8> = vec![
        2, 0, 0, 0, // two rows
        0x34, 0x12, 1, // row one: 0x1234, true
        0xCE, 0xFF, 0, // row two: -50, false
    ];
    let table = Table::decode(def, &bytes).unwrap();
    assert_eq!(table.row_count(), 2);
    let reencoded = table.encode().unwrap();
    assert_eq!(reencoded, bytes);
}

#[test]
fn float_bits_survive_decode_encode_untouched() {
    // A noisy single-precision value: only its bit pattern matters to the
    // codec, so viewing the table cannot change what encode returns.
    let def = Definition { version: 1, fields: vec![field("x", FieldType::F32)] };
    let noisy_bits: u32 = 0x3F000049; // close to one half, with round-trip noise
    let mut bytes: Vec<u8> = vec![1, 0, 0, 0];
    bytes.extend_from_slice(&noisy_bits.to_le_bytes());
    let table = Table::decode(def, &bytes).unwrap();
    match &table.get_ref_table_data()[0][0] {
        DecodedData::F32(bits) => assert_eq!(*bits, noisy_bits),
        _ => panic!("wrong cell type"),
    }
    assert_eq!(table.encode().unwrap(), bytes);
}

#[test]
fn optional_string_absent_and_present_are_distinct() {
    let def = Definition { version: 0, fields: vec![field("o", FieldType::OptionalStringU8)] };
    // Absent: flag byte zero.  Decodes to the empty string.
    let absent: Vec<u8> = vec![1, 0, 0, 0, 0];
    let t = Table::decode(def.clone(), &absent).unwrap();
    match &t.get_ref_table_data()[0][0] {
        DecodedData::OptionalStringU8(s) => assert_eq!(s, ""),
        _ => panic!("wrong cell type"),
    }
    // And the empty string encodes back to the absent form.
    assert_eq!(t.encode().unwrap(), absent);
    // Present and non-empty round-trips with the flag set.
    let present: Vec<u8> = vec![1, 0, 0, 0, 1, 2, 0, b'h', b'i'];
    let t2 = Table::decode(def.clone(), &present).unwrap();
    match &t2.get_ref_table_data()[0][0] {
        DecodedData::OptionalStringU8(s) => assert_eq!(s, "hi"),
        _ => panic!("wrong cell type"),
    }
    assert_eq!(t2.encode().unwrap(), present);
    // A present-but-empty optional string is not canonical and is refused,
    // so that every accepted image re-encodes byte for byte.
    let present_empty: Vec<u8> = vec![1, 0, 0, 0, 1, 0, 0];
    match Table::decode(def, &present_empty) {
        Err(RpfmError::DecodeError { reason, .. }) => {
            assert_eq!(reason, DecodeReason::InvalidOptional)
        }
        _ => panic!("expected a decode error"),
    }
}

#[test]
fn sequence_round_trip() {
    let inner = Definition { version: 0, fields: vec![field("v", FieldType::I32)] };
    let def = Definition {
        version: 2,
        fields: vec![field("items", FieldType::SequenceU16(Box::new(inner)))],
    };
    let rows = vec![vec![DecodedData::SequenceU16(vec![
        vec![DecodedData::I32(7)],
        vec![DecodedData::I32(-1)],
    ])]];
    let table = Table::from_rows(def.clone(), rows.clone()).unwrap();
    let bytes = table.encode().unwrap();
    let back = Table::decode(def, &bytes).unwrap();
    assert!(rows_equal(back.get_ref_table_data(), &rows));
    assert_eq!(back.encode().unwrap(), bytes);
}

#[test]
fn sequence_with_too_few_rows_fails_with_length_mismatch() {
    let inner = Definition { version: 0, fields: vec![field("v", FieldType::I32)] };
    let def = Definition {
        version: 2,
        fields: vec![field("items", FieldType::SequenceU16(Box::new(inner)))],
    };
    // One row; its sequence declares three sub-rows but carries bytes for two.
    let bytes: Vec<u8> = vec![
        1, 0, 0, 0, // one row
        3, 0, // three sub-rows declared
        1, 0, 0, 0, // sub-row one
        2, 0, 0, 0, // sub-row two; nothing further
    ];
    match Table::decode(def, &bytes) {
        Err(RpfmError::DecodeError { reason, .. }) => {
            assert_eq!(reason, DecodeReason::SequenceLengthMismatch)
        }
        _ => panic!("expected SequenceLengthMismatch"),
    }
}

#[test]
fn key_and_cost_row_round_trip_and_localized_edit() {
    let def = Definition {
        version: 1,
        fields: vec![key_field("key", FieldType::StringU8), field("cost", FieldType::I32)],
    };
    let row = vec![
        DecodedData::StringU8("sword_01".to_owned()),
        DecodedData::I32(150),
    ];
    let table = Table::from_rows(def.clone(), vec![row.clone()]).unwrap();
    let bytes = table.encode().unwrap();
    let back = Table::decode(def.clone(), &bytes).unwrap();
    assert!(rows_equal(back.get_ref_table_data(), &vec![row]));

    // Editing only the cost changes only the trailing four bytes.
    let edited = vec![
        DecodedData::StringU8("sword_01".to_owned()),
        DecodedData::I32(200),
    ];
    let table2 = Table::from_rows(def, vec![edited]).unwrap();
    let bytes2 = table2.encode().unwrap();
    assert_eq!(bytes.len(), bytes2.len());
    let n = bytes.len();
    assert_eq!(&bytes[..n - 4], &bytes2[..n - 4]);
    assert_ne!(&bytes[n - 4..], &bytes2[n - 4..]);
    assert_eq!(&bytes2[n - 4..], &200i32.to_le_bytes());
}

#[test]
fn invalid_bool_byte_is_rejected() {
    let def = Definition { version: 0, fields: vec![field("b", FieldType::Boolean)] };
    let bytes: Vec<u8> = vec![1, 0, 0, 0, 7];
    match Table::decode(def, &bytes) {
        Err(RpfmError::DecodeError { reason, offset }) => {
            assert_eq!(reason, DecodeReason::InvalidBool);
            assert_eq!(offset, 4);
        }
        _ => panic!("expected InvalidBool"),
    }
}

#[test]
fn trailing_bytes_are_rejected() {
    let def = Definition { version: 0, fields: vec![field("b", FieldType::Boolean)] };
    let bytes: Vec<u8> = vec![1, 0, 0, 0, 1, 99];
    match Table::decode(def, &bytes) {
        Err(RpfmError::DecodeError { reason, .. }) => {
            assert_eq!(reason, DecodeReason::TrailingBytes)
        }
        _ => panic!("expected TrailingBytes"),
    }
}

#[test]
fn truncated_input_is_rejected() {
    let def = Definition { version: 0, fields: vec![field("x", FieldType::I32)] };
    let bytes: Vec<u8> = vec![1, 0, 0, 0, 1, 2];
    match Table::decode(def, &bytes) {
        Err(RpfmError::DecodeError { reason, .. }) => {
            assert_eq!(reason, DecodeReason::UnexpectedEnd)
        }
        _ => panic!("expected UnexpectedEnd"),
    }
}

#[test]
fn invalid_utf8_in_narrow_string_is_rejected() {
    let def = Definition { version: 0, fields: vec![field("s", FieldType::StringU8)] };
    let bytes: Vec<u8> = vec![1, 0, 0, 0, 2, 0, 0xFF, 0x20];
    match Table::decode(def, &bytes) {
        Err(RpfmError::DecodeError { reason, .. }) => {
            assert_eq!(reason, DecodeReason::InvalidUtf8)
        }
        _ => panic!("expected InvalidUtf8"),
    }
}

#[test]
fn lone_surrogate_in_wide_string_is_rejected() {
    let def = Definition { version: 0, fields: vec![field("s", FieldType::StringU16)] };
    // One code unit, a high surrogate with no partner.
    let bytes: Vec<u8> = vec![1, 0, 0, 0, 1, 0, 0x00, 0xD8];
    match Table::decode(def, &bytes) {
        Err(RpfmError::DecodeError { reason, .. }) => {
            assert_eq!(reason, DecodeReason::InvalidUtf16)
        }
        _ => panic!("expected InvalidUtf16"),
    }
}

#[test]
fn row_width_mismatch_is_rejected() {
    let def = Definition {
        version: 0,
        fields: vec![field("a", FieldType::I32), field("b", FieldType::I32)],
    };
    let rows = vec![vec![DecodedData::I32(1)]];
    match Table::from_rows(def, rows) {
        Err(RpfmError::RowWidthMismatch) => {}
        _ => panic!("expected RowWidthMismatch"),
    }
}

#[test]
fn oversized_string_fails_encode() {
    let def = Definition { version: 0, fields: vec![field("s", FieldType::StringU8)] };
    let long = "x".repeat(70000);
    let rows = vec![vec![DecodedData::StringU8(long)]];
    let table = Table::from_rows(def, rows).unwrap();
    match table.encode() {
        Err(RpfmError::EncodeError) => {}
        _ => panic!("expected EncodeError"),
    }
}

#[test]
fn merge_tables_concatenates_rows() {
    let def = Definition { version: 0, fields: vec![field("x", FieldType::I32)] };
    let t1 = Table::from_rows(def.clone(), vec![vec![DecodedData::I32(1)]]).unwrap();
    let t2 = Table::from_rows(def.clone(), vec![vec![DecodedData::I32(2)], vec![
        DecodedData::I32(3),
    ]])
    .unwrap();
    let merged = rpfm_lib::merge_tables(vec![t1, t2]).unwrap();
    assert_eq!(merged.row_count(), 3);
    let rows = merged.get_ref_table_data();
    assert!(cells_equal(&rows[0][0], &DecodedData::I32(1)));
    assert!(cells_equal(&rows[2][0], &DecodedData::I32(3)));
}
