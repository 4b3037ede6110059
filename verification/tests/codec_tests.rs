//! The codecs on their own: varints, records, the catalog blob.

use basic_db::catalog::{catalog_decode, catalog_encode, ColumnType};
use basic_db::record::{create_record, serialise_record_integer, Column};
use basic_db::record_read::{fetch_record, read_column};
use basic_db::varint::{build_varint, read_varint, varint_length};
use basic_db::DbError;

#[test]
fn varint_round_trips() {
    let samples: Vec<u64> = vec![
        0,
        1,
        127,
        128,
        16383,
        16384,
        300,
        0xFFFF,
        0x0100_0000_0000_0000 - 1,
        0x0100_0000_0000_0000,
        u64::MAX,
    ];
    for v in samples {
        let bytes = build_varint(v);
        assert_eq!(bytes.len(), varint_length(v));
        let (back, consumed) = read_varint(&bytes, 0).unwrap();
        assert_eq!(back, v);
        assert_eq!(consumed, bytes.len());
    }
}

#[test]
fn varint_expected_bytes() {
    assert_eq!(build_varint(0), vec![0x00]);
    assert_eq!(build_varint(127), vec![0x7F]);
    assert_eq!(build_varint(128), vec![0x81, 0x00]);
    assert_eq!(build_varint(300), vec![0x82, 0x2C]);
    // a value needing all 64 bits takes nine bytes, the last holding the
    // low eight bits whole
    let nine = build_varint(u64::MAX);
    assert_eq!(nine.len(), 9);
    assert_eq!(nine[8], 0xFF);
}

#[test]
fn varint_truncated_input_is_corrupt() {
    assert_eq!(read_varint(&vec![0x81], 0).unwrap_err(), DbError::Corruption);
    assert_eq!(read_varint(&Vec::new(), 0).unwrap_err(), DbError::Corruption);
}

#[test]
fn record_round_trips() {
    let row = vec![
        Column::Null,
        Column::Integer(0),
        Column::Integer(1),
        Column::Integer(-1),
        Column::Integer(42),
        Column::Integer(-300),
        Column::Integer(i64::MAX as i128),
        Column::Integer(i64::MIN as i128),
        Column::Real(0x3FF0_0000_0000_0000),
        Column::Blob(vec![1, 2, 3]),
        Column::Text("hello".to_string()),
        Column::Text("".to_string()),
        Column::Blob(Vec::new()),
    ];
    let bytes = create_record(&row).unwrap();
    let (back, end) = fetch_record(&bytes, 0).unwrap();
    assert_eq!(end, bytes.len());
    assert_eq!(back, row);
}

#[test]
fn integer_literals_use_inline_serial_types() {
    let (st0, payload0) = serialise_record_integer(0).unwrap();
    assert_eq!(st0, 8);
    assert_eq!(payload0.len(), 0);
    let (st1, payload1) = serialise_record_integer(1).unwrap();
    assert_eq!(st1, 9);
    assert_eq!(payload1.len(), 0);
    // nearby values pay a byte
    let (st2, payload2) = serialise_record_integer(2).unwrap();
    assert_eq!(st2, 1);
    assert_eq!(payload2, vec![2]);
    let (stm, payloadm) = serialise_record_integer(-1).unwrap();
    assert_eq!(stm, 1);
    assert_eq!(payloadm, vec![0xFF]);
}

#[test]
fn oversized_integers_fail_to_encode() {
    assert_eq!(
        serialise_record_integer(i64::MAX as i128 + 1).unwrap_err(),
        DbError::IntegerOverflow
    );
    assert_eq!(
        serialise_record_integer(i64::MIN as i128 - 1).unwrap_err(),
        DbError::IntegerOverflow
    );
}

#[test]
fn corrupt_text_is_rejected() {
    // serial type 17 announces two text bytes; 0xFF 0xFE is not UTF-8
    let bytes = vec![0xFFu8, 0xFE];
    assert_eq!(
        read_column(17, &bytes, 0).unwrap_err(),
        DbError::Corruption
    );
    // the same payload as a blob is fine: blobs carry raw bytes
    let (col, end) = read_column(16, &bytes, 0).unwrap();
    assert_eq!(col, Column::Blob(vec![0xFF, 0xFE]));
    assert_eq!(end, 2);
    // valid text decodes to the characters its bytes encode
    let ok = vec![b'h', b'i'];
    let (tcol, _) = read_column(17, &ok, 0).unwrap();
    assert_eq!(tcol, Column::Text("hi".to_string()));
}

#[test]
fn reserved_serial_types_are_corrupt() {
    let bytes = vec![0u8; 16];
    assert_eq!(read_column(10, &bytes, 0).unwrap_err(), DbError::Corruption);
    assert_eq!(read_column(11, &bytes, 0).unwrap_err(), DbError::Corruption);
}

#[test]
fn catalog_round_trips() {
    let schemas: Vec<Vec<(String, ColumnType)>> = vec![
        Vec::new(),
        vec![("count".to_string(), ColumnType::Integer)],
        vec![
            ("count".to_string(), ColumnType::Integer),
            ("name".to_string(), ColumnType::Text),
            ("data".to_string(), ColumnType::Blob),
            ("ratio".to_string(), ColumnType::Real),
        ],
        vec![("".to_string(), ColumnType::Text)],
    ];
    for schema in schemas {
        let blob = catalog_encode(&schema);
        let back = catalog_decode(&blob).unwrap();
        assert_eq!(back, schema);
    }
}

#[test]
fn catalog_rejects_trailing_bytes() {
    let schema = vec![("a".to_string(), ColumnType::Integer)];
    let mut blob = catalog_encode(&schema);
    blob.push(0);
    assert_eq!(catalog_decode(&blob).unwrap_err(), DbError::Corruption);
    // and unknown type tags
    let mut blob2 = catalog_encode(&schema);
    let last = blob2.len() - 1;
    blob2[last] = 9;
    assert_eq!(catalog_decode(&blob2).unwrap_err(), DbError::Corruption);
}
