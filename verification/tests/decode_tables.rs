use poe_files::DecodeError;
use poe_files::table::Column;
use poe_files::table::ColumnType;
use poe_files::table::PrimKind;
use poe_files::table::PrimType;
use poe_files::table::Schema;
use poe_files::table::Value;
use poe_files::table::decode_table;
use poe_files::table::decode_table_file;

fn scalar(kind: PrimKind, width: u8) -> ColumnType {
    ColumnType::Scalar(PrimType { kind, width })
}

fn schema_of(types: Vec<ColumnType>) -> Schema {
    let mut columns = Vec::new();
    for (i, ty) in types.into_iter().enumerate() {
        columns.push(Column { name: format!("col{}", i), ty });
    }
    Schema { columns }
}

/// row_width = 12: a 4-byte int, a 4-byte float, a 4-byte heap offset to a
/// string. 36 bytes of fixed rows decode to exactly 3 rows, each string
/// resolved from the heap.
#[test]
fn three_rows_with_strings() {
    let schema = schema_of(vec![
        scalar(PrimKind::Unsigned, 4),
        scalar(PrimKind::FloatBits, 4),
        ColumnType::StringRef { wide: false },
    ]);
    let mut heap = Vec::new();
    heap.extend_from_slice(b"one\0two\0three\0");
    let offsets: [u32; 3] = [0, 4, 8];
    let floats: [f32; 3] = [1.5, -2.0, 0.25];
    let mut rows = Vec::new();
    for i in 0..3u32 {
        rows.extend_from_slice(&(i + 1).to_le_bytes());
        rows.extend_from_slice(&floats[i as usize].to_bits().to_le_bytes());
        rows.extend_from_slice(&offsets[i as usize].to_le_bytes());
    }
    assert_eq!(rows.len(), 36);
    let table = decode_table(&schema, &rows, &heap).unwrap();
    assert_eq!(table.len(), 3);
    assert_eq!(
        table[0],
        vec![
            Value::Unsigned(1),
            Value::F32Bits(1.5f32.to_bits()),
            Value::Str(b"one".to_vec()),
        ]
    );
    assert_eq!(
        table[1],
        vec![
            Value::Unsigned(2),
            Value::F32Bits((-2.0f32).to_bits()),
            Value::Str(b"two".to_vec()),
        ]
    );
    assert_eq!(
        table[2],
        vec![
            Value::Unsigned(3),
            Value::F32Bits(0.25f32.to_bits()),
            Value::Str(b"three".to_vec()),
        ]
    );
}

/// A fixed segment of 35 bytes is not a multiple of row_width = 12 and
/// fails with a row-width mismatch, not a truncated decode.
#[test]
fn row_width_mismatch_rejected() {
    let schema = schema_of(vec![
        scalar(PrimKind::Unsigned, 4),
        scalar(PrimKind::FloatBits, 4),
        ColumnType::StringRef { wide: false },
    ]);
    let rows = vec![0u8; 35];
    let heap = b"one\0".to_vec();
    assert_eq!(decode_table(&schema, &rows, &heap), Err(DecodeError::SchemaMismatch));
}

/// A heap offset beyond the heap's end is a decode error for the whole
/// table, never garbage data.
#[test]
fn heap_offset_out_of_bounds_rejected() {
    let schema = schema_of(vec![ColumnType::StringRef { wide: false }]);
    let rows = 100u32.to_le_bytes().to_vec();
    let heap = b"abc\0".to_vec();
    assert_eq!(decode_table(&schema, &rows, &heap), Err(DecodeError::SchemaMismatch));
}

/// A string that runs to the heap's end without a terminator is rejected.
#[test]
fn unterminated_string_rejected() {
    let schema = schema_of(vec![ColumnType::StringRef { wide: false }]);
    let rows = 0u32.to_le_bytes().to_vec();
    let heap = b"abc".to_vec();
    assert_eq!(decode_table(&schema, &rows, &heap), Err(DecodeError::SchemaMismatch));
}

/// Decoding the same bytes with the same schema twice yields identical
/// row sequences.
#[test]
fn decode_is_deterministic() {
    let schema = schema_of(vec![
        scalar(PrimKind::Signed, 2),
        ColumnType::ArrayRef { elem: PrimType { kind: PrimKind::Unsigned, width: 2 }, wide: false },
    ]);
    let mut heap = Vec::new();
    heap.extend_from_slice(&3u32.to_le_bytes());
    heap.extend_from_slice(&10u16.to_le_bytes());
    heap.extend_from_slice(&20u16.to_le_bytes());
    heap.extend_from_slice(&30u16.to_le_bytes());
    let mut rows = Vec::new();
    rows.extend_from_slice(&(-7i16).to_le_bytes());
    rows.extend_from_slice(&0u32.to_le_bytes());
    let first = decode_table(&schema, &rows, &heap).unwrap();
    let second = decode_table(&schema, &rows, &heap).unwrap();
    assert_eq!(first, second);
    assert_eq!(
        first,
        vec![vec![Value::Signed(-7), Value::UnsignedList(vec![10, 20, 30])]]
    );
}

/// An array whose count-prefixed run pokes past the heap's end is rejected.
#[test]
fn array_run_out_of_bounds_rejected() {
    let schema = schema_of(vec![ColumnType::ArrayRef {
        elem: PrimType { kind: PrimKind::Unsigned, width: 4 },
        wide: false,
    }]);
    let mut heap = Vec::new();
    heap.extend_from_slice(&5u32.to_le_bytes());
    heap.extend_from_slice(&1u32.to_le_bytes());
    let rows = 0u32.to_le_bytes().to_vec();
    assert_eq!(decode_table(&schema, &rows, &heap), Err(DecodeError::SchemaMismatch));
}

/// Signed, boolean and wide-offset columns decode by their declared types.
#[test]
fn scalar_kinds_decode() {
    let schema = schema_of(vec![
        scalar(PrimKind::Signed, 1),
        scalar(PrimKind::Signed, 8),
        scalar(PrimKind::Boolean, 1),
        scalar(PrimKind::Boolean, 1),
        ColumnType::StringRef { wide: true },
    ]);
    let mut rows = Vec::new();
    rows.push(0xFFu8);
    rows.extend_from_slice(&(-2i64).to_le_bytes());
    rows.push(0u8);
    rows.push(2u8);
    rows.extend_from_slice(&0u64.to_le_bytes());
    let heap = b"x\0".to_vec();
    let table = decode_table(&schema, &rows, &heap).unwrap();
    assert_eq!(
        table[0],
        vec![
            Value::Signed(-1),
            Value::Signed(-2),
            Value::Bool(false),
            Value::Bool(true),
            Value::Str(b"x".to_vec()),
        ]
    );
}

/// A count-prefixed table file splits into rows and heap by itself.
#[test]
fn table_file_with_count_prefix() {
    let schema = schema_of(vec![scalar(PrimKind::Unsigned, 2)]);
    let mut raw = Vec::new();
    raw.extend_from_slice(&2u32.to_le_bytes());
    raw.extend_from_slice(&100u16.to_le_bytes());
    raw.extend_from_slice(&200u16.to_le_bytes());
    let table = decode_table_file(&schema, &raw).unwrap();
    assert_eq!(table, vec![vec![Value::Unsigned(100)], vec![Value::Unsigned(200)]]);
}

/// A table file whose declared row count does not fit its size is rejected.
#[test]
fn table_file_truncated_rejected() {
    let schema = schema_of(vec![scalar(PrimKind::Unsigned, 2)]);
    let mut raw = Vec::new();
    raw.extend_from_slice(&3u32.to_le_bytes());
    raw.extend_from_slice(&100u16.to_le_bytes());
    assert_eq!(decode_table_file(&schema, &raw), Err(DecodeError::SchemaMismatch));
}
