use iox_core::batch::{ColType, FieldValue, MutableBatch};
use iox_core::lineproto::{lines_to_batches, pack_decimal, LpError};

fn single_batch(body: &str) -> MutableBatch {
    let (mut batches, _) = lines_to_batches(body.as_bytes(), 0, 1).unwrap();
    assert_eq!(batches.len(), 1);
    batches.remove(0).1
}

fn column_index(b: &MutableBatch, name: &str) -> usize {
    b.find_column(name.as_bytes()).expect("column missing")
}

#[test]
fn test_duplicate_fields_same_value() {
    // whydo InputPower=300i,InputPower=300i: one row, coalesced.
    let b = single_batch("whydo InputPower=300i,InputPower=300i");
    assert_eq!(b.rows(), 1);
    let c = column_index(&b, "InputPower");
    assert_eq!(b.column_type(c), ColType::I64);
    assert_eq!(b.get_cell(c, 0), Some(FieldValue::I64(300)));
}

#[test]
fn test_duplicate_fields_different_value() {
    // The last value wins.
    let b = single_batch("whydo InputPower=300i,InputPower=42i");
    assert_eq!(b.rows(), 1);
    let c = column_index(&b, "InputPower");
    assert_eq!(b.get_cell(c, 0), Some(FieldValue::I64(42)));
}

#[test]
fn test_duplicate_fields_different_type() {
    let r = lines_to_batches(b"whydo InputPower=300i,InputPower=4.2", 0, 1);
    assert_eq!(r.err().unwrap(), LpError::ConflictedFieldTypes);
}

#[test]
fn test_duplicate_tags() {
    let r = lines_to_batches(b"whydo,InputPower=300i,InputPower=300i field=42i", 0, 1);
    assert_eq!(r.err().unwrap(), LpError::DuplicateTag);
    let r = lines_to_batches(b"whydo,InputPower=300i,InputPower=42i field=42i", 0, 1);
    assert_eq!(r.err().unwrap(), LpError::DuplicateTag);
}

#[test]
fn test_tag_and_field_collision() {
    let r = lines_to_batches(b"whydo,InputPower=300i InputPower=300i", 0, 1);
    assert_eq!(r.err().unwrap(), LpError::TypeMismatch);
}

#[test]
fn test_column_named_time() {
    let r = lines_to_batches(b"test field=1u,time=42u 100", 0, 1);
    assert!(r.is_err());
}

#[test]
fn test_precision_scaling() {
    // Second precision scales the timestamp by 10^9.
    let b = single_batch_with_base("platanos,tag1=A val=42i 1647622847", 1_000_000_000);
    let c = column_index(&b, "time");
    assert_eq!(b.get_cell(c, 0), Some(FieldValue::I64(1647622847000000000)));
}

fn single_batch_with_base(body: &str, base: i64) -> MutableBatch {
    let (mut batches, _) = lines_to_batches(body.as_bytes(), 0, base).unwrap();
    assert_eq!(batches.len(), 1);
    batches.remove(0).1
}

#[test]
fn test_precision_overflow() {
    let r = lines_to_batches(b"platanos,tag1=A val=42i 1647622847000000000", 0, 1_000_000_000);
    assert_eq!(r.err().unwrap(), LpError::TimestampOverflow);
}

#[test]
fn test_default_timestamp() {
    let b = single_batch_with_default("cpu val=1i", 42);
    let c = column_index(&b, "time");
    assert_eq!(b.get_cell(c, 0), Some(FieldValue::I64(42)));
}

fn single_batch_with_default(body: &str, default_time: i64) -> MutableBatch {
    let (mut batches, _) = lines_to_batches(body.as_bytes(), default_time, 1).unwrap();
    assert_eq!(batches.len(), 1);
    batches.remove(0).1
}

#[test]
fn test_field_upsert_within_batch() {
    // Two lines of the same table append in order.
    let b = single_batch("test field=1u 100\ntest field=2u 100");
    assert_eq!(b.rows(), 2);
    let c = column_index(&b, "field");
    assert_eq!(b.get_cell(c, 0), Some(FieldValue::U64(1)));
    assert_eq!(b.get_cell(c, 1), Some(FieldValue::U64(2)));
}

#[test]
fn test_value_kinds() {
    let b = single_batch("m,t=x f=1.5,g=-3i,h=7u,b=true,s=\"hi\" 9");
    assert_eq!(b.rows(), 1);
    let f = column_index(&b, "f");
    let expected = pack_decimal(false, 15, -1).unwrap();
    assert_eq!(b.get_cell(f, 0), Some(FieldValue::F64(expected)));
    assert_eq!(b.get_cell(column_index(&b, "g"), 0), Some(FieldValue::I64(-3)));
    assert_eq!(b.get_cell(column_index(&b, "h"), 0), Some(FieldValue::U64(7)));
    assert_eq!(b.get_cell(column_index(&b, "b"), 0), Some(FieldValue::Bool(true)));
    assert_eq!(
        b.get_cell(column_index(&b, "s"), 0),
        Some(FieldValue::Str(b"hi".to_vec()))
    );
    assert_eq!(b.get_cell(column_index(&b, "t"), 0), Some(FieldValue::Str(b"x".to_vec())));
    assert_eq!(b.column_type(column_index(&b, "t")), ColType::Tag);
}

#[test]
fn test_empty_payload() {
    let r = lines_to_batches(b"", 0, 1);
    assert_eq!(r.err().unwrap(), LpError::EmptyPayload);
    let r = lines_to_batches(b"\n\n", 0, 1);
    assert_eq!(r.err().unwrap(), LpError::EmptyPayload);
}
