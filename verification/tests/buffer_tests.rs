use iox_core::batch::{FieldValue, MutableBatch, RecordBatch};
use iox_core::lineproto::lines_to_batches;
use iox_core::state_machine::{BufferState, Buffering, Persisting, Snapshot, Transition};
use iox_core::SequenceNumber;

fn lp_to_mutable_batch(lp: &str) -> MutableBatch {
    let (mut batches, _) = lines_to_batches(lp.as_bytes(), 0, 1).unwrap();
    assert_eq!(batches.len(), 1);
    batches.remove(0).1
}

fn cell(b: &MutableBatch, name: &str, row: usize) -> Option<FieldValue> {
    let c = b.find_column(name.as_bytes()).expect("column missing");
    b.get_cell(c, row)
}

fn batch_cells(b: &RecordBatch, name: &str, rows: usize) -> Vec<Option<FieldValue>> {
    (0..rows).map(|r| cell(b.data(), name, r)).collect()
}

#[test]
fn test_buffer_lifecycle() {
    let mut buffer: BufferState<Buffering> = BufferState::new();

    assert!(buffer.sequence_number_range().inclusive_min().is_none());
    assert!(buffer.sequence_number_range().inclusive_max().is_none());

    buffer
        .write(
            lp_to_mutable_batch("bananas,tag=platanos great=true,how_much=42 668563242000000042"),
            SequenceNumber::new(0),
        )
        .expect("write to empty buffer should succeed");

    let w1 = buffer.query_snapshot();
    assert_eq!(w1.data().rows(), 1);
    assert_eq!(cell(w1.data(), "great", 0), Some(FieldValue::Bool(true)));
    assert_eq!(
        cell(w1.data(), "tag", 0),
        Some(FieldValue::Str(b"platanos".to_vec()))
    );
    assert_eq!(
        cell(w1.data(), "time", 0),
        Some(FieldValue::I64(668563242000000042))
    );

    buffer
        .write(
            lp_to_mutable_batch("bananas,tag=platanos great=true,how_much=1000 668563242000000043"),
            SequenceNumber::new(1),
        )
        .expect("write to buffer should succeed");

    let buffer: BufferState<Snapshot> = match buffer.snapshot() {
        Transition::Done(v) => v,
        Transition::Unchanged(_) => panic!("did not transition to snapshot state"),
    };

    let w2 = buffer.get_query_data();
    assert_eq!(w2.len(), 1);
    assert_eq!(w2[0].data().rows(), 2);
    assert_eq!(
        cell(w2[0].data(), "time", 1),
        Some(FieldValue::I64(668563242000000043))
    );
    let w2_cells = batch_cells(&w2[0], "how_much", 2);

    // A second read returns the same data: reads are idempotent.
    {
        let second_read = buffer.get_query_data();
        assert_eq!(second_read.len(), 1);
        assert_eq!(batch_cells(&second_read[0], "how_much", 2), w2_cells);
    }

    let buffer: BufferState<Persisting> = buffer.into_persisting();

    assert_eq!(
        buffer.sequence_number_range().inclusive_min().unwrap().get(),
        0
    );
    assert_eq!(
        buffer.sequence_number_range().inclusive_max().unwrap().get(),
        1
    );

    let final_data = buffer.into_data();
    assert_eq!(final_data.len(), 1);
    assert_eq!(batch_cells(&final_data[0], "how_much", 2), w2_cells);
}

#[test]
fn test_snapshot_buffer_different_but_compatible_schemas() {
    let mut buffer = BufferState::new();

    // Missing tag t1.
    let mb1 = lp_to_mutable_batch("foo iv=1i,uv=774u,fv=1.0,bv=true,sv=\"hi\" 1");
    buffer.write(mb1, SequenceNumber::new(0)).unwrap();

    // Missing field iv.
    let mb2 = lp_to_mutable_batch("foo,t1=aoeu uv=1u,fv=12.0,bv=false,sv=\"bye\" 10000");
    buffer.write(mb2, SequenceNumber::new(1)).unwrap();

    let buffer: BufferState<Snapshot> = match buffer.snapshot() {
        Transition::Done(v) => v,
        Transition::Unchanged(_) => panic!("failed to transition"),
    };

    assert_eq!(buffer.get_query_data().len(), 1);

    let snapshot = &buffer.get_query_data()[0];
    let b = snapshot.data();
    assert_eq!(b.rows(), 2);

    // The union-widened schema: row 0 has no t1, row 1 has no iv.
    assert_eq!(cell(b, "t1", 0), None);
    assert_eq!(cell(b, "t1", 1), Some(FieldValue::Str(b"aoeu".to_vec())));
    assert_eq!(cell(b, "iv", 0), Some(FieldValue::I64(1)));
    assert_eq!(cell(b, "iv", 1), None);
    assert_eq!(cell(b, "uv", 0), Some(FieldValue::U64(774)));
    assert_eq!(cell(b, "uv", 1), Some(FieldValue::U64(1)));
}

#[test]
fn test_snapshot_empty_buffer_unchanged() {
    let buffer: BufferState<Buffering> = BufferState::new();
    match buffer.snapshot() {
        Transition::Done(_) => panic!("empty buffer must not transition"),
        Transition::Unchanged(b) => {
            assert!(b.sequence_number_range().inclusive_max().is_none());
        }
    }
}

#[test]
fn test_write_schema_conflict_leaves_buffer_unchanged() {
    let mut buffer = BufferState::new();
    buffer
        .write(lp_to_mutable_batch("t f=1i 1"), SequenceNumber::new(0))
        .unwrap();
    // A float for an integer column conflicts.
    let err = buffer.write(lp_to_mutable_batch("t f=1.5 2"), SequenceNumber::new(1));
    assert!(err.is_err());
    // The range did not observe the failed write.
    assert_eq!(
        buffer.sequence_number_range().inclusive_max().unwrap().get(),
        0
    );
}
