use iox_core::batch::{FieldValue, MutableBatch, RecordBatch};
use iox_core::compact::{compact, compact_persisting_batch, CompactedStream, PersistingBatch,
    QueryableBatch};
use iox_core::lineproto::{lines_to_batches, pack_decimal};
use iox_core::state_machine::{BufferState, Transition};
use iox_core::SequenceNumber;

fn key(names: &[&str]) -> Vec<Vec<u8>> {
    names.iter().map(|n| n.as_bytes().to_vec()).collect()
}

fn lp_batches(lp: &str) -> Vec<RecordBatch> {
    let (mut batches, _) = lines_to_batches(lp.as_bytes(), 0, 1).unwrap();
    assert_eq!(batches.len(), 1);
    let mut buffer = BufferState::new();
    buffer.write(batches.remove(0).1, SequenceNumber::new(0)).unwrap();
    let snap = match buffer.snapshot() {
        Transition::Done(v) => v,
        Transition::Unchanged(_) => panic!("buffer was empty"),
    };
    snap.into_persisting().into_data()
}

fn cell(b: &MutableBatch, name: &str, row: usize) -> Option<FieldValue> {
    let c = b.find_column(name.as_bytes()).expect("column missing");
    b.get_cell(c, row)
}

#[test]
fn test_compact_persisting_batch_on_one_record_batch_with_one_row() {
    // One row in, exactly one non-empty batch out.
    let data = lp_batches("cpu bar=2 20");
    let persisting = PersistingBatch {
        shard_id: 1,
        table_id: 1,
        partition_id: 1,
        object_store_id: 1,
        table_name: b"cpu".to_vec(),
        data: QueryableBatch { data },
    };
    let CompactedStream { stream, data_sort_key, catalog_sort_key_update } =
        compact_persisting_batch(&None, &persisting).expect("compaction should succeed");

    assert_eq!(stream.data().rows(), 1);
    assert_eq!(
        cell(stream.data(), "bar", 0),
        Some(FieldValue::F64(pack_decimal(false, 2, 0).unwrap()))
    );
    assert_eq!(cell(stream.data(), "time", 0), Some(FieldValue::I64(20)));
    // The primary key (and hence the computed sort key) is just time.
    assert_eq!(data_sort_key, key(&["time"]));
    assert_eq!(catalog_sort_key_update, Some(key(&["time"])));
}

#[test]
fn test_compact_deduplicates_keeping_latest() {
    // Three writes, two sharing tag and time: the later field value survives.
    let data = lp_batches(
        "t,tag1=AL f=10i 50\nt,tag1=AL f=100i 50\nt,tag1=CT f=70i 100",
    );
    let out = compact(&data, &key(&["tag1", "time"])).expect("compaction should succeed");
    assert_eq!(out.data().rows(), 2);
    assert_eq!(cell(out.data(), "tag1", 0), Some(FieldValue::Str(b"AL".to_vec())));
    assert_eq!(cell(out.data(), "f", 0), Some(FieldValue::I64(100)));
    assert_eq!(cell(out.data(), "tag1", 1), Some(FieldValue::Str(b"CT".to_vec())));
    assert_eq!(cell(out.data(), "f", 1), Some(FieldValue::I64(70)));
}

#[test]
fn test_compact_sorts_nulls_first() {
    let data = lp_batches("t,tag1=MT f=1i 5\nt f=2i 3");
    let out = compact(&data, &key(&["tag1", "time"])).expect("compaction should succeed");
    assert_eq!(out.data().rows(), 2);
    // The row without tag1 sorts first.
    assert_eq!(cell(out.data(), "tag1", 0), None);
    assert_eq!(cell(out.data(), "f", 0), Some(FieldValue::I64(2)));
    assert_eq!(cell(out.data(), "tag1", 1), Some(FieldValue::Str(b"MT".to_vec())));
}

#[test]
fn test_compact_orders_by_time_within_tag() {
    let data = lp_batches("t,tag1=MT f=30i 5\nt,tag1=MT f=1000i 1\nt,tag1=AL f=10i 50");
    let out = compact(&data, &key(&["tag1", "time"])).expect("compaction should succeed");
    assert_eq!(out.data().rows(), 3);
    assert_eq!(cell(out.data(), "tag1", 0), Some(FieldValue::Str(b"AL".to_vec())));
    assert_eq!(cell(out.data(), "time", 1), Some(FieldValue::I64(1)));
    assert_eq!(cell(out.data(), "time", 2), Some(FieldValue::I64(5)));
}

#[test]
fn test_compact_with_specified_sort_key() {
    let data = lp_batches("t,tag1=VT,tag3=AL f=50i 210\nt,tag1=UT,tag3=OR f=70i 220");
    let persisting = PersistingBatch {
        shard_id: 1,
        table_id: 1,
        partition_id: 1,
        object_store_id: 2,
        table_name: b"t".to_vec(),
        data: QueryableBatch { data },
    };
    // The catalog's key covers the primary key: no update is needed.
    let sk = Some(key(&["tag3", "tag1", "time"]));
    let cs = compact_persisting_batch(&sk, &persisting).expect("compaction should succeed");
    assert_eq!(cs.data_sort_key, key(&["tag3", "tag1", "time"]));
    assert_eq!(cs.catalog_sort_key_update, None);
    // Sorted by tag3 first: AL before OR.
    assert_eq!(cell(cs.stream.data(), "tag3", 0), Some(FieldValue::Str(b"AL".to_vec())));
}

#[test]
fn test_compact_new_column_for_sort_key() {
    let data = lp_batches("t,tag1=VT,tag3=AL f=50i 210");
    let persisting = PersistingBatch {
        shard_id: 1,
        table_id: 1,
        partition_id: 1,
        object_store_id: 3,
        table_name: b"t".to_vec(),
        data: QueryableBatch { data },
    };
    // The catalog only knows tag3: tag1 joins before time, and the catalog
    // update carries the widened key.
    let sk = Some(key(&["tag3", "time"]));
    let cs = compact_persisting_batch(&sk, &persisting).expect("compaction should succeed");
    assert_eq!(cs.data_sort_key, key(&["tag3", "tag1", "time"]));
    assert_eq!(cs.catalog_sort_key_update, Some(key(&["tag3", "tag1", "time"])));
}
