use iox_core::batch::RecordBatch;
use iox_core::lineproto::lines_to_batches;
use iox_core::sortkey::{adjust_sort_key_columns, compute_sort_key};
use iox_core::state_machine::{BufferState, Transition};
use iox_core::SequenceNumber;

fn key(names: &[&str]) -> Vec<Vec<u8>> {
    names.iter().map(|n| n.as_bytes().to_vec()).collect()
}

#[test]
fn test_adjust_sort_key_extension() {
    // Existing ["tag3","time"], data primary key ["tag1","tag3","time"].
    let (data_key, update) = adjust_sort_key_columns(
        &key(&["tag3", "time"]),
        &key(&["tag1", "tag3", "time"]),
    );
    assert_eq!(data_key, key(&["tag3", "tag1", "time"]));
    assert_eq!(update, Some(key(&["tag3", "tag1", "time"])));
}

#[test]
fn test_adjust_sort_key_missing_column() {
    // Existing ["tag3","tag1","tag4","time"], data pk ["tag1","tag3","time"].
    let (data_key, update) = adjust_sort_key_columns(
        &key(&["tag3", "tag1", "tag4", "time"]),
        &key(&["tag1", "tag3", "time"]),
    );
    assert_eq!(data_key, key(&["tag3", "tag1", "time"]));
    assert_eq!(update, None);
}

#[test]
fn test_compute_sort_key_cardinality_order() {
    // tag1 has two distinct values, tag3 has one: ascending cardinality puts
    // tag3 first; time is always last.
    let (mut batches, _) = lines_to_batches(
        b"t,tag1=a,tag3=x f=1i 1\nt,tag1=b,tag3=x f=1i 2",
        0,
        1,
    )
    .unwrap();
    let mut buffer = BufferState::new();
    buffer.write(batches.remove(0).1, SequenceNumber::new(0)).unwrap();
    let snap = match buffer.snapshot() {
        Transition::Done(v) => v,
        Transition::Unchanged(_) => panic!("buffer was empty"),
    };
    let data: Vec<RecordBatch> = snap.into_persisting().into_data();
    let k = compute_sort_key(&data);
    assert_eq!(k, key(&["tag3", "tag1", "time"]));

    // Determinism: the same inputs give the same key.
    let k2 = compute_sort_key(&data);
    assert_eq!(k, k2);
}
