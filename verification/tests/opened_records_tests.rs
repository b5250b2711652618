use veilid_core::key::DHTKey;
use veilid_core::opened_records::{
    finish_watch_values, set_value_target, watch_to_cancel_on_close, ActiveWatch, DHTRecordDescriptor, OpenedRecord, OpenedRecords,
    WatchGrant,
};
use veilid_core::storage_manager::StorageError;
use veilid_core::subkeys::ValueSubkeyRangeSet;
use veilid_core::types::{KeyPair, TypedKey};

fn key(b: u8) -> DHTKey {
    DHTKey::new([b; 32])
}

fn kp(b: u8) -> KeyPair {
    KeyPair { key: key(b), secret: key(b + 100) }
}

fn tk(b: u8) -> TypedKey {
    TypedKey { kind: *b"VLD0", value: key(b) }
}

fn watch(id: u64) -> ActiveWatch<u8> {
    ActiveWatch {
        id,
        expiration_ts: 1_000,
        watch_node: 7,
        opt_value_changed_route: None,
        subkeys: ValueSubkeyRangeSet::full(),
        count: 3,
    }
}

#[test]
fn open_then_close_gives_back_how_it_was_opened() {
    let mut t: OpenedRecords<u8, u8> = OpenedRecords::new();
    assert_eq!(t.len(), 0);
    t.open_new_record(tk(1), Some(kp(2)), 9);
    assert!(t.is_open(&tk(1)));
    assert!(!t.is_open(&tk(2)));
    assert_eq!(t.len(), 1);
    let rec = t.close_record(&tk(1)).expect("record was open");
    assert!(rec.writer.unwrap().key == key(2));
    assert_eq!(rec.safety_selection, 9);
    assert!(rec.active_watch.is_none());
    assert!(!t.is_open(&tk(1)));
    assert!(t.close_record(&tk(1)).is_none());
    assert_eq!(t.len(), 0);
}

#[test]
fn reopening_keeps_the_watch_and_takes_the_new_writer() {
    let mut t: OpenedRecords<u8, u8> = OpenedRecords::new();
    t.open_existing_record(tk(1), None, 1);
    t.open_existing_record(tk(3), None, 1);
    assert_eq!(t.set_active_watch(&tk(1), Some(watch(42))), Ok(()));
    t.open_existing_record(tk(1), Some(kp(5)), 2);
    assert_eq!(t.len(), 2);
    let rec = t.get(&tk(1)).unwrap();
    assert!(rec.writer.unwrap().key == key(5));
    assert_eq!(rec.safety_selection, 2);
    assert_eq!(rec.active_watch.as_ref().unwrap().id, 42);
    assert!(t.get(&tk(3)).unwrap().active_watch.is_none());
}

#[test]
fn watch_on_a_closed_record_is_refused() {
    let mut t: OpenedRecords<u8, u8> = OpenedRecords::new();
    assert_eq!(t.set_active_watch(&tk(4), Some(watch(1))), Err(StorageError::RecordNotOpen));
    t.open_new_record(tk(4), None, 0);
    assert_eq!(t.set_active_watch(&tk(4), Some(watch(1))), Ok(()));
    assert_eq!(t.set_active_watch(&tk(4), None), Ok(()));
    assert!(t.get(&tk(4)).unwrap().active_watch.is_none());
}

#[test]
fn closing_cancels_the_watch_only_when_online() {
    let mut rec: OpenedRecord<u8, u8> = OpenedRecord::new(None, 0);
    assert!(watch_to_cancel_on_close(&Some(OpenedRecord::<u8, u8>::new(None, 0)), true).is_none());
    rec.active_watch = Some(watch(8));
    let closed = Some(rec);
    assert_eq!(watch_to_cancel_on_close(&closed, true).unwrap().id, 8);
    assert!(watch_to_cancel_on_close(&closed, false).is_none());
    assert!(watch_to_cancel_on_close::<u8, u8>(&None, true).is_none());
}

#[test]
fn descriptor_has_the_owner_secret_only_for_the_owner() {
    let d = DHTRecordDescriptor::new(tk(1), key(2), Some(kp(2)), vec![1, 2]);
    assert!(d.owner_secret.unwrap() == key(102));
    let d = DHTRecordDescriptor::new(tk(1), key(2), Some(kp(3)), vec![]);
    assert!(d.owner_secret.is_none());
    let d = DHTRecordDescriptor::new(tk(1), key(2), None, vec![]);
    assert!(d.owner_secret.is_none());
    assert_eq!(d.schema_data.len(), 0);
}

fn grant(expiration_ts: u64) -> WatchGrant<u8> {
    WatchGrant { expiration_ts, watch_id: 77, watch_node: 5, opt_value_changed_route: None }
}

#[test]
fn watch_result_is_kept_clamped_or_dropped() {
    let mut t: OpenedRecords<u8, u8> = OpenedRecords::new();
    let full = ValueSubkeyRangeSet::full;
    assert_eq!(
        finish_watch_values(&mut t, &tk(1), 1_000, 100, 10_000, 0, 2, full(), grant(5_000)),
        Err(StorageError::RecordNotOpen)
    );
    t.open_new_record(tk(1), None, 0);
    // Granted within bounds: kept as granted.
    assert_eq!(finish_watch_values(&mut t, &tk(1), 1_000, 100, 10_000, 0, 2, full(), grant(5_000)), Ok(5_000));
    let w = t.get(&tk(1)).unwrap().active_watch.as_ref().unwrap();
    assert_eq!((w.id, w.expiration_ts, w.watch_node, w.count), (77, 5_000, 5, 2));
    // Granted past what was asked for: reported as granted, kept clamped.
    assert_eq!(finish_watch_values(&mut t, &tk(1), 1_000, 100, 10_000, 3_000, 2, full(), grant(5_000)), Ok(5_000));
    assert_eq!(t.get(&tk(1)).unwrap().active_watch.as_ref().unwrap().expiration_ts, 3_000);
    // Too short a grant: no watch kept.
    assert_eq!(finish_watch_values(&mut t, &tk(1), 1_000, 100, 10_000, 0, 2, full(), grant(1_050)), Ok(0));
    assert!(t.get(&tk(1)).unwrap().active_watch.is_none());
    // A cancellation keeps no watch.
    assert_eq!(finish_watch_values(&mut t, &tk(1), 1_000, 100, 10_000, 0, 0, full(), grant(5_000)), Ok(0));
    assert!(t.get(&tk(1)).unwrap().active_watch.is_none());
}

#[test]
fn watch_nodes_of_open_records() {
    let mut t: OpenedRecords<u8, u8> = OpenedRecords::new();
    assert!(t.active_watch_nodes().is_empty());
    t.open_new_record(tk(1), None, 0);
    t.open_new_record(tk(2), None, 0);
    t.open_new_record(tk(3), None, 0);
    let mut w1 = watch(1);
    w1.watch_node = 11;
    let mut w3 = watch(3);
    w3.watch_node = 33;
    t.set_active_watch(&tk(1), Some(w1)).unwrap();
    t.set_active_watch(&tk(3), Some(w3)).unwrap();
    assert_eq!(t.active_watch_nodes(), vec![&11u8, &33u8]);
}

#[test]
fn a_write_needs_crypto_and_an_open_record() {
    let mut t: OpenedRecords<u8, u8> = OpenedRecords::new();
    assert_eq!(set_value_target(&t, &tk(1), false).unwrap_err(), StorageError::UnsupportedCryptosystem);
    assert_eq!(set_value_target(&t, &tk(1), true).unwrap_err(), StorageError::RecordNotOpen);
    t.open_new_record(tk(1), Some(kp(4)), 6);
    let o = set_value_target(&t, &tk(1), true).unwrap();
    assert_eq!(o.safety_selection, 6);
    assert!(o.writer.unwrap().key == key(4));
}
