use veilid_core::key::{generate_hash, DHTKey, DHTSignature};
use veilid_core::storage_manager::{
    cancel_watch_plan, check_fanout_set_offline, check_fetched_record, finish_set_value, get_value_step,
    inbound_set_value_step, inspect_is_set, inspect_needs_network, inspect_uses_local_result,
    local_limits_from_config, ms_to_microseconds, online_ready, plan_set_value, record_key,
    remote_limits_from_config, simulate_set_seqs, subkeys_or_full, typed_key_eq, watch_values_outcome,
    queue_unsent_set_value, DHTRecordReport, DHTReportScope, SetValueSend, DhtStorageConfig, FanoutResultKind, GetValueStep,
    InboundSetRejection, InboundSetStep, OfflineSubkeyWrites, RecordNodes, SetValueContext,
    SetValuePlan, SignedValueData, StorageError, MAX_RECORD_DATA_SIZE, MAX_SUBKEY_SIZE,
};
use veilid_core::subkeys::ValueSubkeyRangeSet;
use veilid_core::types::{KeyPair, NetworkClass, TypedKey};
use veilid_core::value_data::ValueData;

fn key(b: u8) -> DHTKey {
    DHTKey::new([b; 32])
}

fn kp(b: u8) -> KeyPair {
    KeyPair { key: key(b), secret: key(b + 100) }
}

fn signed(seq: u32, data: Vec<u8>) -> SignedValueData {
    SignedValueData { value_data: ValueData::new_with_seq(seq, data, key(1)), signature: DHTSignature::new([0u8; 64]) }
}

fn tk(b: u8) -> TypedKey {
    TypedKey { kind: *b"VLD0", value: key(b) }
}

#[test]
fn set_value_needs_a_writer_and_descriptor() {
    assert_eq!(plan_set_value(None, None, None, true, vec![1]).unwrap_err(), StorageError::NotWritable);
    assert_eq!(plan_set_value(Some(kp(1)), None, None, false, vec![1]).unwrap_err(), StorageError::NoDescriptor);
    match plan_set_value(None, Some(kp(2)), None, true, vec![1, 2]).unwrap() {
        SetValuePlan::Write(w, v) => {
            assert!(w.key == key(2));
            assert_eq!(v.seq(), 0);
            assert_eq!(v.data(), &[1, 2]);
        }
        SetValuePlan::Unchanged => panic!("expected a write"),
    }
}

#[test]
fn set_value_same_data_is_unchanged_else_next_seq() {
    let last = ValueData::new_with_seq(4, vec![7, 7], key(3));
    assert!(matches!(plan_set_value(Some(kp(3)), None, Some(&last), true, vec![7, 7]).unwrap(), SetValuePlan::Unchanged));
    match plan_set_value(Some(kp(3)), None, Some(&last), true, vec![8]).unwrap() {
        SetValuePlan::Write(_, v) => assert_eq!(v.seq(), 5),
        _ => panic!("expected a write"),
    }
    match plan_set_value(Some(kp(4)), Some(kp(3)), Some(&last), true, vec![7, 7]).unwrap() {
        SetValuePlan::Write(w, v) => {
            assert!(w.key == key(4));
            assert_eq!(v.seq(), 5);
        }
        _ => panic!("a new writer writes"),
    }
    let long = vec![0u8; ValueData::MAX_LEN + 1];
    assert_eq!(plan_set_value(Some(kp(3)), None, Some(&last), true, long).unwrap_err(), StorageError::DataTooLong);
}

#[test]
fn outbound_set_consensus() {
    let mut ctx = SetValueContext::new(signed(3, vec![1]));
    assert!(ctx.on_answer(false, None));
    assert_eq!(ctx.value_count, 0);
    assert!(ctx.on_answer(true, None));
    assert!(ctx.on_answer(true, None));
    assert_eq!(ctx.value_count, 2);
    assert!(ctx.is_done(2));
    assert!(!ctx.is_done(3));
    assert!(!ctx.on_answer(true, Some((signed(3, vec![9]), true))));
    assert!(!ctx.on_answer(true, Some((signed(9, vec![9]), false))));
    assert_eq!(ctx.value.value_data.seq(), 3);
    assert!(ctx.on_answer(true, Some((signed(4, vec![4]), true))));
    assert_eq!(ctx.value.value_data.seq(), 4);
    assert_eq!(ctx.value_count, 1);
    let done = finish_set_value::<String>(ctx, Ok(true)).unwrap();
    assert_eq!(done.value_data.data(), &[4]);
    let failed = finish_set_value(SetValueContext::new(signed(1, vec![])), Err("boom".to_string()));
    assert_eq!(failed.unwrap_err(), "boom");
}

#[test]
fn offline_after_timeout_or_thin_consensus() {
    assert!(check_fanout_set_offline(FanoutResultKind::Timeout, 10, 3));
    assert!(check_fanout_set_offline(FanoutResultKind::Exhausted, 2, 3));
    assert!(!check_fanout_set_offline(FanoutResultKind::Exhausted, 3, 3));
    assert!(!check_fanout_set_offline(FanoutResultKind::Finished, 0, 3));
    assert!(!check_fanout_set_offline(FanoutResultKind::Partial, 0, 3));
}

#[test]
fn inbound_older_value_is_answered_with_current() {
    let r = inbound_set_value_step(Some(5), 4, Some(1u8), None, false);
    assert!(matches!(r, InboundSetStep::ReturnCurrent));
    let r = inbound_set_value_step(Some(5), 5, Some(1u8), Some(2u8), true);
    assert!(matches!(r, InboundSetStep::Validate(1)));
    let r = inbound_set_value_step(Some(5), 6, Some(1u8), Some(2u8), false);
    assert!(matches!(r, InboundSetStep::Reject(InboundSetRejection::DescriptorMismatch)));
    let r = inbound_set_value_step(None, 0, None::<u8>, None, false);
    assert!(matches!(r, InboundSetStep::Reject(InboundSetRejection::DescriptorMissing)));
    let r = inbound_set_value_step(None, 0, None, Some(7u8), false);
    assert!(matches!(r, InboundSetStep::Validate(7)));
}

#[test]
fn watch_expiration_clamped() {
    // granted beyond what was asked: kept at the asked time, reported as granted
    assert_eq!(watch_values_outcome(1000, 100, 5000, 3000, 1, 4000), (4000, Some(3000)));
    // within bounds
    assert_eq!(watch_values_outcome(1000, 100, 5000, 3000, 1, 2000), (2000, Some(2000)));
    // too soon
    assert_eq!(watch_values_outcome(1000, 100, 5000, 3000, 1, 1099), (0, None));
    // cancellation
    assert_eq!(watch_values_outcome(1000, 100, 5000, 3000, 0, 2000), (0, None));
    // no expiration asked: up to now plus the longest watch
    assert_eq!(watch_values_outcome(1000, 100, 5000, 0, 1, 9000), (9000, Some(6000)));
}

#[test]
fn cancel_watch_leaves_remaining_subkeys() {
    let mut active = ValueSubkeyRangeSet::new();
    active.ranges_insert(0, 9);
    let mut cancel = ValueSubkeyRangeSet::new();
    cancel.ranges_insert(0, 4);
    let (left, count) = cancel_watch_plan(&active, 7, cancel);
    assert_eq!(left.ranges(), vec![(5, 9)]);
    assert_eq!(count, 7);
    let (left, count) = cancel_watch_plan(&active, 7, ValueSubkeyRangeSet::new());
    assert!(left.is_empty());
    assert_eq!(count, 0);
}

#[test]
fn empty_subkeys_mean_all() {
    assert_eq!(subkeys_or_full(ValueSubkeyRangeSet::new()).ranges(), vec![(0, u32::MAX)]);
    assert_eq!(subkeys_or_full(ValueSubkeyRangeSet::single(3)).ranges(), vec![(3, 3)]);
}

#[test]
fn readiness_and_read_steps() {
    assert!(online_ready(true, Some(NetworkClass::OutboundOnly)));
    assert!(!online_ready(true, Some(NetworkClass::Invalid)));
    assert!(!online_ready(true, None));
    assert!(!online_ready(false, Some(NetworkClass::InboundCapable)));
    assert_eq!(get_value_step(false, false, true), Ok(GetValueStep::ReturnLocal));
    assert_eq!(get_value_step(true, true, true), Ok(GetValueStep::Refresh));
    assert_eq!(get_value_step(true, false, true), Ok(GetValueStep::ReturnLocal));
    assert_eq!(get_value_step(false, false, false), Err(StorageError::Offline));
    assert_eq!(get_value_step(false, true, false), Ok(GetValueStep::Refresh));
    assert_eq!(check_fetched_record(false, false), Err(StorageError::KeyNotFound));
    assert_eq!(check_fetched_record(false, true), Ok(()));
}

#[test]
fn limits_from_config() {
    let c = DhtStorageConfig {
        local_subkey_cache_size: 128,
        local_max_subkey_cache_memory_mb: 256,
        remote_subkey_cache_size: 1024,
        remote_max_records: 65536,
        remote_max_subkey_cache_memory_mb: 512,
        remote_max_storage_space_mb: 2048,
        public_watch_limit: 32,
        member_watch_limit: 8,
        max_watch_expiration_ms: 600_000,
        rpc_timeout_ms: 5_000,
    };
    let l = local_limits_from_config(&c);
    assert_eq!(l.subkey_cache_size, 128);
    assert_eq!(l.max_subkey_size, MAX_SUBKEY_SIZE);
    assert_eq!(l.max_record_total_size, MAX_RECORD_DATA_SIZE);
    assert_eq!(l.max_records, None);
    assert_eq!(l.max_subkey_cache_memory_mb, Some(256));
    assert_eq!(l.max_storage_space_mb, None);
    assert_eq!(l.max_watch_expiration, 600_000_000);
    assert_eq!(l.min_watch_expiration, 5_000_000);
    let r = remote_limits_from_config(&c);
    assert_eq!(r.subkey_cache_size, 1024);
    assert_eq!(r.max_records, Some(65536));
    assert_eq!(r.max_storage_space_mb, Some(2048));
    assert_eq!(r.public_watch_limit, 32);
    assert_eq!(r.member_watch_limit, 8);
    assert_eq!(ms_to_microseconds(3), 3000);
}

#[test]
fn offline_writes_accumulate_per_record() {
    let mut w: OfflineSubkeyWrites<u8> = OfflineSubkeyWrites::new();
    assert!(w.is_empty());
    w.add_offline_subkey_write(tk(1), 3, 9);
    w.add_offline_subkey_write(tk(1), 5, 10);
    w.add_offline_subkey_write(tk(2), 1, 11);
    assert!(!w.is_empty());
    assert_eq!(w.offline_subkeys_within(&tk(1), &ValueSubkeyRangeSet::full()).ranges(), vec![(3, 3), (5, 5)]);
    let mut window = ValueSubkeyRangeSet::new();
    window.ranges_insert(4, 10);
    assert_eq!(w.offline_subkeys_within(&tk(1), &window).ranges(), vec![(5, 5)]);
    assert!(w.offline_subkeys_within(&tk(3), &window).is_empty());
}

#[test]
fn record_nodes_keep_most_recent() {
    let mut n = RecordNodes::new();
    n.note_value_node(key(1), 0, false, 10);
    n.note_value_node(key(2), 0, false, 20);
    n.note_value_node(key(3), 0, false, 30);
    n.note_value_node(key(1), 1, false, 40);
    assert_eq!(n.len(), 3);
    n.purge_to_most_recent(2);
    assert_eq!(n.len(), 2);
    let mut nodes = RecordNodes::new();
    let results = vec![(0u32, vec![key(5), key(6)]), (1u32, vec![key(5)])];
    nodes.process_fanout_results(&results, true, 100, 1);
    assert_eq!(nodes.len(), 1);
}

#[test]
fn inspect_scopes() {
    assert!(!inspect_needs_network(DHTReportScope::Local));
    assert!(inspect_needs_network(DHTReportScope::SyncGet));
    assert!(!inspect_uses_local_result(DHTReportScope::SyncSet));
    assert!(inspect_uses_local_result(DHTReportScope::UpdateGet));
    assert!(inspect_is_set(DHTReportScope::UpdateSet));
    assert!(!inspect_is_set(DHTReportScope::UpdateGet));
    let mut seqs = vec![0, 7, u32::MAX];
    simulate_set_seqs(DHTReportScope::UpdateSet, &mut seqs);
    assert_eq!(seqs, vec![1, 8, 0]);
    simulate_set_seqs(DHTReportScope::SyncSet, &mut seqs);
    assert_eq!(seqs, vec![1, 8, 0]);
    let r = DHTRecordReport::new(ValueSubkeyRangeSet::single(1), ValueSubkeyRangeSet::new(), vec![1], vec![2]);
    assert_eq!(r.local_seqs, vec![1]);
    assert_eq!(r.network_seqs, vec![2]);
}

#[test]
fn record_key_is_hash_of_owner_and_schema() {
    let owner = key(9);
    let k = record_key(*b"VLD0", &owner, &[1, 2, 3]);
    let mut data = Vec::new();
    data.extend_from_slice(&[9u8; 32]);
    data.extend_from_slice(&[1, 2, 3]);
    assert!(k.value == generate_hash(&data));
    assert_eq!(&k.kind, b"VLD0");
    assert!(typed_key_eq(&k, &TypedKey { kind: *b"VLD0", value: generate_hash(&data) }));
    assert!(!typed_key_eq(&k, &TypedKey { kind: *b"VLD1", value: generate_hash(&data) }));
}

#[test]
fn same_data_at_the_last_sequence_number_is_unchanged() {
    let last = ValueData::new_with_seq(u32::MAX, vec![7], key(3));
    assert!(matches!(plan_set_value(Some(kp(3)), None, Some(&last), true, vec![7]).unwrap(), SetValuePlan::Unchanged));
}

#[test]
fn unsent_writes_are_queued_offline() {
    let mut w: OfflineSubkeyWrites<u8> = OfflineSubkeyWrites::new();
    assert!(!queue_unsent_set_value(&mut w, tk(1), 4, 0, SetValueSend::Sent));
    assert!(w.is_empty());
    assert!(queue_unsent_set_value(&mut w, tk(1), 4, 0, SetValueSend::Offline));
    assert!(queue_unsent_set_value(&mut w, tk(1), u32::MAX, 0, SetValueSend::Failed));
    assert_eq!(w.offline_subkeys_within(&tk(1), &ValueSubkeyRangeSet::full()).ranges(), vec![(4, 4), (u32::MAX, u32::MAX)]);
}

#[test]
fn storage_errors_have_their_texts() {
    assert_eq!(StorageError::RecordNotOpen.message(), "record not open");
    assert_eq!(StorageError::NotWritable.message(), "value is not writable");
    assert_eq!(StorageError::UnsupportedCryptosystem.message(), "unsupported cryptosystem");
    assert_eq!(InboundSetRejection::DescriptorMissing.message(), "descriptor must be provided");
}
