use veilid_core::client_api::RegistrationMap;
use veilid_core::intf::{combine_random_u64, random_bytes_from_words, BlockStore};
use veilid_core::key::{distance, DHTKey};
use veilid_core::network_manager::SendDataKind;
use veilid_core::operations::{
    collect_decoded, wire_list_len, RPCOperationFindBlockA, RPCOperationFindBlockQ, RPCOperationGetValueA,
    RPCOperationGetValueQ, RPCOperationSignal,
};
use veilid_core::routing_table::{FindPeersResult, PeerCandidate, RoutingTable};
use veilid_core::rpc::{
    hole_punch_receipt, process_find_block_q, process_set_value_q, process_value_changed, process_watch_value_q,
    redirect_targets, reverse_connect_receipt, status_address_report, validate_dial_info_outcome,
    will_validate_dial_info, AddressReport, RedirectError, ReturnedReceipt, SignalFailure,
};
use veilid_core::types::{RPCError, TypedKey};

fn key(b: u8) -> DHTKey {
    DHTKey::new([b; 32])
}

fn internal(e: RPCError) -> String {
    match e {
        RPCError::Internal(m) => m,
        _ => panic!("not internal"),
    }
}

fn unimplemented(e: RPCError) -> String {
    match e {
        RPCError::Unimplemented(m) => m,
        _ => panic!("not unimplemented"),
    }
}

#[test]
fn dial_info_validation_needs_out_of_band_receipt() {
    assert_eq!(validate_dial_info_outcome::<u8>(ReturnedReceipt::OutOfBand).unwrap(), true);
    assert_eq!(validate_dial_info_outcome(ReturnedReceipt::InBand(3u8)).unwrap(), false);
    assert_eq!(validate_dial_info_outcome::<u8>(ReturnedReceipt::Expired).unwrap(), false);
    let e = validate_dial_info_outcome::<u8>(ReturnedReceipt::Cancelled).unwrap_err();
    assert_eq!(internal(e), "receipt was dropped before expiration");
    assert!(will_validate_dial_info(None));
    assert!(!will_validate_dial_info(Some(false)));
}

#[test]
fn redirect_skips_sender() {
    assert_eq!(redirect_targets::<u8>(vec![], &key(1)).unwrap_err(), RedirectError::NoPeers);
    let peers = vec![(key(1), 10u8), (key(2), 20u8), (key(3), 30u8)];
    assert_eq!(redirect_targets(peers, &key(2)).unwrap(), vec![10, 30]);
    assert!(redirect_targets(vec![(key(1), 1u8)], &key(1)).unwrap().is_empty());
}

#[test]
fn status_reports_address_by_send_kind() {
    assert_eq!(status_address_report(SendDataKind::LocalDirect), AddressReport::Local);
    assert_eq!(status_address_report(SendDataKind::GlobalDirect), AddressReport::Global);
    assert_eq!(status_address_report(SendDataKind::GlobalIndirect), AddressReport::Ignore);
}

#[test]
fn signalled_receipts() {
    assert_eq!(reverse_connect_receipt(ReturnedReceipt::InBand(4u8)), Ok(Some(4)));
    assert_eq!(reverse_connect_receipt::<u8>(ReturnedReceipt::Expired), Ok(None));
    assert_eq!(reverse_connect_receipt::<u8>(ReturnedReceipt::OutOfBand), Err(SignalFailure::ReturnedOutOfBand));
    assert_eq!(hole_punch_receipt(ReturnedReceipt::InBand(4u8)), Ok(4));
    assert_eq!(hole_punch_receipt::<u8>(ReturnedReceipt::Expired), Err(SignalFailure::Expired));
    assert_eq!(hole_punch_receipt::<u8>(ReturnedReceipt::Cancelled), Err(SignalFailure::Cancelled));
}

#[test]
fn unimplemented_handlers() {
    assert_eq!(unimplemented(process_value_changed().unwrap_err()), "process_value_changed");
    assert_eq!(unimplemented(process_set_value_q().unwrap_err()), "process_set_value_q");
    assert_eq!(unimplemented(process_watch_value_q().unwrap_err()), "process_watch_value_q");
    assert_eq!(unimplemented(process_find_block_q().unwrap_err()), "process_find_block_q");
}

#[test]
fn decoding_lists_stops_at_first_failure() {
    assert_eq!(collect_decoded(vec![Ok(1u8), Ok(2)]).unwrap(), vec![1, 2]);
    let e = collect_decoded(vec![Ok(1u8), Err(RPCError::Internal("a".to_string())), Err(RPCError::Internal("b".to_string()))]);
    assert_eq!(internal(e.unwrap_err()), "a");
    assert_eq!(wire_list_len(5, "x").unwrap(), 5);
}

#[test]
fn find_block_operations() {
    let q = RPCOperationFindBlockQ::decode(key(4));
    assert!(q.encode() == key(4));
    let a = RPCOperationFindBlockA::decode(vec![1, 2], vec![Ok(7u8)], vec![Ok(8u8), Ok(9u8)]).unwrap();
    assert_eq!(a.suppliers, vec![7]);
    let (data, ns, np) = a.encode().unwrap();
    assert_eq!(data, &[1, 2]);
    assert_eq!((ns, np), (1, 2));
    let bad = RPCOperationFindBlockA::decode(vec![], vec![Ok(1u8)], vec![Err(RPCError::Internal("peer".to_string()))]);
    assert_eq!(internal(bad.unwrap_err()), "peer");
}

#[test]
fn get_value_and_signal_operations() {
    let q = RPCOperationGetValueQ::decode(5u32);
    assert_eq!(*q.encode(), 5);
    let d: RPCOperationGetValueA<u8, u8> = RPCOperationGetValueA::decode_data(3);
    assert_eq!(d.encode_peers_len().unwrap(), None);
    let p: RPCOperationGetValueA<u8, u8> = RPCOperationGetValueA::decode_peers(vec![Ok(1), Ok(2)]).unwrap();
    assert_eq!(p.encode_peers_len().unwrap(), Some(2));
    let s = RPCOperationSignal::decode("sig");
    assert_eq!(*s.encode(), "sig");
}

#[test]
fn closest_peers_need_valid_node_info() {
    let rt = RoutingTable { node_ids: vec![TypedKey { kind: *b"VLD0", value: key(0x80) }], max_find_node_count: 2 };
    let cands = vec![
        PeerCandidate { node_id: Some(key(1)), has_valid_signed_node_info: true, peer_info: 1u8 },
        PeerCandidate { node_id: Some(key(2)), has_valid_signed_node_info: false, peer_info: 2u8 },
        PeerCandidate { node_id: None, has_valid_signed_node_info: true, peer_info: 3u8 },
        PeerCandidate { node_id: Some(key(4)), has_valid_signed_node_info: true, peer_info: 4u8 },
    ];
    let target = TypedKey { kind: *b"VLD0", value: key(0) };
    match rt.find_all_closest_peers(&target, true, cands) {
        FindPeersResult::Value(ps) => assert_eq!(ps, vec![1, 3]),
        _ => panic!("expected peers"),
    }
    assert!(matches!(rt.find_all_closest_peers::<u8>(&target, false, vec![]), FindPeersResult::ServiceUnavailable));
    // Closest first in, closest first out: our own node (0x80) may be among them.
    let ordered = vec![
        PeerCandidate { node_id: Some(key(0x01)), has_valid_signed_node_info: true, peer_info: 1u8 },
        PeerCandidate { node_id: Some(key(0x02)), has_valid_signed_node_info: false, peer_info: 2u8 },
        PeerCandidate { node_id: Some(key(0x80)), has_valid_signed_node_info: true, peer_info: 8u8 },
        PeerCandidate { node_id: Some(key(0x90)), has_valid_signed_node_info: true, peer_info: 9u8 },
    ];
    match rt.find_all_closest_peers(&target, true, ordered) {
        FindPeersResult::Value(ps) => assert_eq!(ps, vec![1, 8]),
        _ => panic!("expected peers"),
    }
}

#[test]
fn closer_peers_are_nearer_than_us() {
    let own = key(0x80);
    let rt = RoutingTable { node_ids: vec![TypedKey { kind: *b"VLD0", value: own }], max_find_node_count: 10 };
    assert!(rt.node_id(b"VLD0") == own);
    let target = TypedKey { kind: *b"VLD0", value: key(0x00) };
    let cands = vec![
        PeerCandidate { node_id: Some(key(0x10)), has_valid_signed_node_info: true, peer_info: 1u8 },
        PeerCandidate { node_id: Some(key(0x90)), has_valid_signed_node_info: true, peer_info: 2u8 },
        PeerCandidate { node_id: Some(key(0x80)), has_valid_signed_node_info: true, peer_info: 3u8 },
        PeerCandidate { node_id: None, has_valid_signed_node_info: true, peer_info: 4u8 },
        PeerCandidate { node_id: Some(key(0x01)), has_valid_signed_node_info: false, peer_info: 5u8 },
    ];
    assert!(distance(&key(0x10), &key(0)) < distance(&own, &key(0)));
    match rt.find_peers_closer_to_key(target, true, cands) {
        FindPeersResult::Value(ps) => assert_eq!(ps, vec![1]),
        _ => panic!("expected peers"),
    }
    assert!(matches!(rt.find_peers_closer_to_key::<u8>(target, false, vec![]), FindPeersResult::UnsupportedCryptosystem));
}

#[test]
fn random_bytes_little_endian_words() {
    let words = vec![0x0403_0201u32, 0x0807_0605, 0x0000_0A09];
    let b = random_bytes_from_words(10, &words);
    assert_eq!(b, vec![1, 2, 3, 4, 5, 6, 7, 8, 9, 10]);
    assert!(random_bytes_from_words(0, &vec![]).is_empty());
    assert_eq!(combine_random_u64(1, 2), 0x0000_0001_0000_0002);
    assert_eq!(combine_random_u64(u32::MAX, u32::MAX), u64::MAX);
}

#[test]
fn block_store_keeps_config() {
    let b = BlockStore::new("config");
    assert_eq!(b.config, "config");
}

#[test]
fn client_registrations_and_flow_counts() {
    let mut m = RegistrationMap::new();
    assert_eq!(m.register(), 0);
    assert_eq!(m.register(), 1);
    assert_eq!(m.begin_update(), vec![(0, false), (1, false)]);
    m.request_finished(0, true);
    for _ in 0..6 {
        m.begin_update();
    }
    let warned = m.begin_update();
    assert_eq!(warned, vec![(0, true), (1, true)]);
    m.request_finished(1, false);
    assert_eq!(m.len(), 1);
    m.unregister(0);
    assert_eq!(m.len(), 0);
    assert_eq!(m.register(), 2);
}
