use veilid_core::connection_table::{ConnectionRecord, ConnectionRefKind, ConnectionTable, ConnectionTableAddError};
use veilid_core::types::{Flow, IpAddress, PeerAddress, ProtocolType, SocketAddress};

fn socket(last: u8, port: u16) -> SocketAddress {
    SocketAddress { address: IpAddress::V4([10, 0, 0, last]), port }
}

fn remote(last: u8, port: u16, p: ProtocolType) -> PeerAddress {
    PeerAddress { socket_address: socket(last, port), protocol_type: p }
}

fn conn(id: u64, last: u8, port: u16, p: ProtocolType, local_port: Option<u16>) -> ConnectionRecord {
    ConnectionRecord {
        id,
        flow: Flow { remote: remote(last, port, p), local: local_port.map(|lp| socket(1, lp)) },
        ref_count: 0,
        protected: false,
    }
}

fn allow(_ip: IpAddress) -> Result<(), String> {
    Ok(())
}

fn add(t: &mut ConnectionTable, c: ConnectionRecord) -> Result<Option<ConnectionRecord>, ConnectionTableAddError<String>> {
    t.add_connection(c, allow)
}

#[test]
fn protocol_indices() {
    assert_eq!(ConnectionTable::protocol_to_index(ProtocolType::TCP), 0);
    assert_eq!(ConnectionTable::protocol_to_index(ProtocolType::WS), 1);
    assert_eq!(ConnectionTable::protocol_to_index(ProtocolType::WSS), 2);
    assert_eq!(ConnectionTable::index_to_protocol(1), ProtocolType::WS);
}

#[test]
fn added_connection_is_found_by_flow_and_remote() {
    let mut t = ConnectionTable::new([4, 4, 4]);
    let c = conn(1, 5, 80, ProtocolType::TCP, None);
    assert!(add(&mut t, c).unwrap().is_none());
    assert_eq!(t.connection_count(), 1);
    assert_eq!(t.peek_connection_by_flow(c.flow).unwrap().id, 1);
    assert_eq!(t.get_connection_ids_by_remote(c.flow.remote), vec![1]);
    assert!(t.get_connection_ids_by_remote(remote(6, 80, ProtocolType::TCP)).is_empty());
}

#[test]
fn same_flow_is_refused() {
    let mut t = ConnectionTable::new([4, 4, 4]);
    let c = conn(1, 5, 80, ProtocolType::TCP, None);
    add(&mut t, c).unwrap();
    let again = conn(2, 5, 80, ProtocolType::TCP, None);
    match add(&mut t, again) {
        Err(ConnectionTableAddError::AlreadyExists(r)) => assert_eq!(r.id, 2),
        _ => panic!("expected AlreadyExists"),
    }
    assert_eq!(t.connection_count(), 1);
}

#[test]
fn address_filter_refusal_keeps_table() {
    let mut t = ConnectionTable::new([4, 4, 4]);
    let c = conn(1, 5, 80, ProtocolType::TCP, None);
    let r = t.add_connection(c, |_ip: IpAddress| Err::<(), String>("too many".to_string()));
    match r {
        Err(ConnectionTableAddError::AddressFilter(rc, e)) => {
            assert_eq!(rc.id, 1);
            assert_eq!(e, "too many");
        }
        _ => panic!("expected AddressFilter"),
    }
    assert_eq!(t.connection_count(), 0);
}

#[test]
fn full_protocol_evicts_least_recent_idle_connection() {
    let mut t = ConnectionTable::new([2, 4, 4]);
    let mut a = conn(1, 5, 80, ProtocolType::TCP, None);
    a.ref_count = 1;
    let b = conn(2, 6, 80, ProtocolType::TCP, None);
    add(&mut t, a).unwrap();
    add(&mut t, b).unwrap();
    let c = conn(3, 7, 80, ProtocolType::TCP, None);
    let evicted = add(&mut t, c).unwrap().unwrap();
    assert_eq!(evicted.id, 2);
    assert_eq!(t.connection_count(), 2);
    assert!(t.peek_connection_by_flow(b.flow).is_none());
    assert!(t.peek_connection_by_flow(c.flow).is_some());
}

#[test]
fn full_protocol_without_idle_connection_is_full() {
    let mut t = ConnectionTable::new([1, 4, 4]);
    let mut a = conn(1, 5, 80, ProtocolType::TCP, None);
    a.protected = true;
    add(&mut t, a).unwrap();
    match add(&mut t, conn(2, 6, 80, ProtocolType::TCP, None)) {
        Err(ConnectionTableAddError::TableFull(r)) => assert_eq!(r.id, 2),
        _ => panic!("expected TableFull"),
    }
    assert!(add(&mut t, conn(3, 6, 80, ProtocolType::WS, None)).unwrap().is_none());
    assert_eq!(t.connection_count(), 2);
}

#[test]
fn touch_changes_which_connection_is_evicted() {
    let mut t = ConnectionTable::new([2, 4, 4]);
    add(&mut t, conn(1, 5, 80, ProtocolType::TCP, None)).unwrap();
    add(&mut t, conn(2, 6, 80, ProtocolType::TCP, None)).unwrap();
    t.touch_connection_by_id(1);
    let evicted = add(&mut t, conn(3, 7, 80, ProtocolType::TCP, None)).unwrap().unwrap();
    assert_eq!(evicted.id, 2);
}

#[test]
fn references_protect_from_eviction() {
    let mut t = ConnectionTable::new([1, 4, 4]);
    add(&mut t, conn(1, 5, 80, ProtocolType::TCP, None)).unwrap();
    assert!(t.ref_connection_by_id(1, ConnectionRefKind::AddRef));
    assert!(!t.ref_connection_by_id(9, ConnectionRefKind::AddRef));
    assert!(matches!(add(&mut t, conn(2, 6, 80, ProtocolType::TCP, None)), Err(ConnectionTableAddError::TableFull(_))));
    assert!(t.ref_connection_by_id(1, ConnectionRefKind::RemoveRef));
    let evicted = add(&mut t, conn(2, 6, 80, ProtocolType::TCP, None)).unwrap().unwrap();
    assert_eq!(evicted.id, 1);
    assert_eq!(evicted.ref_count, 0);
}

#[test]
fn removed_connection_is_gone() {
    let mut t = ConnectionTable::new([4, 4, 4]);
    let c = conn(1, 5, 80, ProtocolType::WSS, None);
    add(&mut t, c).unwrap();
    assert_eq!(t.remove_connection_by_id(1).unwrap().id, 1);
    assert!(t.remove_connection_by_id(1).is_none());
    assert_eq!(t.connection_count(), 0);
    assert!(t.peek_connection_by_flow(c.flow).is_none());
    assert!(add(&mut t, c).unwrap().is_none());
}

#[test]
fn udp_flows_have_no_connection() {
    let t = ConnectionTable::new([4, 4, 4]);
    let f = Flow { remote: remote(5, 80, ProtocolType::UDP), local: None };
    assert!(t.peek_connection_by_flow(f).is_none());
}

#[test]
fn best_connection_prefers_port_then_latest() {
    let mut t = ConnectionTable::new([8, 8, 8]);
    let r = remote(5, 80, ProtocolType::TCP);
    assert!(t.get_best_connection_by_remote(Some(1), r).is_none());
    add(&mut t, conn(1, 5, 80, ProtocolType::TCP, Some(1000))).unwrap();
    assert_eq!(t.get_best_connection_by_remote(Some(2000), r).unwrap().id, 1);
    add(&mut t, conn(2, 5, 80, ProtocolType::TCP, Some(2000))).unwrap();
    add(&mut t, conn(3, 5, 80, ProtocolType::TCP, Some(3000))).unwrap();
    assert_eq!(t.get_connection_ids_by_remote(r), vec![1, 2, 3]);
    assert_eq!(t.get_best_connection_by_remote(Some(2000), r).unwrap().id, 2);
    assert_eq!(t.get_best_connection_by_remote(Some(4000), r).unwrap().id, 3);
    assert_eq!(t.get_best_connection_by_remote(None, r).unwrap().id, 3);
}

#[test]
fn colliding_connection_over_same_transport() {
    let mut t = ConnectionTable::new([4, 4, 4]);
    add(&mut t, conn(1, 5, 80, ProtocolType::TCP, None)).unwrap();
    assert!(t.check_for_colliding_connection(socket(5, 80), ProtocolType::WS));
    assert!(t.check_for_colliding_connection(socket(5, 80), ProtocolType::WSS));
    assert!(!t.check_for_colliding_connection(socket(5, 80), ProtocolType::TCP));
    assert!(!t.check_for_colliding_connection(socket(5, 80), ProtocolType::UDP));
    assert!(!t.check_for_colliding_connection(socket(5, 81), ProtocolType::WS));
}

#[test]
fn join_returns_every_connection() {
    let mut t = ConnectionTable::new([4, 4, 4]);
    add(&mut t, conn(1, 5, 80, ProtocolType::WS, None)).unwrap();
    add(&mut t, conn(2, 6, 80, ProtocolType::TCP, None)).unwrap();
    add(&mut t, conn(3, 7, 80, ProtocolType::TCP, None)).unwrap();
    let all: Vec<u64> = t.join().iter().map(|c| c.id).collect();
    assert_eq!(all, vec![2, 3, 1]);
    assert_eq!(t.connection_count(), 0);
    assert!(t.get_connection_ids_by_remote(remote(5, 80, ProtocolType::WS)).is_empty());
}

#[test]
fn add_error_constructors() {
    let c = conn(1, 5, 80, ProtocolType::TCP, None);
    assert!(matches!(ConnectionTableAddError::<u8>::already_exists(c), ConnectionTableAddError::AlreadyExists(_)));
    assert!(matches!(ConnectionTableAddError::address_filter(c, 3u8), ConnectionTableAddError::AddressFilter(_, 3)));
    assert!(matches!(ConnectionTableAddError::<u8>::table_full(c), ConnectionTableAddError::TableFull(_)));
}

#[test]
fn add_errors_have_their_texts() {
    let c = conn(1, 2, 80, ProtocolType::TCP, None);
    assert_eq!(ConnectionTableAddError::<()>::already_exists(c.clone()).message(), "Connection already added to table");
    assert_eq!(ConnectionTableAddError::address_filter(c.clone(), ()).message(), "Connection address was filtered");
    assert_eq!(ConnectionTableAddError::<()>::table_full(c).message(), "Connection table is full");
}
