use veilid_core::key::DHTKey;
use veilid_core::network_manager::{
    check_envelope_timestamp, classify_packet, contact_send_kind, detect_address_change, envelope_send_kind,
    envelope_version, existing_connection_send_kind, generate_node_status, get_contact_method,
    get_contact_method_local, get_contact_method_public, get_veilid_state, global_peer_scope_enabled,
    ip_address_key, route_envelope, ClientWhitelist, ContactMethod, EnvelopeRoute, EnvelopeTimeError,
    LocalContactFacts, NetworkStats, PacketKind, PublicAddressCheck, PublicContactFacts, RelayFacts,
    SendDataKind, VeilidStateNetwork,
};
use veilid_core::network_manager::{plan_tick, should_send_node_info_updates, TickPlan};
use veilid_core::types::{IpAddress, NetworkClass, SocketAddress};

type Cm = ContactMethod<&'static str, u32>;

fn facts(dial: Option<(&'static str, bool)>, relay: Option<RelayFacts<u32>>) -> PublicContactFacts<&'static str, u32> {
    PublicContactFacts {
        target: 1,
        dial_info: dial,
        relay,
        our_network_class: NetworkClass::InboundCapable,
        reverse_needs_signal: Some(false),
        udp_target: 2,
        target_has_udp: true,
        self_has_udp: true,
    }
}

fn relay(reachable: bool) -> RelayFacts<u32> {
    RelayFacts { relay: 10, reachable, outbound_relay: 11, outbound_reachable: reachable }
}

fn cm(m: Cm) -> Cm {
    m
}

fn key(b: u8) -> DHTKey {
    DHTKey::new([b; 32])
}

fn sa(last: u8, port: u16) -> SocketAddress {
    SocketAddress { address: IpAddress::V4([192, 168, 0, last]), port }
}

fn is(m: Cm, want: &str) -> bool {
    let got = match m {
        ContactMethod::Unreachable => "unreachable".to_string(),
        ContactMethod::Direct(d) => format!("direct {}", d),
        ContactMethod::SignalReverse(r, t) => format!("reverse {} {}", r, t),
        ContactMethod::SignalHolePunch(r, t) => format!("holepunch {} {}", r, t),
        ContactMethod::InboundRelay(r) => format!("inbound {}", r),
        ContactMethod::OutboundRelay(r) => format!("outbound {}", r),
    };
    got == want
}

#[test]
fn public_contact_direct_without_signal() {
    assert!(is(get_contact_method_public(facts(Some(("d", false)), None)), "direct d"));
}

#[test]
fn public_contact_signalled_paths() {
    assert!(is(get_contact_method_public(facts(Some(("d", true)), Some(relay(true)))), "reverse 11 1"));
    let mut f = facts(Some(("d", true)), Some(relay(true)));
    f.reverse_needs_signal = Some(true);
    assert!(is(get_contact_method_public(f), "holepunch 11 2"));
    f.self_has_udp = false;
    assert!(is(get_contact_method_public(f), "inbound 11"));
    f.our_network_class = NetworkClass::OutboundOnly;
    f.self_has_udp = true;
    assert!(is(get_contact_method_public(f), "inbound 11"));
    assert!(is(get_contact_method_public(facts(Some(("d", true)), Some(relay(false)))), "unreachable"));
    assert!(is(get_contact_method_public(facts(Some(("d", true)), None)), "unreachable"));
}

#[test]
fn public_contact_without_dial_info_needs_relay() {
    assert!(is(get_contact_method_public(facts(None, Some(relay(true)))), "inbound 10"));
    assert!(is(get_contact_method_public(facts(None, Some(relay(false)))), "unreachable"));
    assert!(is(get_contact_method_public(facts(None, None)), "unreachable"));
}

#[test]
fn local_then_public_then_our_relay() {
    let local: Cm = get_contact_method_local(LocalContactFacts { filter_dead: false, dial_info: Some("l") });
    assert!(is(local, "direct l"));
    let dead: Cm = get_contact_method_local(LocalContactFacts { filter_dead: true, dial_info: Some("l") });
    assert!(is(dead, "unreachable"));
    assert!(is(get_contact_method(local, ContactMethod::Direct("p"), Some(9)), "direct l"));
    assert!(is(get_contact_method(ContactMethod::Unreachable, ContactMethod::Direct("p"), Some(9)), "direct p"));
    assert!(is(get_contact_method(ContactMethod::Unreachable, ContactMethod::Unreachable, Some(9)), "outbound 9"));
    assert!(is(get_contact_method(ContactMethod::Unreachable, ContactMethod::Unreachable, None), "unreachable"));
}

#[test]
fn send_kinds() {
    assert_eq!(existing_connection_send_kind(true), SendDataKind::LocalDirect);
    assert_eq!(existing_connection_send_kind(false), SendDataKind::GlobalDirect);
    assert_eq!(contact_send_kind(&cm(ContactMethod::Direct("x")), true), Some(SendDataKind::LocalDirect));
    assert_eq!(contact_send_kind(&cm(ContactMethod::InboundRelay(1)), true), Some(SendDataKind::GlobalIndirect));
    assert_eq!(contact_send_kind(&cm(ContactMethod::SignalReverse(1, 2)), true), Some(SendDataKind::GlobalDirect));
    assert_eq!(contact_send_kind(&cm(ContactMethod::Unreachable), true), None);
    assert_eq!(envelope_send_kind(&key(1), &key(2), SendDataKind::LocalDirect), SendDataKind::GlobalIndirect);
    assert_eq!(envelope_send_kind(&key(1), &key(1), SendDataKind::LocalDirect), SendDataKind::LocalDirect);
}

#[test]
fn envelope_versions() {
    assert_eq!(envelope_version(None, 0, 2), Ok(2));
    assert_eq!(envelope_version(Some((0, 1)), 0, 2), Ok(1));
    assert_eq!(envelope_version(Some((1, 5)), 0, 2), Ok(2));
    assert_eq!(envelope_version(Some((3, 5)), 0, 2), Err((3, 5)));
    assert_eq!(envelope_version(Some((0, 0)), 1, 2), Err((0, 0)));
}

#[test]
fn packets_by_magic() {
    assert_eq!(classify_packet(&[]), PacketKind::Empty);
    assert_eq!(classify_packet(&[1, 2, 3]), PacketKind::Short);
    assert_eq!(classify_packet(b"BOOT"), PacketKind::BootRequest);
    assert_eq!(classify_packet(b"RCPTxyz"), PacketKind::Receipt);
    assert_eq!(classify_packet(b"VLIDxyz"), PacketKind::Envelope);
}

#[test]
fn envelope_time_window() {
    assert_eq!(check_envelope_timestamp(10_000_000, 9_000_000, Some(500), Some(500)), Err(EnvelopeTimeError::TooOld(1_000_000)));
    assert_eq!(check_envelope_timestamp(10_000_000, 9_600_000, Some(500), Some(500)), Ok(()));
    assert_eq!(check_envelope_timestamp(10_000_000, 11_000_000, Some(500), Some(500)), Err(EnvelopeTimeError::TooNew(1_000_000)));
    assert_eq!(check_envelope_timestamp(10_000_000, 0, None, Some(0)), Ok(()));
    assert_eq!(check_envelope_timestamp(10_000_000, 0, Some(0), None), Ok(()));
}

#[test]
fn whitelist_update_check_purge() {
    let mut w = ClientWhitelist::new();
    assert!(!w.check_client_whitelist(&key(1), 5));
    w.update_client_whitelist(&key(1), 1_000);
    w.update_client_whitelist(&key(2), 5_000);
    assert!(w.check_client_whitelist(&key(1), 2_000));
    // cutoff is 6_000 - 3 ms = 3_000 us: client 1 (seen at 2_000) goes, client 2 stays
    w.purge_client_whitelist(6_000, 3);
    assert!(!w.check_client_whitelist(&key(1), 7_000));
    assert!(w.check_client_whitelist(&key(2), 7_000));
}

#[test]
fn envelopes_for_us_or_relayed() {
    let mut w = ClientWhitelist::new();
    assert_eq!(route_envelope(&mut w, 1, &key(9), &key(1), &key(9)), EnvelopeRoute::Local);
    assert_eq!(route_envelope(&mut w, 1, &key(9), &key(1), &key(2)), EnvelopeRoute::RelayLookup);
    w.update_client_whitelist(&key(1), 1);
    assert_eq!(route_envelope(&mut w, 2, &key(9), &key(1), &key(2)), EnvelopeRoute::RelayResolve);
}

#[test]
fn address_change_when_inbound_capable() {
    let current = vec![sa(1, 5000)];
    let reports = vec![sa(2, 5000), sa(1, 5000), sa(3, 5000), sa(4, 5000)];
    assert!(detect_address_change(true, &current, &reports));
    assert!(!detect_address_change(true, &current, &reports[..3].to_vec()));
}

#[test]
fn address_change_when_outbound_only() {
    let reports = vec![sa(7, 1), sa(7, 1), sa(8, 1), sa(7, 1), sa(7, 1)];
    assert!(detect_address_change(false, &vec![], &reports));
    assert!(!detect_address_change(false, &vec![], &reports[..4].to_vec()));
    assert!(!detect_address_change(false, &vec![], &vec![]));
}

#[test]
fn reports_accumulate_until_detection() {
    let mut c = PublicAddressCheck::new();
    let current = vec![sa(1, 5000)];
    assert!(!c.report_global_socket_address(&key(1), sa(2, 5000), true, &current));
    assert!(!c.report_global_socket_address(&key(2), sa(2, 5000), true, &current));
    // the same reporter replaces its report
    assert!(!c.report_global_socket_address(&key(2), sa(1, 5000), true, &current));
    assert!(!c.report_global_socket_address(&key(3), sa(3, 5000), true, &current));
    assert!(c.report_global_socket_address(&key(4), sa(4, 5000), true, &current));
    // forgotten after detection
    assert!(!c.report_global_socket_address(&key(5), sa(5, 5000), true, &current));
}

#[test]
fn traffic_is_counted_per_address() {
    let mut s = NetworkStats::new();
    let a = IpAddress::V4([1, 2, 3, 4]);
    s.stats_packet_sent(&a, 100);
    s.stats_packet_rcvd(&a, 40);
    s.stats_packet_sent(&IpAddress::V6([0; 16]), 1);
    assert_eq!(s.total_bytes_up(), 101);
    assert_eq!(s.total_bytes_down(), 40);
    assert_eq!(s.address_stats(&a), Some((100, 40)));
    assert_eq!(s.address_stats(&IpAddress::V6([0; 16])), Some((1, 0)));
    assert_eq!(s.address_stats(&IpAddress::V4([9, 9, 9, 9])), None);
    let k = ip_address_key(&a);
    assert_eq!(k.0, 4);
    assert_eq!(&k.1[..4], &[1, 2, 3, 4]);
    assert_eq!(ip_address_key(&IpAddress::V6([0; 16])).0, 6);
}

#[test]
fn state_and_status() {
    assert_eq!(get_veilid_state(true, 5, 6), VeilidStateNetwork { started: true, bps_down: 5, bps_up: 6 });
    assert_eq!(get_veilid_state(false, 5, 6), VeilidStateNetwork { started: false, bps_down: 0, bps_up: 0 });
    let st = generate_node_status(true, false, true);
    assert!(st.will_route && st.will_tunnel && st.will_relay && !st.will_signal && st.will_validate_dial_info);
    assert!(global_peer_scope_enabled(1, 1));
    assert!(!global_peer_scope_enabled(0, 1));
}

#[test]
fn tick_tasks_and_node_info_updates() {
    assert_eq!(
        plan_tick(true, 0, 4),
        TickPlan { relay_management: true, bootstrap: true, peer_minimum_refresh: true, ping_validator: true }
    );
    assert_eq!(
        plan_tick(true, 5, 4),
        TickPlan { relay_management: true, bootstrap: false, peer_minimum_refresh: false, ping_validator: true }
    );
    assert_eq!(
        plan_tick(false, 0, 4),
        TickPlan { relay_management: false, bootstrap: false, peer_minimum_refresh: false, ping_validator: false }
    );
    assert!(should_send_node_info_updates(Some(NetworkClass::InboundCapable)));
    assert!(!should_send_node_info_updates(Some(NetworkClass::Invalid)));
    assert!(!should_send_node_info_updates(None));
}
