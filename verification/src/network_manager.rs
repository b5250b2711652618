//! The decisions of the network manager: how a node can be reached, which
//! envelope version to speak to it, what a received packet is, whether an
//! envelope's time is acceptable and where it goes, which clients may use
//! this node as a full relay, and when our public address has likely
//! changed.

use crate::key::DHTKey;
use crate::storage_manager::{ms_to_microseconds, ms_to_us};
use crate::types::{socket_same, IpAddress, NetworkClass, SocketAddress};
use std::collections::hash_map::RandomState;
use vstd::prelude::*;

verus! {

/// The first bytes of a direct bootstrap request.
pub const BOOT_MAGIC: [u8; 4] = [66u8, 79u8, 79u8, 84u8];

/// The first bytes of an out-of-band receipt.
pub const RECEIPT_MAGIC: [u8; 4] = [82u8, 67u8, 80u8, 84u8];

/// How many reporting peers must disagree with, or agree on, our public
/// address before it is detected again.
pub const GLOBAL_ADDRESS_CHANGE_DETECTION_COUNT: usize = 3;

/// How many recent reports of our public address are kept.
pub const PUBLIC_ADDRESS_CHECK_CACHE_SIZE: usize = 8;

// ---------------------------------------------------------------------------
// Reaching a node

/// The means by which another node can be reached; `D` is a dial info and
/// `N` a reference to a node.
#[derive(Clone, Copy, Debug)]
pub enum ContactMethod<D, N> {
    /// Not reachable by any means.
    Unreachable,
    /// Contact the node directly.
    Direct(D),
    /// Ask, through the relay, the node to connect back directly.
    SignalReverse(N, N),
    /// Ask, through the relay, the node to negotiate a UDP hole punch.
    SignalHolePunch(N, N),
    /// Send through the node's inbound relay.
    InboundRelay(N),
    /// Send through our outbound relay.
    OutboundRelay(N),
}

/// What the routing table tells of reaching a node on the local network,
/// after narrowing it to the protocols we can use outbound there.
#[derive(Clone, Copy, Debug)]
pub struct LocalContactFacts<D> {
    /// Whether the narrowing left the node with no usable protocol.
    pub filter_dead: bool,
    /// The node's best local dial info.
    pub dial_info: Option<D>,
}

/// What the routing table tells of the relay of a node on the public internet.
#[derive(Clone, Copy, Debug)]
pub struct RelayFacts<N> {
    /// The relay.
    pub relay: N,
    /// Whether the relay has public dial info we can reach.
    pub reachable: bool,
    /// The relay narrowed to the protocols we can use outbound.
    pub outbound_relay: N,
    /// Whether the narrowed relay has public dial info we can reach.
    pub outbound_reachable: bool,
}

/// What the routing table tells of reaching a node on the public internet,
/// after narrowing it to the protocols we can use outbound there.
#[derive(Clone, Copy, Debug)]
pub struct PublicContactFacts<D, N> {
    /// The node.
    pub target: N,
    /// Its best public dial info, and whether the class of that dial info
    /// needs a signal before inbound traffic.
    pub dial_info: Option<(D, bool)>,
    /// Its inbound relay, if it has one.
    pub relay: Option<RelayFacts<N>>,
    /// Our own network class on the public internet.
    pub our_network_class: NetworkClass,
    /// Whether our best public dial info that the node can reach back needs
    /// a signal, if we have such dial info.
    pub reverse_needs_signal: Option<bool>,
    /// The node narrowed to UDP.
    pub udp_target: N,
    /// Whether the node has public UDP dial info we can reach.
    pub target_has_udp: bool,
    /// Whether we have public UDP dial info the node can reach.
    pub self_has_udp: bool,
}

/// How a node is reached on the local network.
pub open spec fn local_contact<D, N>(f: LocalContactFacts<D>) -> ContactMethod<D, N> {
    if f.filter_dead {
        ContactMethod::Unreachable
    } else {
        match f.dial_info {
            Some(d) => ContactMethod::Direct(d),
            None => ContactMethod::Unreachable,
        }
    }
}

/// How a node is reached on the public internet: directly when its dial
/// info needs no signal; else, through a reachable inbound relay, by asking
/// it to connect back when we can receive connections it can make without
/// a signal, by a hole punch when both sides have UDP, or else by relaying
/// everything; a node without public dial info only through a reachable
/// relay.
pub open spec fn public_contact<D, N>(f: PublicContactFacts<D, N>) -> ContactMethod<D, N> {
    match f.dial_info {
        Some((d, needs_signal)) => {
            if !needs_signal {
                ContactMethod::Direct(d)
            } else {
                match f.relay {
                    Some(rf) => if !rf.outbound_reachable {
                        ContactMethod::Unreachable
                    } else if f.our_network_class != NetworkClass::InboundCapable {
                        ContactMethod::InboundRelay(rf.outbound_relay)
                    } else if f.reverse_needs_signal == Some(false) {
                        ContactMethod::SignalReverse(rf.outbound_relay, f.target)
                    } else if f.target_has_udp && f.self_has_udp {
                        ContactMethod::SignalHolePunch(rf.outbound_relay, f.udp_target)
                    } else {
                        ContactMethod::InboundRelay(rf.outbound_relay)
                    },
                    None => ContactMethod::Unreachable,
                }
            }
        },
        None => match f.relay {
            Some(rf) => if rf.reachable {
                ContactMethod::InboundRelay(rf.relay)
            } else {
                ContactMethod::Unreachable
            },
            None => ContactMethod::Unreachable,
        },
    }
}

/// How a node is reached: on the local network if possible, else on the
/// public internet, else through our outbound relay if we have one.
pub open spec fn contact<D, N>(
    local: ContactMethod<D, N>,
    public: ContactMethod<D, N>,
    our_relay: Option<N>,
) -> ContactMethod<D, N> {
    if !(local is Unreachable) {
        local
    } else if !(public is Unreachable) {
        public
    } else {
        match our_relay {
            Some(r) => ContactMethod::OutboundRelay(r),
            None => ContactMethod::Unreachable,
        }
    }
}

/// What a contact method on the public internet presumes of the node and
/// of us: a node is asked to connect back only when we have public dial
/// info it can reach without a signal; a hole punch only when we could not
/// be reached that way and both sides have UDP; signalling either way only
/// when we can receive inbound connections and its relay is reachable; and
/// it is reached directly exactly when its dial info needs no signal.
pub proof fn lemma_public_contact_presumes<D, N>(f: PublicContactFacts<D, N>)
    ensures
        public_contact(f) is SignalReverse ==> f.reverse_needs_signal == Some(false)
            && f.our_network_class == NetworkClass::InboundCapable && f.relay is Some
            && f.relay->Some_0.outbound_reachable && public_contact(f) == ContactMethod::<D, N>::SignalReverse(
            f.relay->Some_0.outbound_relay,
            f.target,
        ),
        public_contact(f) is SignalHolePunch ==> f.reverse_needs_signal != Some(false) && f.target_has_udp
            && f.self_has_udp && f.our_network_class == NetworkClass::InboundCapable && f.relay is Some
            && f.relay->Some_0.outbound_reachable,
        f.dial_info matches Some((_, true)) && f.relay matches Some(rf) && rf.outbound_reachable
            && f.reverse_needs_signal != Some(false) && !(f.target_has_udp && f.self_has_udp) ==> public_contact(
            f,
        ) == ContactMethod::<D, N>::InboundRelay(f.relay->Some_0.outbound_relay),
        (public_contact(f) is Direct) == (f.dial_info matches Some((_, ns)) && !ns),
        public_contact(f) matches ContactMethod::Direct(d) ==> f.dial_info == Some((d, false)),
{
}

/// How a node is reached on the local network.
pub fn get_contact_method_local<D, N>(f: LocalContactFacts<D>) -> (r: ContactMethod<D, N>)
    ensures
        r == local_contact::<D, N>(f),
{
    if f.filter_dead {
        return ContactMethod::Unreachable;
    }
    match f.dial_info {
        Some(d) => ContactMethod::Direct(d),
        None => ContactMethod::Unreachable,
    }
}

/// How a node is reached on the public internet.
pub fn get_contact_method_public<D, N>(f: PublicContactFacts<D, N>) -> (r: ContactMethod<D, N>)
    ensures
        r == public_contact(f),
{
    match f.dial_info {
        Some((d, needs_signal)) => {
            if !needs_signal {
                return ContactMethod::Direct(d);
            }
            match f.relay {
                Some(rf) => {
                    if !rf.outbound_reachable {
                        return ContactMethod::Unreachable;
                    }
                    if f.our_network_class == NetworkClass::InboundCapable {
                        match f.reverse_needs_signal {
                            Some(false) => {
                                return ContactMethod::SignalReverse(rf.outbound_relay, f.target);
                            },
                            _ => {},
                        }
                        if f.target_has_udp && f.self_has_udp {
                            return ContactMethod::SignalHolePunch(rf.outbound_relay, f.udp_target);
                        }
                    }
                    ContactMethod::InboundRelay(rf.outbound_relay)
                },
                None => ContactMethod::Unreachable,
            }
        },
        None => match f.relay {
            Some(rf) => {
                if rf.reachable {
                    ContactMethod::InboundRelay(rf.relay)
                } else {
                    ContactMethod::Unreachable
                }
            },
            None => ContactMethod::Unreachable,
        },
    }
}

/// How a node is reached, all ways considered.
pub fn get_contact_method<D, N>(
    local: ContactMethod<D, N>,
    public: ContactMethod<D, N>,
    our_relay: Option<N>,
) -> (r: ContactMethod<D, N>)
    ensures
        r == contact(local, public, our_relay),
{
    if !matches!(local, ContactMethod::Unreachable) {
        return local;
    }
    if !matches!(public, ContactMethod::Unreachable) {
        return public;
    }
    match our_relay {
        Some(relay) => ContactMethod::OutboundRelay(relay),
        None => ContactMethod::Unreachable,
    }
}

// ---------------------------------------------------------------------------
// Sending

/// How data reached a node.
#[derive(Clone, Copy, PartialEq, Eq, Structural, Debug)]
pub enum SendDataKind {
    /// Directly, on the local network.
    LocalDirect,
    /// Directly, on the public internet.
    GlobalDirect,
    /// Through another node.
    GlobalIndirect,
}

/// The kind of a send over an existing connection.
pub fn existing_connection_send_kind(local_scope: bool) -> (r: SendDataKind)
    ensures
        r == if local_scope {
            SendDataKind::LocalDirect
        } else {
            SendDataKind::GlobalDirect
        },
{
    if local_scope {
        SendDataKind::LocalDirect
    } else {
        SendDataKind::GlobalDirect
    }
}

/// The kind of a send by a contact method, when it succeeds: through a
/// relay it is indirect; direct dial info is local or global; a reverse
/// connection or hole punch ends in a direct global connection. An
/// unreachable node gets nothing.
pub fn contact_send_kind<D, N>(method: &ContactMethod<D, N>, dial_info_is_local: bool) -> (r: Option<SendDataKind>)
    ensures
        r == match *method {
            ContactMethod::Unreachable => None,
            ContactMethod::Direct(_) => Some(
                if dial_info_is_local {
                    SendDataKind::LocalDirect
                } else {
                    SendDataKind::GlobalDirect
                },
            ),
            ContactMethod::SignalReverse(_, _) => Some(SendDataKind::GlobalDirect),
            ContactMethod::SignalHolePunch(_, _) => Some(SendDataKind::GlobalDirect),
            ContactMethod::InboundRelay(_) => Some(SendDataKind::GlobalIndirect),
            ContactMethod::OutboundRelay(_) => Some(SendDataKind::GlobalIndirect),
        },
{
    match method {
        ContactMethod::Unreachable => None,
        ContactMethod::Direct(_) => Some(
            if dial_info_is_local {
                SendDataKind::LocalDirect
            } else {
                SendDataKind::GlobalDirect
            },
        ),
        ContactMethod::SignalReverse(_, _) => Some(SendDataKind::GlobalDirect),
        ContactMethod::SignalHolePunch(_, _) => Some(SendDataKind::GlobalDirect),
        ContactMethod::InboundRelay(_) => Some(SendDataKind::GlobalIndirect),
        ContactMethod::OutboundRelay(_) => Some(SendDataKind::GlobalIndirect),
    }
}

/// The kind of an envelope's send: an envelope for a node other than the
/// one it is sent through is always indirect.
pub fn envelope_send_kind(envelope_node_id: &DHTKey, via_node_id: &DHTKey, kind: SendDataKind) -> (r: SendDataKind)
    ensures
        r == if envelope_node_id.valid == via_node_id.valid && envelope_node_id.bytes@ == via_node_id.bytes@ {
            kind
        } else {
            SendDataKind::GlobalIndirect
        },
{
    if *envelope_node_id != *via_node_id {
        SendDataKind::GlobalIndirect
    } else {
        kind
    }
}

/// The envelope version to speak to a node that supports versions
/// `node_min_max` (unknown: our highest) when we support `min_version` to
/// `max_version`: the highest both support; a node whose range does not
/// meet ours cannot be spoken to, and its range is the error.
pub open spec fn chosen_envelope_version(node_min_max: Option<(u8, u8)>, min_version: u8, max_version: u8) -> Result<u8, (u8, u8)> {
    match node_min_max {
        None => Ok(max_version),
        Some((node_min, node_max)) => if node_min > max_version || node_max < min_version {
            Err((node_min, node_max))
        } else if node_max < max_version {
            Ok(node_max)
        } else {
            Ok(max_version)
        },
    }
}

/// The version chosen for a node is one both sides support, and it is
/// refused only when the two ranges do not meet.
pub proof fn lemma_envelope_version_supported_by_both(node_min: u8, node_max: u8, min_version: u8, max_version: u8)
    requires
        node_min <= node_max,
        min_version <= max_version,
    ensures
        chosen_envelope_version(Some((node_min, node_max)), min_version, max_version) matches Ok(v) ==> node_min <= v
            <= node_max && min_version <= v <= max_version,
        chosen_envelope_version(Some((node_min, node_max)), min_version, max_version) is Err <==> (node_min
            > max_version || node_max < min_version),
{
}

/// The envelope version to speak to a node.
pub fn envelope_version(node_min_max: Option<(u8, u8)>, min_version: u8, max_version: u8) -> (r: Result<u8, (u8, u8)>)
    ensures
        r == chosen_envelope_version(node_min_max, min_version, max_version),
{
    match node_min_max {
        None => Ok(max_version),
        Some((node_min, node_max)) => {
            if node_min > max_version || node_max < min_version {
                return Err((node_min, node_max));
            }
            if node_max < max_version {
                Ok(node_max)
            } else {
                Ok(max_version)
            }
        },
    }
}

// ---------------------------------------------------------------------------
// Receiving

/// What a received packet is.
#[derive(Clone, Copy, PartialEq, Eq, Structural, Debug)]
pub enum PacketKind {
    /// No bytes: a hole punch or keep-alive, dropped as handled.
    Empty,
    /// Too short to hold a magic number: dropped as not handled.
    Short,
    /// A direct bootstrap request.
    BootRequest,
    /// An out-of-band receipt.
    Receipt,
    /// An envelope to decode.
    Envelope,
}

/// What a packet with the bytes `data` is, by its length and first four bytes.
pub open spec fn packet_kind(data: Seq<u8>) -> PacketKind {
    if data.len() == 0 {
        PacketKind::Empty
    } else if data.len() < 4 {
        PacketKind::Short
    } else if data.take(4) == BOOT_MAGIC@ {
        PacketKind::BootRequest
    } else if data.take(4) == RECEIPT_MAGIC@ {
        PacketKind::Receipt
    } else {
        PacketKind::Envelope
    }
}

fn starts_with(data: &[u8], magic: &[u8; 4]) -> (r: bool)
    requires
        data@.len() >= 4,
    ensures
        r == (data@.take(4) == magic@),
{
    let mut i: usize = 0;
    while i < 4
        invariant
            i <= 4,
            data@.len() >= 4,
            forall|k: int| 0 <= k < i ==> data@[k] == magic@[k],
        decreases 4 - i,
    {
        if data[i] != magic[i] {
            assert(data@.take(4)[i as int] != magic@[i as int]);
            return false;
        }
        i += 1;
    }
    assert(data@.take(4) =~= magic@);
    true
}

/// What a received packet is.
pub fn classify_packet(data: &[u8]) -> (r: PacketKind)
    ensures
        r == packet_kind(data@),
{
    if data.len() == 0 {
        return PacketKind::Empty;
    }
    if data.len() < 4 {
        return PacketKind::Short;
    }
    let boot = BOOT_MAGIC;
    if starts_with(data, &boot) {
        return PacketKind::BootRequest;
    }
    let receipt = RECEIPT_MAGIC;
    if starts_with(data, &receipt) {
        return PacketKind::Receipt;
    }
    PacketKind::Envelope
}

/// Why an envelope's timestamp is refused, with by how many microseconds
/// it is off.
#[derive(Clone, Copy, PartialEq, Eq, Structural, Debug)]
pub enum EnvelopeTimeError {
    /// Too far in the past.
    TooOld(u64),
    /// Too far in the future.
    TooNew(u64),
}

/// Checks the timestamp `envelope_ts` of an envelope received at `now`
/// against the largest distances allowed behind and ahead, in milliseconds
/// (none or zero: any distance).
pub fn check_envelope_timestamp(
    now: u64,
    envelope_ts: u64,
    max_behind_ms: Option<u32>,
    max_ahead_ms: Option<u32>,
) -> (r: Result<(), EnvelopeTimeError>)
    ensures
        r == if max_behind_ms matches Some(b) && ms_to_us(b) > 0 && now > envelope_ts && now - envelope_ts > ms_to_us(b) {
            Err::<(), EnvelopeTimeError>(EnvelopeTimeError::TooOld((now - envelope_ts) as u64))
        } else if max_ahead_ms matches Some(a) && ms_to_us(a) > 0 && now < envelope_ts && envelope_ts - now > ms_to_us(a) {
            Err(EnvelopeTimeError::TooNew((envelope_ts - now) as u64))
        } else {
            Ok(())
        },
{
    if let Some(b) = max_behind_ms {
        let behind = ms_to_microseconds(b);
        if behind > 0 && now > envelope_ts && now - envelope_ts > behind {
            return Err(EnvelopeTimeError::TooOld(now - envelope_ts));
        }
    }
    if let Some(a) = max_ahead_ms {
        let ahead = ms_to_microseconds(a);
        if ahead > 0 && now < envelope_ts && envelope_ts - now > ahead {
            return Err(EnvelopeTimeError::TooNew(envelope_ts - now));
        }
    }
    Ok(())
}

/// Where a received envelope goes.
#[derive(Clone, Copy, PartialEq, Eq, Structural, Debug)]
pub enum EnvelopeRoute {
    /// It is for this node: decrypt it and hand it to the RPC processor.
    Local,
    /// It is for another node and the sender may use this node as a full
    /// relay: resolve the recipient on the network and forward it.
    RelayResolve,
    /// It is for another node: forward it only to a node already in the
    /// routing table.
    RelayLookup,
}

// ---------------------------------------------------------------------------
// Clients allowed to use this node as a full relay

/// A least-recently-used cache from node ids to the time they were last seen.
pub type WhitelistLru = hashlink::LruCache<[u8; 32], u64, RandomState>;

/// The entries of a whitelist cache, front (least recent) first.
pub uninterp spec fn whitelist_entries(c: WhitelistLru) -> Seq<([u8; 32], u64)>;

/// The capacity a whitelist cache was made with.
pub uninterp spec fn whitelist_capacity(c: WhitelistLru) -> usize;

/// No two entries share a key.
pub open spec fn wl_keys_distinct(es: Seq<([u8; 32], u64)>) -> bool {
    forall|i: int, j: int| 0 <= i < es.len() && 0 <= j < es.len() && i != j ==> (#[trigger] es[i]).0 != (#[trigger] es[j]).0
}

/// The position of key `k`, if present.
pub open spec fn wl_index(es: Seq<([u8; 32], u64)>, k: [u8; 32]) -> Option<int> {
    if exists|i: int| 0 <= i < es.len() && (#[trigger] es[i]).0 == k {
        Some(choose|i: int| 0 <= i < es.len() && (#[trigger] es[i]).0 == k)
    } else {
        None
    }
}

/// `LruCache::with_hasher`: an empty cache of the given capacity.
#[verifier::external_body]
fn wl_new(capacity: usize) -> (r: WhitelistLru)
    ensures
        whitelist_entries(r) == Seq::<([u8; 32], u64)>::empty(),
        whitelist_capacity(r) == capacity,
{
    hashlink::LruCache::with_hasher(capacity, RandomState::new())
}

/// `LruCache::peek`: the value under `k`, leaving the order alone.
#[verifier::external_body]
fn wl_peek(c: &WhitelistLru, k: [u8; 32]) -> (r: Option<u64>)
    requires
        wl_keys_distinct(whitelist_entries(*c)),
    ensures
        match wl_index(whitelist_entries(*c), k) {
            Some(i) => r == Some(whitelist_entries(*c)[i].1),
            None => r is None,
        },
{
    c.peek(&k).copied()
}

/// `LruCache::peek_mut`, written through: the value under `k`, if present,
/// becomes `v`, and the order is left alone.
#[verifier::external_body]
fn wl_set_in_place(c: &mut WhitelistLru, k: [u8; 32], v: u64)
    requires
        wl_keys_distinct(whitelist_entries(*old(c))),
    ensures
        whitelist_capacity(*final(c)) == whitelist_capacity(*old(c)),
        whitelist_entries(*final(c)) == match wl_index(whitelist_entries(*old(c)), k) {
            Some(i) => whitelist_entries(*old(c)).update(i, (k, v)),
            None => whitelist_entries(*old(c)),
        },
{
    if let Some(x) = c.peek_mut(&k) {
        *x = v;
    }
}

/// `LruCache::insert` of a key that is not present: it goes to the back,
/// and the front entry is dropped when the cache then holds more than its
/// capacity.
#[verifier::external_body]
fn wl_insert(c: &mut WhitelistLru, k: [u8; 32], v: u64)
    requires
        wl_keys_distinct(whitelist_entries(*old(c))),
        wl_index(whitelist_entries(*old(c)), k) is None,
    ensures
        whitelist_capacity(*final(c)) == whitelist_capacity(*old(c)),
        whitelist_entries(*old(c)).len() + 1 <= whitelist_capacity(*old(c)) ==> whitelist_entries(*final(c))
            == whitelist_entries(*old(c)).push((k, v)),
        whitelist_entries(*old(c)).len() + 1 > whitelist_capacity(*old(c)) ==> whitelist_entries(*final(c))
            == whitelist_entries(*old(c)).push((k, v)).drop_first(),
{
    c.insert(k, v);
}

/// `LruCache::iter().next()`: the front entry, if any.
#[verifier::external_body]
fn wl_front(c: &WhitelistLru) -> (r: Option<([u8; 32], u64)>)
    ensures
        r == if whitelist_entries(*c).len() == 0 {
            None
        } else {
            Some(whitelist_entries(*c)[0])
        },
{
    c.iter().next().map(|(k, v)| (*k, *v))
}

/// `LruCache::remove_lru`: drops the front entry, if any.
#[verifier::external_body]
fn wl_remove_lru(c: &mut WhitelistLru)
    ensures
        whitelist_capacity(*final(c)) == whitelist_capacity(*old(c)),
        whitelist_entries(*final(c)) == if whitelist_entries(*old(c)).len() == 0 {
            whitelist_entries(*old(c))
        } else {
            whitelist_entries(*old(c)).drop_first()
        },
{
    let _ = c.remove_lru();
}

/// The number of entries at the front last seen before `cutoff`.
pub open spec fn stale_prefix_len(es: Seq<([u8; 32], u64)>, cutoff: u64) -> nat
    decreases es.len(),
{
    if es.len() == 0 || es[0].1 >= cutoff {
        0
    } else {
        1 + stale_prefix_len(es.drop_first(), cutoff)
    }
}

/// Purging the stale clients removes exactly the clients at the front last
/// seen before the cutoff: each removed one was, and the first one kept,
/// if any, was seen since.
pub proof fn lemma_purge_leaves_fresh_front(es: Seq<([u8; 32], u64)>, cutoff: u64)
    ensures
        stale_prefix_len(es, cutoff) <= es.len(),
        forall|i: int| 0 <= i < stale_prefix_len(es, cutoff) ==> (#[trigger] es[i]).1 < cutoff,
        stale_prefix_len(es, cutoff) < es.len() ==> es[stale_prefix_len(es, cutoff) as int].1 >= cutoff,
    decreases es.len(),
{
    if es.len() > 0 && es[0].1 < cutoff {
        let d = es.drop_first();
        lemma_purge_leaves_fresh_front(d, cutoff);
        assert forall|i: int| 0 <= i < stale_prefix_len(es, cutoff) implies (#[trigger] es[i]).1 < cutoff by {
            if i > 0 {
                assert(es[i] == d[i - 1]);
            }
        }
        if stale_prefix_len(es, cutoff) < es.len() {
            assert(es[stale_prefix_len(es, cutoff) as int] == d[stale_prefix_len(d, cutoff) as int]);
        }
    }
}

/// The clients (by node id) allowed to use this node as a full relay, with
/// when each was last seen, in the order they were first allowed.
pub struct ClientWhitelist {
    cache: WhitelistLru,
}

impl ClientWhitelist {
    /// The clients and when they were last seen, first allowed first.
    pub closed spec fn entries(&self) -> Seq<([u8; 32], u64)> {
        whitelist_entries(self.cache)
    }

    /// The cache is unbounded and each client appears once.
    pub closed spec fn wf(&self) -> bool {
        &&& wl_keys_distinct(whitelist_entries(self.cache))
        &&& whitelist_capacity(self.cache) == usize::MAX
    }

    /// When the client was last seen, if it is allowed.
    pub open spec fn last_seen(&self, client: DHTKey) -> Option<u64> {
        match wl_index(self.entries(), client.bytes) {
            Some(i) => Some(self.entries()[i].1),
            None => None,
        }
    }

    /// No client allowed.
    pub fn new() -> (r: Self)
        ensures
            r.wf(),
            r.entries().len() == 0,
    {
        ClientWhitelist { cache: wl_new(usize::MAX) }
    }

    /// Allows the client, seen at `now`: a known client has its time
    /// updated in place; a new one is added last.
    pub fn update_client_whitelist(&mut self, client: &DHTKey, now: u64)
        requires
            old(self).wf(),
            old(self).entries().len() + 1 < usize::MAX,
        ensures
            final(self).wf(),
            final(self).entries() == match wl_index(old(self).entries(), client.bytes) {
                Some(i) => old(self).entries().update(i, (client.bytes, now)),
                None => old(self).entries().push((client.bytes, now)),
            },
            final(self).last_seen(*client) == Some(now),
    {
        let k = client.bytes;
        match wl_peek(&self.cache, k) {
            Some(_) => {
                wl_set_in_place(&mut self.cache, k, now);
                proof {
                    self.lemma_update_keeps_keys(old(self).entries(), k, now);
                    let i = wl_index(old(self).entries(), k).unwrap();
                    assert(self.entries()[i].0 == k);
                    self.lemma_index_unique(self.entries(), k, i);
                }
            },
            None => {
                wl_insert(&mut self.cache, k, now);
                proof {
                    let es = old(self).entries();
                    assert forall|i: int, j: int|
                        0 <= i < es.push((k, now)).len() && 0 <= j < es.push((k, now)).len() && i != j implies (
                        #[trigger] es.push((k, now))[i]).0 != (#[trigger] es.push((k, now))[j]).0 by {
                        if i == es.len() {
                            assert(es[j].0 != k);
                        } else if j == es.len() {
                            assert(es[i].0 != k);
                        }
                    }
                    assert(self.entries()[es.len() as int].0 == k);
                    self.lemma_index_unique(self.entries(), k, es.len() as int);
                }
            },
        }
    }

    proof fn lemma_index_unique(&self, es: Seq<([u8; 32], u64)>, k: [u8; 32], i: int)
        requires
            wl_keys_distinct(es),
            0 <= i < es.len(),
            es[i].0 == k,
        ensures
            wl_index(es, k) == Some(i),
    {
        let c = choose|c: int| 0 <= c < es.len() && (#[trigger] es[c]).0 == k;
        if c != i {
            assert(es[c].0 != es[i].0);
        }
    }

    proof fn lemma_update_keeps_keys(&self, es: Seq<([u8; 32], u64)>, k: [u8; 32], v: u64)
        requires
            wl_keys_distinct(es),
            wl_index(es, k) is Some,
        ensures
            wl_keys_distinct(es.update(wl_index(es, k).unwrap(), (k, v))),
    {
        let i = wl_index(es, k).unwrap();
        let t = es.update(i, (k, v));
        assert forall|a: int, b: int| 0 <= a < t.len() && 0 <= b < t.len() && a != b implies (#[trigger] t[a]).0 != (
        #[trigger] t[b]).0 by {
            assert(t[a].0 == es[a].0);
            assert(t[b].0 == es[b].0);
        }
    }

    /// Whether the client is allowed; if so it is marked seen at `now`.
    pub fn check_client_whitelist(&mut self, client: &DHTKey, now: u64) -> (r: bool)
        requires
            old(self).wf(),
        ensures
            final(self).wf(),
            r == wl_index(old(self).entries(), client.bytes) is Some,
            final(self).entries() == match wl_index(old(self).entries(), client.bytes) {
                Some(i) => old(self).entries().update(i, (client.bytes, now)),
                None => old(self).entries(),
            },
    {
        let k = client.bytes;
        match wl_peek(&self.cache, k) {
            Some(_) => {
                wl_set_in_place(&mut self.cache, k, now);
                proof {
                    self.lemma_update_keeps_keys(old(self).entries(), k, now);
                }
                true
            },
            None => false,
        }
    }

    /// Removes, from the front, the clients not seen since `timeout_ms`
    /// milliseconds before `now`, stopping at the first one seen since.
    pub fn purge_client_whitelist(&mut self, now: u64, timeout_ms: u32)
        requires
            old(self).wf(),
            now >= ms_to_us(timeout_ms),
        ensures
            final(self).wf(),
            final(self).entries() == old(self).entries().skip(
                stale_prefix_len(old(self).entries(), (now - ms_to_us(timeout_ms)) as u64) as int,
            ),
    {
        let cutoff = now - ms_to_microseconds(timeout_ms);
        let ghost es0 = self.entries();
        let ghost mut removed: nat = 0;
        loop
            invariant
                self.wf(),
                removed <= es0.len(),
                self.entries() == es0.skip(removed as int),
                stale_prefix_len(es0, cutoff) == removed + stale_prefix_len(self.entries(), cutoff),
            ensures
                self.wf(),
                self.entries() == es0.skip(removed as int),
                stale_prefix_len(es0, cutoff) == removed,
            decreases self.entries().len(),
        {
            match wl_front(&self.cache) {
                Some((_, ts)) => {
                    if ts < cutoff {
                        let ghost pre = self.entries();
                        wl_remove_lru(&mut self.cache);
                        proof {
                            assert(stale_prefix_len(pre, cutoff) == 1 + stale_prefix_len(pre.drop_first(), cutoff));
                            assert(self.entries() =~= es0.skip(removed + 1 as int));
                            removed = removed + 1;
                            assert forall|a: int, b: int|
                                0 <= a < self.entries().len() && 0 <= b < self.entries().len() && a != b implies (
                                #[trigger] self.entries()[a]).0 != (#[trigger] self.entries()[b]).0 by {
                                assert(self.entries()[a] == pre[a + 1]);
                                assert(self.entries()[b] == pre[b + 1]);
                            }
                        }
                    } else {
                        break;
                    }
                },
                None => {
                    break;
                },
            }
        }
    }
}

// ---------------------------------------------------------------------------
// Detecting a change of our public address

/// A least-recently-used cache from reporting node ids to the address they saw.
pub type AddressCheckLru = hashlink::LruCache<[u8; 32], SocketAddress, RandomState>;

/// The entries of an address check cache, front (least recent) first.
pub uninterp spec fn address_check_entries(c: AddressCheckLru) -> Seq<([u8; 32], SocketAddress)>;

/// The capacity an address check cache was made with.
pub uninterp spec fn address_check_capacity(c: AddressCheckLru) -> usize;

/// No two entries share a key.
pub open spec fn ac_keys_distinct(es: Seq<([u8; 32], SocketAddress)>) -> bool {
    forall|i: int, j: int| 0 <= i < es.len() && 0 <= j < es.len() && i != j ==> (#[trigger] es[i]).0 != (#[trigger] es[j]).0
}

/// The position of key `k`, if present.
pub open spec fn ac_index(es: Seq<([u8; 32], SocketAddress)>, k: [u8; 32]) -> Option<int> {
    if exists|i: int| 0 <= i < es.len() && (#[trigger] es[i]).0 == k {
        Some(choose|i: int| 0 <= i < es.len() && (#[trigger] es[i]).0 == k)
    } else {
        None
    }
}

/// The entries after inserting `(k, v)`: a present key is replaced and moved
/// to the back; a new one goes to the back; the front entry is dropped when
/// the cache then holds more than `cap`.
pub open spec fn ac_inserted(es: Seq<([u8; 32], SocketAddress)>, k: [u8; 32], v: SocketAddress, cap: usize) -> Seq<([u8; 32], SocketAddress)> {
    let t = match ac_index(es, k) {
        Some(i) => es.remove(i).push((k, v)),
        None => es.push((k, v)),
    };
    if t.len() > cap {
        t.drop_first()
    } else {
        t
    }
}

/// `LruCache::new`: an empty cache of the given capacity.
#[verifier::external_body]
fn ac_new(capacity: usize) -> (r: AddressCheckLru)
    ensures
        address_check_entries(r) == Seq::<([u8; 32], SocketAddress)>::empty(),
        address_check_capacity(r) == capacity,
{
    hashlink::LruCache::with_hasher(capacity, RandomState::new())
}

/// `LruCache::insert`.
#[verifier::external_body]
fn ac_insert(c: &mut AddressCheckLru, k: [u8; 32], v: SocketAddress)
    requires
        ac_keys_distinct(address_check_entries(*old(c))),
        address_check_entries(*old(c)).len() <= address_check_capacity(*old(c)),
    ensures
        address_check_capacity(*final(c)) == address_check_capacity(*old(c)),
        address_check_entries(*final(c)) == ac_inserted(
            address_check_entries(*old(c)),
            k,
            v,
            address_check_capacity(*old(c)),
        ),
{
    c.insert(k, v);
}

/// `LruCache::iter`, the addresses collected, front first.
#[verifier::external_body]
fn ac_addresses(c: &AddressCheckLru) -> (r: Vec<SocketAddress>)
    ensures
        r@ == address_check_entries(*c).map_values(|e: ([u8; 32], SocketAddress)| e.1),
{
    c.iter().map(|(_, v)| *v).collect()
}

/// `LruCache::clear`.
#[verifier::external_body]
fn ac_clear(c: &mut AddressCheckLru)
    ensures
        address_check_capacity(*final(c)) == address_check_capacity(*old(c)),
        address_check_entries(*final(c)) == Seq::<([u8; 32], SocketAddress)>::empty(),
{
    c.clear();
}

/// Whether `a` is among `addrs`.
pub open spec fn address_in(addrs: Seq<SocketAddress>, a: SocketAddress) -> bool {
    exists|i: int| 0 <= i < addrs.len() && socket_same(#[trigger] addrs[i], a)
}

/// How many of `reports` are not among `current`.
pub open spec fn count_inconsistent(reports: Seq<SocketAddress>, current: Seq<SocketAddress>) -> nat
    decreases reports.len(),
{
    if reports.len() == 0 {
        0
    } else {
        count_inconsistent(reports.drop_last(), current) + if address_in(current, reports.last()) {
            0nat
        } else {
            1nat
        }
    }
}

/// How many of `reports` equal `a`.
pub open spec fn count_same(reports: Seq<SocketAddress>, a: SocketAddress) -> nat
    decreases reports.len(),
{
    if reports.len() == 0 {
        0
    } else {
        count_same(reports.drop_last(), a) + if socket_same(reports.last(), a) {
            1nat
        } else {
            0nat
        }
    }
}

/// Whether our public address has likely changed, given the reports in the
/// cache's order. Inbound-capable, when enough reports disagree with our
/// current public addresses; otherwise, when enough reports after the
/// first agree with it, since we may have become reachable.
pub open spec fn address_change_detected(
    inbound_capable: bool,
    current: Seq<SocketAddress>,
    reports: Seq<SocketAddress>,
) -> bool {
    if inbound_capable {
        count_inconsistent(reports, current) >= GLOBAL_ADDRESS_CHANGE_DETECTION_COUNT
    } else {
        reports.len() > 0 && count_same(reports.drop_first(), reports[0]) >= GLOBAL_ADDRESS_CHANGE_DETECTION_COUNT
    }
}

fn contains_address(addrs: &Vec<SocketAddress>, a: &SocketAddress) -> (r: bool)
    ensures
        r == address_in(addrs@, *a),
{
    let mut i: usize = 0;
    while i < addrs.len()
        invariant
            i <= addrs@.len(),
            forall|j: int| 0 <= j < i ==> !socket_same(#[trigger] addrs@[j], *a),
        decreases addrs@.len() - i,
    {
        if addrs[i].same_as(a) {
            return true;
        }
        i += 1;
    }
    false
}

/// Whether our public address has likely changed, given our current public
/// addresses and the reports in the cache's order.
pub fn detect_address_change(inbound_capable: bool, current: &Vec<SocketAddress>, reports: &Vec<SocketAddress>) -> (r: bool)
    ensures
        r == address_change_detected(inbound_capable, current@, reports@),
{
    if inbound_capable {
        let mut inconsistencies: usize = 0;
        let mut i: usize = 0;
        while i < reports.len()
            invariant
                inbound_capable,
                i <= reports@.len(),
                inconsistencies == count_inconsistent(reports@.take(i as int), current@),
                inconsistencies < GLOBAL_ADDRESS_CHANGE_DETECTION_COUNT,
            decreases reports@.len() - i,
        {
            proof {
                assert(reports@.take(i + 1).drop_last() =~= reports@.take(i as int));
            }
            proof {
                assert(reports@.take(i + 1).last() == reports@[i as int]);
            }
            if !contains_address(current, &reports[i]) {
                inconsistencies += 1;
                proof {
                    assert(inconsistencies == count_inconsistent(reports@.take(i + 1), current@));
                }
                if inconsistencies >= GLOBAL_ADDRESS_CHANGE_DETECTION_COUNT {
                    proof {
                        lemma_count_inconsistent_prefix(reports@, current@, i + 1);
                    }
                    return true;
                }
            } else {
                proof {
                    assert(inconsistencies == count_inconsistent(reports@.take(i + 1), current@));
                }
            }
            i += 1;
        }
        proof {
            assert(reports@.take(i as int) =~= reports@);
        }
        false
    } else {
        if reports.len() == 0 {
            return false;
        }
        let first = reports[0];
        let ghost rest = reports@.drop_first();
        let mut consistencies: usize = 0;
        let mut i: usize = 1;
        while i < reports.len()
            invariant
                !inbound_capable,
                1 <= i <= reports@.len(),
                first == reports@[0],
                rest == reports@.drop_first(),
                consistencies == count_same(rest.take(i - 1), first),
                consistencies < GLOBAL_ADDRESS_CHANGE_DETECTION_COUNT,
            decreases reports@.len() - i,
        {
            proof {
                assert(rest.take(i as int).drop_last() =~= rest.take(i - 1));
                assert(rest.take(i as int).last() == reports@[i as int]);
            }
            if reports[i].same_as(&first) {
                consistencies += 1;
                proof {
                    assert(consistencies == count_same(rest.take(i as int), first));
                }
                if consistencies >= GLOBAL_ADDRESS_CHANGE_DETECTION_COUNT {
                    proof {
                        lemma_count_same_prefix(rest, first, i as int);
                    }
                    return true;
                }
            } else {
                proof {
                    assert(consistencies == count_same(rest.take(i as int), first));
                }
            }
            i += 1;
        }
        proof {
            assert(rest.take(i - 1) =~= rest);
        }
        false
    }
}

proof fn lemma_count_inconsistent_none(reports: Seq<SocketAddress>, current: Seq<SocketAddress>)
    requires
        forall|i: int| 0 <= i < reports.len() ==> #[trigger] address_in(current, reports[i]),
    ensures
        count_inconsistent(reports, current) == 0,
    decreases reports.len(),
{
    if reports.len() > 0 {
        let p = reports.drop_last();
        assert forall|i: int| 0 <= i < p.len() implies #[trigger] address_in(current, p[i]) by {
            assert(p[i] == reports[i]);
            assert(address_in(current, reports[i]));
        }
        lemma_count_inconsistent_none(p, current);
        let k = reports.len() - 1;
        assert(reports.last() == reports[k]);
        assert(address_in(current, reports[k]));
    }
}

proof fn lemma_count_inconsistent_all(reports: Seq<SocketAddress>, current: Seq<SocketAddress>)
    requires
        forall|i: int, j: int|
            0 <= i < reports.len() && 0 <= j < current.len() ==> !socket_same(#[trigger] current[j], #[trigger] reports[i]),
    ensures
        count_inconsistent(reports, current) == reports.len(),
    decreases reports.len(),
{
    if reports.len() > 0 {
        let p = reports.drop_last();
        assert forall|i: int, j: int| 0 <= i < p.len() && 0 <= j < current.len() implies !socket_same(
            #[trigger] current[j],
            #[trigger] p[i],
        ) by {
            assert(p[i] == reports[i]);
        }
        lemma_count_inconsistent_all(p, current);
        let k = reports.len() - 1;
        assert(reports.last() == reports[k]);
        if address_in(current, reports.last()) {
            let j = choose|j: int| 0 <= j < current.len() && socket_same(#[trigger] current[j], reports.last());
            assert(!socket_same(current[j], reports[k]));
        }
    }
}

proof fn lemma_count_inconsistent_same_members(
    reports: Seq<SocketAddress>,
    current: Seq<SocketAddress>,
    other: Seq<SocketAddress>,
)
    requires
        forall|a: SocketAddress| address_in(current, a) <==> #[trigger] address_in(other, a),
    ensures
        count_inconsistent(reports, current) == count_inconsistent(reports, other),
    decreases reports.len(),
{
    if reports.len() > 0 {
        lemma_count_inconsistent_same_members(reports.drop_last(), current, other);
        assert(address_in(current, reports.last()) == address_in(other, reports.last()));
    }
}

/// An inbound-capable node detects no change while every report names one
/// of its current public addresses, in whatever position it stands among
/// them: only reports matching none of them count against it.
pub proof fn lemma_reports_of_current_addresses_detect_no_change(
    current: Seq<SocketAddress>,
    reports: Seq<SocketAddress>,
)
    requires
        forall|i: int|
            #![trigger reports[i]]
            0 <= i < reports.len() ==> exists|j: int|
                #![trigger current[j]]
                0 <= j < current.len() && socket_same(current[j], reports[i]),
    ensures
        !address_change_detected(true, current, reports),
{
    assert forall|i: int| 0 <= i < reports.len() implies #[trigger] address_in(current, reports[i]) by {
        let j = choose|j: int| #![trigger current[j]] 0 <= j < current.len() && socket_same(current[j], reports[i]);
        assert(0 <= j < current.len() && socket_same(current[j], reports[i]));
    }
    lemma_count_inconsistent_none(reports, current);
}

/// An inbound-capable node detects a change once enough reports name an
/// address that is none of its current public addresses.
pub proof fn lemma_foreign_reports_detect_change(current: Seq<SocketAddress>, reports: Seq<SocketAddress>)
    requires
        reports.len() >= GLOBAL_ADDRESS_CHANGE_DETECTION_COUNT,
        forall|i: int, j: int|
            0 <= i < reports.len() && 0 <= j < current.len() ==> !socket_same(#[trigger] current[j], #[trigger] reports[i]),
    ensures
        address_change_detected(true, current, reports),
{
    lemma_count_inconsistent_all(reports, current);
}

/// For an inbound-capable node the answer depends on its current public
/// addresses only as a set: listing the same addresses in another order,
/// or with repeats, gives the same answer.
pub proof fn lemma_detection_ignores_address_order(
    current: Seq<SocketAddress>,
    other: Seq<SocketAddress>,
    reports: Seq<SocketAddress>,
)
    requires
        forall|j: int|
            #![trigger current[j]]
            0 <= j < current.len() ==> exists|k: int| #![trigger other[k]] 0 <= k < other.len() && other[k] == current[j],
        forall|k: int|
            #![trigger other[k]]
            0 <= k < other.len() ==> exists|j: int| #![trigger current[j]] 0 <= j < current.len() && current[j] == other[k],
    ensures
        address_change_detected(true, current, reports) == address_change_detected(true, other, reports),
{
    assert forall|a: SocketAddress| address_in(current, a) <==> #[trigger] address_in(other, a) by {
        if address_in(current, a) {
            let j = choose|j: int| 0 <= j < current.len() && socket_same(#[trigger] current[j], a);
            let k = choose|k: int| #![trigger other[k]] 0 <= k < other.len() && other[k] == current[j];
            assert(socket_same(other[k], a));
        }
        if address_in(other, a) {
            let k = choose|k: int| 0 <= k < other.len() && socket_same(#[trigger] other[k], a);
            let j = choose|j: int| #![trigger current[j]] 0 <= j < current.len() && current[j] == other[k];
            assert(socket_same(current[j], a));
        }
    }
    lemma_count_inconsistent_same_members(reports, current, other);
}

proof fn lemma_count_inconsistent_prefix(reports: Seq<SocketAddress>, current: Seq<SocketAddress>, n: int)
    requires
        0 <= n <= reports.len(),
    ensures
        count_inconsistent(reports.take(n), current) <= count_inconsistent(reports, current),
    decreases reports.len() - n,
{
    if n < reports.len() {
        lemma_count_inconsistent_prefix(reports, current, n + 1);
        assert(reports.take(n + 1).drop_last() =~= reports.take(n));
    } else {
        assert(reports.take(n) =~= reports);
    }
}

proof fn lemma_count_same_prefix(reports: Seq<SocketAddress>, a: SocketAddress, n: int)
    requires
        0 <= n <= reports.len(),
    ensures
        count_same(reports.take(n), a) <= count_same(reports, a),
    decreases reports.len() - n,
{
    if n < reports.len() {
        lemma_count_same_prefix(reports, a, n + 1);
        assert(reports.take(n + 1).drop_last() =~= reports.take(n));
    } else {
        assert(reports.take(n) =~= reports);
    }
}

/// The recent reports, by reporting node, of the address other nodes see
/// us at.
pub struct PublicAddressCheck {
    cache: AddressCheckLru,
}

impl PublicAddressCheck {
    /// The reporters and the address each saw, least recent first.
    pub closed spec fn entries(&self) -> Seq<([u8; 32], SocketAddress)> {
        address_check_entries(self.cache)
    }

    /// Each reporter appears once and no more reports are kept than the cache holds.
    pub closed spec fn wf(&self) -> bool {
        &&& ac_keys_distinct(address_check_entries(self.cache))
        &&& address_check_capacity(self.cache) == PUBLIC_ADDRESS_CHECK_CACHE_SIZE
        &&& address_check_entries(self.cache).len() <= PUBLIC_ADDRESS_CHECK_CACHE_SIZE
    }

    /// No reports.
    pub fn new() -> (r: Self)
        ensures
            r.wf(),
            r.entries().len() == 0,
    {
        PublicAddressCheck { cache: ac_new(PUBLIC_ADDRESS_CHECK_CACHE_SIZE) }
    }

    /// Takes the report by `reporter` that it sees us at `address`, and says
    /// whether our public address should be detected again (inbound capable
    /// or not, with `current` our current public addresses). When it
    /// should, the reports are forgotten so detection starts afresh.
    pub fn report_global_socket_address(
        &mut self,
        reporter: &DHTKey,
        address: SocketAddress,
        inbound_capable: bool,
        current: &Vec<SocketAddress>,
    ) -> (r: bool)
        requires
            old(self).wf(),
        ensures
            final(self).wf(),
            ({
                let es = ac_inserted(old(self).entries(), reporter.bytes, address, PUBLIC_ADDRESS_CHECK_CACHE_SIZE);
                &&& r == address_change_detected(inbound_capable, current@, es.map_values(|e: ([u8; 32], SocketAddress)| e.1))
                &&& final(self).entries() == if r {
                    Seq::<([u8; 32], SocketAddress)>::empty()
                } else {
                    es
                }
            }),
    {
        ac_insert(&mut self.cache, reporter.bytes, address);
        proof {
            self.lemma_inserted_wf(old(self).entries(), reporter.bytes, address);
        }
        let reports = ac_addresses(&self.cache);
        let changed = detect_address_change(inbound_capable, current, &reports);
        if changed {
            ac_clear(&mut self.cache);
        }
        changed
    }

    proof fn lemma_inserted_wf(&self, es: Seq<([u8; 32], SocketAddress)>, k: [u8; 32], v: SocketAddress)
        requires
            ac_keys_distinct(es),
            es.len() <= PUBLIC_ADDRESS_CHECK_CACHE_SIZE,
        ensures
            ac_keys_distinct(ac_inserted(es, k, v, PUBLIC_ADDRESS_CHECK_CACHE_SIZE)),
            ac_inserted(es, k, v, PUBLIC_ADDRESS_CHECK_CACHE_SIZE).len() <= PUBLIC_ADDRESS_CHECK_CACHE_SIZE,
    {
        let t = match ac_index(es, k) {
            Some(i) => es.remove(i).push((k, v)),
            None => es.push((k, v)),
        };
        match ac_index(es, k) {
            Some(i) => {
                assert forall|a: int, b: int| 0 <= a < t.len() && 0 <= b < t.len() && a != b implies (
                #[trigger] t[a]).0 != (#[trigger] t[b]).0 by {
                    let pa = if a < i { a } else { a + 1 };
                    let pb = if b < i { b } else { b + 1 };
                    if a == t.len() - 1 {
                        assert(es[pb].0 != es[i].0);
                    } else if b == t.len() - 1 {
                        assert(es[pa].0 != es[i].0);
                    } else {
                        assert(t[a] == es[pa]);
                        assert(t[b] == es[pb]);
                    }
                }
            },
            None => {
                assert forall|a: int, b: int| 0 <= a < t.len() && 0 <= b < t.len() && a != b implies (
                #[trigger] t[a]).0 != (#[trigger] t[b]).0 by {
                    if a == es.len() {
                        assert(es[b].0 != k);
                    } else if b == es.len() {
                        assert(es[a].0 != k);
                    }
                }
            },
        }
        if t.len() > PUBLIC_ADDRESS_CHECK_CACHE_SIZE {
            let d = t.drop_first();
            assert forall|a: int, b: int| 0 <= a < d.len() && 0 <= b < d.len() && a != b implies (
            #[trigger] d[a]).0 != (#[trigger] d[b]).0 by {
                assert(d[a] == t[a + 1]);
                assert(d[b] == t[b + 1]);
            }
        }
    }
}

/// Where a received envelope from `sender_id` to `recipient_id` goes: to
/// this node if it is the recipient; otherwise it is relayed, with a full
/// resolve of the recipient only for a whitelisted sender, which is then
/// marked seen at `now`.
pub fn route_envelope(
    whitelist: &mut ClientWhitelist,
    now: u64,
    our_node_id: &DHTKey,
    sender_id: &DHTKey,
    recipient_id: &DHTKey,
) -> (r: EnvelopeRoute)
    requires
        old(whitelist).wf(),
    ensures
        final(whitelist).wf(),
        if recipient_id.valid == our_node_id.valid && recipient_id.bytes@ == our_node_id.bytes@ {
            r == EnvelopeRoute::Local && final(whitelist).entries() == old(whitelist).entries()
        } else {
            &&& r == if wl_index(old(whitelist).entries(), sender_id.bytes) is Some {
                EnvelopeRoute::RelayResolve
            } else {
                EnvelopeRoute::RelayLookup
            }
            &&& final(whitelist).entries() == match wl_index(old(whitelist).entries(), sender_id.bytes) {
                Some(i) => old(whitelist).entries().update(i, (sender_id.bytes, now)),
                None => old(whitelist).entries(),
            }
        },
{
    if *recipient_id == *our_node_id {
        return EnvelopeRoute::Local;
    }
    if whitelist.check_client_whitelist(sender_id, now) {
        EnvelopeRoute::RelayResolve
    } else {
        EnvelopeRoute::RelayLookup
    }
}

// ---------------------------------------------------------------------------
// Traffic accounting

/// How many addresses traffic is counted for.
pub const IPADDR_TABLE_SIZE: usize = 1024;

/// The key of an IP address in the traffic table: its family and its bytes,
/// an IPv4 address padded with zeros.
pub type IpKey = (u8, [u8; 16]);

/// The key of an IP address.
pub open spec fn ip_key(a: IpAddress) -> IpKey {
    match a {
        IpAddress::V4(b) => (4u8, [b[0], b[1], b[2], b[3], 0u8, 0u8, 0u8, 0u8, 0u8, 0u8, 0u8, 0u8, 0u8, 0u8, 0u8, 0u8]),
        IpAddress::V6(b) => (6u8, b),
    }
}

/// The key of an IP address.
pub fn ip_address_key(a: &IpAddress) -> (r: IpKey)
    ensures
        r == ip_key(*a),
{
    match a {
        IpAddress::V4(b) => (4u8, [b[0], b[1], b[2], b[3], 0u8, 0u8, 0u8, 0u8, 0u8, 0u8, 0u8, 0u8, 0u8, 0u8, 0u8, 0u8]),
        IpAddress::V6(b) => (6u8, *b),
    }
}

/// A least-recently-used cache from addresses to the bytes sent to and
/// received from them.
pub type StatsLru = hashlink::LruCache<IpKey, (u64, u64), RandomState>;

/// The entries of a traffic cache, front (least recent) first: address,
/// then bytes up and down.
pub uninterp spec fn stats_entries(c: StatsLru) -> Seq<(IpKey, (u64, u64))>;

/// The capacity a traffic cache was made with.
pub uninterp spec fn stats_capacity(c: StatsLru) -> usize;

/// No two entries share a key.
pub open spec fn st_keys_distinct(es: Seq<(IpKey, (u64, u64))>) -> bool {
    forall|i: int, j: int| 0 <= i < es.len() && 0 <= j < es.len() && i != j ==> (#[trigger] es[i]).0 != (#[trigger] es[j]).0
}

/// The position of key `k`, if present.
pub open spec fn st_index(es: Seq<(IpKey, (u64, u64))>, k: IpKey) -> Option<int> {
    if exists|i: int| 0 <= i < es.len() && (#[trigger] es[i]).0 == k {
        Some(choose|i: int| 0 <= i < es.len() && (#[trigger] es[i]).0 == k)
    } else {
        None
    }
}

/// The entries once an entry for `k` is made sure of: first the front
/// entry is dropped if the cache holds more than `cap`; then a present key
/// moves to the back, and a missing key is added at the back with `default`.
pub open spec fn st_ensured(es: Seq<(IpKey, (u64, u64))>, k: IpKey, default: (u64, u64), cap: usize) -> Seq<(IpKey, (u64, u64))> {
    let t = if es.len() > cap {
        es.drop_first()
    } else {
        es
    };
    match st_index(t, k) {
        Some(i) => t.remove(i).push(t[i]),
        None => t.push((k, default)),
    }
}

/// `LruCache::with_hasher`: an empty cache of the given capacity.
#[verifier::external_body]
fn st_new(capacity: usize) -> (r: StatsLru)
    ensures
        stats_entries(r) == Seq::<(IpKey, (u64, u64))>::empty(),
        stats_capacity(r) == capacity,
{
    hashlink::LruCache::with_hasher(capacity, RandomState::new())
}

/// `LruCache::entry(k).or_insert(default)`, returning the value then under `k`.
#[verifier::external_body]
fn st_entry_or_insert(c: &mut StatsLru, k: IpKey, default: (u64, u64)) -> (r: (u64, u64))
    requires
        st_keys_distinct(stats_entries(*old(c))),
    ensures
        stats_capacity(*final(c)) == stats_capacity(*old(c)),
        stats_entries(*final(c)) == st_ensured(stats_entries(*old(c)), k, default, stats_capacity(*old(c))),
        st_index(stats_entries(*final(c)), k) matches Some(i) && r == stats_entries(*final(c))[i].1,
{
    *c.entry(k).or_insert(default)
}

/// `LruCache::peek_mut`, written through: the value under `k`, if present,
/// becomes `v`, and the order is left alone.
#[verifier::external_body]
fn st_set_in_place(c: &mut StatsLru, k: IpKey, v: (u64, u64))
    requires
        st_keys_distinct(stats_entries(*old(c))),
    ensures
        stats_capacity(*final(c)) == stats_capacity(*old(c)),
        stats_entries(*final(c)) == match st_index(stats_entries(*old(c)), k) {
            Some(i) => stats_entries(*old(c)).update(i, (k, v)),
            None => stats_entries(*old(c)),
        },
{
    if let Some(x) = c.peek_mut(&k) {
        *x = v;
    }
}

/// `LruCache::peek`: the counts under `k`, leaving the order alone.
#[verifier::external_body]
fn st_peek(c: &StatsLru, k: IpKey) -> (r: Option<(u64, u64)>)
    requires
        st_keys_distinct(stats_entries(*c)),
    ensures
        match st_index(stats_entries(*c), k) {
            Some(i) => r == Some(stats_entries(*c)[i].1),
            None => r is None,
        },
{
    c.peek(&k).copied()
}

/// The entries after counting `up` and `down` bytes for `k`.
pub open spec fn st_counted(es: Seq<(IpKey, (u64, u64))>, k: IpKey, up: u64, down: u64, cap: usize) -> Seq<(IpKey, (u64, u64))> {
    let t = st_ensured(es, k, (0, 0), cap);
    let i = st_index(t, k).unwrap();
    t.update(i, (k, ((t[i].1.0 + up) as u64, (t[i].1.1 + down) as u64)))
}

/// The bytes sent and received, in all and per address for the most
/// recently active addresses.
pub struct NetworkStats {
    up: u64,
    down: u64,
    per_address: StatsLru,
}

impl NetworkStats {
    /// All bytes sent.
    pub closed spec fn total_up(&self) -> u64 {
        self.up
    }

    /// All bytes received.
    pub closed spec fn total_down(&self) -> u64 {
        self.down
    }

    /// The addresses and their counts, least recently added first.
    pub closed spec fn per_address(&self) -> Seq<(IpKey, (u64, u64))> {
        stats_entries(self.per_address)
    }

    /// Each address appears once, the table holds at most one address more
    /// than its size, and no address has more bytes than all.
    pub closed spec fn wf(&self) -> bool {
        &&& st_keys_distinct(stats_entries(self.per_address))
        &&& stats_capacity(self.per_address) == IPADDR_TABLE_SIZE
        &&& stats_entries(self.per_address).len() <= IPADDR_TABLE_SIZE + 1
        &&& forall|i: int|
            0 <= i < stats_entries(self.per_address).len() ==> (#[trigger] stats_entries(self.per_address)[i]).1.0
                <= self.up && stats_entries(self.per_address)[i].1.1 <= self.down
    }

    /// Nothing counted.
    pub fn new() -> (r: Self)
        ensures
            r.wf(),
            r.total_up() == 0,
            r.total_down() == 0,
            r.per_address().len() == 0,
    {
        NetworkStats { up: 0, down: 0, per_address: st_new(IPADDR_TABLE_SIZE) }
    }

    /// The bytes sent to and received from an address, if it is among
    /// those counted.
    pub fn address_stats(&self, addr: &IpAddress) -> (r: Option<(u64, u64)>)
        requires
            self.wf(),
        ensures
            match st_index(self.per_address(), ip_key(*addr)) {
                Some(i) => r == Some(self.per_address()[i].1),
                None => r is None,
            },
    {
        st_peek(&self.per_address, ip_address_key(addr))
    }

    /// Bytes sent.
    pub fn total_bytes_up(&self) -> (r: u64)
        ensures
            r == self.total_up(),
    {
        self.up
    }

    /// Bytes received.
    pub fn total_bytes_down(&self) -> (r: u64)
        ensures
            r == self.total_down(),
    {
        self.down
    }

    fn count(&mut self, addr: &IpAddress, up: u64, down: u64)
        requires
            old(self).wf(),
            old(self).total_up() + up <= u64::MAX,
            old(self).total_down() + down <= u64::MAX,
        ensures
            final(self).wf(),
            final(self).total_up() == old(self).total_up() + up,
            final(self).total_down() == old(self).total_down() + down,
            final(self).per_address() == st_counted(old(self).per_address(), ip_key(*addr), up, down, IPADDR_TABLE_SIZE),
    {
        let k = ip_address_key(addr);
        let ghost es0 = stats_entries(self.per_address);
        self.up = self.up + up;
        self.down = self.down + down;
        let cur = st_entry_or_insert(&mut self.per_address, k, (0, 0));
        let ghost t = stats_entries(self.per_address);
        proof {
            let t0 = if es0.len() > IPADDR_TABLE_SIZE { es0.drop_first() } else { es0 };
            assert forall|a: int| 0 <= a < t0.len() implies #[trigger] t0[a] == es0[if es0.len() > IPADDR_TABLE_SIZE { a + 1 } else { a }] by {}
            assert forall|a: int, b: int| 0 <= a < t0.len() && 0 <= b < t0.len() && a != b implies (#[trigger] t0[a]).0 != (
            #[trigger] t0[b]).0 by {
                let pa = if es0.len() > IPADDR_TABLE_SIZE { a + 1 } else { a };
                let pb = if es0.len() > IPADDR_TABLE_SIZE { b + 1 } else { b };
                assert(t0[a] == es0[pa]);
                assert(t0[b] == es0[pb]);
            }
            assert forall|a: int| 0 <= a < t0.len() implies (#[trigger] t0[a]).1.0 <= old(self).total_up() && t0[a].1.1 <= old(self).total_down() by {
                let pa = if es0.len() > IPADDR_TABLE_SIZE { a + 1 } else { a };
                assert(t0[a] == es0[pa]);
            }
            match st_index(t0, k) {
                Some(j) => {
                    assert forall|a: int| 0 <= a < t.len() implies #[trigger] t[a] == t0[if a == t.len() - 1 { j } else if a < j { a } else { a + 1 }] by {}
                    assert forall|a: int, b: int| 0 <= a < t.len() && 0 <= b < t.len() && a != b implies (#[trigger] t[a]).0 != (
                    #[trigger] t[b]).0 by {
                        let pa = if a == t.len() - 1 { j } else if a < j { a } else { a + 1 };
                        let pb = if b == t.len() - 1 { j } else if b < j { b } else { b + 1 };
                        assert(t[a] == t0[pa]);
                        assert(t[b] == t0[pb]);
                    }
                    assert forall|a: int| 0 <= a < t.len() implies (#[trigger] t[a]).1.0 <= old(self).total_up() && t[a].1.1 <= old(self).total_down() by {
                        let pa = if a == t.len() - 1 { j } else if a < j { a } else { a + 1 };
                        assert(t[a] == t0[pa]);
                    }
                },
                None => {
                    assert forall|a: int, b: int| 0 <= a < t.len() && 0 <= b < t.len() && a != b implies (#[trigger] t[a]).0 != (
                    #[trigger] t[b]).0 by {
                        if a == t0.len() {
                            assert(t0[b].0 != k);
                        } else if b == t0.len() {
                            assert(t0[a].0 != k);
                        }
                    }
                    assert forall|a: int| 0 <= a < t.len() implies (#[trigger] t[a]).1.0 <= old(self).total_up() && t[a].1.1 <= old(self).total_down() by {
                        if a < t0.len() {
                            assert(t[a] == t0[a]);
                        }
                    }
                },
            }
        }
        st_set_in_place(&mut self.per_address, k, (cur.0 + up, cur.1 + down));
        proof {
            let i = st_index(t, k).unwrap();
            let u = stats_entries(self.per_address);
            assert forall|a: int, b: int| 0 <= a < u.len() && 0 <= b < u.len() && a != b implies (#[trigger] u[a]).0 != (
            #[trigger] u[b]).0 by {
                assert(u[a].0 == t[a].0);
                assert(u[b].0 == t[b].0);
            }
            assert forall|a: int| 0 <= a < u.len() implies (#[trigger] u[a]).1.0 <= self.up && u[a].1.1 <= self.down by {
                if a != i {
                    assert(u[a] == t[a]);
                }
            }
        }
    }

    /// Counts `bytes` sent to `addr`.
    pub fn stats_packet_sent(&mut self, addr: &IpAddress, bytes: u64)
        requires
            old(self).wf(),
            old(self).total_up() + bytes <= u64::MAX,
        ensures
            final(self).wf(),
            final(self).total_up() == old(self).total_up() + bytes,
            final(self).total_down() == old(self).total_down(),
            final(self).per_address() == st_counted(old(self).per_address(), ip_key(*addr), bytes, 0, IPADDR_TABLE_SIZE),
    {
        self.count(addr, bytes, 0);
    }

    /// Counts `bytes` received from `addr`.
    pub fn stats_packet_rcvd(&mut self, addr: &IpAddress, bytes: u64)
        requires
            old(self).wf(),
            old(self).total_down() + bytes <= u64::MAX,
        ensures
            final(self).wf(),
            final(self).total_up() == old(self).total_up(),
            final(self).total_down() == old(self).total_down() + bytes,
            final(self).per_address() == st_counted(old(self).per_address(), ip_key(*addr), 0, bytes, IPADDR_TABLE_SIZE),
    {
        self.count(addr, 0, bytes);
    }
}

/// The state of the network as shown to users.
#[derive(Clone, Copy, PartialEq, Eq, Structural, Debug)]
pub struct VeilidStateNetwork {
    pub started: bool,
    pub bps_down: u64,
    pub bps_up: u64,
}

/// The network state: the average rates when the network is started, and
/// zeros otherwise.
pub fn get_veilid_state(started: bool, bps_down: u64, bps_up: u64) -> (r: VeilidStateNetwork)
    ensures
        r == if started {
            VeilidStateNetwork { started: true, bps_down, bps_up }
        } else {
            VeilidStateNetwork { started: false, bps_down: 0, bps_up: 0 }
        },
{
    if started {
        VeilidStateNetwork { started: true, bps_down, bps_up }
    } else {
        VeilidStateNetwork { started: false, bps_down: 0, bps_up: 0 }
    }
}

/// What this node offers to others.
#[derive(Clone, Copy, PartialEq, Eq, Structural, Debug)]
pub struct NodeStatus {
    pub will_route: bool,
    pub will_tunnel: bool,
    pub will_signal: bool,
    pub will_relay: bool,
    pub will_validate_dial_info: bool,
}

/// What this node offers, from what its own node info can do: routing,
/// tunnelling and relaying when it can relay inbound traffic, signalling
/// when it can signal, and dial info validation when it can validate.
pub fn generate_node_status(can_inbound_relay: bool, can_signal: bool, can_validate_dial_info: bool) -> (r: NodeStatus)
    ensures
        r == (NodeStatus {
            will_route: can_inbound_relay,
            will_tunnel: can_inbound_relay,
            will_signal: can_signal,
            will_relay: can_inbound_relay,
            will_validate_dial_info: can_validate_dial_info,
        }),
{
    NodeStatus {
        will_route: can_inbound_relay,
        will_tunnel: can_inbound_relay,
        will_signal: can_signal,
        will_relay: can_inbound_relay,
        will_validate_dial_info: can_validate_dial_info,
    }
}

/// Whether the tasks that only make sense on the internet run: at least
/// one outbound protocol and one global address family are enabled.
pub fn global_peer_scope_enabled(outbound_protocol_count: usize, global_family_count: usize) -> (r: bool)
    ensures
        r == (outbound_protocol_count > 0 && global_family_count > 0),
{
    outbound_protocol_count != 0 && global_family_count != 0
}

/// Which of the internet-only tasks one tick of the network manager runs.
#[derive(Clone, Copy, PartialEq, Eq, Structural, Debug)]
pub struct TickPlan {
    pub relay_management: bool,
    pub bootstrap: bool,
    pub peer_minimum_refresh: bool,
    pub ping_validator: bool,
}

/// The internet-only tasks of a tick: none without global peer scope;
/// otherwise relay management and ping validation always, bootstrapping
/// when no routing table entry is live, and a peer search while fewer than
/// `min_peer_count` are.
pub fn plan_tick(global_enabled: bool, live_entry_count: usize, min_peer_count: usize) -> (r: TickPlan)
    ensures
        r == (TickPlan {
            relay_management: global_enabled,
            bootstrap: global_enabled && live_entry_count == 0,
            peer_minimum_refresh: global_enabled && live_entry_count < min_peer_count,
            ping_validator: global_enabled,
        }),
{
    TickPlan {
        relay_management: global_enabled,
        bootstrap: global_enabled && live_entry_count == 0,
        peer_minimum_refresh: global_enabled && live_entry_count < min_peer_count,
        ping_validator: global_enabled,
    }
}

/// Whether node info updates are sent: only once our network class is
/// known and valid.
pub fn should_send_node_info_updates(network_class: Option<NetworkClass>) -> (r: bool)
    ensures
        r == (network_class matches Some(c) && c != NetworkClass::Invalid),
{
    match network_class {
        Some(c) => c != NetworkClass::Invalid,
        None => false,
    }
}

} // verus!
