//! Small shared types: crypto kinds, typed keys, key pairs, RPC errors and
//! the address and direction enumerations.

use crate::key::{DHTKey, DHTKeySecret, DHTSignature};
use vstd::prelude::*;

verus! {

/// A public key.
pub type PublicKey = DHTKey;

/// A secret key.
pub type SecretKey = DHTKeySecret;

/// A signature.
pub type Signature = DHTSignature;

/// The four-character code of a cryptosystem.
pub type CryptoKind = [u8; 4];

/// A key tagged with the cryptosystem it belongs to.
#[derive(Clone, Copy, Debug)]
pub struct TypedKey {
    pub kind: CryptoKind,
    pub value: PublicKey,
}

/// A public key with its secret.
#[derive(Clone, Copy, Debug)]
pub struct KeyPair {
    pub key: PublicKey,
    pub secret: SecretKey,
}

/// The errors of RPC operations.
#[derive(Clone, Debug)]
pub enum RPCError {
    Unimplemented(String),
    InvalidFormat(String),
    Protocol(String),
    Internal(String),
    Network(String),
}

/// The two families of IP addresses.
#[derive(Clone, Copy, PartialEq, Eq, Structural, Debug)]
pub enum AddressType {
    IPV4,
    IPV6,
}

/// The direction of a connection.
#[derive(Clone, Copy, PartialEq, Eq, Structural, Debug)]
pub enum Direction {
    Inbound,
    Outbound,
}

/// What a node can do on a network: accept inbound connections, only make
/// outbound ones, run as a web application, or not yet known.
#[derive(Clone, Copy, PartialEq, Eq, Structural, Debug)]
pub enum NetworkClass {
    InboundCapable,
    OutboundOnly,
    WebApp,
    Invalid,
}

/// The transport protocols.
#[derive(Clone, Copy, PartialEq, Eq, Structural, Debug)]
pub enum ProtocolType {
    UDP,
    TCP,
    WS,
    WSS,
}

/// The transport under a protocol: UDP for UDP, TCP for TCP and the WebSocket protocols.
pub open spec fn low_level_protocol_type(p: ProtocolType) -> ProtocolType {
    match p {
        ProtocolType::UDP => ProtocolType::UDP,
        _ => ProtocolType::TCP,
    }
}

impl ProtocolType {
    /// The transport under this protocol.
    pub fn low_level_protocol_type(&self) -> (r: ProtocolType)
        ensures
            r == low_level_protocol_type(*self),
    {
        match self {
            ProtocolType::UDP => ProtocolType::UDP,
            _ => ProtocolType::TCP,
        }
    }
}

/// An IPv4 or IPv6 address.
#[derive(Clone, Copy, Debug)]
pub enum IpAddress {
    V4([u8; 4]),
    V6([u8; 16]),
}

/// An IP address and port.
#[derive(Clone, Copy, Debug)]
pub struct SocketAddress {
    pub address: IpAddress,
    pub port: u16,
}

/// A socket address and the protocol spoken there.
#[derive(Clone, Copy, Debug)]
pub struct PeerAddress {
    pub socket_address: SocketAddress,
    pub protocol_type: ProtocolType,
}

/// A flow of packets: the remote peer address and, when bound, the local socket address.
#[derive(Clone, Copy, Debug)]
pub struct Flow {
    pub remote: PeerAddress,
    pub local: Option<SocketAddress>,
}

fn bytes4_eq(a: &[u8; 4], b: &[u8; 4]) -> (r: bool)
    ensures
        r == (a@ == b@),
{
    let mut i: usize = 0;
    while i < 4
        invariant
            i <= 4,
            forall|k: int| 0 <= k < i ==> a@[k] == b@[k],
        decreases 4 - i,
    {
        if a[i] != b[i] {
            return false;
        }
        i += 1;
    }
    assert(a@ =~= b@);
    true
}

fn bytes16_eq(a: &[u8; 16], b: &[u8; 16]) -> (r: bool)
    ensures
        r == (a@ == b@),
{
    let mut i: usize = 0;
    while i < 16
        invariant
            i <= 16,
            forall|k: int| 0 <= k < i ==> a@[k] == b@[k],
        decreases 16 - i,
    {
        if a[i] != b[i] {
            return false;
        }
        i += 1;
    }
    assert(a@ =~= b@);
    true
}

/// Equality of IP addresses by their bytes.
pub open spec fn ip_same(a: IpAddress, b: IpAddress) -> bool {
    match (a, b) {
        (IpAddress::V4(x), IpAddress::V4(y)) => x@ == y@,
        (IpAddress::V6(x), IpAddress::V6(y)) => x@ == y@,
        _ => false,
    }
}

pub open spec fn socket_same(a: SocketAddress, b: SocketAddress) -> bool {
    ip_same(a.address, b.address) && a.port == b.port
}

pub open spec fn peer_same(a: PeerAddress, b: PeerAddress) -> bool {
    socket_same(a.socket_address, b.socket_address) && a.protocol_type == b.protocol_type
}

pub open spec fn flow_same(a: Flow, b: Flow) -> bool {
    peer_same(a.remote, b.remote) && match (a.local, b.local) {
        (None, None) => true,
        (Some(x), Some(y)) => socket_same(x, y),
        _ => false,
    }
}

impl IpAddress {
    pub fn same_as(&self, other: &IpAddress) -> (r: bool)
        ensures
            r == ip_same(*self, *other),
    {
        match (self, other) {
            (IpAddress::V4(x), IpAddress::V4(y)) => bytes4_eq(x, y),
            (IpAddress::V6(x), IpAddress::V6(y)) => bytes16_eq(x, y),
            _ => false,
        }
    }
}

impl SocketAddress {
    pub fn same_as(&self, other: &SocketAddress) -> (r: bool)
        ensures
            r == socket_same(*self, *other),
    {
        self.address.same_as(&other.address) && self.port == other.port
    }
}

impl PeerAddress {
    pub fn same_as(&self, other: &PeerAddress) -> (r: bool)
        ensures
            r == peer_same(*self, *other),
    {
        self.socket_address.same_as(&other.socket_address) && self.protocol_type
            == other.protocol_type
    }
}

impl Flow {
    pub fn same_as(&self, other: &Flow) -> (r: bool)
        ensures
            r == flow_same(*self, *other),
    {
        if !self.remote.same_as(&other.remote) {
            return false;
        }
        match (&self.local, &other.local) {
            (None, None) => true,
            (Some(x), Some(y)) => x.same_as(y),
            _ => false,
        }
    }
}

} // verus!
