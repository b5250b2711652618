//! The table of open connection-oriented network connections: one
//! least-recently-used cache per protocol, limits per protocol, eviction of
//! idle connections, and lookups by flow, id and remote address.

use crate::types::{
    flow_same, peer_same, Flow, IpAddress, PeerAddress, ProtocolType,
    SocketAddress, low_level_protocol_type,
};
use std::collections::hash_map::RandomState;
use vstd::prelude::*;

verus! {

/// The identifier of a network connection.
pub type NetworkConnectionId = u64;

/// What the table knows of one network connection: its id, its flow, how
/// many users hold a reference to it, and whether a node reference protects it.
#[derive(Clone, Copy, Debug)]
pub struct ConnectionRecord {
    pub id: NetworkConnectionId,
    pub flow: Flow,
    pub ref_count: u64,
    pub protected: bool,
}

impl ConnectionRecord {
    pub open spec fn in_use(&self) -> bool {
        self.ref_count > 0
    }
}

/// Why a connection could not be added.
#[derive(Debug)]
pub enum ConnectionTableAddError<E> {
    /// A connection with the same flow is already in the table.
    AlreadyExists(ConnectionRecord),
    /// The address filter refused the connection's address.
    AddressFilter(ConnectionRecord, E),
    /// The table is full for the protocol and no connection can be evicted.
    TableFull(ConnectionRecord),
}

impl<E> ConnectionTableAddError<E> {
    pub fn already_exists(conn: ConnectionRecord) -> (r: Self)
        ensures
            r == ConnectionTableAddError::<E>::AlreadyExists(conn),
    {
        ConnectionTableAddError::AlreadyExists(conn)
    }

    pub fn address_filter(conn: ConnectionRecord, err: E) -> (r: Self)
        ensures
            r == ConnectionTableAddError::<E>::AddressFilter(conn, err),
    {
        ConnectionTableAddError::AddressFilter(conn, err)
    }

    pub fn table_full(conn: ConnectionRecord) -> (r: Self)
        ensures
            r == ConnectionTableAddError::<E>::TableFull(conn),
    {
        ConnectionTableAddError::TableFull(conn)
    }

    /// The text of the error.
    pub fn message(&self) -> (r: String)
        ensures
            r@ == match self {
                ConnectionTableAddError::AlreadyExists(_) => "Connection already added to table"@,
                ConnectionTableAddError::AddressFilter(_, _) => "Connection address was filtered"@,
                ConnectionTableAddError::TableFull(_) => "Connection table is full"@,
            },
    {
        match self {
            ConnectionTableAddError::AlreadyExists(_) => String::from_str("Connection already added to table"),
            ConnectionTableAddError::AddressFilter(_, _) => String::from_str("Connection address was filtered"),
            ConnectionTableAddError::TableFull(_) => String::from_str("Connection table is full"),
        }
    }
}

/// Adding or removing a reference to a connection.
#[derive(Clone, Copy, PartialEq, Eq, Structural, Debug)]
pub enum ConnectionRefKind {
    AddRef,
    RemoveRef,
}

#[verifier::reject_recursive_types(K)]
#[verifier::reject_recursive_types(V)]
#[verifier::reject_recursive_types(S)]
#[verifier::external_type_specification]
#[verifier::external_body]
pub struct ExLruCache<K, V, S>(hashlink::LruCache<K, V, S>);

/// A least-recently-used cache of connections by id.
pub type ConnLru = hashlink::LruCache<NetworkConnectionId, ConnectionRecord, RandomState>;

/// The entries of a cache, least recently used first.
pub uninterp spec fn conn_lru_entries(c: ConnLru) -> Seq<(NetworkConnectionId, ConnectionRecord)>;

/// The capacity a cache was made with.
pub uninterp spec fn conn_lru_capacity(c: ConnLru) -> usize;

/// No two entries share a key.
pub open spec fn keys_distinct(es: Seq<(NetworkConnectionId, ConnectionRecord)>) -> bool {
    forall|i: int, j: int|
        0 <= i < es.len() && 0 <= j < es.len() && i != j ==> (#[trigger] es[i]).0 != (
        #[trigger] es[j]).0
}

/// The position of key `k`, if present.
pub open spec fn key_index(es: Seq<(NetworkConnectionId, ConnectionRecord)>, k: NetworkConnectionId) -> Option<int> {
    if exists|i: int| 0 <= i < es.len() && (#[trigger] es[i]).0 == k {
        Some(choose|i: int| 0 <= i < es.len() && (#[trigger] es[i]).0 == k)
    } else {
        None
    }
}

/// Moves entry `i` to the most recently used end.
pub open spec fn to_back(es: Seq<(NetworkConnectionId, ConnectionRecord)>, i: int) -> Seq<(NetworkConnectionId, ConnectionRecord)> {
    es.remove(i).push(es[i])
}

/// `LruCache::with_hasher`: an empty cache of the given capacity.
#[verifier::external_body]
fn lru_new(capacity: usize) -> (r: ConnLru)
    ensures
        conn_lru_entries(r) == Seq::<(NetworkConnectionId, ConnectionRecord)>::empty(),
        conn_lru_capacity(r) == capacity,
{
    hashlink::LruCache::with_hasher(capacity, RandomState::new())
}

/// `LruCache::len`.
#[verifier::external_body]
fn lru_len(c: &ConnLru) -> (r: usize)
    ensures
        r == conn_lru_entries(*c).len(),
{
    c.len()
}

/// `LruCache::peek`: the value under `k`, leaving the order alone.
#[verifier::external_body]
fn lru_peek(c: &ConnLru, k: NetworkConnectionId) -> (r: Option<ConnectionRecord>)
    requires
        keys_distinct(conn_lru_entries(*c)),
    ensures
        match key_index(conn_lru_entries(*c), k) {
            Some(i) => r == Some(conn_lru_entries(*c)[i].1),
            None => r is None,
        },
{
    c.peek(&k).copied()
}

/// `LruCache::get`: the value under `k`, which becomes the most recently used.
#[verifier::external_body]
fn lru_get(c: &mut ConnLru, k: NetworkConnectionId) -> (r: Option<ConnectionRecord>)
    requires
        keys_distinct(conn_lru_entries(*old(c))),
    ensures
        conn_lru_capacity(*final(c)) == conn_lru_capacity(*old(c)),
        match key_index(conn_lru_entries(*old(c)), k) {
            Some(i) => r == Some(conn_lru_entries(*old(c))[i].1) && conn_lru_entries(*final(c))
                == to_back(conn_lru_entries(*old(c)), i),
            None => r is None && conn_lru_entries(*final(c)) == conn_lru_entries(*old(c)),
        },
{
    c.get(&k).copied()
}

/// `LruCache::insert`: a new key goes to the most recently used end, and the
/// least recently used entry is dropped when the cache then holds more than
/// its capacity; a present key has its value replaced, becomes the most
/// recently used, and its old value is returned.
#[verifier::external_body]
fn lru_insert(c: &mut ConnLru, k: NetworkConnectionId, v: ConnectionRecord) -> (r: Option<ConnectionRecord>)
    requires
        keys_distinct(conn_lru_entries(*old(c))),
    ensures
        conn_lru_capacity(*final(c)) == conn_lru_capacity(*old(c)),
        match key_index(conn_lru_entries(*old(c)), k) {
            Some(i) => r == Some(conn_lru_entries(*old(c))[i].1) && (conn_lru_entries(*old(c)).len()
                <= conn_lru_capacity(*old(c)) ==> conn_lru_entries(*final(c))
                == conn_lru_entries(*old(c)).remove(i).push((k, v))),
            None => r is None && (conn_lru_entries(*old(c)).len() + 1 <= conn_lru_capacity(*old(c))
                ==> conn_lru_entries(*final(c)) == conn_lru_entries(*old(c)).push((k, v))) && (
            conn_lru_entries(*old(c)).len() + 1 > conn_lru_capacity(*old(c)) ==> conn_lru_entries(
                *final(c),
            ) == conn_lru_entries(*old(c)).push((k, v)).drop_first()),
        },
{
    c.insert(k, v)
}

/// `LruCache::remove`: takes out the entry under `k`, if present.
#[verifier::external_body]
fn lru_remove(c: &mut ConnLru, k: NetworkConnectionId) -> (r: Option<ConnectionRecord>)
    requires
        keys_distinct(conn_lru_entries(*old(c))),
    ensures
        conn_lru_capacity(*final(c)) == conn_lru_capacity(*old(c)),
        match key_index(conn_lru_entries(*old(c)), k) {
            Some(i) => r == Some(conn_lru_entries(*old(c))[i].1) && conn_lru_entries(*final(c))
                == conn_lru_entries(*old(c)).remove(i),
            None => r is None && conn_lru_entries(*final(c)) == conn_lru_entries(*old(c)),
        },
{
    c.remove(&k)
}

/// `LruCache::iter`, collected: the entries, least recently used first.
#[verifier::external_body]
fn lru_entries(c: &ConnLru) -> (r: Vec<(NetworkConnectionId, ConnectionRecord)>)
    ensures
        r@ == conn_lru_entries(*c),
{
    c.iter().map(|(k, v)| (*k, *v)).collect()
}

/// `LruCache::drain`, collected: every entry, least recently used first; the cache is left empty.
#[verifier::external_body]
fn lru_drain(c: &mut ConnLru) -> (r: Vec<(NetworkConnectionId, ConnectionRecord)>)
    ensures
        r@ == conn_lru_entries(*old(c)),
        conn_lru_entries(*final(c)) == Seq::<(NetworkConnectionId, ConnectionRecord)>::empty(),
        conn_lru_capacity(*final(c)) == conn_lru_capacity(*old(c)),
{
    c.drain().collect()
}

/// The index of a connection-oriented protocol's cache: TCP 0, WS 1, WSS 2.
pub open spec fn protocol_index(p: ProtocolType) -> int {
    match p {
        ProtocolType::TCP => 0,
        ProtocolType::WS => 1,
        ProtocolType::WSS => 2,
        ProtocolType::UDP => 3,
    }
}

/// Entries of one cache: each is keyed by its connection's id.
pub type ConnEntry = (NetworkConnectionId, ConnectionRecord);

proof fn lemma_to_back(es: Seq<ConnEntry>, i: int)
    requires
        0 <= i < es.len(),
        es.no_duplicates(),
    ensures
        forall|e: ConnEntry| #[trigger] to_back(es, i).contains(e) <==> es.contains(e),
        to_back(es, i).no_duplicates(),
        to_back(es, i).len() == es.len(),
        to_back(es, i).last() == es[i],
{
    let t = to_back(es, i);
    assert forall|e: ConnEntry| #[trigger] t.contains(e) <==> es.contains(e) by {
        if t.contains(e) {
            let j = choose|j: int| 0 <= j < t.len() && t[j] == e;
            if j < i {
                assert(es[j] == e);
            } else if j < t.len() - 1 {
                assert(es[j + 1] == e);
            } else {
                assert(es[i] == e);
            }
        }
        if es.contains(e) {
            let j = choose|j: int| 0 <= j < es.len() && es[j] == e;
            if j < i {
                assert(t[j] == e);
            } else if j > i {
                assert(t[j - 1] == e);
            } else {
                assert(t[t.len() - 1] == e);
            }
        }
    }
    assert forall|a: int, b: int| 0 <= a < t.len() && 0 <= b < t.len() && a != b implies t[a] != t[b] by {
        let ia = if a == t.len() - 1 { i } else if a < i { a } else { a + 1 };
        let ib = if b == t.len() - 1 { i } else if b < i { b } else { b + 1 };
        assert(t[a] == es[ia]);
        assert(t[b] == es[ib]);
    }
}

proof fn lemma_remove(es: Seq<ConnEntry>, i: int)
    requires
        0 <= i < es.len(),
        es.no_duplicates(),
    ensures
        forall|e: ConnEntry| #[trigger] es.remove(i).contains(e) <==> (es.contains(e) && e != es[i]),
        es.remove(i).no_duplicates(),
{
    let t = es.remove(i);
    assert forall|e: ConnEntry| #[trigger] t.contains(e) <==> (es.contains(e) && e != es[i]) by {
        if t.contains(e) {
            let j = choose|j: int| 0 <= j < t.len() && t[j] == e;
            if j < i {
                assert(es[j] == e);
            } else {
                assert(es[j + 1] == e);
            }
        }
        if es.contains(e) && e != es[i] {
            let j = choose|j: int| 0 <= j < es.len() && es[j] == e;
            if j < i {
                assert(t[j] == e);
            } else {
                assert(t[j - 1] == e);
            }
        }
    }
    assert forall|a: int, b: int| 0 <= a < t.len() && 0 <= b < t.len() && a != b implies t[a] != t[b] by {
        let ia = if a < i { a } else { a + 1 };
        let ib = if b < i { b } else { b + 1 };
        assert(t[a] == es[ia]);
        assert(t[b] == es[ib]);
    }
}

proof fn lemma_push(es: Seq<ConnEntry>, x: ConnEntry)
    requires
        es.no_duplicates(),
        !es.contains(x),
    ensures
        forall|e: ConnEntry| #[trigger] es.push(x).contains(e) <==> (es.contains(e) || e == x),
        es.push(x).no_duplicates(),
{
    let t = es.push(x);
    assert forall|e: ConnEntry| #[trigger] t.contains(e) <==> (es.contains(e) || e == x) by {
        if t.contains(e) {
            let j = choose|j: int| 0 <= j < t.len() && t[j] == e;
            if j < es.len() {
                assert(es[j] == e);
            }
        }
        if es.contains(e) {
            let j = choose|j: int| 0 <= j < es.len() && es[j] == e;
            assert(t[j] == e);
        }
        if e == x {
            assert(t[es.len() as int] == e);
        }
    }
    assert forall|a: int, b: int| 0 <= a < t.len() && 0 <= b < t.len() && a != b implies t[a] != t[b] by {
        if a < es.len() && b < es.len() {
            assert(t[a] == es[a]);
            assert(t[b] == es[b]);
        } else if a < es.len() {
            assert(t[a] == es[a]);
        } else {
            assert(t[b] == es[b]);
        }
    }
}

proof fn lemma_ids_remove(s: Seq<NetworkConnectionId>, i: int)
    requires
        0 <= i < s.len(),
        s.no_duplicates(),
    ensures
        forall|x: NetworkConnectionId| #[trigger] s.remove(i).contains(x) <==> (s.contains(x) && x != s[i]),
        s.remove(i).no_duplicates(),
{
    let t = s.remove(i);
    assert forall|x: NetworkConnectionId| #[trigger] t.contains(x) <==> (s.contains(x) && x != s[i]) by {
        if t.contains(x) {
            let j = choose|j: int| 0 <= j < t.len() && t[j] == x;
            if j < i {
                assert(s[j] == x);
            } else {
                assert(s[j + 1] == x);
            }
        }
        if s.contains(x) && x != s[i] {
            let j = choose|j: int| 0 <= j < s.len() && s[j] == x;
            if j < i {
                assert(t[j] == x);
            } else {
                assert(t[j - 1] == x);
            }
        }
    }
    assert forall|a: int, b: int| 0 <= a < t.len() && 0 <= b < t.len() && a != b implies t[a] != t[b] by {
        let ia = if a < i { a } else { a + 1 };
        let ib = if b < i { b } else { b + 1 };
        assert(t[a] == s[ia]);
        assert(t[b] == s[ib]);
    }
}

proof fn lemma_ids_push(s: Seq<NetworkConnectionId>, x: NetworkConnectionId)
    requires
        s.no_duplicates(),
        !s.contains(x),
    ensures
        forall|y: NetworkConnectionId| #[trigger] s.push(x).contains(y) <==> (s.contains(y) || y == x),
        s.push(x).no_duplicates(),
{
    let t = s.push(x);
    assert forall|y: NetworkConnectionId| #[trigger] t.contains(y) <==> (s.contains(y) || y == x) by {
        if t.contains(y) {
            let j = choose|j: int| 0 <= j < t.len() && t[j] == y;
            if j < s.len() {
                assert(s[j] == y);
            }
        }
        if s.contains(y) {
            let j = choose|j: int| 0 <= j < s.len() && s[j] == y;
            assert(t[j] == y);
        }
        if y == x {
            assert(t[s.len() as int] == y);
        }
    }
    assert forall|a: int, b: int| 0 <= a < t.len() && 0 <= b < t.len() && a != b implies t[a] != t[b] by {
        if a < s.len() && b < s.len() {
            assert(t[a] == s[a]);
            assert(t[b] == s[b]);
        } else if a < s.len() {
            assert(t[a] == s[a]);
        } else {
            assert(t[b] == s[b]);
        }
    }
}

/// The table of connections. Each connection-oriented protocol (TCP, WS,
/// WSS) has its own least-recently-used cache and connection limit;
/// `add_order` lists the ids of all connections in the order they were added.
pub struct ConnectionTable {
    max_connections: [usize; 3],
    conn_tcp: ConnLru,
    conn_ws: ConnLru,
    conn_wss: ConnLru,
    add_order: Vec<NetworkConnectionId>,
}

impl ConnectionTable {
    /// The index of a connection-oriented protocol's cache.
    pub fn protocol_to_index(protocol: ProtocolType) -> (r: usize)
        requires
            protocol != ProtocolType::UDP,
        ensures
            r == protocol_index(protocol),
            r < 3,
    {
        match protocol {
            ProtocolType::TCP => 0,
            ProtocolType::WS => 1,
            ProtocolType::WSS => 2,
            ProtocolType::UDP => 3,
        }
    }

    /// The protocol of a cache index.
    pub fn index_to_protocol(idx: usize) -> (r: ProtocolType)
        requires
            idx < 3,
        ensures
            protocol_index(r) == idx,
    {
        match idx {
            0 => ProtocolType::TCP,
            1 => ProtocolType::WS,
            _ => ProtocolType::WSS,
        }
    }


    /// The entries of the cache of protocol index `p`, least recently used first.
    pub closed spec fn lru_of(&self, p: int) -> Seq<ConnEntry> {
        if p == 0 {
            conn_lru_entries(self.conn_tcp)
        } else if p == 1 {
            conn_lru_entries(self.conn_ws)
        } else {
            conn_lru_entries(self.conn_wss)
        }
    }

    pub closed spec fn capacity_of(&self, p: int) -> usize {
        if p == 0 {
            conn_lru_capacity(self.conn_tcp)
        } else if p == 1 {
            conn_lru_capacity(self.conn_ws)
        } else {
            conn_lru_capacity(self.conn_wss)
        }
    }

    /// The connection limit of protocol index `p`.
    pub closed spec fn max_of(&self, p: int) -> usize {
        self.max_connections@[p]
    }

    /// The ids of the connections in the order they were added.
    pub closed spec fn order(&self) -> Seq<NetworkConnectionId> {
        self.add_order@
    }

    /// Whether some cache holds the entry.
    pub open spec fn holds(&self, e: ConnEntry) -> bool {
        self.lru_of(0).contains(e) || self.lru_of(1).contains(e) || self.lru_of(2).contains(e)
    }

    /// Whether some connection has the id.
    pub open spec fn has_id(&self, id: NetworkConnectionId) -> bool {
        exists|e: ConnEntry| #[trigger] self.holds(e) && e.0 == id
    }

    /// Whether some connection has a flow equal to `flow`.
    pub open spec fn has_flow(&self, flow: Flow) -> bool {
        exists|e: ConnEntry| #[trigger] self.holds(e) && flow_same(e.1.flow, flow)
    }

    /// Whether the connection with the id goes to the remote address.
    pub open spec fn id_goes_to(&self, id: NetworkConnectionId, remote: PeerAddress) -> bool {
        exists|e: ConnEntry| #[trigger] self.holds(e) && e.0 == id && peer_same(e.1.flow.remote, remote)
    }

    /// The ids among `s`, in order, of the connections that go to `remote`.
    pub open spec fn ids_to(&self, s: Seq<NetworkConnectionId>, remote: PeerAddress) -> Seq<NetworkConnectionId>
        decreases s.len(),
    {
        if s.len() == 0 {
            Seq::empty()
        } else if self.id_goes_to(s.last(), remote) {
            self.ids_to(s.drop_last(), remote).push(s.last())
        } else {
            self.ids_to(s.drop_last(), remote)
        }
    }

    /// The number of connections.
    pub open spec fn count(&self) -> int {
        (self.lru_of(0).len() + self.lru_of(1).len() + self.lru_of(2).len()) as int
    }

    /// The table's invariant: every cache is unbounded and free of
    /// duplicates; each entry is keyed by its connection's id and sits in
    /// the cache of its protocol; ids and flows identify connections;
    /// `add_order` lists each connection's id exactly once.
    pub closed spec fn wf(&self) -> bool {
        &&& forall|p: int| 0 <= p < 3 ==> (#[trigger] self.lru_of(p)).no_duplicates()
        &&& forall|p: int| 0 <= p < 3 ==> #[trigger] self.capacity_of(p) == usize::MAX
        &&& forall|p: int, e: ConnEntry|
            0 <= p < 3 && #[trigger] self.lru_of(p).contains(e) ==> e.0 == e.1.id
                && protocol_index(e.1.flow.remote.protocol_type) == p
        &&& forall|e1: ConnEntry, e2: ConnEntry|
            #[trigger] self.holds(e1) && #[trigger] self.holds(e2) && e1.0 == e2.0 ==> e1 == e2
        &&& forall|e1: ConnEntry, e2: ConnEntry|
            #[trigger] self.holds(e1) && #[trigger] self.holds(e2) && flow_same(e1.1.flow, e2.1.flow)
                ==> e1 == e2
        &&& self.add_order@.no_duplicates()
        &&& forall|id: NetworkConnectionId| #[trigger] self.add_order@.contains(id) <==> self.has_id(id)
        &&& self.count() <= usize::MAX
    }

    /// An empty table with the given connection limits for TCP, WS and WSS.
    pub fn new(max_connections: [usize; 3]) -> (r: Self)
        ensures
            r.wf(),
            forall|p: int| 0 <= p < 3 ==> (#[trigger] r.lru_of(p)).len() == 0,
            forall|p: int| 0 <= p < 3 ==> #[trigger] r.max_of(p) == max_connections@[p],
            r.order() == Seq::<NetworkConnectionId>::empty(),
    {
        let r = ConnectionTable {
            max_connections,
            conn_tcp: lru_new(usize::MAX),
            conn_ws: lru_new(usize::MAX),
            conn_wss: lru_new(usize::MAX),
            add_order: Vec::new(),
        };
        assert forall|id: NetworkConnectionId| #[trigger] r.add_order@.contains(id) <==> r.has_id(id) by {
            if r.has_id(id) {
                let e = choose|e: ConnEntry| #[trigger] r.holds(e) && e.0 == id;
                assert(r.lru_of(0).len() == 0);
            }
        }
        r
    }

    proof fn lemma_keys_distinct(&self, p: int)
        requires
            self.wf(),
            0 <= p < 3,
        ensures
            keys_distinct(self.lru_of(p)),
    {
        let es = self.lru_of(p);
        assert forall|i: int, j: int|
            0 <= i < es.len() && 0 <= j < es.len() && i != j implies (#[trigger] es[i]).0 != (
            #[trigger] es[j]).0 by {
            assert(es.contains(es[i]));
            assert(es.contains(es[j]));
            assert(self.holds(es[i]));
            assert(self.holds(es[j]));
            assert(es.no_duplicates());
        }
    }

    proof fn lemma_key_index_holds(&self, p: int, id: NetworkConnectionId)
        requires
            self.wf(),
            0 <= p < 3,
        ensures
            key_index(self.lru_of(p), id) matches Some(i) ==> 0 <= i < self.lru_of(p).len()
                && self.lru_of(p)[i].0 == id && self.holds(self.lru_of(p)[i])
                && self.lru_of(p).contains(self.lru_of(p)[i]),
            key_index(self.lru_of(p), id) is None ==> forall|e: ConnEntry|
                #[trigger] self.lru_of(p).contains(e) ==> e.0 != id,
    {
        match key_index(self.lru_of(p), id) {
            Some(i) => {
                assert(self.lru_of(p).contains(self.lru_of(p)[i]));
            },
            None => {
                assert forall|e: ConnEntry| #[trigger] self.lru_of(p).contains(e) implies e.0 != id by {
                    let j = choose|j: int| 0 <= j < self.lru_of(p).len() && self.lru_of(p)[j] == e;
                    if e.0 == id {
                        assert(self.lru_of(p)[j].0 == id);
                    }
                }
            },
        }
    }

    fn lru_at(&self, p: usize) -> (r: &ConnLru)
        requires
            p < 3,
        ensures
            conn_lru_entries(*r) == self.lru_of(p as int),
    {
        if p == 0 {
            &self.conn_tcp
        } else if p == 1 {
            &self.conn_ws
        } else {
            &self.conn_wss
        }
    }

    /// The cache and record of the connection with the id, if any.
    fn lookup(&self, id: NetworkConnectionId) -> (r: Option<(usize, ConnectionRecord)>)
        requires
            self.wf(),
        ensures
            r matches Some((p, rec)) ==> p < 3 && self.lru_of(p as int).contains((id, rec))
                && self.holds((id, rec)) && key_index(self.lru_of(p as int), id) is Some
                && self.lru_of(p as int)[key_index(self.lru_of(p as int), id).unwrap()] == (id, rec),
            r is None <==> !self.has_id(id),
    {
        let mut p: usize = 0;
        while p < 3
            invariant
                p <= 3,
                self.wf(),
                forall|q: int, e: ConnEntry| 0 <= q < p && #[trigger] self.lru_of(q).contains(e) ==> e.0 != id,
            decreases 3 - p,
        {
            proof {
                self.lemma_keys_distinct(p as int);
                self.lemma_key_index_holds(p as int, id);
            }
            match lru_peek(self.lru_at(p), id) {
                Some(rec) => {
                    return Some((p, rec));
                },
                None => {},
            }
            p += 1;
        }
        proof {
            if self.has_id(id) {
                let e = choose|e: ConnEntry| #[trigger] self.holds(e) && e.0 == id;
                if self.lru_of(0).contains(e) {
                } else if self.lru_of(1).contains(e) {
                } else {
                    assert(self.lru_of(2).contains(e));
                }
            }
        }
        None
    }

    /// The number of connections in the table.
    pub fn connection_count(&self) -> (r: usize)
        requires
            self.wf(),
        ensures
            r == self.count(),
    {
        lru_len(&self.conn_tcp) + lru_len(&self.conn_ws) + lru_len(&self.conn_wss)
    }

    /// The ids, in the order their connections were added, of the
    /// connections that go to `remote`.
    pub fn get_connection_ids_by_remote(&self, remote: PeerAddress) -> (r: Vec<NetworkConnectionId>)
        requires
            self.wf(),
        ensures
            r@ == self.ids_to(self.order(), remote),
    {
        let mut out: Vec<NetworkConnectionId> = Vec::new();
        let mut i: usize = 0;
        while i < self.add_order.len()
            invariant
                i <= self.add_order@.len(),
                self.wf(),
                out@ == self.ids_to(self.add_order@.subrange(0, i as int), remote),
            decreases self.add_order@.len() - i,
        {
            let id = self.add_order[i];
            proof {
                assert(self.add_order@.subrange(0, i + 1).drop_last() =~= self.add_order@.subrange(
                    0,
                    i as int,
                ));
            }
            match self.lookup(id) {
                Some((_, rec)) => {
                    if rec.flow.remote.same_as(&remote) {
                        out.push(id);
                    } else {
                        proof {
                            if self.id_goes_to(id, remote) {
                                let e = choose|e: ConnEntry| #[trigger] self.holds(e) && e.0 == id
                                    && peer_same(e.1.flow.remote, remote);
                                assert(e == (id, rec));
                            }
                        }
                    }
                },
                None => {},
            }
            i += 1;
        }
        assert(self.add_order@.subrange(0, self.add_order@.len() as int) =~= self.add_order@);
        out
    }

    /// The record of the connection with the id.
    pub closed spec fn record_of(&self, id: NetworkConnectionId) -> ConnectionRecord {
        (choose|e: ConnEntry| #[trigger] self.holds(e) && e.0 == id).1
    }

    proof fn lemma_record_of(&self, p: int, e: ConnEntry)
        requires
            self.wf(),
            0 <= p < 3,
            self.lru_of(p).contains(e),
        ensures
            self.holds(e),
            self.has_id(e.0),
            self.record_of(e.0) == e.1,
            e.0 == e.1.id,
            protocol_index(e.1.flow.remote.protocol_type) == p,
            forall|q: int| 0 <= q < 3 && q != p ==> #[trigger] key_index(self.lru_of(q), e.0) is None,
    {
        assert(self.holds(e));
        let c = choose|c: ConnEntry| #[trigger] self.holds(c) && c.0 == e.0;
        assert(c == e);
        assert forall|q: int| 0 <= q < 3 && q != p implies #[trigger] key_index(self.lru_of(q), e.0) is None by {
            if key_index(self.lru_of(q), e.0) is Some {
                let i = key_index(self.lru_of(q), e.0).unwrap();
                assert(self.lru_of(q).contains(self.lru_of(q)[i]));
                assert(self.holds(self.lru_of(q)[i]));
            }
        }
    }

    /// Whether the two tables hold the same entries.
    spec fn same_entries(&self, other: &Self) -> bool {
        forall|p: int, e: ConnEntry|
            0 <= p < 3 ==> (#[trigger] self.lru_of(p).contains(e) <==> other.lru_of(p).contains(e))
    }

    fn lru_get_at(&mut self, p: usize, id: NetworkConnectionId) -> (r: Option<ConnectionRecord>)
        requires
            p < 3,
            keys_distinct(old(self).lru_of(p as int)),
        ensures
            final(self).max_connections == old(self).max_connections,
            final(self).add_order == old(self).add_order,
            forall|q: int| 0 <= q < 3 ==> #[trigger] final(self).capacity_of(q) == old(self).capacity_of(q),
            forall|q: int| 0 <= q < 3 && q != p ==> #[trigger] final(self).lru_of(q) == old(self).lru_of(q),
            match key_index(old(self).lru_of(p as int), id) {
                Some(i) => r == Some(old(self).lru_of(p as int)[i].1) && final(self).lru_of(p as int)
                    == to_back(old(self).lru_of(p as int), i),
                None => r is None && final(self).lru_of(p as int) == old(self).lru_of(p as int),
            },
    {
        if p == 0 {
            lru_get(&mut self.conn_tcp, id)
        } else if p == 1 {
            lru_get(&mut self.conn_ws, id)
        } else {
            lru_get(&mut self.conn_wss, id)
        }
    }

    fn lru_insert_at(&mut self, p: usize, id: NetworkConnectionId, rec: ConnectionRecord) -> (r: Option<ConnectionRecord>)
        requires
            p < 3,
            keys_distinct(old(self).lru_of(p as int)),
            old(self).capacity_of(p as int) == usize::MAX,
            old(self).lru_of(p as int).len() <= usize::MAX,
            key_index(old(self).lru_of(p as int), id) is None ==> old(self).lru_of(p as int).len() < usize::MAX,
        ensures
            final(self).max_connections == old(self).max_connections,
            final(self).add_order == old(self).add_order,
            forall|q: int| 0 <= q < 3 ==> #[trigger] final(self).capacity_of(q) == old(self).capacity_of(q),
            forall|q: int| 0 <= q < 3 && q != p ==> #[trigger] final(self).lru_of(q) == old(self).lru_of(q),
            match key_index(old(self).lru_of(p as int), id) {
                Some(i) => r == Some(old(self).lru_of(p as int)[i].1) && final(self).lru_of(p as int)
                    == old(self).lru_of(p as int).remove(i).push((id, rec)),
                None => r is None && final(self).lru_of(p as int) == old(self).lru_of(p as int).push((id, rec)),
            },
    {
        if p == 0 {
            lru_insert(&mut self.conn_tcp, id, rec)
        } else if p == 1 {
            lru_insert(&mut self.conn_ws, id, rec)
        } else {
            lru_insert(&mut self.conn_wss, id, rec)
        }
    }

    fn lru_remove_at(&mut self, p: usize, id: NetworkConnectionId) -> (r: Option<ConnectionRecord>)
        requires
            p < 3,
            keys_distinct(old(self).lru_of(p as int)),
        ensures
            final(self).max_connections == old(self).max_connections,
            final(self).add_order == old(self).add_order,
            forall|q: int| 0 <= q < 3 ==> #[trigger] final(self).capacity_of(q) == old(self).capacity_of(q),
            forall|q: int| 0 <= q < 3 && q != p ==> #[trigger] final(self).lru_of(q) == old(self).lru_of(q),
            match key_index(old(self).lru_of(p as int), id) {
                Some(i) => r == Some(old(self).lru_of(p as int)[i].1) && final(self).lru_of(p as int)
                    == old(self).lru_of(p as int).remove(i),
                None => r is None && final(self).lru_of(p as int) == old(self).lru_of(p as int),
            },
    {
        if p == 0 {
            lru_remove(&mut self.conn_tcp, id)
        } else if p == 1 {
            lru_remove(&mut self.conn_ws, id)
        } else {
            lru_remove(&mut self.conn_wss, id)
        }
    }

    /// The record of the connection with the id, if any, which becomes the
    /// most recently used of its protocol.
    fn get_touched(&mut self, id: NetworkConnectionId) -> (r: Option<ConnectionRecord>)
        requires
            old(self).wf(),
        ensures
            final(self).wf(),
            final(self).add_order == old(self).add_order,
            final(self).max_connections == old(self).max_connections,
            forall|p: int| 0 <= p < 3 ==> #[trigger] final(self).lru_of(p) == touched(old(self).lru_of(p), id),
            forall|x: NetworkConnectionId| #[trigger] final(self).has_id(x) == old(self).has_id(x),
            forall|x: NetworkConnectionId| old(self).has_id(x) ==> #[trigger] final(self).record_of(x) == old(self).record_of(x),
            forall|f: Flow| #[trigger] final(self).has_flow(f) == old(self).has_flow(f),
            forall|x: NetworkConnectionId, a: PeerAddress| #[trigger] final(self).id_goes_to(x, a) == old(self).id_goes_to(x, a),
            r is Some <==> old(self).has_id(id),
            r matches Some(rec) ==> rec == old(self).record_of(id),
    {
        match self.lookup(id) {
            None => {
                proof {
                    assert forall|p: int| 0 <= p < 3 implies key_index(self.lru_of(p), id) is None by {
                        self.lemma_key_index_holds(p, id);
                        if key_index(self.lru_of(p), id) is Some {
                            assert(self.has_id(id));
                        }
                    }
                }
                None
            },
            Some((p, rec)) => {
                let ghost pre = *self;
                proof {
                    pre.lemma_keys_distinct(p as int);
                    pre.lemma_record_of(p as int, (id, rec));
                    let i = key_index(pre.lru_of(p as int), id).unwrap();
                    lemma_to_back(pre.lru_of(p as int), i);
                }
                let _ = self.lru_get_at(p, id);
                proof {
                    assert(self.same_entries(&pre));
                    pre.lemma_same_entries_wf(self);
                    assert forall|x: NetworkConnectionId| pre.has_id(x) implies #[trigger] self.record_of(x) == pre.record_of(x) by {
                        let e = choose|e: ConnEntry| #[trigger] pre.holds(e) && e.0 == x;
                        let e2 = choose|e: ConnEntry| #[trigger] self.holds(e) && e.0 == x;
                        assert(self.holds(e));
                        assert(pre.holds(e2));
                    }
                    assert forall|f: Flow| #[trigger] self.has_flow(f) == pre.has_flow(f) by {
                        if self.has_flow(f) {
                            let e = choose|e: ConnEntry| #[trigger] self.holds(e) && flow_same(e.1.flow, f);
                            assert(pre.holds(e));
                        }
                        if pre.has_flow(f) {
                            let e = choose|e: ConnEntry| #[trigger] pre.holds(e) && flow_same(e.1.flow, f);
                            assert(self.holds(e));
                        }
                    }
                    assert forall|x: NetworkConnectionId, a: PeerAddress| #[trigger] self.id_goes_to(x, a) == pre.id_goes_to(x, a) by {
                        if self.id_goes_to(x, a) {
                            let e = choose|e: ConnEntry| #[trigger] self.holds(e) && e.0 == x && peer_same(e.1.flow.remote, a);
                            assert(pre.holds(e));
                        }
                        if pre.id_goes_to(x, a) {
                            let e = choose|e: ConnEntry| #[trigger] pre.holds(e) && e.0 == x && peer_same(e.1.flow.remote, a);
                            assert(self.holds(e));
                        }
                    }
                }
                Some(rec)
            },
        }
    }

    /// Marks the connection with the id, if any, as the most recently used
    /// of its protocol.
    pub fn touch_connection_by_id(&mut self, id: NetworkConnectionId)
        requires
            old(self).wf(),
        ensures
            final(self).wf(),
            final(self).order() == old(self).order(),
            forall|p: int| 0 <= p < 3 ==> #[trigger] final(self).max_of(p) == old(self).max_of(p),
            forall|p: int| 0 <= p < 3 ==> #[trigger] final(self).lru_of(p) == touched(old(self).lru_of(p), id),
    {
        let _ = self.get_touched(id);
    }

    /// The connection, if any, whose flow equals `flow`. UDP flows have no
    /// connection.
    pub fn peek_connection_by_flow(&self, flow: Flow) -> (r: Option<ConnectionRecord>)
        requires
            self.wf(),
        ensures
            r is None <==> !self.has_flow(flow),
            r matches Some(rec) ==> self.holds((rec.id, rec)) && flow_same(rec.flow, flow),
            flow.remote.protocol_type == ProtocolType::UDP ==> r is None,
    {
        if flow.remote.protocol_type == ProtocolType::UDP {
            proof {
                if self.has_flow(flow) {
                    let e = choose|e: ConnEntry| #[trigger] self.holds(e) && flow_same(e.1.flow, flow);
                    if self.lru_of(0).contains(e) {
                    } else if self.lru_of(1).contains(e) {
                    } else {
                        assert(self.lru_of(2).contains(e));
                    }
                }
            }
            return None;
        }
        let p = Self::protocol_to_index(flow.remote.protocol_type);
        let es = lru_entries(self.lru_at(p));
        let mut i: usize = 0;
        while i < es.len()
            invariant
                p < 3,
                p == protocol_index(flow.remote.protocol_type),
                self.wf(),
                es@ == self.lru_of(p as int),
                i <= es@.len(),
                forall|j: int| 0 <= j < i ==> !flow_same((#[trigger] es@[j]).1.flow, flow),
            decreases es@.len() - i,
        {
            let e = es[i];
            if e.1.flow.same_as(&flow) {
                proof {
                    assert(self.lru_of(p as int).contains(es@[i as int]));
                    assert(self.holds(es@[i as int]));
                }
                return Some(e.1);
            }
            i += 1;
        }
        proof {
            if self.has_flow(flow) {
                let e = choose|e: ConnEntry| #[trigger] self.holds(e) && flow_same(e.1.flow, flow);
                let q = if self.lru_of(0).contains(e) { 0int } else if self.lru_of(1).contains(e) { 1int } else { 2int };
                assert(self.lru_of(q).contains(e));
                assert(q == p);
                let j = choose|j: int| 0 <= j < es@.len() && es@[j] == e;
                assert(!flow_same(es@[j].1.flow, flow));
            }
        }
        None
    }

    /// Whether some connection goes to the remote address.
    pub open spec fn has_remote(&self, remote: PeerAddress) -> bool {
        exists|e: ConnEntry| #[trigger] self.holds(e) && peer_same(e.1.flow.remote, remote)
    }

    fn remote_in_table(&self, remote: PeerAddress) -> (r: bool)
        requires
            self.wf(),
        ensures
            r == self.has_remote(remote),
    {
        if remote.protocol_type == ProtocolType::UDP {
            proof {
                if self.has_remote(remote) {
                    let e = choose|e: ConnEntry| #[trigger] self.holds(e) && peer_same(e.1.flow.remote, remote);
                    if self.lru_of(0).contains(e) {
                    } else if self.lru_of(1).contains(e) {
                    } else {
                        assert(self.lru_of(2).contains(e));
                    }
                }
            }
            return false;
        }
        let p = Self::protocol_to_index(remote.protocol_type);
        let es = lru_entries(self.lru_at(p));
        let mut i: usize = 0;
        while i < es.len()
            invariant
                p < 3,
                p == protocol_index(remote.protocol_type),
                self.wf(),
                es@ == self.lru_of(p as int),
                i <= es@.len(),
                forall|j: int| 0 <= j < i ==> !peer_same((#[trigger] es@[j]).1.flow.remote, remote),
            decreases es@.len() - i,
        {
            let e = es[i];
            if e.1.flow.remote.same_as(&remote) {
                proof {
                    assert(self.lru_of(p as int).contains(es@[i as int]));
                    assert(self.holds(es@[i as int]));
                }
                return true;
            }
            i += 1;
        }
        proof {
            if self.has_remote(remote) {
                let e = choose|e: ConnEntry| #[trigger] self.holds(e) && peer_same(e.1.flow.remote, remote);
                let q = if self.lru_of(0).contains(e) { 0int } else if self.lru_of(1).contains(e) { 1int } else { 2int };
                assert(self.lru_of(q).contains(e));
                assert(q == p);
                let j = choose|j: int| 0 <= j < es@.len() && es@[j] == e;
                assert(!peer_same(es@[j].1.flow.remote, remote));
            }
        }
        false
    }

    /// Whether another protocol over the same transport, with a connection
    /// to the same socket address, collides with one about to be made.
    pub open spec fn collides(&self, socket_address: SocketAddress, protocol_type: ProtocolType, other: ProtocolType) -> bool {
        &&& other != protocol_type
        &&& low_level_protocol_type(other) == low_level_protocol_type(protocol_type)
        &&& self.has_remote(PeerAddress { socket_address, protocol_type: other })
    }

    fn collides_with(&self, socket_address: SocketAddress, protocol_type: ProtocolType, other: ProtocolType) -> (r: bool)
        requires
            self.wf(),
        ensures
            r == self.collides(socket_address, protocol_type, other),
    {
        other != protocol_type && other.low_level_protocol_type() == protocol_type.low_level_protocol_type()
            && self.remote_in_table(PeerAddress { socket_address, protocol_type: other })
    }

    /// Whether the table holds a connection to the same socket address over
    /// another protocol with the same transport (a TCP connection where a
    /// WS or WSS one is to be made, or the reverse).
    pub fn check_for_colliding_connection(&self, socket_address: SocketAddress, protocol_type: ProtocolType) -> (r: bool)
        requires
            self.wf(),
        ensures
            r == exists|other: ProtocolType| #[trigger] self.collides(socket_address, protocol_type, other),
    {
        let r = self.collides_with(socket_address, protocol_type, ProtocolType::UDP)
            || self.collides_with(socket_address, protocol_type, ProtocolType::TCP)
            || self.collides_with(socket_address, protocol_type, ProtocolType::WS)
            || self.collides_with(socket_address, protocol_type, ProtocolType::WSS);
        proof {
            if exists|other: ProtocolType| #[trigger] self.collides(socket_address, protocol_type, other) {
                let o = choose|other: ProtocolType| #[trigger] self.collides(socket_address, protocol_type, other);
                match o {
                    ProtocolType::UDP => {},
                    ProtocolType::TCP => {},
                    ProtocolType::WS => {},
                    ProtocolType::WSS => {},
                }
            }
        }
        r
    }

    proof fn lemma_same_entries_wf(&self, other: &Self)
        requires
            self.wf(),
            other.same_entries(self),
            other.add_order == self.add_order,
            forall|p: int| 0 <= p < 3 ==> #[trigger] other.capacity_of(p) == self.capacity_of(p),
            forall|p: int| 0 <= p < 3 ==> (#[trigger] other.lru_of(p)).no_duplicates(),
            forall|p: int| 0 <= p < 3 ==> (#[trigger] other.lru_of(p)).len() == self.lru_of(p).len(),
        ensures
            other.wf(),
            forall|e: ConnEntry| #[trigger] other.holds(e) <==> self.holds(e),
            forall|id: NetworkConnectionId| #[trigger] other.has_id(id) <==> self.has_id(id),
    {
        assert(other.lru_of(0).len() + other.lru_of(1).len() + other.lru_of(2).len() == self.count());
        assert forall|e: ConnEntry| #[trigger] other.holds(e) <==> self.holds(e) by {
            assert(other.lru_of(0).contains(e) <==> self.lru_of(0).contains(e));
            assert(other.lru_of(1).contains(e) <==> self.lru_of(1).contains(e));
            assert(other.lru_of(2).contains(e) <==> self.lru_of(2).contains(e));
        }
        assert forall|id: NetworkConnectionId| #[trigger] other.has_id(id) <==> self.has_id(id) by {
            if other.has_id(id) {
                let e = choose|e: ConnEntry| #[trigger] other.holds(e) && e.0 == id;
                assert(self.holds(e));
            }
            if self.has_id(id) {
                let e = choose|e: ConnEntry| #[trigger] self.holds(e) && e.0 == id;
                assert(other.holds(e));
            }
        }
        assert forall|p: int, e: ConnEntry|
            0 <= p < 3 && #[trigger] other.lru_of(p).contains(e) implies e.0 == e.1.id
                && protocol_index(e.1.flow.remote.protocol_type) == p by {
            assert(self.lru_of(p).contains(e));
        }
    }

    proof fn lemma_replace_wf(&self, other: &Self, p: int, i: int, x: ConnEntry)
        requires
            self.wf(),
            0 <= p < 3,
            0 <= i < self.lru_of(p).len(),
            x.0 == self.lru_of(p)[i].0,
            x.1.id == self.lru_of(p)[i].1.id,
            x.1.flow == self.lru_of(p)[i].1.flow,
            other.lru_of(p) == self.lru_of(p).remove(i).push(x),
            forall|q: int| 0 <= q < 3 && q != p ==> #[trigger] other.lru_of(q) == self.lru_of(q),
            forall|q: int| 0 <= q < 3 ==> #[trigger] other.capacity_of(q) == self.capacity_of(q),
            other.add_order == self.add_order,
        ensures
            other.wf(),
            forall|id: NetworkConnectionId| #[trigger] other.has_id(id) <==> self.has_id(id),
    {
        assert(other.lru_of(0).len() + other.lru_of(1).len() + other.lru_of(2).len() == self.count());
        let es = self.lru_of(p);
        let old_e = es[i];
        assert(es.contains(old_e));
        assert(self.holds(old_e));
        self.lemma_keys_distinct(p);
        lemma_remove(es, i);
        assert(!es.remove(i).contains(x)) by {
            if es.remove(i).contains(x) {
                let j = choose|j: int| 0 <= j < es.remove(i).len() && es.remove(i)[j] == x;
                if j < i {
                    assert(es[j] == x);
                } else {
                    assert(es[j + 1] == x);
                }
            }
        }
        lemma_push(es.remove(i), x);
        assert forall|e: ConnEntry| #[trigger] other.holds(e) <==> ((self.holds(e) && e != old_e) || e == x) by {
            if self.holds(e) && e != old_e && e.0 == old_e.0 {
                assert(false);
            }
            if other.lru_of(p).contains(e) {
            }
        }
        assert forall|id: NetworkConnectionId| #[trigger] other.has_id(id) <==> self.has_id(id) by {
            if other.has_id(id) {
                let e = choose|e: ConnEntry| #[trigger] other.holds(e) && e.0 == id;
                if e == x {
                    assert(self.holds(old_e));
                } else {
                    assert(self.holds(e));
                }
            }
            if self.has_id(id) {
                let e = choose|e: ConnEntry| #[trigger] self.holds(e) && e.0 == id;
                if e == old_e {
                    assert(other.holds(x));
                } else {
                    assert(other.holds(e));
                }
            }
        }
        assert forall|q: int, e: ConnEntry|
            0 <= q < 3 && #[trigger] other.lru_of(q).contains(e) implies e.0 == e.1.id
                && protocol_index(e.1.flow.remote.protocol_type) == q by {
            if q != p {
                assert(self.lru_of(q).contains(e));
            } else if e != x {
                assert(es.contains(e));
            }
        }
        assert forall|e1: ConnEntry, e2: ConnEntry|
            #[trigger] other.holds(e1) && #[trigger] other.holds(e2) && e1.0 == e2.0 implies e1 == e2 by {
            if e1 == x && e2 != x {
                assert(self.holds(e2));
                assert(self.holds(old_e));
            } else if e2 == x && e1 != x {
                assert(self.holds(e1));
                assert(self.holds(old_e));
            }
        }
        assert forall|e1: ConnEntry, e2: ConnEntry|
            #[trigger] other.holds(e1) && #[trigger] other.holds(e2) && flow_same(e1.1.flow, e2.1.flow)
                implies e1 == e2 by {
            if e1 == x && e2 != x {
                assert(self.holds(e2));
                assert(self.holds(old_e));
            } else if e2 == x && e1 != x {
                assert(self.holds(e1));
                assert(self.holds(old_e));
            }
        }
        assert forall|q: int| 0 <= q < 3 implies (#[trigger] other.lru_of(q)).no_duplicates() by {
            if q != p {
                assert(other.lru_of(q) == self.lru_of(q));
            }
        }
    }

    /// Adds or removes a reference to the connection with the id; `false`
    /// when there is no such connection. The connection becomes the most
    /// recently used of its protocol.
    pub fn ref_connection_by_id(&mut self, id: NetworkConnectionId, ref_type: ConnectionRefKind) -> (r: bool)
        requires
            old(self).wf(),
            old(self).has_id(id) ==> ref_change_ok(old(self).record_of(id), ref_type),
        ensures
            final(self).wf(),
            r == old(self).has_id(id),
            final(self).order() == old(self).order(),
            forall|p: int| 0 <= p < 3 ==> #[trigger] final(self).max_of(p) == old(self).max_of(p),
            forall|p: int| 0 <= p < 3 ==> #[trigger] final(self).lru_of(p) == referenced(old(self).lru_of(p), id, ref_type),
    {
        match self.lookup(id) {
            None => {
                proof {
                    assert forall|p: int| 0 <= p < 3 implies key_index(self.lru_of(p), id) is None by {
                        self.lemma_key_index_holds(p, id);
                        if key_index(self.lru_of(p), id) is Some {
                            assert(self.has_id(id));
                        }
                    }
                }
                false
            },
            Some((p, rec)) => {
                let ghost pre = *self;
                let ghost i = key_index(pre.lru_of(p as int), id).unwrap();
                proof {
                    pre.lemma_keys_distinct(p as int);
                    pre.lemma_record_of(p as int, (id, rec));
                    lemma_to_back(pre.lru_of(p as int), i);
                }
                let _ = self.lru_get_at(p, id);
                let ghost mid = *self;
                let new_rec = match ref_type {
                    ConnectionRefKind::AddRef => ConnectionRecord { ref_count: rec.ref_count + 1, ..rec },
                    ConnectionRefKind::RemoveRef => ConnectionRecord { ref_count: rec.ref_count - 1, ..rec },
                };
                proof {
                    assert(self.same_entries(&pre));
                    pre.lemma_same_entries_wf(self);
                    self.lemma_keys_distinct(p as int);
                    assert(self.lru_of(p as int).len() == pre.lru_of(p as int).len());
                    let last = (self.lru_of(p as int).len() - 1) as int;
                    assert(self.lru_of(p as int)[last] == (id, rec));
                    assert(self.lru_of(p as int).contains((id, rec)));
                    self.lemma_key_index_holds(p as int, id);
                    self.lemma_keys_distinct(p as int);
                    assert(key_index(self.lru_of(p as int), id) == Some(last));
                }
                let _ = self.lru_insert_at(p, id, new_rec);
                proof {
                    let last = (mid.lru_of(p as int).len() - 1) as int;
                    assert(mid.lru_of(p as int).remove(last) =~= pre.lru_of(p as int).remove(i));
                    pre.lemma_replace_wf(self, p as int, i, (id, new_rec));
                }
                true
            },
        }
    }

    proof fn lemma_remove_wf(&self, other: &Self, p: int, i: int, k: int)
        requires
            self.wf(),
            0 <= p < 3,
            0 <= i < self.lru_of(p).len(),
            other.lru_of(p) == self.lru_of(p).remove(i),
            forall|q: int| 0 <= q < 3 && q != p ==> #[trigger] other.lru_of(q) == self.lru_of(q),
            forall|q: int| 0 <= q < 3 ==> #[trigger] other.capacity_of(q) == self.capacity_of(q),
            0 <= k < self.add_order@.len(),
            self.add_order@[k] == self.lru_of(p)[i].0,
            other.add_order@ == self.add_order@.remove(k),
        ensures
            other.wf(),
            other.count() == self.count() - 1,
            forall|e: ConnEntry| #[trigger] other.holds(e) <==> (self.holds(e) && e != self.lru_of(p)[i]),
            forall|x: NetworkConnectionId| #[trigger] other.has_id(x) <==> (self.has_id(x) && x != self.lru_of(p)[i].0),
            forall|x: NetworkConnectionId| other.has_id(x) ==> #[trigger] other.record_of(x) == self.record_of(x),
            forall|f: Flow| #[trigger] other.has_flow(f) ==> self.has_flow(f),
    {
        let es = self.lru_of(p);
        let old_e = es[i];
        assert(es.contains(old_e));
        assert(self.holds(old_e));
        lemma_remove(es, i);
        lemma_ids_remove(self.add_order@, k);
        assert forall|e: ConnEntry| #[trigger] other.holds(e) <==> (self.holds(e) && e != old_e) by {
            if self.holds(e) && e != old_e {
                if self.lru_of(p).contains(e) {
                    assert(other.lru_of(p).contains(e));
                }
            }
        }
        assert forall|x: NetworkConnectionId| #[trigger] other.has_id(x) <==> (self.has_id(x) && x != old_e.0) by {
            if other.has_id(x) {
                let e = choose|e: ConnEntry| #[trigger] other.holds(e) && e.0 == x;
                assert(self.holds(e));
            }
            if self.has_id(x) && x != old_e.0 {
                let e = choose|e: ConnEntry| #[trigger] self.holds(e) && e.0 == x;
                assert(other.holds(e));
            }
        }
        assert forall|x: NetworkConnectionId| other.has_id(x) implies #[trigger] other.record_of(x) == self.record_of(x) by {
            let e = choose|e: ConnEntry| #[trigger] other.holds(e) && e.0 == x;
            let e2 = choose|e: ConnEntry| #[trigger] self.holds(e) && e.0 == x;
            assert(self.holds(e));
        }
        assert forall|f: Flow| #[trigger] other.has_flow(f) implies self.has_flow(f) by {
            let e = choose|e: ConnEntry| #[trigger] other.holds(e) && flow_same(e.1.flow, f);
            assert(self.holds(e));
        }
        assert forall|q: int, e: ConnEntry|
            0 <= q < 3 && #[trigger] other.lru_of(q).contains(e) implies e.0 == e.1.id
                && protocol_index(e.1.flow.remote.protocol_type) == q by {
            assert(self.lru_of(q).contains(e));
        }
        assert forall|q: int| 0 <= q < 3 implies (#[trigger] other.lru_of(q)).no_duplicates() by {
            if q != p {
                assert(other.lru_of(q) == self.lru_of(q));
            }
        }
        assert(other.lru_of(0).len() + other.lru_of(1).len() + other.lru_of(2).len() == self.count() - 1);
    }

    /// Takes the connection with the id out of its cache and of the order
    /// of additions.
    fn remove_connection_records(&mut self, id: NetworkConnectionId) -> (r: ConnectionRecord)
        requires
            old(self).wf(),
            old(self).has_id(id),
        ensures
            final(self).wf(),
            r == old(self).record_of(id),
            r.id == id,
            final(self).max_connections == old(self).max_connections,
            final(self).order() == without_id(old(self).order(), id),
            forall|p: int| 0 <= p < 3 ==> #[trigger] final(self).lru_of(p) == removed(old(self).lru_of(p), id),
            forall|p: int| 0 <= p < 3 ==> #[trigger] final(self).capacity_of(p) == old(self).capacity_of(p),
            final(self).count() == old(self).count() - 1,
            forall|x: NetworkConnectionId| #[trigger] final(self).has_id(x) <==> (old(self).has_id(x) && x != id),
            forall|x: NetworkConnectionId| final(self).has_id(x) ==> #[trigger] final(self).record_of(x) == old(self).record_of(x),
            forall|f: Flow| #[trigger] final(self).has_flow(f) ==> old(self).has_flow(f),
    {
        let ghost pre = *self;
        let (p, rec) = self.lookup(id).unwrap();
        let ghost i = key_index(pre.lru_of(p as int), id).unwrap();
        proof {
            pre.lemma_keys_distinct(p as int);
            pre.lemma_record_of(p as int, (id, rec));
            assert(pre.add_order@.contains(id));
        }
        let mut k: usize = 0;
        while k < self.add_order.len() && self.add_order[k] != id
            invariant
                *self == pre,
                k <= self.add_order@.len(),
                self.add_order@.contains(id),
                forall|j: int| 0 <= j < k ==> self.add_order@[j] != id,
            decreases self.add_order@.len() - k,
        {
            k += 1;
        }
        proof {
            if k == self.add_order@.len() {
                let j = choose|j: int| 0 <= j < self.add_order@.len() && self.add_order@[j] == id;
                assert(self.add_order@[j] != id);
            }
            let c = id_index(pre.add_order@, id);
            assert(pre.add_order@[c] == id);
            assert(pre.add_order@.no_duplicates());
            assert(c == k);
        }
        let _ = self.add_order.remove(k);
        let _ = self.lru_remove_at(p, id);
        proof {
            pre.lemma_remove_wf(self, p as int, i, k as int);
        }
        rec
    }

    /// Takes the connection with the id, if any, out of the table and
    /// returns it; its address is then to be released from the address
    /// filter.
    pub fn remove_connection_by_id(&mut self, id: NetworkConnectionId) -> (r: Option<ConnectionRecord>)
        requires
            old(self).wf(),
        ensures
            final(self).wf(),
            !final(self).has_id(id),
            r == (if old(self).has_id(id) { Some(old(self).record_of(id)) } else { None::<ConnectionRecord> }),
            final(self).order() == without_id(old(self).order(), id),
            forall|p: int| 0 <= p < 3 ==> #[trigger] final(self).max_of(p) == old(self).max_of(p),
            forall|p: int| 0 <= p < 3 ==> #[trigger] final(self).lru_of(p) == removed(old(self).lru_of(p), id),
    {
        match self.lookup(id) {
            None => {
                proof {
                    assert forall|p: int| 0 <= p < 3 implies key_index(self.lru_of(p), id) is None by {
                        self.lemma_key_index_holds(p, id);
                        if key_index(self.lru_of(p), id) is Some {
                            assert(self.has_id(id));
                        }
                    }
                    assert(!self.add_order@.contains(id));
                }
                None
            },
            Some(_) => Some(self.remove_connection_records(id)),
        }
    }

    proof fn lemma_push_wf(&self, other: &Self, p: int, x: ConnEntry)
        requires
            self.wf(),
            0 <= p < 3,
            x.0 == x.1.id,
            protocol_index(x.1.flow.remote.protocol_type) == p,
            !self.has_id(x.0),
            !self.has_flow(x.1.flow),
            self.count() < usize::MAX,
            other.lru_of(p) == self.lru_of(p).push(x),
            forall|q: int| 0 <= q < 3 && q != p ==> #[trigger] other.lru_of(q) == self.lru_of(q),
            forall|q: int| 0 <= q < 3 ==> #[trigger] other.capacity_of(q) == self.capacity_of(q),
            other.add_order@ == self.add_order@.push(x.0),
        ensures
            other.wf(),
            forall|e: ConnEntry| #[trigger] other.holds(e) <==> (self.holds(e) || e == x),
    {
        let es = self.lru_of(p);
        assert(!es.contains(x)) by {
            if es.contains(x) {
                assert(self.holds(x));
            }
        }
        lemma_push(es, x);
        assert(!self.add_order@.contains(x.0));
        lemma_ids_push(self.add_order@, x.0);
        assert forall|e: ConnEntry| #[trigger] other.holds(e) <==> (self.holds(e) || e == x) by {
            if self.holds(e) || e == x {
                if self.lru_of(p).contains(e) || e == x {
                    assert(other.lru_of(p).contains(e));
                }
            }
        }
        assert forall|y: NetworkConnectionId| #[trigger] other.add_order@.contains(y) <==> other.has_id(y) by {
            if other.has_id(y) {
                let e = choose|e: ConnEntry| #[trigger] other.holds(e) && e.0 == y;
                if e != x {
                    assert(self.holds(e));
                }
            }
            if other.add_order@.contains(y) {
                if y == x.0 {
                    assert(other.holds(x));
                } else {
                    assert(self.add_order@.contains(y));
                    let e = choose|e: ConnEntry| #[trigger] self.holds(e) && e.0 == y;
                    assert(other.holds(e));
                }
            }
        }
        assert forall|q: int, e: ConnEntry|
            0 <= q < 3 && #[trigger] other.lru_of(q).contains(e) implies e.0 == e.1.id
                && protocol_index(e.1.flow.remote.protocol_type) == q by {
            if e != x {
                assert(self.lru_of(q).contains(e));
            }
        }
        assert forall|e1: ConnEntry, e2: ConnEntry|
            #[trigger] other.holds(e1) && #[trigger] other.holds(e2) && e1.0 == e2.0 implies e1 == e2 by {
            if e1 == x && e2 != x {
                assert(self.holds(e2));
            } else if e2 == x && e1 != x {
                assert(self.holds(e1));
            }
        }
        assert forall|e1: ConnEntry, e2: ConnEntry|
            #[trigger] other.holds(e1) && #[trigger] other.holds(e2) && flow_same(e1.1.flow, e2.1.flow)
                implies e1 == e2 by {
            if e1 == x && e2 != x {
                assert(self.holds(e2));
                assert(flow_same(e2.1.flow, x.1.flow));
            } else if e2 == x && e1 != x {
                assert(self.holds(e1));
            }
        }
        assert forall|q: int| 0 <= q < 3 implies (#[trigger] other.lru_of(q)).no_duplicates() by {
            if q != p {
                assert(other.lru_of(q) == self.lru_of(q));
            }
        }
        assert(other.lru_of(0).len() + other.lru_of(1).len() + other.lru_of(2).len() == self.count() + 1);
    }

    /// Adds a connection. A connection whose flow is already in the table
    /// is refused; otherwise `filter` is asked about the remote IP address
    /// and may refuse it. When the connection's protocol is at its limit,
    /// the least recently used connection that is neither referenced nor
    /// protected is evicted and returned (its address is then to be
    /// released from the address filter); when there is none, the table is
    /// full. The new connection becomes the most recently used of its
    /// protocol and the last added.
    pub fn add_connection<E, F: FnOnce(IpAddress) -> Result<(), E>>(&mut self, conn: ConnectionRecord, filter: F) -> (r: Result<Option<ConnectionRecord>, ConnectionTableAddError<E>>)
        requires
            old(self).wf(),
            conn.flow.remote.protocol_type != ProtocolType::UDP,
            !old(self).has_flow(conn.flow) ==> !old(self).has_id(conn.id),
            old(self).count() < usize::MAX,
            call_requires(filter, (conn.flow.remote.socket_address.address,)),
        ensures
            final(self).wf(),
            r is Ok ==> final(self).has_id(conn.id) && final(self).record_of(conn.id) == conn
                && final(self).has_flow(conn.flow),
            ({
                let p = protocol_index(conn.flow.remote.protocol_type);
                let es = old(self).lru_of(p);
                let ip = conn.flow.remote.socket_address.address;
                let full = es.len() >= old(self).max_of(p);
                match r {
                    Err(ConnectionTableAddError::AlreadyExists(c)) => c == conn && old(self).has_flow(conn.flow)
                        && *final(self) == *old(self),
                    Err(ConnectionTableAddError::AddressFilter(c, e)) => c == conn && !old(self).has_flow(conn.flow)
                        && call_ensures(filter, (ip,), Err(e)) && *final(self) == *old(self),
                    Err(ConnectionTableAddError::TableFull(c)) => c == conn && !old(self).has_flow(conn.flow)
                        && call_ensures(filter, (ip,), Ok(())) && full && first_evictable(es) is None
                        && *final(self) == *old(self),
                    Ok(evicted) => !old(self).has_flow(conn.flow) && call_ensures(filter, (ip,), Ok(()))
                        && (forall|q: int| 0 <= q < 3 ==> #[trigger] final(self).max_of(q) == old(self).max_of(q))
                        && (forall|q: int| 0 <= q < 3 && q != p ==> #[trigger] final(self).lru_of(q) == old(self).lru_of(q))
                        && match evicted {
                        None => !full && final(self).lru_of(p) == es.push((conn.id, conn))
                            && final(self).order() == old(self).order().push(conn.id),
                        Some(dead) => full && first_evictable(es) is Some && dead == es[first_evictable(es).unwrap()].1
                            && final(self).lru_of(p) == es.remove(first_evictable(es).unwrap()).push((conn.id, conn))
                            && final(self).order() == without_id(old(self).order(), dead.id).push(conn.id),
                    },
                }
            }),
    {
        let p = Self::protocol_to_index(conn.flow.remote.protocol_type);
        if self.peek_connection_by_flow(conn.flow).is_some() {
            return Err(ConnectionTableAddError::already_exists(conn));
        }
        let verdict = filter(conn.flow.remote.socket_address.address);
        match verdict {
            Ok(()) => {
                let ghost u: () = verdict->Ok_0;
                assert(u == ());
                assert(verdict == Ok::<(), E>(()));
            },
            Err(e) => {
                return Err(ConnectionTableAddError::address_filter(conn, e));
            },
        }
        let ghost pre = *self;
        let mut out: Option<ConnectionRecord> = None;
        let len = lru_len(self.lru_at(p));
        if len >= self.max_connections[p] {
            let es = lru_entries(self.lru_at(p));
            let mut k: usize = 0;
            while k < es.len() && !(es[k].1.ref_count == 0 && !es[k].1.protected)
                invariant
                    k <= es@.len(),
                    first_evictable(es@.subrange(0, k as int)) is None,
                decreases es@.len() - k,
            {
                proof {
                    assert(es@.subrange(0, k + 1).drop_last() =~= es@.subrange(0, k as int));
                }
                k += 1;
            }
            if k == es.len() {
                proof {
                    assert(es@.subrange(0, k as int) =~= es@);
                    assert(first_evictable(pre.lru_of(p as int)) is None);
                    assert(pre.lru_of(p as int).len() >= pre.max_of(p as int));
                }
                return Err(ConnectionTableAddError::table_full(conn));
            }
            proof {
                assert(es@.subrange(0, k + 1).drop_last() =~= es@.subrange(0, k as int));
                lemma_first_evictable_prefix(es@, k as int);
                pre.lemma_keys_distinct(p as int);
                assert(pre.lru_of(p as int).contains(es@[k as int]));
                pre.lemma_record_of(p as int, es@[k as int]);
                pre.lemma_key_index_holds(p as int, es@[k as int].0);
            }
            let dead = self.remove_connection_records(es[k].0);
            out = Some(dead);
        }
        let ghost mid = *self;
        proof {
            mid.lemma_keys_distinct(p as int);
            mid.lemma_key_index_holds(p as int, conn.id);
            if key_index(mid.lru_of(p as int), conn.id) is Some {
                assert(mid.has_id(conn.id));
            }
        }
        let _ = self.lru_insert_at(p, conn.id, conn);
        let ghost inserted = *self;
        self.add_order.push(conn.id);
        proof {
            assert forall|q: int| 0 <= q < 3 implies #[trigger] self.lru_of(q) == inserted.lru_of(q) by {}
            assert forall|q: int| 0 <= q < 3 implies #[trigger] self.capacity_of(q) == inserted.capacity_of(q) by {}
            mid.lemma_push_wf(self, p as int, (conn.id, conn));
            let last = (self.lru_of(p as int).len() - 1) as int;
            assert(self.lru_of(p as int)[last] == (conn.id, conn));
            assert(self.lru_of(p as int).contains((conn.id, conn)));
            self.lemma_record_of(p as int, (conn.id, conn));
            assert(self.holds((conn.id, conn)));
            assert(flow_same(conn.flow, conn.flow));
        }
        Ok(out)
    }

    /// Whether the connection with the id is bound locally to the port.
    pub open spec fn local_port_is(&self, id: NetworkConnectionId, port: u16) -> bool {
        self.record_of(id).flow.local matches Some(la) && la.port == port
    }

    /// The first position among `ids` of a connection bound locally to the port.
    pub open spec fn first_port_index(&self, ids: Seq<NetworkConnectionId>, port: u16) -> Option<int>
        decreases ids.len(),
    {
        if ids.len() == 0 {
            None
        } else {
            match self.first_port_index(ids.drop_last(), port) {
                Some(k) => Some(k),
                None => if self.local_port_is(ids.last(), port) {
                    Some(ids.len() - 1)
                } else {
                    None
                },
            }
        }
    }

    /// The best of `ids`: the only one; else the first bound locally to the
    /// preferred port; else the last.
    pub open spec fn best_connection_id(&self, ids: Seq<NetworkConnectionId>, best_port: Option<u16>) -> Option<NetworkConnectionId> {
        if ids.len() == 0 {
            None
        } else if ids.len() == 1 {
            Some(ids[0])
        } else {
            match best_port {
                Some(bp) => match self.first_port_index(ids, bp) {
                    Some(k) => Some(ids[k]),
                    None => Some(ids.last()),
                },
                None => Some(ids.last()),
            }
        }
    }

    proof fn lemma_first_port_prefix(&self, ids: Seq<NetworkConnectionId>, port: u16, k: int)
        requires
            0 <= k < ids.len(),
            self.first_port_index(ids.subrange(0, k + 1), port) == Some(k),
        ensures
            self.first_port_index(ids, port) == Some(k),
        decreases ids.len(),
    {
        if ids.len() == k + 1 {
            assert(ids.subrange(0, k + 1) =~= ids);
        } else {
            assert(ids.drop_last().subrange(0, k + 1) =~= ids.subrange(0, k + 1));
            self.lemma_first_port_prefix(ids.drop_last(), port, k);
        }
    }

    proof fn lemma_ids_to_go(&self, s: Seq<NetworkConnectionId>, remote: PeerAddress)
        ensures
            forall|k: int| 0 <= k < self.ids_to(s, remote).len() ==> self.id_goes_to(#[trigger] self.ids_to(s, remote)[k], remote),
        decreases s.len(),
    {
        if s.len() > 0 {
            self.lemma_ids_to_go(s.drop_last(), remote);
            let t = self.ids_to(s, remote);
            let u = self.ids_to(s.drop_last(), remote);
            assert forall|k: int| 0 <= k < t.len() implies self.id_goes_to(#[trigger] t[k], remote) by {
                if k < u.len() {
                    assert(t[k] == u[k]);
                }
            }
        }
    }

    /// The connection to `remote` to use: the only one; else the first,
    /// in the order of additions, bound locally to `best_port`; else the
    /// last added. It becomes the most recently used of its protocol.
    pub fn get_best_connection_by_remote(&mut self, best_port: Option<u16>, remote: PeerAddress) -> (r: Option<ConnectionRecord>)
        requires
            old(self).wf(),
        ensures
            final(self).wf(),
            final(self).order() == old(self).order(),
            forall|p: int| 0 <= p < 3 ==> #[trigger] final(self).max_of(p) == old(self).max_of(p),
            match old(self).best_connection_id(old(self).ids_to(old(self).order(), remote), best_port) {
                Some(id) => r == Some(old(self).record_of(id)) && forall|p: int|
                    0 <= p < 3 ==> #[trigger] final(self).lru_of(p) == touched(old(self).lru_of(p), id),
                None => r is None && *final(self) == *old(self),
            },
    {
        let ids = self.get_connection_ids_by_remote(remote);
        proof {
            self.lemma_ids_to_go(self.add_order@, remote);
            assert forall|k: int| 0 <= k < ids@.len() implies self.has_id(#[trigger] ids@[k]) by {
                assert(self.id_goes_to(ids@[k], remote));
                let e = choose|e: ConnEntry| #[trigger] self.holds(e) && e.0 == ids@[k] && peer_same(e.1.flow.remote, remote);
            }
        }
        if ids.len() == 0 {
            return None;
        }
        if ids.len() == 1 {
            return self.get_touched(ids[0]);
        }
        match best_port {
            Some(bp) => {
                let mut k: usize = 0;
                while k < ids.len()
                    invariant
                        *self == *old(self),
                        ids@.len() > 1,
                        best_port == Some(bp),
                        self.wf(),
                        ids@ == self.ids_to(self.order(), remote),
                        forall|j: int| 0 <= j < ids@.len() ==> self.has_id(#[trigger] ids@[j]),
                        k <= ids@.len(),
                        self.first_port_index(ids@.subrange(0, k as int), bp) is None,
                    decreases ids@.len() - k,
                {
                    let id = ids[k];
                    let (p, rec) = self.lookup(id).unwrap();
                    proof {
                        self.lemma_record_of(p as int, (id, rec));
                        assert(ids@.subrange(0, k + 1).drop_last() =~= ids@.subrange(0, k as int));
                    }
                    let port_matches = match rec.flow.local {
                        Some(la) => la.port == bp,
                        None => false,
                    };
                    if port_matches {
                        proof {
                            self.lemma_first_port_prefix(ids@, bp, k as int);
                        }
                        return self.get_touched(id);
                    }
                    k += 1;
                }
                proof {
                    assert(ids@.subrange(0, k as int) =~= ids@);
                }
            },
            None => {},
        }
        let last = ids[ids.len() - 1];
        self.get_touched(last)
    }

    /// Empties the table and returns every connection, TCP first, then WS,
    /// then WSS, each least recently used first; they are then to be closed.
    pub fn join(&mut self) -> (r: Vec<ConnectionRecord>)
        requires
            old(self).wf(),
        ensures
            final(self).wf(),
            r@ == records(old(self).lru_of(0) + old(self).lru_of(1) + old(self).lru_of(2)),
            forall|p: int| 0 <= p < 3 ==> (#[trigger] final(self).lru_of(p)).len() == 0,
            forall|p: int| 0 <= p < 3 ==> #[trigger] final(self).max_of(p) == old(self).max_of(p),
            final(self).order() == Seq::<NetworkConnectionId>::empty(),
    {
        let ghost pre = *self;
        let tcp = lru_drain(&mut self.conn_tcp);
        let ws = lru_drain(&mut self.conn_ws);
        let wss = lru_drain(&mut self.conn_wss);
        self.add_order = Vec::new();
        let mut out: Vec<ConnectionRecord> = Vec::new();
        push_records(&mut out, &tcp);
        push_records(&mut out, &ws);
        push_records(&mut out, &wss);
        proof {
            assert(self.lru_of(0).len() == 0);
            assert(self.lru_of(1).len() == 0);
            assert(self.lru_of(2).len() == 0);
            assert forall|p: int| 0 <= p < 3 implies (#[trigger] self.lru_of(p)).no_duplicates() by {}
            assert forall|p: int| 0 <= p < 3 implies #[trigger] self.capacity_of(p) == usize::MAX by {
                assert(pre.capacity_of(p) == usize::MAX);
            }
            assert(records(pre.lru_of(0)) + records(pre.lru_of(1)) + records(pre.lru_of(2)) =~= records(
                pre.lru_of(0) + pre.lru_of(1) + pre.lru_of(2),
            ));
            assert forall|id: NetworkConnectionId| #[trigger] self.add_order@.contains(id) <==> self.has_id(id) by {
                if self.has_id(id) {
                    let e = choose|e: ConnEntry| #[trigger] self.holds(e) && e.0 == id;
                    assert(self.lru_of(0).len() == 0);
                }
            }
        }
        out
    }

    /// The connections of protocol index `p`, least recently used first.
    pub fn connections_of(&self, p: usize) -> (r: Vec<ConnectionRecord>)
        requires
            p < 3,
        ensures
            r@ == records(self.lru_of(p as int)),
    {
        let es = lru_entries(self.lru_at(p));
        let mut out: Vec<ConnectionRecord> = Vec::new();
        push_records(&mut out, &es);
        proof {
            assert(out@ =~= records(self.lru_of(p as int)));
        }
        out
    }

    /// The connection limit of protocol index `p`.
    pub fn max_connections_of(&self, p: usize) -> (r: usize)
        requires
            p < 3,
        ensures
            r == self.max_of(p as int),
    {
        self.max_connections[p]
    }

}

/// The entries after marking the entry of key `k`, if any, as the most recently used.
pub open spec fn touched(es: Seq<ConnEntry>, k: NetworkConnectionId) -> Seq<ConnEntry> {
    match key_index(es, k) {
        Some(i) => to_back(es, i),
        None => es,
    }
}

/// The entries without the entry of key `k`, if any.
pub open spec fn removed(es: Seq<ConnEntry>, k: NetworkConnectionId) -> Seq<ConnEntry> {
    match key_index(es, k) {
        Some(i) => es.remove(i),
        None => es,
    }
}

/// The position of `id` in `s`.
pub open spec fn id_index(s: Seq<NetworkConnectionId>, id: NetworkConnectionId) -> int {
    choose|k: int| 0 <= k < s.len() && s[k] == id
}

/// The ids without `id`.
pub open spec fn without_id(s: Seq<NetworkConnectionId>, id: NetworkConnectionId) -> Seq<NetworkConnectionId> {
    if s.contains(id) {
        s.remove(id_index(s, id))
    } else {
        s
    }
}

/// The records of the entries, in order.
pub open spec fn records(es: Seq<ConnEntry>) -> Seq<ConnectionRecord> {
    es.map_values(|e: ConnEntry| e.1)
}

fn push_records(out: &mut Vec<ConnectionRecord>, es: &Vec<ConnEntry>)
    ensures
        final(out)@ == old(out)@ + records(es@),
{
    let mut i: usize = 0;
    while i < es.len()
        invariant
            i <= es@.len(),
            out@ == old(out)@ + records(es@.subrange(0, i as int)),
        decreases es@.len() - i,
    {
        out.push(es[i].1);
        i += 1;
        proof {
            assert(records(es@.subrange(0, i as int)) =~= records(es@.subrange(0, i - 1)).push(es@[i - 1].1));
        }
    }
    assert(es@.subrange(0, i as int) =~= es@);
}

/// Whether a connection may be evicted: nobody references it and no node protects it.
pub open spec fn evictable(rec: ConnectionRecord) -> bool {
    !rec.in_use() && !rec.protected
}

/// The position of the least recently used evictable entry, if any.
pub open spec fn first_evictable(es: Seq<ConnEntry>) -> Option<int>
    decreases es.len(),
{
    if es.len() == 0 {
        None
    } else {
        match first_evictable(es.drop_last()) {
            Some(k) => Some(k),
            None => if evictable(es.last().1) {
                Some(es.len() - 1)
            } else {
                None
            },
        }
    }
}

/// The first evictable entry of a sequence is the first of any longer
/// sequence that begins with it.
pub proof fn lemma_first_evictable_prefix(es: Seq<ConnEntry>, k: int)
    requires
        0 <= k < es.len(),
        first_evictable(es.subrange(0, k + 1)) == Some(k),
    ensures
        first_evictable(es) == Some(k),
    decreases es.len(),
{
    if es.len() == k + 1 {
        assert(es.subrange(0, k + 1) =~= es);
    } else {
        assert(es.drop_last().subrange(0, k + 1) =~= es.subrange(0, k + 1));
        lemma_first_evictable_prefix(es.drop_last(), k);
    }
}

/// The connection that a full protocol gives up is the least recently used
/// one that nobody references and no node protects; when there is none,
/// every connection is referenced or protected.
pub proof fn lemma_eviction_picks_least_recent_idle(es: Seq<ConnEntry>)
    ensures
        first_evictable(es) matches Some(k) ==> 0 <= k < es.len() && evictable(es[k].1) && forall|j: int|
            0 <= j < k ==> !evictable(#[trigger] es[j].1),
        first_evictable(es) is None ==> forall|j: int| 0 <= j < es.len() ==> !evictable(#[trigger] es[j].1),
    decreases es.len(),
{
    if es.len() > 0 {
        let d = es.drop_last();
        lemma_eviction_picks_least_recent_idle(d);
        match first_evictable(d) {
            Some(k) => {
                assert forall|j: int| 0 <= j < k implies !evictable(#[trigger] es[j].1) by {
                    assert(d[j] == es[j]);
                }
            },
            None => {
                assert forall|j: int| 0 <= j < es.len() - 1 implies !evictable(#[trigger] es[j].1) by {
                    assert(d[j] == es[j]);
                }
            },
        }
    }
}

/// Removing a connection that was just added, without eviction, gives back
/// the cache and the order of additions as they were.
pub proof fn lemma_remove_undoes_add(es: Seq<ConnEntry>, order: Seq<NetworkConnectionId>, x: ConnEntry)
    requires
        keys_distinct(es),
        forall|i: int| 0 <= i < es.len() ==> (#[trigger] es[i]).0 != x.0,
        !order.contains(x.0),
    ensures
        removed(es.push(x), x.0) == es,
        without_id(order.push(x.0), x.0) == order,
{
    let t = es.push(x);
    assert(t[es.len() as int].0 == x.0);
    let i = key_index(t, x.0).unwrap();
    assert(i == es.len());
    assert(t.remove(i) =~= es);
    let o = order.push(x.0);
    assert(o[order.len() as int] == x.0);
    let k = id_index(o, x.0);
    assert(k == order.len());
    assert(o.remove(k) =~= order);
}

/// Adding a connection that evicts nothing and then removing it by its id
/// gives back the table as it was: the same caches, the same limits and
/// the same order of additions. (`added` is the table after
/// `add_connection` returned `Ok(None)`, `after` the table after
/// `remove_connection_by_id`, each as their contracts state.)
pub proof fn lemma_remove_after_add_restores(
    before: ConnectionTable,
    added: ConnectionTable,
    after: ConnectionTable,
    conn: ConnectionRecord,
)
    requires
        before.wf(),
        conn.flow.remote.protocol_type != ProtocolType::UDP,
        !before.has_id(conn.id),
        forall|q: int| 0 <= q < 3 ==> #[trigger] added.max_of(q) == before.max_of(q),
        forall|q: int|
            0 <= q < 3 && q != protocol_index(conn.flow.remote.protocol_type) ==> #[trigger] added.lru_of(q)
                == before.lru_of(q),
        added.lru_of(protocol_index(conn.flow.remote.protocol_type)) == before.lru_of(
            protocol_index(conn.flow.remote.protocol_type),
        ).push((conn.id, conn)),
        added.order() == before.order().push(conn.id),
        forall|q: int| 0 <= q < 3 ==> #[trigger] after.max_of(q) == added.max_of(q),
        forall|q: int| 0 <= q < 3 ==> #[trigger] after.lru_of(q) == removed(added.lru_of(q), conn.id),
        after.order() == without_id(added.order(), conn.id),
    ensures
        forall|q: int| 0 <= q < 3 ==> #[trigger] after.lru_of(q) == before.lru_of(q),
        forall|q: int| 0 <= q < 3 ==> #[trigger] after.max_of(q) == before.max_of(q),
        after.order() == before.order(),
{
    let p = protocol_index(conn.flow.remote.protocol_type);
    assert(!before.order().contains(conn.id));
    before.lemma_key_index_holds(p, conn.id);
    before.lemma_keys_distinct(p);
    let ep = before.lru_of(p);
    if key_index(ep, conn.id) is Some {
        assert(before.holds(ep[key_index(ep, conn.id).unwrap()]));
    }
    assert forall|i: int| 0 <= i < ep.len() implies (#[trigger] ep[i]).0 != conn.id by {
        assert(ep.contains(ep[i]));
    }
    lemma_remove_undoes_add(ep, before.order(), (conn.id, conn));
    assert forall|q: int| 0 <= q < 3 implies #[trigger] after.lru_of(q) == before.lru_of(q) by {
        before.lemma_key_index_holds(q, conn.id);
        let es = before.lru_of(q);
        if key_index(es, conn.id) is Some {
            assert(before.holds(es[key_index(es, conn.id).unwrap()]));
        }
        assert forall|i: int| 0 <= i < es.len() implies (#[trigger] es[i]).0 != conn.id by {
            assert(es.contains(es[i]));
        }
    }
}

/// Whether adding or removing a reference keeps the count in range.
pub open spec fn ref_change_ok(rec: ConnectionRecord, kind: ConnectionRefKind) -> bool {
    match kind {
        ConnectionRefKind::AddRef => rec.ref_count < u64::MAX,
        ConnectionRefKind::RemoveRef => rec.ref_count > 0,
    }
}

/// The record with one reference more or less.
pub open spec fn with_ref(rec: ConnectionRecord, kind: ConnectionRefKind) -> ConnectionRecord {
    match kind {
        ConnectionRefKind::AddRef => ConnectionRecord { ref_count: (rec.ref_count + 1) as u64, ..rec },
        ConnectionRefKind::RemoveRef => ConnectionRecord { ref_count: (rec.ref_count - 1) as u64, ..rec },
    }
}

/// The entries after the entry of key `k`, if any, gains or loses a
/// reference and becomes the most recently used.
pub open spec fn referenced(es: Seq<ConnEntry>, k: NetworkConnectionId, kind: ConnectionRefKind) -> Seq<ConnEntry> {
    match key_index(es, k) {
        Some(i) => es.remove(i).push((k, with_ref(es[i].1, kind))),
        None => es,
    }
}

} // verus!
