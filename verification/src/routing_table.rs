//! Choosing the peers to answer a search for the nodes closest to a key:
//! only peers with valid signed node info on the public internet, and, for
//! peers closer to the key than this node, only those whose distance to
//! the key is less than this node's.

use crate::key::{distance, lex_order, xor_bytes, DHTKey};
use crate::types::TypedKey;
use vstd::prelude::*;

verus! {

/// The outcome of a peer search.
#[derive(Debug)]
pub enum FindPeersResult<P> {
    /// The peers found.
    Value(Vec<P>),
    /// Our own node info is not known yet; the request is dropped.
    ServiceUnavailable,
    /// The key's cryptosystem is not supported.
    UnsupportedCryptosystem,
}

/// A node the routing table offers for a search, closest to the key first:
/// its node id for the key's cryptosystem (none for a node without one), whether it has valid signed node info on the public
/// internet, and its peer info.
pub struct PeerCandidate<P> {
    pub node_id: Option<DHTKey>,
    pub has_valid_signed_node_info: bool,
    pub peer_info: P,
}

/// The first `n` of `s`, or all of it.
pub open spec fn first_n<T>(s: Seq<T>, n: usize) -> Seq<T> {
    if s.len() <= n {
        s
    } else {
        s.take(n as int)
    }
}

/// The candidates with valid signed node info, in order.
pub open spec fn valid_candidates<P>(cs: Seq<PeerCandidate<P>>) -> Seq<PeerCandidate<P>>
    decreases cs.len(),
{
    if cs.len() == 0 {
        Seq::empty()
    } else if cs.last().has_valid_signed_node_info {
        valid_candidates(cs.drop_last()).push(cs.last())
    } else {
        valid_candidates(cs.drop_last())
    }
}

/// The peer infos of the candidates with valid signed node info, in order.
pub open spec fn valid_peers<P>(cs: Seq<PeerCandidate<P>>) -> Seq<P> {
    valid_candidates(cs).map_values(|c: PeerCandidate<P>| c.peer_info)
}

/// Whether candidate `a` is strictly closer to `key` than candidate `b`:
/// both have node ids, and `a`'s XOR distance to the key is the smaller.
pub open spec fn strictly_closer<P>(a: PeerCandidate<P>, b: PeerCandidate<P>, key: DHTKey) -> bool {
    &&& a.node_id is Some
    &&& b.node_id is Some
    &&& lex_order(
        xor_bytes(a.node_id->Some_0.bytes@, key.bytes@),
        xor_bytes(b.node_id->Some_0.bytes@, key.bytes@),
    ) < 0
}

/// Whether the candidates come closest first: no candidate is strictly
/// closer to `key` than one before it.
pub open spec fn ordered_by_distance<P>(cs: Seq<PeerCandidate<P>>, key: DHTKey) -> bool {
    forall|i: int, j: int| 0 <= i < j < cs.len() ==> !strictly_closer(#[trigger] cs[j], #[trigger] cs[i], key)
}

proof fn lemma_valid_candidates_ordered<P>(cs: Seq<PeerCandidate<P>>, key: DHTKey)
    requires
        ordered_by_distance(cs, key),
    ensures
        ordered_by_distance(valid_candidates(cs), key),
        forall|i: int|
            0 <= i < valid_candidates(cs).len() ==> exists|j: int|
                0 <= j < cs.len() && #[trigger] valid_candidates(cs)[i] == cs[j],
    decreases cs.len(),
{
    if cs.len() > 0 {
        let p = cs.drop_last();
        assert forall|i: int, j: int| 0 <= i < j < p.len() implies !strictly_closer(
            #[trigger] p[j],
            #[trigger] p[i],
            key,
        ) by {
            assert(p[i] == cs[i] && p[j] == cs[j]);
        }
        lemma_valid_candidates_ordered(p, key);
        let vp = valid_candidates(p);
        if cs.last().has_valid_signed_node_info {
            let v = valid_candidates(cs);
            assert(v == vp.push(cs.last()));
            assert forall|i: int, j: int| 0 <= i < j < v.len() implies !strictly_closer(
                #[trigger] v[j],
                #[trigger] v[i],
                key,
            ) by {
                if j < vp.len() {
                    assert(v[i] == vp[i] && v[j] == vp[j]);
                } else {
                    assert(v[i] == vp[i]);
                    let a = choose|a: int| 0 <= a < p.len() && #[trigger] vp[i] == p[a];
                    assert(p[a] == cs[a]);
                    assert(v[j] == cs[cs.len() - 1]);
                }
            }
            assert forall|i: int| 0 <= i < v.len() implies exists|j: int|
                0 <= j < cs.len() && #[trigger] v[i] == cs[j] by {
                if i < vp.len() {
                    let a = choose|a: int| 0 <= a < p.len() && #[trigger] vp[i] == p[a];
                    assert(v[i] == cs[a]);
                } else {
                    assert(v[i] == cs[cs.len() - 1]);
                }
            }
        } else {
            assert forall|i: int| 0 <= i < vp.len() implies exists|j: int|
                0 <= j < cs.len() && #[trigger] vp[i] == cs[j] by {
                let a = choose|a: int| 0 <= a < p.len() && #[trigger] vp[i] == p[a];
                assert(p[a] == cs[a]);
            }
        }
    }
}

/// Whether a candidate may answer a search for peers closer to `key` than a
/// node whose distance to it has the bytes `own_distance`: it is another
/// node, with valid signed node info, whose distance to the key is less.
pub open spec fn closer_candidate<P>(c: PeerCandidate<P>, key: DHTKey, own_distance: Seq<u8>) -> bool {
    &&& c.has_valid_signed_node_info
    &&& c.node_id matches Some(id) && id.valid && lex_order(xor_bytes(id.bytes@, key.bytes@), own_distance) < 0
}

/// The peer infos of the candidates that are closer than `own_distance`, in order.
pub open spec fn closer_peers<P>(cs: Seq<PeerCandidate<P>>, key: DHTKey, own_distance: Seq<u8>) -> Seq<P>
    decreases cs.len(),
{
    if cs.len() == 0 {
        Seq::empty()
    } else if closer_candidate(cs.last(), key, own_distance) {
        closer_peers(cs.drop_last(), key, own_distance).push(cs.last().peer_info)
    } else {
        closer_peers(cs.drop_last(), key, own_distance)
    }
}

/// What this node's routing table needs to answer peer searches: its node
/// ids, one per cryptosystem, and how many nodes a search returns.
pub struct RoutingTable {
    pub node_ids: Vec<TypedKey>,
    pub max_find_node_count: usize,
}

impl RoutingTable {
    /// Whether the table has a node id for the cryptosystem.
    pub open spec fn has_node_id(&self, kind: [u8; 4]) -> bool {
        exists|i: int| 0 <= i < self.node_ids@.len() && (#[trigger] self.node_ids@[i]).kind@ == kind@
    }

    /// The first node id of the cryptosystem.
    pub open spec fn spec_node_id(&self, kind: [u8; 4]) -> DHTKey {
        self.node_ids@[choose|i: int|
            0 <= i < self.node_ids@.len() && (#[trigger] self.node_ids@[i]).kind@ == kind@ && forall|j: int|
                0 <= j < i ==> (#[trigger] self.node_ids@[j]).kind@ != kind@].value
    }

    /// The node id of the cryptosystem: the first listed for it.
    pub fn node_id(&self, kind: &[u8; 4]) -> (r: DHTKey)
        requires
            self.has_node_id(*kind),
        ensures
            r == self.spec_node_id(*kind),
    {
        let mut i: usize = 0;
        while i < self.node_ids.len()
            invariant
                i <= self.node_ids@.len(),
                self.has_node_id(*kind),
                forall|j: int| 0 <= j < i ==> (#[trigger] self.node_ids@[j]).kind@ != kind@,
            decreases self.node_ids@.len() - i,
        {
            if kinds_equal(&self.node_ids[i].kind, kind) {
                proof {
                    let c = choose|c: int|
                        0 <= c < self.node_ids@.len() && (#[trigger] self.node_ids@[c]).kind@ == kind@ && forall|j: int|
                            0 <= j < c ==> (#[trigger] self.node_ids@[j]).kind@ != kind@;
                    assert(0 <= i < self.node_ids@.len() && self.node_ids@[i as int].kind@ == kind@ && forall|j: int|
                        0 <= j < i ==> (#[trigger] self.node_ids@[j]).kind@ != kind@);
                    if c < i {
                        assert(self.node_ids@[c].kind@ != kind@);
                    } else if c > i {
                        assert(self.node_ids@[i as int].kind@ != kind@);
                    }
                }
                return self.node_ids[i].value;
            }
            i += 1;
        }
        proof {
            let j = choose|j: int| 0 <= j < self.node_ids@.len() && (#[trigger] self.node_ids@[j]).kind@ == kind@;
            assert(self.node_ids@[j].kind@ != kind@);
        }
        self.node_ids[0].value
    }

    /// The peers closest to a key, including possibly our own node and nodes
    /// further from the key than ours: of the candidates, closest first,
    /// those with valid signed node info, at most as many as a search
    /// returns. Without our own node info the request is dropped. When the
    /// candidates come closest first, so do the peers returned, and no
    /// candidate with valid node info that is left out is strictly closer to
    /// the key than one returned.
    pub fn find_all_closest_peers<P>(
        &self,
        key: &TypedKey,
        own_peer_info_known: bool,
        candidates: Vec<PeerCandidate<P>>,
    ) -> (r: FindPeersResult<P>)
        ensures
            !own_peer_info_known ==> r is ServiceUnavailable,
            own_peer_info_known ==> (r matches FindPeersResult::Value(ps) && ps@ == first_n(
                valid_peers(candidates@),
                self.max_find_node_count,
            )),
            own_peer_info_known && ordered_by_distance(candidates@, key.value) ==> {
                let chosen = first_n(valid_candidates(candidates@), self.max_find_node_count);
                &&& ordered_by_distance(chosen, key.value)
                &&& forall|k: int, m: int|
                    self.max_find_node_count <= k < valid_candidates(candidates@).len() && 0 <= m < chosen.len()
                        ==> !strictly_closer(
                        #[trigger] valid_candidates(candidates@)[k],
                        #[trigger] chosen[m],
                        key.value,
                    )
            },
    {
        proof {
            if ordered_by_distance(candidates@, key.value) {
                lemma_valid_candidates_ordered(candidates@, key.value);
                let vc = valid_candidates(candidates@);
                let chosen = first_n(vc, self.max_find_node_count);
                assert forall|i: int, j: int| 0 <= i < j < chosen.len() implies !strictly_closer(
                    #[trigger] chosen[j],
                    #[trigger] chosen[i],
                    key.value,
                ) by {
                    assert(chosen[i] == vc[i] && chosen[j] == vc[j]);
                }
                assert forall|k: int, m: int|
                    self.max_find_node_count <= k < vc.len() && 0 <= m < chosen.len() implies !strictly_closer(
                    #[trigger] vc[k],
                    #[trigger] chosen[m],
                    key.value,
                ) by {
                    assert(chosen[m] == vc[m]);
                }
            }
        }
        if !own_peer_info_known {
            return FindPeersResult::ServiceUnavailable;
        }
        let ghost cs = candidates@;
        let mut out: Vec<P> = Vec::new();
        let mut i: usize = 0;
        let total = candidates.len();
        let mut rest = candidates;
        while rest.len() > 0
            invariant
                i <= cs.len(),
                cs.len() == total,
                rest@ == cs.skip(i as int),
                out@ == valid_peers(cs.take(i as int)),
            decreases rest@.len(),
        {
            let c = rest.remove(0);
            proof {
                assert(c == cs[i as int]);
                assert(cs.take(i + 1).drop_last() =~= cs.take(i as int));
                assert(rest@ =~= cs.skip(i + 1));
            }
            let ghost before = out@;
            if c.has_valid_signed_node_info {
                out.push(c.peer_info);
            }
            i += 1;
            proof {
                let vprev = valid_candidates(cs.take(i - 1));
                if c.has_valid_signed_node_info {
                    assert(valid_candidates(cs.take(i as int)) == vprev.push(c));
                    assert(vprev.push(c).map_values(|x: PeerCandidate<P>| x.peer_info) =~= vprev.map_values(
                        |x: PeerCandidate<P>| x.peer_info,
                    ).push(c.peer_info));
                } else {
                    assert(valid_candidates(cs.take(i as int)) == vprev);
                }
            }
        }
        proof {
            assert(cs.take(i as int) =~= cs);
        }
        FindPeersResult::Value(truncated(out, self.max_find_node_count))
    }

    /// The peers closer to a key than our own node: of the candidates,
    /// closest first, those with valid signed node info whose distance to
    /// the key is less than ours, at most as many as a search returns. A
    /// key of an unsupported cryptosystem is refused.
    pub fn find_peers_closer_to_key<P>(
        &self,
        key: TypedKey,
        crypto_supported: bool,
        candidates: Vec<PeerCandidate<P>>,
    ) -> (r: FindPeersResult<P>)
        requires
            self.has_node_id(key.kind),
            self.spec_node_id(key.kind).valid,
            key.value.valid,
        ensures
            !crypto_supported ==> r is UnsupportedCryptosystem,
            crypto_supported ==> (r matches FindPeersResult::Value(ps) && ps@ == first_n(
                closer_peers(
                    candidates@,
                    key.value,
                    xor_bytes(self.spec_node_id(key.kind).bytes@, key.value.bytes@),
                ),
                self.max_find_node_count,
            )),
    {
        let own_node_id = self.node_id(&key.kind);
        if !crypto_supported {
            return FindPeersResult::UnsupportedCryptosystem;
        }
        let own_distance = distance(&own_node_id, &key.value);
        let ghost cs = candidates@;
        let mut out: Vec<P> = Vec::new();
        let mut i: usize = 0;
        let total = candidates.len();
        let mut rest = candidates;
        while rest.len() > 0
            invariant
                i <= cs.len(),
                cs.len() == total,
                rest@ == cs.skip(i as int),
                key.value.valid,
                own_distance.valid,
                own_distance.bytes@ == xor_bytes(own_node_id.bytes@, key.value.bytes@),
                out@ == closer_peers(cs.take(i as int), key.value, own_distance.bytes@),
            decreases rest@.len(),
        {
            {
                {
                    let c = rest.remove(0);
                    proof {
                        assert(c == cs[i as int]);
                        assert(cs.take(i + 1).drop_last() =~= cs.take(i as int));
                        assert(rest@ =~= cs.skip(i + 1));
                    }
                    if c.has_valid_signed_node_info {
                        match c.node_id {
                            Some(id) => {
                                if id.valid {
                                    let d = distance(&id, &key.value);
                                    if d < own_distance {
                                        out.push(c.peer_info);
                                    }
                                }
                            },
                            None => {},
                        }
                    }
                    i += 1;
                }
            }
        }
        proof {
            assert(cs.take(i as int) =~= cs);
        }
        FindPeersResult::Value(truncated(out, self.max_find_node_count))
    }
}

fn kinds_equal(a: &[u8; 4], b: &[u8; 4]) -> (r: bool)
    ensures
        r == (a@ == b@),
{
    let mut i: usize = 0;
    while i < 4
        invariant
            i <= 4,
            forall|k: int| 0 <= k < i ==> a@[k] == b@[k],
        decreases 4 - i,
    {
        if a[i] != b[i] {
            return false;
        }
        i += 1;
    }
    assert(a@ =~= b@);
    true
}

/// The first `n` items of `v`, or all of them.
fn truncated<T>(v: Vec<T>, n: usize) -> (r: Vec<T>)
    ensures
        r@ == first_n(v@, n),
{
    let mut v = v;
    if v.len() > n {
        v.truncate(n);
    }
    v
}

} // verus!
