//! The WatchValue question and answer of the RPC protocol: their limits,
//! the bytes a watcher signs, and their validation.

use crate::subkeys::{subkey_ranges, subkey_set, subkeys_wf, subkey_interval, ValueSubkeyRangeSet};
use crate::types::{KeyPair, PublicKey, RPCError, SecretKey, Signature, TypedKey};
use vstd::prelude::*;

verus! {

/// The most subkeys a WatchValue question may name.
pub const MAX_WATCH_VALUE_Q_SUBKEYS_LEN: usize = 512;

/// The most peers a WatchValue answer may carry.
pub const MAX_WATCH_VALUE_A_PEERS_LEN: usize = 20;

/// Little-endian bytes of a `u32`.
pub open spec fn le_u32(v: u32) -> Seq<u8> {
    seq![(v & 0xFF) as u8, ((v >> 8u32) & 0xFF) as u8, ((v >> 16u32) & 0xFF) as u8, ((v >> 24u32) & 0xFF) as u8]
}

/// Little-endian bytes of a `u64`.
pub open spec fn le_u64(v: u64) -> Seq<u8> {
    le_u32((v & 0xFFFF_FFFF) as u32) + le_u32(((v >> 32u64) & 0xFFFF_FFFF) as u32)
}

/// Start and end of each range, little-endian, in order.
pub open spec fn ranges_bytes(rs: Seq<(u32, u32)>) -> Seq<u8>
    decreases rs.len(),
{
    if rs.len() == 0 {
        Seq::empty()
    } else {
        ranges_bytes(rs.drop_last()) + le_u32(rs.last().0) + le_u32(rs.last().1)
    }
}

/// The bytes a watcher signs: crypto kind, key, the subkey ranges, expiration and count.
pub open spec fn watch_signature_data(
    key: TypedKey,
    ranges: Seq<(u32, u32)>,
    expiration: u64,
    count: u32,
) -> Seq<u8> {
    key.kind@ + key.value.bytes@ + ranges_bytes(ranges) + le_u64(expiration) + le_u32(count)
}

fn le_bytes_u32(v: u32) -> (r: [u8; 4])
    ensures
        r@ == le_u32(v),
{
    let r = [(v & 0xFF) as u8, ((v >> 8u32) & 0xFF) as u8, ((v >> 16u32) & 0xFF) as u8, ((v >> 24u32) & 0xFF) as u8];
    assert(r@ =~= le_u32(v));
    r
}

fn push_bytes(out: &mut Vec<u8>, b: &[u8])
    ensures
        final(out)@ == old(out)@ + b@,
{
    let mut i: usize = 0;
    while i < b.len()
        invariant
            i <= b@.len(),
            out@ == old(out)@ + b@.subrange(0, i as int),
        decreases b@.len() - i,
    {
        out.push(b[i]);
        i += 1;
        assert(out@ =~= old(out)@ + b@.subrange(0, i as int));
    }
    assert(b@.subrange(0, b@.len() as int) =~= b@);
}

/// The bytes that a watcher's signature covers.
pub fn make_signature_data(
    key: &TypedKey,
    subkeys: &ValueSubkeyRangeSet,
    expiration: u64,
    count: u32,
) -> (r: Vec<u8>)
    ensures
        r@ == watch_signature_data(*key, subkey_ranges(*subkeys), expiration, count),
{
    let mut sig_data: Vec<u8> = Vec::new();
    push_bytes(&mut sig_data, &key.kind);
    push_bytes(&mut sig_data, &key.value.bytes);
    let ghost prefix = sig_data@;
    let ranges = subkeys.ranges();
    let mut i: usize = 0;
    while i < ranges.len()
        invariant
            i <= ranges@.len(),
            ranges@ == subkey_ranges(*subkeys),
            prefix == key.kind@ + key.value.bytes@,
            sig_data@ == prefix + ranges_bytes(ranges@.subrange(0, i as int)),
        decreases ranges@.len() - i,
    {
        let (start, end) = ranges[i];
        push_bytes(&mut sig_data, &le_bytes_u32(start));
        push_bytes(&mut sig_data, &le_bytes_u32(end));
        proof {
            assert(ranges@.subrange(0, i + 1).drop_last() =~= ranges@.subrange(0, i as int));
        }
        i += 1;
    }
    assert(ranges@.subrange(0, ranges@.len() as int) =~= ranges@);
    push_bytes(&mut sig_data, &le_bytes_u32((expiration & 0xFFFF_FFFF) as u32));
    push_bytes(&mut sig_data, &le_bytes_u32(((expiration >> 32u64) & 0xFFFF_FFFF) as u32));
    push_bytes(&mut sig_data, &le_bytes_u32(count));
    assert(sig_data@ =~= watch_signature_data(*key, subkey_ranges(*subkeys), expiration, count));
    sig_data
}


/// A protocol error with the given text.
pub open spec fn is_protocol_error(e: RPCError, msg: Seq<char>) -> bool {
    e matches RPCError::Protocol(m) && m@ == msg
}

impl Clone for RPCOperationWatchValueQ {
    /// A copy of the question: the same key, subkeys, expiration, count and
    /// watcher signature, so taking it apart gives back the same fields.
    fn clone(&self) -> (r: Self)
        ensures
            r.spec_key() == self.spec_key(),
            subkey_set(r.spec_subkeys()) == subkey_set(self.spec_subkeys()),
            subkey_ranges(r.spec_subkeys()) == subkey_ranges(self.spec_subkeys()),
            r.spec_expiration() == self.spec_expiration(),
            r.spec_count() == self.spec_count(),
            r.spec_watch_signature() == self.spec_watch_signature(),
            r.spec_signature_data() == self.spec_signature_data(),
            self.wf() ==> r.wf(),
    {
        RPCOperationWatchValueQ {
            key: self.key,
            subkeys: self.subkeys.duplicate(),
            expiration: self.expiration,
            count: self.count,
            opt_watch_signature: self.opt_watch_signature,
        }
    }
}

/// `sign`, called with the watcher's key and secret and bytes `data`, may
/// return `out`.
pub open spec fn signs<F>(sign: F, watcher: KeyPair, data: Seq<u8>, out: Result<Signature, String>) -> bool where
    F: FnOnce(&PublicKey, &SecretKey, &Vec<u8>) -> Result<Signature, String>,
 {
    exists|d: Vec<u8>| d@ == data && #[trigger] sign.ensures((&watcher.key, &watcher.secret, &d), out)
}

/// `verify`, called with key `pk`, bytes `data` and signature `sig`, may
/// return `out`.
pub open spec fn verifies<G>(verify: G, pk: PublicKey, data: Seq<u8>, sig: Signature, out: Result<(), String>) -> bool where
    G: FnOnce(&PublicKey, &Vec<u8>, &Signature) -> Result<(), String>,
 {
    exists|d: Vec<u8>| d@ == data && #[trigger] verify.ensures((&pk, &d, &sig), out)
}

/// A question asking a node to watch subkeys of a record for changes.
#[derive(Debug)]
pub struct RPCOperationWatchValueQ {
    key: TypedKey,
    subkeys: ValueSubkeyRangeSet,
    expiration: u64,
    count: u32,
    opt_watch_signature: Option<(PublicKey, Signature)>,
}

impl RPCOperationWatchValueQ {
    pub closed spec fn spec_key(&self) -> TypedKey {
        self.key
    }

    pub closed spec fn spec_subkeys(&self) -> ValueSubkeyRangeSet {
        self.subkeys
    }

    pub closed spec fn spec_expiration(&self) -> u64 {
        self.expiration
    }

    pub closed spec fn spec_count(&self) -> u32 {
        self.count
    }

    pub closed spec fn spec_watch_signature(&self) -> Option<(PublicKey, Signature)> {
        self.opt_watch_signature
    }

    /// A well-formed question names at most `MAX_WATCH_VALUE_Q_SUBKEYS_LEN` subkeys.
    pub closed spec fn wf(&self) -> bool {
        subkeys_wf(self.subkeys) && subkey_set(self.subkeys).len() <= MAX_WATCH_VALUE_Q_SUBKEYS_LEN
    }

    /// The bytes that this question's watcher signature covers, as a sequence.
    pub open spec fn spec_signature_data(&self) -> Seq<u8> {
        watch_signature_data(
            self.spec_key(),
            subkey_ranges(self.spec_subkeys()),
            self.spec_expiration(),
            self.spec_count(),
        )
    }

    /// The result of validating a question that carries a watcher signature:
    /// the verifier's answer on the watcher's key, the signed bytes and the
    /// signature, its failure a protocol error.
    pub open spec fn validated_by<G>(q: Self, verify: G, r: Result<(), RPCError>) -> bool where
        G: FnOnce(&PublicKey, &Vec<u8>, &Signature) -> Result<(), String>,
     {
        exists|out: Result<(), String>|
            #[trigger] verifies(
                verify,
                q.spec_watch_signature()->Some_0.0,
                q.spec_signature_data(),
                q.spec_watch_signature()->Some_0.1,
                out,
            ) && match out {
                Ok(()) => r is Ok,
                Err(msg) => r matches Err(e) && is_protocol_error(e, msg@),
            }
    }

    /// Builds a question. With a watcher, `sign` is called once, after the
    /// subkey count is checked, with the watcher's key, secret and the bytes
    /// of `make_signature_data` of the other fields; its signature is kept
    /// with the watcher's key, and its failure is a protocol error. Fails
    /// when more than `MAX_WATCH_VALUE_Q_SUBKEYS_LEN` subkeys are named.
    pub fn new<F>(
        key: TypedKey,
        subkeys: ValueSubkeyRangeSet,
        expiration: u64,
        count: u32,
        opt_watcher: Option<KeyPair>,
        sign: F,
    ) -> (r: Result<Self, RPCError>) where
        F: FnOnce(&PublicKey, &SecretKey, &Vec<u8>) -> Result<Signature, String>,

        requires
            subkeys_wf(subkeys),
            forall|pk: &PublicKey, sk: &SecretKey, d: &Vec<u8>| #[trigger] sign.requires((pk, sk, d)),
        ensures
            subkey_set(subkeys).len() > MAX_WATCH_VALUE_Q_SUBKEYS_LEN ==> (r matches Err(e)
                && is_protocol_error(e, "WatchValueQ subkeys length too long"@)),
            subkey_set(subkeys).len() <= MAX_WATCH_VALUE_Q_SUBKEYS_LEN && opt_watcher is None ==> (r matches Ok(q)
                && q.spec_watch_signature() is None),
            subkey_set(subkeys).len() <= MAX_WATCH_VALUE_Q_SUBKEYS_LEN && opt_watcher is Some ==> match r {
                Ok(q) => exists|sig: Signature|
                    q.spec_watch_signature() == Some((opt_watcher->Some_0.key, sig)) && #[trigger] signs(
                        sign,
                        opt_watcher->Some_0,
                        watch_signature_data(key, subkey_ranges(subkeys), expiration, count),
                        Ok::<Signature, String>(sig),
                    ),
                Err(e) => exists|msg: String|
                    is_protocol_error(e, msg@) && #[trigger] signs(
                        sign,
                        opt_watcher->Some_0,
                        watch_signature_data(key, subkey_ranges(subkeys), expiration, count),
                        Err::<Signature, String>(msg),
                    ),
            },
            r matches Ok(q) ==> {
                &&& q.wf()
                &&& q.spec_key() == key
                &&& q.spec_subkeys() == subkeys
                &&& q.spec_expiration() == expiration
                &&& q.spec_count() == count
            },
    {
        let subkeys_len = subkeys.len();
        if subkeys_len > 512u64 {
            return Err(RPCError::Protocol(String::from_str("WatchValueQ subkeys length too long")));
        }
        let opt_watch_signature = match opt_watcher {
            Some(watcher) => {
                let signature_data = make_signature_data(&key, &subkeys, expiration, count);
                let out = sign(&watcher.key, &watcher.secret, &signature_data);
                proof {
                    assert(signs(
                        sign,
                        watcher,
                        watch_signature_data(key, subkey_ranges(subkeys), expiration, count),
                        out,
                    ));
                }
                match out {
                    Ok(signature) => Some((watcher.key, signature)),
                    Err(e) => {
                        return Err(RPCError::Protocol(e));
                    },
                }
            },
            None => None,
        };
        Ok(RPCOperationWatchValueQ { key, subkeys, expiration, count, opt_watch_signature })
    }

    /// Checks the question: its cryptosystem must be supported (`has_crypto`);
    /// when it carries a watcher signature, `verify` is called once with the
    /// watcher's key, the bytes of `make_signature_data` of the question and
    /// the signature, and its failure is a protocol error.
    pub fn validate<G>(&self, has_crypto: bool, verify: G) -> (r: Result<(), RPCError>) where
        G: FnOnce(&PublicKey, &Vec<u8>, &Signature) -> Result<(), String>,

        requires
            forall|pk: &PublicKey, d: &Vec<u8>, sig: &Signature| #[trigger] verify.requires((pk, d, sig)),
        ensures
            !has_crypto ==> (r matches Err(e) && is_protocol_error(e, "unsupported cryptosystem"@)),
            has_crypto && self.spec_watch_signature() is None ==> r is Ok,
            has_crypto && self.spec_watch_signature() is Some ==> Self::validated_by(*self, verify, r),
    {
        if !has_crypto {
            return Err(RPCError::Protocol(String::from_str("unsupported cryptosystem")));
        }
        match &self.opt_watch_signature {
            Some(ws) => {
                let sig_data = make_signature_data(&self.key, &self.subkeys, self.expiration, self.count);
                let out = verify(&ws.0, &sig_data, &ws.1);
                proof {
                    assert(verifies(verify, ws.0, self.spec_signature_data(), ws.1, out));
                }
                match out {
                    Ok(()) => Ok(()),
                    Err(e) => Err(RPCError::Protocol(e)),
                }
            },
            None => Ok(()),
        }
    }

    /// The bytes that this question's watcher signature covers.
    pub fn signature_data(&self) -> (r: Vec<u8>)
        ensures
            r@ == watch_signature_data(
                self.spec_key(),
                subkey_ranges(self.spec_subkeys()),
                self.spec_expiration(),
                self.spec_count(),
            ),
    {
        make_signature_data(&self.key, &self.subkeys, self.expiration, self.count)
    }

    pub fn key(&self) -> (r: &TypedKey)
        ensures
            *r == self.spec_key(),
    {
        &self.key
    }

    pub fn subkeys(&self) -> (r: &ValueSubkeyRangeSet)
        ensures
            *r == self.spec_subkeys(),
    {
        &self.subkeys
    }

    pub fn expiration(&self) -> (r: u64)
        ensures
            r == self.spec_expiration(),
    {
        self.expiration
    }

    pub fn count(&self) -> (r: u32)
        ensures
            r == self.spec_count(),
    {
        self.count
    }

    pub fn opt_watch_signature(&self) -> (r: Option<&(PublicKey, Signature)>)
        ensures
            match self.spec_watch_signature() {
                Some(ws) => r == Some(&ws),
                None => r is None,
            },
    {
        self.opt_watch_signature.as_ref()
    }

    pub fn destructure(self) -> (r: (
        TypedKey,
        ValueSubkeyRangeSet,
        u64,
        u32,
        Option<(PublicKey, Signature)>,
    ))
        ensures
            r == (
                self.spec_key(),
                self.spec_subkeys(),
                self.spec_expiration(),
                self.spec_count(),
                self.spec_watch_signature(),
            ),
    {
        (self.key, self.subkeys, self.expiration, self.count, self.opt_watch_signature)
    }

    /// Builds a question from its decoded wire fields. `key` and
    /// `opt_watch_signature` are the outcomes of decoding those fields; the
    /// subkeys arrive as inclusive ranges, which must be at most
    /// `MAX_WATCH_VALUE_Q_SUBKEYS_LEN` in number, each non-empty, in
    /// ascending order and already merged.
    pub fn decode(
        key: Result<TypedKey, RPCError>,
        subkey_ranges_in: &Vec<(u32, u32)>,
        expiration: u64,
        count: u32,
        opt_watch_signature: Result<Option<(PublicKey, Signature)>, RPCError>,
    ) -> (r: Result<Self, RPCError>)
        ensures
            key matches Err(e) ==> r == Err::<Self, RPCError>(e),
            key is Ok ==> match decode_subkey_ranges_outcome(subkey_ranges_in@) {
                Err(msg) => r matches Err(e) && is_protocol_error(e, msg),
                Ok(()) => match opt_watch_signature {
                    Err(e) => r == Err::<Self, RPCError>(e),
                    Ok(ows) => r matches Ok(q) && q.spec_key() == key->Ok_0 && subkey_set(
                        q.spec_subkeys(),
                    ) == pairs_union(subkey_ranges_in@, subkey_ranges_in@.len() as int)
                        && q.spec_expiration() == expiration && q.spec_count() == count
                        && q.spec_watch_signature() == ows,
                },
            },
    {
        let key = match key {
            Ok(k) => k,
            Err(e) => {
                return Err(e);
            },
        };
        let subkeys = match decode_subkey_ranges(subkey_ranges_in) {
            Ok(s) => s,
            Err(e) => {
                return Err(e);
            },
        };
        let opt_watch_signature = match opt_watch_signature {
            Ok(ows) => ows,
            Err(e) => {
                return Err(e);
            },
        };
        Ok(RPCOperationWatchValueQ { key, subkeys, expiration, count, opt_watch_signature })
    }

    /// The fields to write on the wire: key, subkey ranges, expiration, count
    /// and the optional watcher signature.
    pub fn encode(&self) -> (r: (
        TypedKey,
        Vec<(u32, u32)>,
        u64,
        u32,
        Option<(PublicKey, Signature)>,
    ))
        ensures
            r.0 == self.spec_key(),
            r.1@ == subkey_ranges(self.spec_subkeys()),
            r.2 == self.spec_expiration(),
            r.3 == self.spec_count(),
            r.4 == self.spec_watch_signature(),
    {
        (self.key, self.subkeys.ranges(), self.expiration, self.count, self.opt_watch_signature)
    }
}

/// Range `i` of a decoded list is non-empty and starts after the end of range `i - 1`.
pub open spec fn range_pair_ok(p: Seq<(u32, u32)>, i: int) -> bool {
    p[i].0 <= p[i].1 && (i == 0 || p[i - 1].1 < p[i].0)
}

/// The union of the first `n` ranges of a list.
pub open spec fn pairs_union(p: Seq<(u32, u32)>, n: int) -> Set<u32>
    decreases n,
{
    if n <= 0 {
        Set::empty()
    } else {
        pairs_union(p, n - 1).union(subkey_interval(p[n - 1].0, p[n - 1].1))
    }
}

/// The outcome of checking a decoded list of subkey ranges: the error text
/// for too many ranges, or for the first range that is empty
/// ("invalid subkey range") or does not start after its predecessor
/// ("subkey range out of order or not merged").
pub open spec fn decode_subkey_ranges_outcome(p: Seq<(u32, u32)>) -> Result<(), Seq<char>> {
    if p.len() > MAX_WATCH_VALUE_Q_SUBKEYS_LEN {
        Err("WatchValueQ subkeys length too long"@)
    } else if forall|i: int| 0 <= i < p.len() ==> range_pair_ok(p, i) {
        Ok(())
    } else {
        let i = choose|i: int|
            0 <= i < p.len() && !range_pair_ok(p, i) && forall|j: int|
                0 <= j < i ==> range_pair_ok(p, j);
        if p[i].0 > p[i].1 {
            Err("invalid subkey range"@)
        } else {
            Err("subkey range out of order or not merged"@)
        }
    }
}

proof fn lemma_first_bad_range(p: Seq<(u32, u32)>, i: int)
    requires
        0 <= i < p.len(),
        !range_pair_ok(p, i),
        forall|j: int| 0 <= j < i ==> range_pair_ok(p, j),
    ensures
        forall|k: int|
            0 <= k < p.len() && !range_pair_ok(p, k) && (forall|j: int|
                0 <= j < k ==> range_pair_ok(p, j)) ==> k == i,
{
    assert forall|k: int|
        0 <= k < p.len() && !range_pair_ok(p, k) && (forall|j: int|
            0 <= j < k ==> range_pair_ok(p, j)) implies k == i by {
        if k < i {
            assert(range_pair_ok(p, k));
        } else if k > i {
            assert(range_pair_ok(p, i));
        }
    }
}

/// A question built with a watcher passes validation whenever the verifier
/// accepts every signature the signer makes: validation checks the
/// watcher's key, the very bytes the signer signed and the signature it
/// returned.
pub proof fn lemma_signed_question_validates<F, G>(
    q: RPCOperationWatchValueQ,
    key: TypedKey,
    subkeys: ValueSubkeyRangeSet,
    expiration: u64,
    count: u32,
    watcher: KeyPair,
    sign: F,
    verify: G,
    r: Result<(), RPCError>,
) where
    F: FnOnce(&PublicKey, &SecretKey, &Vec<u8>) -> Result<Signature, String>,
    G: FnOnce(&PublicKey, &Vec<u8>, &Signature) -> Result<(), String>,

    requires
        q.spec_key() == key,
        q.spec_subkeys() == subkeys,
        q.spec_expiration() == expiration,
        q.spec_count() == count,
        exists|sig: Signature|
            q.spec_watch_signature() == Some((watcher.key, sig)) && #[trigger] signs(
                sign,
                watcher,
                watch_signature_data(key, subkey_ranges(subkeys), expiration, count),
                Ok::<Signature, String>(sig),
            ),
        forall|data: Seq<u8>, sig: Signature, out: Result<(), String>|
            #[trigger] signs(sign, watcher, data, Ok::<Signature, String>(sig)) && #[trigger] verifies(
                verify,
                watcher.key,
                data,
                sig,
                out,
            ) ==> out is Ok,
        RPCOperationWatchValueQ::validated_by(q, verify, r),
    ensures
        r is Ok,
{
    let sig = choose|sig: Signature|
        q.spec_watch_signature() == Some((watcher.key, sig)) && #[trigger] signs(
            sign,
            watcher,
            watch_signature_data(key, subkey_ranges(subkeys), expiration, count),
            Ok::<Signature, String>(sig),
        );
    let out = choose|out: Result<(), String>|
        #[trigger] verifies(
            verify,
            q.spec_watch_signature()->Some_0.0,
            q.spec_signature_data(),
            q.spec_watch_signature()->Some_0.1,
            out,
        ) && match out {
            Ok(()) => r is Ok,
            Err(msg) => r matches Err(e) && is_protocol_error(e, msg@),
        };
    assert(signs(sign, watcher, q.spec_signature_data(), Ok::<Signature, String>(sig)));
    assert(verifies(verify, watcher.key, q.spec_signature_data(), sig, out));
}

/// Builds the subkey set of a decoded list of inclusive ranges, checking the
/// list as `decode_subkey_ranges_outcome` describes.
pub fn decode_subkey_ranges(p: &Vec<(u32, u32)>) -> (r: Result<ValueSubkeyRangeSet, RPCError>)
    ensures
        match decode_subkey_ranges_outcome(p@) {
            Err(msg) => r matches Err(e) && is_protocol_error(e, msg),
            Ok(()) => r matches Ok(s) && subkeys_wf(s) && subkey_set(s) == pairs_union(
                p@,
                p@.len() as int,
            ),
        },
{
    if p.len() > MAX_WATCH_VALUE_Q_SUBKEYS_LEN {
        return Err(RPCError::Protocol(String::from_str("WatchValueQ subkeys length too long")));
    }
    let mut subkeys = ValueSubkeyRangeSet::new();
    let mut i: usize = 0;
    assert(subkey_set(subkeys) =~= pairs_union(p@, 0));
    while i < p.len()
        invariant
            i <= p@.len(),
            p@.len() <= MAX_WATCH_VALUE_Q_SUBKEYS_LEN,
            forall|j: int| 0 <= j < i ==> range_pair_ok(p@, j),
            subkeys_wf(subkeys),
            subkey_set(subkeys) == pairs_union(p@, i as int),
            i == 0 ==> subkey_set(subkeys) == Set::<u32>::empty(),
            i > 0 ==> subkey_set(subkeys).contains(p@[i - 1].1) && forall|v: u32|
                #[trigger] subkey_set(subkeys).contains(v) ==> v <= p@[i - 1].1,
        decreases p@.len() - i,
    {
        let (start, end) = p[i];
        if start > end {
            proof {
                lemma_first_bad_range(p@, i as int);
            }
            return Err(RPCError::Protocol(String::from_str("invalid subkey range")));
        }
        match subkeys.last() {
            Some(last) => {
                if last >= start {
                    proof {
                        assert(!range_pair_ok(p@, i as int));
                        lemma_first_bad_range(p@, i as int);
                    }
                    return Err(
                        RPCError::Protocol(
                            String::from_str("subkey range out of order or not merged"),
                        ),
                    );
                }
            },
            None => {},
        }
        assert(range_pair_ok(p@, i as int));
        subkeys.ranges_insert(start, end);
        proof {
            assert(subkey_set(subkeys).contains(end));
        }
        i += 1;
    }
    Ok(subkeys)
}

/// The answer to a WatchValue question: when the watch expires and peers
/// closer to the record.
#[derive(Debug)]
pub struct RPCOperationWatchValueA<P> {
    expiration: u64,
    peers: Vec<P>,
}

impl<P> RPCOperationWatchValueA<P> {
    pub closed spec fn spec_expiration(&self) -> u64 {
        self.expiration
    }

    pub closed spec fn spec_peers(&self) -> Seq<P> {
        self.peers@
    }

    /// Builds an answer; fails with more than `MAX_WATCH_VALUE_A_PEERS_LEN` peers.
    pub fn new(expiration: u64, peers: Vec<P>) -> (r: Result<Self, RPCError>)
        ensures
            peers@.len() > MAX_WATCH_VALUE_A_PEERS_LEN ==> (r matches Err(e) && is_protocol_error(
                e,
                "WatchValueA peers length too long"@,
            )),
            peers@.len() <= MAX_WATCH_VALUE_A_PEERS_LEN ==> (r matches Ok(a)
                && a.spec_expiration() == expiration && a.spec_peers() == peers@),
    {
        if peers.len() > MAX_WATCH_VALUE_A_PEERS_LEN {
            return Err(RPCError::Protocol(String::from_str("WatchValueA peers length too long")));
        }
        Ok(RPCOperationWatchValueA { expiration, peers })
    }

    /// Drops the peers whose signed node information did not validate:
    /// `keep[i]` tells whether peer `i` validated. Always succeeds.
    pub fn validate(&mut self, keep: &Vec<bool>) -> (r: Result<(), RPCError>)
        requires
            keep@.len() == old(self).spec_peers().len(),
        ensures
            r is Ok,
            final(self).spec_expiration() == old(self).spec_expiration(),
            final(self).spec_peers() == kept_peers(old(self).spec_peers(), keep@, keep@.len() as int),
    {
        let mut kept: Vec<P> = Vec::new();
        let mut rest: Vec<P> = Vec::new();
        core::mem::swap(&mut rest, &mut self.peers);
        let ghost all = rest@;
        let mut i: usize = 0;
        while i < keep.len()
            invariant
                i <= keep@.len(),
                keep@.len() == all.len(),
                all == old(self).spec_peers(),
                rest@ == all.subrange(i as int, all.len() as int),
                kept@ == kept_peers(all, keep@, i as int),
                self.expiration == old(self).spec_expiration(),
            decreases keep@.len() - i,
        {
            let p = rest.remove(0);
            if keep[i] {
                kept.push(p);
            }
            i += 1;
            assert(rest@ =~= all.subrange(i as int, all.len() as int));
        }
        self.peers = kept;
        Ok(())
    }

    pub fn expiration(&self) -> (r: u64)
        ensures
            r == self.spec_expiration(),
    {
        self.expiration
    }

    pub fn peers(&self) -> (r: &[P])
        ensures
            r@ == self.spec_peers(),
    {
        self.peers.as_slice()
    }

    pub fn destructure(self) -> (r: (u64, Vec<P>))
        ensures
            r.0 == self.spec_expiration(),
            r.1@ == self.spec_peers(),
    {
        (self.expiration, self.peers)
    }

    /// Builds an answer from its wire fields: more than
    /// `MAX_WATCH_VALUE_A_PEERS_LEN` peers are refused before any is decoded;
    /// otherwise each peer is decoded in order with `decode_peer`, and the
    /// first failure fails the answer.
    pub fn decode<R, F>(expiration: u64, peers_in: &Vec<R>, decode_peer: F) -> (r: Result<Self, RPCError>) where
        F: Fn(&R) -> Result<P, RPCError>,

        requires
            forall|x: &R| #[trigger] decode_peer.requires((x,)),
        ensures
            peers_in@.len() > MAX_WATCH_VALUE_A_PEERS_LEN ==> (r matches Err(e) && is_protocol_error(
                e,
                "WatchValueA peers length too long"@,
            )),
            peers_in@.len() <= MAX_WATCH_VALUE_A_PEERS_LEN ==> (r matches Err(e) ==> exists|i: int|
                0 <= i < peers_in@.len() && #[trigger] decode_peer.ensures(
                    (&peers_in@[i],),
                    Err::<P, RPCError>(e),
                )),
            r matches Ok(a) ==> a.spec_expiration() == expiration && a.spec_peers().len() == peers_in@.len()
                && forall|i: int|
                0 <= i < peers_in@.len() ==> #[trigger] decode_peer.ensures(
                    (&peers_in@[i],),
                    Ok::<P, RPCError>(a.spec_peers()[i]),
                ),
    {
        if peers_in.len() > MAX_WATCH_VALUE_A_PEERS_LEN {
            return Err(RPCError::Protocol(String::from_str("WatchValueA peers length too long")));
        }
        let mut peers: Vec<P> = Vec::new();
        let mut i: usize = 0;
        let n = peers_in.len();
        while i < n
            invariant
                i <= n,
                n == peers_in@.len(),
                n <= MAX_WATCH_VALUE_A_PEERS_LEN,
                forall|x: &R| #[trigger] decode_peer.requires((x,)),
                peers@.len() == i,
                forall|k: int|
                    0 <= k < i ==> #[trigger] decode_peer.ensures((&peers_in@[k],), Ok::<P, RPCError>(peers@[k])),
            decreases n - i,
        {
            let item = decode_peer(&peers_in[i]);
            match item {
                Ok(p) => {
                    peers.push(p);
                },
                Err(e) => {
                    assert(decode_peer.ensures((&peers_in@[i as int],), Err::<P, RPCError>(e)));
                    return Err(e);
                },
            }
            i += 1;
        }
        Ok(RPCOperationWatchValueA { expiration, peers })
    }

    /// The fields to write on the wire: expiration and peers.
    pub fn encode(&self) -> (r: (u64, &[P]))
        ensures
            r.0 == self.spec_expiration(),
            r.1@ == self.spec_peers(),
    {
        (self.expiration, self.peers.as_slice())
    }
}

/// The peers whose `keep` flag is set, among the first `n`, in order.
pub open spec fn kept_peers<P>(peers: Seq<P>, keep: Seq<bool>, n: int) -> Seq<P>
    decreases n,
{
    if n <= 0 {
        Seq::empty()
    } else if keep[n - 1] {
        kept_peers(peers, keep, n - 1).push(peers[n - 1])
    } else {
        kept_peers(peers, keep, n - 1)
    }
}

} // verus!
