//! The FindBlock, GetValue and Signal RPC operations, built from and
//! written back to their wire fields: lists of peers are decoded item by
//! item, the first failure failing the whole, and a list too long for the
//! wire's 32-bit length cannot be written.

use crate::key::DHTKey;
use crate::types::RPCError;
use vstd::prelude::*;

verus! {

/// Whether every item decoded.
pub open spec fn all_decoded<P>(items: Seq<Result<P, RPCError>>) -> bool {
    forall|i: int| 0 <= i < items.len() ==> (#[trigger] items[i]) is Ok
}

/// The first failure among the items, if any.
pub open spec fn first_failure<P>(items: Seq<Result<P, RPCError>>) -> Option<RPCError>
    decreases items.len(),
{
    if items.len() == 0 {
        None
    } else if items[0] is Err {
        Some(items[0]->Err_0)
    } else {
        first_failure(items.drop_first())
    }
}

/// The items decoded, when all of them were.
pub open spec fn decoded_items<P>(items: Seq<Result<P, RPCError>>) -> Seq<P> {
    items.map_values(|r: Result<P, RPCError>| r->Ok_0)
}

proof fn lemma_first_failure_none<P>(items: Seq<Result<P, RPCError>>)
    ensures
        first_failure(items) is None <==> all_decoded(items),
    decreases items.len(),
{
    if items.len() > 0 {
        lemma_first_failure_none(items.drop_first());
        if all_decoded(items.drop_first()) && items[0] is Ok {
            assert forall|i: int| 0 <= i < items.len() implies (#[trigger] items[i]) is Ok by {
                if i > 0 {
                    assert(items[i] == items.drop_first()[i - 1]);
                }
            }
        }
        if all_decoded(items) {
            assert forall|i: int| 0 <= i < items.drop_first().len() implies (#[trigger] items.drop_first()[i]) is Ok by {
                assert(items.drop_first()[i] == items[i + 1]);
            }
        }
    }
}

/// The decoded items of a list, or the first failure.
pub fn collect_decoded<P>(items: Vec<Result<P, RPCError>>) -> (r: Result<Vec<P>, RPCError>)
    ensures
        r is Ok <==> all_decoded(items@),
        match first_failure(items@) {
            Some(e) => r == Err::<Vec<P>, RPCError>(e),
            None => r matches Ok(ps) && ps@ == decoded_items(items@),
        },
{
    let ghost orig = items@;
    proof {
        lemma_first_failure_none(orig);
        assert(orig.skip(0) =~= orig);
    }
    let n = items.len();
    let mut rest = items;
    let mut out: Vec<P> = Vec::new();
    let mut i: usize = 0;
    while i < n
        invariant
            i <= n,
            n == orig.len(),
            orig == items@,
            rest@ == orig.skip(i as int),
            first_failure(orig) == first_failure(orig.skip(i as int)),
            out@ == decoded_items(orig.take(i as int)),
        decreases n - i,
    {
        let item = rest.remove(0);
        proof {
            assert(item == orig.skip(i as int)[0]);
            assert(orig.skip(i as int).drop_first() =~= orig.skip(i + 1));
            assert(rest@ =~= orig.skip(i + 1));
        }
        match item {
            Ok(p) => {
                out.push(p);
                proof {
                    assert(decoded_items(orig.take(i + 1)) =~= decoded_items(orig.take(i as int)).push(p));
                }
            },
            Err(e) => {
                proof {
                    assert(orig.skip(i as int).len() > 0);
                    assert(first_failure(orig.skip(i as int)) == Some(e));
                }
                return Err(e);
            },
        }
        i += 1;
    }
    proof {
        assert(orig.take(i as int) =~= orig);
        assert(orig.skip(i as int) =~= Seq::<Result<P, RPCError>>::empty());
    }
    Ok(out)
}

/// The length of a list as written on the wire, which holds at most
/// `u32::MAX` items; a longer list is an internal error with the message.
pub fn wire_list_len(len: usize, message: &str) -> (r: Result<u32, RPCError>)
    ensures
        len <= u32::MAX ==> r == Ok::<u32, RPCError>(len as u32),
        len > u32::MAX ==> (r matches Err(RPCError::Internal(m)) && m@ == message@),
{
    if len > 4294967295usize {
        return Err(RPCError::Internal(message.to_string()));
    }
    Ok(len as u32)
}

/// A question asking for a block by its id.
#[derive(Debug)]
pub struct RPCOperationFindBlockQ {
    pub block_id: DHTKey,
}

impl RPCOperationFindBlockQ {
    /// The question from its decoded wire field.
    pub fn decode(block_id: DHTKey) -> (r: Self)
        ensures
            r.block_id == block_id,
    {
        RPCOperationFindBlockQ { block_id }
    }

    /// The field to write on the wire.
    pub fn encode(&self) -> (r: DHTKey)
        ensures
            r == self.block_id,
    {
        self.block_id
    }
}

/// The answer to a FindBlock question: the block's data, the peers that
/// supply it and peers closer to it.
#[derive(Debug)]
pub struct RPCOperationFindBlockA<P> {
    pub data: Vec<u8>,
    pub suppliers: Vec<P>,
    pub peers: Vec<P>,
}

impl<P> RPCOperationFindBlockA<P> {
    /// The answer from its decoded wire fields; the suppliers are decoded
    /// before the peers, and the first failure fails the answer.
    pub fn decode(
        data: Vec<u8>,
        suppliers: Vec<Result<P, RPCError>>,
        peers: Vec<Result<P, RPCError>>,
    ) -> (r: Result<Self, RPCError>)
        ensures
            match first_failure(suppliers@) {
                Some(e) => r == Err::<Self, RPCError>(e),
                None => match first_failure(peers@) {
                    Some(e) => r == Err::<Self, RPCError>(e),
                    None => r matches Ok(a) && a.data@ == data@ && a.suppliers@ == decoded_items(suppliers@)
                        && a.peers@ == decoded_items(peers@),
                },
            },
    {
        let suppliers = match collect_decoded(suppliers) {
            Ok(s) => s,
            Err(e) => {
                return Err(e);
            },
        };
        let peers = match collect_decoded(peers) {
            Ok(p) => p,
            Err(e) => {
                return Err(e);
            },
        };
        Ok(RPCOperationFindBlockA { data, suppliers, peers })
    }

    /// The fields to write on the wire with the lengths of the two lists;
    /// a list too long for the wire is an internal error.
    pub fn encode(&self) -> (r: Result<(&[u8], u32, u32), RPCError>)
        ensures
            self.suppliers@.len() > u32::MAX ==> (r matches Err(RPCError::Internal(m)) && m@
                == "invalid suppliers list length"@),
            self.suppliers@.len() <= u32::MAX && self.peers@.len() > u32::MAX ==> (r matches Err(
                RPCError::Internal(m),
            ) && m@ == "invalid peers list length"@),
            self.suppliers@.len() <= u32::MAX && self.peers@.len() <= u32::MAX ==> (r matches Ok(f) && f.0@
                == self.data@ && f.1 == self.suppliers@.len() && f.2 == self.peers@.len()),
    {
        let ns = match wire_list_len(self.suppliers.len(), "invalid suppliers list length") {
            Ok(n) => n,
            Err(e) => {
                return Err(e);
            },
        };
        let np = match wire_list_len(self.peers.len(), "invalid peers list length") {
            Ok(n) => n,
            Err(e) => {
                return Err(e);
            },
        };
        Ok((self.data.as_slice(), ns, np))
    }
}

/// A question asking for a value by its key.
#[derive(Debug)]
pub struct RPCOperationGetValueQ<K> {
    pub key: K,
}

impl<K> RPCOperationGetValueQ<K> {
    /// The question from its decoded wire field.
    pub fn decode(key: K) -> (r: Self)
        ensures
            r.key == key,
    {
        RPCOperationGetValueQ { key }
    }

    /// The field to write on the wire.
    pub fn encode(&self) -> (r: &K)
        ensures
            *r == self.key,
    {
        &self.key
    }
}

/// The answer to a GetValue question: the value, or peers closer to it.
#[derive(Debug)]
pub enum RPCOperationGetValueA<V, P> {
    Data(V),
    Peers(Vec<P>),
}

impl<V, P> RPCOperationGetValueA<V, P> {
    /// The answer holding the value.
    pub fn decode_data(data: V) -> (r: Self)
        ensures
            r == RPCOperationGetValueA::<V, P>::Data(data),
    {
        RPCOperationGetValueA::Data(data)
    }

    /// The answer holding the peers decoded; the first failure fails it.
    pub fn decode_peers(peers: Vec<Result<P, RPCError>>) -> (r: Result<Self, RPCError>)
        ensures
            match first_failure(peers@) {
                Some(e) => r == Err::<Self, RPCError>(e),
                None => r matches Ok(RPCOperationGetValueA::Peers(ps)) && ps@ == decoded_items(peers@),
            },
    {
        match collect_decoded(peers) {
            Ok(ps) => Ok(RPCOperationGetValueA::Peers(ps)),
            Err(e) => Err(e),
        }
    }

    /// For an answer of peers, how many are written on the wire; a list too
    /// long for the wire is an internal error. An answer of data has no list.
    pub fn encode_peers_len(&self) -> (r: Result<Option<u32>, RPCError>)
        ensures
            match self {
                RPCOperationGetValueA::Data(_) => r == Ok::<Option<u32>, RPCError>(None),
                RPCOperationGetValueA::Peers(ps) => if ps@.len() > u32::MAX {
                    r matches Err(RPCError::Internal(m)) && m@ == "invalid peers list length"@
                } else {
                    r == Ok::<Option<u32>, RPCError>(Some(ps@.len() as u32))
                },
            },
    {
        match self {
            RPCOperationGetValueA::Data(_) => Ok(None),
            RPCOperationGetValueA::Peers(ps) => match wire_list_len(ps.len(), "invalid peers list length") {
                Ok(n) => Ok(Some(n)),
                Err(e) => Err(e),
            },
        }
    }
}

/// A signal passed on to a node through its relay.
#[derive(Debug)]
pub struct RPCOperationSignal<S> {
    pub signal_info: S,
}

impl<S> RPCOperationSignal<S> {
    /// The operation from its decoded signal.
    pub fn decode(signal_info: S) -> (r: Self)
        ensures
            r.signal_info == signal_info,
    {
        RPCOperationSignal { signal_info }
    }

    /// The signal to write on the wire.
    pub fn encode(&self) -> (r: &S)
        ensures
            *r == self.signal_info,
    {
        &self.signal_info
    }
}

} // verus!
