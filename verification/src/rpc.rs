//! The decisions of the status and dial-info validation RPCs, and of the
//! signalled connections whose receipts come back through other nodes.

use crate::key::DHTKey;
use crate::network_manager::SendDataKind;
use crate::types::RPCError;
use vstd::prelude::*;

verus! {

/// How a single-shot receipt came back, if it did; `N` is the node that
/// returned it in band.
#[derive(Debug)]
pub enum ReturnedReceipt<N> {
    /// It came back out of band, straight to our dial info.
    OutOfBand,
    /// It came back in band, through the given node.
    InBand(N),
    /// It did not come back in time.
    Expired,
    /// It was dropped before it expired.
    Cancelled,
}

/// What a dial-info validation learned from its receipt: whether the dial
/// info was reached. Only a receipt returned out of band proves it; a
/// dropped receipt is an internal error.
pub fn validate_dial_info_outcome<N>(event: ReturnedReceipt<N>) -> (r: Result<bool, RPCError>)
    ensures
        match event {
            ReturnedReceipt::OutOfBand => r matches Ok(true),
            ReturnedReceipt::InBand(_) => r matches Ok(false),
            ReturnedReceipt::Expired => r matches Ok(false),
            ReturnedReceipt::Cancelled => r matches Err(RPCError::Internal(m)) && m@
                == "receipt was dropped before expiration"@,
        },
{
    match event {
        ReturnedReceipt::InBand(_) => Ok(false),
        ReturnedReceipt::OutOfBand => Ok(true),
        ReturnedReceipt::Expired => Ok(false),
        ReturnedReceipt::Cancelled => Err(RPCError::Internal(String::from_str("receipt was dropped before expiration"))),
    }
}

/// Whether a node may be asked to validate dial info: when its status says
/// so, or when its status is not known.
pub fn will_validate_dial_info(status: Option<bool>) -> (r: bool)
    ensures
        r == match status {
            Some(w) => w,
            None => true,
        },
{
    match status {
        Some(w) => w,
        None => true,
    }
}

/// Why a redirected validation cannot be passed on.
#[derive(Clone, Copy, PartialEq, Eq, Structural, Debug)]
pub enum RedirectError {
    /// No peer is able to reach the dial info.
    NoPeers,
}

/// The peers found for `sender_id`'s validation request other than the
/// sender itself.
pub open spec fn redirect_peers<P>(peers: Seq<(DHTKey, P)>, sender_id: DHTKey) -> Seq<P>
    decreases peers.len(),
{
    if peers.len() == 0 {
        Seq::empty()
    } else if peers.last().0.valid == sender_id.valid && peers.last().0.bytes@ == sender_id.bytes@ {
        redirect_peers(peers.drop_last(), sender_id)
    } else {
        redirect_peers(peers.drop_last(), sender_id).push(peers.last().1)
    }
}

/// The peers, in the order found, to pass a redirected validation request
/// to: all found but the sender; none found is an error.
pub fn redirect_targets<P>(peers: Vec<(DHTKey, P)>, sender_id: &DHTKey) -> (r: Result<Vec<P>, RedirectError>)
    ensures
        peers@.len() == 0 ==> r == Err::<Vec<P>, RedirectError>(RedirectError::NoPeers),
        peers@.len() > 0 ==> (r matches Ok(ps) && ps@ == redirect_peers(peers@, *sender_id)),
{
    if peers.len() == 0 {
        return Err(RedirectError::NoPeers);
    }
    let ghost ps = peers@;
    let total = peers.len();
    let mut out: Vec<P> = Vec::new();
    let mut i: usize = 0;
    let mut rest = peers;
    while rest.len() > 0
        invariant
            i <= ps.len(),
            ps.len() == total,
            rest@ == ps.skip(i as int),
            out@ == redirect_peers(ps.take(i as int), *sender_id),
        decreases rest@.len(),
    {
        let (id, p) = rest.remove(0);
        proof {
            assert((id, p) == ps[i as int]);
            assert(ps.take(i + 1).drop_last() =~= ps.take(i as int));
            assert(rest@ =~= ps.skip(i + 1));
        }
        if id != *sender_id {
            out.push(p);
        }
        i += 1;
    }
    proof {
        assert(ps.take(i as int) =~= ps);
    }
    Ok(out)
}

/// Where the address a status answer saw us at is reported.
#[derive(Clone, Copy, PartialEq, Eq, Structural, Debug)]
pub enum AddressReport {
    /// As our address on the local network.
    Local,
    /// As our address on the public internet.
    Global,
    /// Nowhere: the answer came through another node, so the address is not ours.
    Ignore,
}

/// Where the address seen by the node answering a status question is
/// reported, by how the question reached it.
pub fn status_address_report(send_data_kind: SendDataKind) -> (r: AddressReport)
    ensures
        r == match send_data_kind {
            SendDataKind::LocalDirect => AddressReport::Local,
            SendDataKind::GlobalDirect => AddressReport::Global,
            SendDataKind::GlobalIndirect => AddressReport::Ignore,
        },
{
    match send_data_kind {
        SendDataKind::LocalDirect => AddressReport::Local,
        SendDataKind::GlobalDirect => AddressReport::Global,
        SendDataKind::GlobalIndirect => AddressReport::Ignore,
    }
}

/// Why a signalled connection failed.
#[derive(Clone, Copy, PartialEq, Eq, Structural, Debug)]
pub enum SignalFailure {
    /// The receipt came back out of band, where it should have come in band.
    ReturnedOutOfBand,
    /// The receipt did not come back in time.
    Expired,
    /// The receipt was dropped.
    Cancelled,
}

/// What a reverse connection learns from its receipt: the node the receipt
/// came back through, over whose connection the data then goes; nothing
/// when it expired (the send timed out); or a failure.
pub fn reverse_connect_receipt<N>(event: ReturnedReceipt<N>) -> (r: Result<Option<N>, SignalFailure>)
    ensures
        match event {
            ReturnedReceipt::InBand(n) => r == Ok::<Option<N>, SignalFailure>(Some(n)),
            ReturnedReceipt::Expired => r == Ok::<Option<N>, SignalFailure>(None),
            ReturnedReceipt::OutOfBand => r == Err::<Option<N>, SignalFailure>(SignalFailure::ReturnedOutOfBand),
            ReturnedReceipt::Cancelled => r == Err::<Option<N>, SignalFailure>(SignalFailure::Cancelled),
        },
{
    match event {
        ReturnedReceipt::InBand(n) => Ok(Some(n)),
        ReturnedReceipt::Expired => Ok(None),
        ReturnedReceipt::OutOfBand => Err(SignalFailure::ReturnedOutOfBand),
        ReturnedReceipt::Cancelled => Err(SignalFailure::Cancelled),
    }
}

/// What a hole punch learns from its receipt: the node the receipt came
/// back through, or a failure, expiry included.
pub fn hole_punch_receipt<N>(event: ReturnedReceipt<N>) -> (r: Result<N, SignalFailure>)
    ensures
        match event {
            ReturnedReceipt::InBand(n) => r == Ok::<N, SignalFailure>(n),
            ReturnedReceipt::Expired => r == Err::<N, SignalFailure>(SignalFailure::Expired),
            ReturnedReceipt::OutOfBand => r == Err::<N, SignalFailure>(SignalFailure::ReturnedOutOfBand),
            ReturnedReceipt::Cancelled => r == Err::<N, SignalFailure>(SignalFailure::Cancelled),
        },
{
    match event {
        ReturnedReceipt::InBand(n) => Ok(n),
        ReturnedReceipt::Expired => Err(SignalFailure::Expired),
        ReturnedReceipt::OutOfBand => Err(SignalFailure::ReturnedOutOfBand),
        ReturnedReceipt::Cancelled => Err(SignalFailure::Cancelled),
    }
}

/// Handling a ValueChanged statement is not implemented.
pub fn process_value_changed() -> (r: Result<(), RPCError>)
    ensures
        r matches Err(RPCError::Unimplemented(m)) && m@ == "process_value_changed"@,
{
    Err(RPCError::Unimplemented(String::from_str("process_value_changed")))
}

/// Handling a SetValue question is not implemented.
pub fn process_set_value_q() -> (r: Result<(), RPCError>)
    ensures
        r matches Err(RPCError::Unimplemented(m)) && m@ == "process_set_value_q"@,
{
    Err(RPCError::Unimplemented(String::from_str("process_set_value_q")))
}

/// Handling a WatchValue question is not implemented.
pub fn process_watch_value_q() -> (r: Result<(), RPCError>)
    ensures
        r matches Err(RPCError::Unimplemented(m)) && m@ == "process_watch_value_q"@,
{
    Err(RPCError::Unimplemented(String::from_str("process_watch_value_q")))
}

/// Handling a FindBlock question is not implemented.
pub fn process_find_block_q() -> (r: Result<(), RPCError>)
    ensures
        r matches Err(RPCError::Unimplemented(m)) && m@ == "process_find_block_q"@,
{
    Err(RPCError::Unimplemented(String::from_str("process_find_block_q")))
}

} // verus!
