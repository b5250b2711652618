//! The decisions of the DHT storage manager: what a local write produces,
//! how answers to an outbound write reach consensus, whether an inbound
//! write is taken, how watch expirations are clamped, which subkey writes
//! wait for the network, and the record store limits taken from the
//! configuration.

use crate::key::{blake3_hash, generate_hash};
use crate::subkeys::{subkey_interval, subkey_set, subkeys_wf, ValueSubkey, ValueSubkeyRangeSet};
use crate::types::{KeyPair, NetworkClass, PublicKey, Signature, TypedKey};
use crate::value_data::{ValueData, ValueSeqNum};
use vstd::prelude::*;
use vstd::set_lib::lemma_len_subset;

verus! {

/// The largest size of a single subkey.
pub const MAX_SUBKEY_SIZE: usize = ValueData::MAX_LEN;

/// The largest total size of all subkeys of a record.
pub const MAX_RECORD_DATA_SIZE: usize = 1_048_576;

/// Why a storage operation was refused.
#[derive(Clone, Copy, PartialEq, Eq, Structural, Debug)]
pub enum StorageError {
    /// The record is not open.
    RecordNotOpen,
    /// Neither the call nor the opened record gives a writer.
    NotWritable,
    /// No descriptor is known for the record.
    NoDescriptor,
    /// The data is longer than a subkey can hold.
    DataTooLong,
    /// The value does not pass the record's schema.
    FailedSchemaValidation,
    /// The node is offline; the operation may be retried later.
    Offline,
    /// The record is not in the local store.
    KeyNotFound,
    /// No valid answer was received; the operation may be retried later.
    NoValidResponse,
    /// The record's cryptosystem is not supported.
    UnsupportedCryptosystem,
}

impl StorageError {
    /// The text of the error.
    pub fn message(&self) -> (r: String)
        ensures
            r@ == match *self {
                StorageError::RecordNotOpen => "record not open"@,
                StorageError::NotWritable => "value is not writable"@,
                StorageError::NoDescriptor => "must have a descriptor"@,
                StorageError::DataTooLong => "value data is too long"@,
                StorageError::FailedSchemaValidation => "failed schema validation"@,
                StorageError::Offline => "offline, try again later"@,
                StorageError::KeyNotFound => "key not found"@,
                StorageError::NoValidResponse => "did not get a valid response"@,
                StorageError::UnsupportedCryptosystem => "unsupported cryptosystem"@,
            },
    {
        match self {
            StorageError::RecordNotOpen => String::from_str("record not open"),
            StorageError::NotWritable => String::from_str("value is not writable"),
            StorageError::NoDescriptor => String::from_str("must have a descriptor"),
            StorageError::DataTooLong => String::from_str("value data is too long"),
            StorageError::FailedSchemaValidation => String::from_str("failed schema validation"),
            StorageError::Offline => String::from_str("offline, try again later"),
            StorageError::KeyNotFound => String::from_str("key not found"),
            StorageError::NoValidResponse => String::from_str("did not get a valid response"),
            StorageError::UnsupportedCryptosystem => String::from_str("unsupported cryptosystem"),
        }
    }
}

/// A value with the signature of its writer.
#[derive(Debug)]
pub struct SignedValueData {
    pub value_data: ValueData,
    pub signature: Signature,
}

/// Whether two typed keys name the same key.
pub open spec fn typed_key_same(a: TypedKey, b: TypedKey) -> bool {
    a.kind@ == b.kind@ && a.value.valid == b.value.valid && a.value.bytes@ == b.value.bytes@
}

/// Compares two typed keys.
pub fn typed_key_eq(a: &TypedKey, b: &TypedKey) -> (r: bool)
    ensures
        r == typed_key_same(*a, *b),
{
    let mut i: usize = 0;
    while i < 4
        invariant
            i <= 4,
            forall|k: int| 0 <= k < i ==> a.kind@[k] == b.kind@[k],
        decreases 4 - i,
    {
        if a.kind[i] != b.kind[i] {
            return false;
        }
        i += 1;
    }
    assert(a.kind@ =~= b.kind@);
    a.value == b.value
}

// ---------------------------------------------------------------------------
// Record keys

fn append_bytes(out: &mut Vec<u8>, bytes: &[u8])
    ensures
        final(out)@ == old(out)@ + bytes@,
{
    let mut i: usize = 0;
    while i < bytes.len()
        invariant
            i <= bytes@.len(),
            out@ == old(out)@ + bytes@.take(i as int),
        decreases bytes@.len() - i,
    {
        out.push(bytes[i]);
        i += 1;
        proof {
            assert(bytes@.take(i as int) =~= bytes@.take(i - 1).push(bytes@[i - 1]));
        }
    }
    assert(bytes@.take(i as int) =~= bytes@);
}

/// The key of a record: tagged with the owner's cryptosystem, the hash of
/// the owner key followed by the record's compiled schema.
pub fn record_key(kind: [u8; 4], owner: &PublicKey, schema_data: &[u8]) -> (r: TypedKey)
    ensures
        r.kind == kind,
        r.value.valid,
        r.value.bytes@ == blake3_hash(owner.bytes@ + schema_data@),
{
    let mut hash_data: Vec<u8> = Vec::new();
    append_bytes(&mut hash_data, owner.bytes.as_slice());
    append_bytes(&mut hash_data, schema_data);
    proof {
        assert(hash_data@ =~= owner.bytes@ + schema_data@);
    }
    TypedKey { kind, value: generate_hash(hash_data.as_slice()) }
}

// ---------------------------------------------------------------------------
// Local writes

/// What a local write of a subkey amounts to.
#[derive(Debug)]
pub enum SetValuePlan {
    /// The subkey already holds the same data from the same writer: nothing
    /// is written and nothing is sent.
    Unchanged,
    /// The new value to sign, store and send, written by the key pair.
    Write(KeyPair, ValueData),
}

/// The writer of a local write: the one given, else the one the record was
/// opened with.
pub open spec fn chosen_writer(writer: Option<KeyPair>, opened_writer: Option<KeyPair>) -> Option<KeyPair> {
    match writer {
        Some(w) => Some(w),
        None => opened_writer,
    }
}

/// Plans the local write of `data` to a subkey whose last local value is
/// `last_value`: the writer is the one given or else the one the record was
/// opened with; a record without a known descriptor cannot be written; the
/// same data from the same writer changes nothing; otherwise the new value
/// has the next sequence number, or zero for a first value.
pub fn plan_set_value(
    writer: Option<KeyPair>,
    opened_writer: Option<KeyPair>,
    last_value: Option<&ValueData>,
    has_descriptor: bool,
    data: Vec<u8>,
) -> (r: Result<SetValuePlan, StorageError>)
    requires
        match (chosen_writer(writer, opened_writer), last_value) {
            (Some(w), Some(lv)) => has_descriptor && !(lv.spec_data() == data@ && lv.spec_writer().bytes@
                == w.key.bytes@ && lv.spec_writer().valid == w.key.valid) ==> lv.spec_seq() < u32::MAX,
            _ => true,
        },
    ensures
        chosen_writer(writer, opened_writer) is None ==> r == Err::<SetValuePlan, StorageError>(StorageError::NotWritable),
        chosen_writer(writer, opened_writer) matches Some(w) ==> {
            if !has_descriptor {
                r == Err::<SetValuePlan, StorageError>(StorageError::NoDescriptor)
            } else if last_value matches Some(lv) && lv.spec_data() == data@ && lv.spec_writer().bytes@ == w.key.bytes@
                && lv.spec_writer().valid == w.key.valid {
                r matches Ok(SetValuePlan::Unchanged)
            } else if data@.len() > ValueData::MAX_LEN {
                r == Err::<SetValuePlan, StorageError>(StorageError::DataTooLong)
            } else {
                r matches Ok(SetValuePlan::Write(kp, v)) && kp == w && v.spec_data() == data@
                    && v.spec_writer() == w.key && v.spec_seq() == match last_value {
                    Some(lv) => lv.spec_seq() + 1,
                    None => 0,
                }
            }
        },
{
    let w = match writer {
        Some(w) => w,
        None => match opened_writer {
            Some(w) => w,
            None => {
                return Err(StorageError::NotWritable);
            },
        },
    };
    if !has_descriptor {
        return Err(StorageError::NoDescriptor);
    }
    match last_value {
        Some(lv) => {
            if slices_equal(lv.data(), data.as_slice()) && *lv.writer() == w.key {
                return Ok(SetValuePlan::Unchanged);
            }
            if data.len() > ValueData::MAX_LEN {
                return Err(StorageError::DataTooLong);
            }
            let seq = lv.seq();
            Ok(SetValuePlan::Write(w, ValueData::new_with_seq(seq + 1, data, w.key)))
        },
        None => {
            if data.len() > ValueData::MAX_LEN {
                return Err(StorageError::DataTooLong);
            }
            Ok(SetValuePlan::Write(w, ValueData::new(data, w.key)))
        },
    }
}

fn slices_equal(a: &[u8], b: &[u8]) -> (r: bool)
    ensures
        r == (a@ == b@),
{
    if a.len() != b.len() {
        return false;
    }
    let mut i: usize = 0;
    while i < a.len()
        invariant
            i <= a@.len(),
            a@.len() == b@.len(),
            forall|k: int| 0 <= k < i ==> a@[k] == b@[k],
        decreases a@.len() - i,
    {
        if a[i] != b[i] {
            return false;
        }
        i += 1;
    }
    assert(a@ =~= b@);
    true
}

// ---------------------------------------------------------------------------
// Outbound writes: consensus over the answers of the nodes asked

/// What an outbound write has gathered so far: the newest value seen and how
/// many nodes have shown it.
#[derive(Debug)]
pub struct SetValueContext {
    pub value: SignedValueData,
    pub value_count: usize,
}

impl SetValueContext {
    /// The start of an outbound write of `value`: no node has taken it yet.
    pub fn new(value: SignedValueData) -> (r: Self)
        ensures
            r.value == value,
            r.value_count == 0,
    {
        SetValueContext { value, value_count: 0 }
    }

    /// Takes one node's answer. `set` tells whether the node was close
    /// enough to store the value; `answer_value` is the value it returned,
    /// if any, with whether that value passes the record's schema. A node
    /// that stored the value and returned none adds to the consensus; a
    /// newer valid value replaces ours and starts the count again at one.
    /// Returns whether the node's closer peers are to be asked too: not for
    /// a node returning an invalid value or one that is not newer.
    pub fn on_answer(&mut self, set: bool, answer_value: Option<(SignedValueData, bool)>) -> (r: bool)
        requires
            old(self).value_count < usize::MAX,
        ensures
            !set ==> r && *final(self) == *old(self),
            set && answer_value is None ==> r && final(self).value == old(self).value
                && final(self).value_count == old(self).value_count + 1,
            set ==> (answer_value matches Some((v, valid)) ==> {
                if valid && v.value_data.spec_seq() > old(self).value.value_data.spec_seq() {
                    r && final(self).value == v && final(self).value_count == 1
                } else {
                    !r && *final(self) == *old(self)
                }
            }),
    {
        if !set {
            return true;
        }
        match answer_value {
            Some((v, valid)) => {
                if !valid {
                    return false;
                }
                if v.value_data.seq() > self.value.value_data.seq() {
                    self.value = v;
                    self.value_count = 1;
                    true
                } else {
                    false
                }
            },
            None => {
                self.value_count = self.value_count + 1;
                true
            },
        }
    }

    /// Whether enough nodes have shown the value.
    pub fn is_done(&self, consensus_count: usize) -> (r: bool)
        ensures
            r == (self.value_count >= consensus_count),
    {
        self.value_count >= consensus_count
    }
}

/// How an outbound write ends: when the fanout timed out or ran out of
/// nodes or reached consensus, with the best value gathered; when it
/// failed, with its error.
pub fn finish_set_value<E>(ctx: SetValueContext, fanout: Result<bool, E>) -> (r: Result<SignedValueData, E>)
    ensures
        match fanout {
            Ok(_) => r == Ok::<SignedValueData, E>(ctx.value),
            Err(e) => r == Err::<SignedValueData, E>(e),
        },
{
    match fanout {
        Ok(_) => Ok(ctx.value),
        Err(e) => Err(e),
    }
}

/// How a fanout of a write or read ended.
#[derive(Clone, Copy, PartialEq, Eq, Structural, Debug)]
pub enum FanoutResultKind {
    Partial,
    Timeout,
    Exhausted,
    Finished,
}

/// Whether a write that ended so must be kept to send again later: after a
/// timeout, or when the nodes ran out before `consensus_count` of them held
/// the value.
pub fn check_fanout_set_offline(kind: FanoutResultKind, value_node_count: usize, consensus_count: usize) -> (r: bool)
    ensures
        r == (kind == FanoutResultKind::Timeout || (kind == FanoutResultKind::Exhausted && value_node_count
            < consensus_count)),
{
    match kind {
        FanoutResultKind::Partial => false,
        FanoutResultKind::Timeout => true,
        FanoutResultKind::Exhausted => value_node_count < consensus_count,
        FanoutResultKind::Finished => false,
    }
}

// ---------------------------------------------------------------------------
// Inbound writes

/// Why an inbound write is refused as an invalid message.
#[derive(Clone, Copy, PartialEq, Eq, Structural, Debug)]
pub enum InboundSetRejection {
    /// The descriptor sent differs from the one already held.
    DescriptorMismatch,
    /// No descriptor is held and none was sent.
    DescriptorMissing,
}

impl InboundSetRejection {
    /// The text of the refusal.
    pub fn message(&self) -> (r: String)
        ensures
            r@ == match *self {
                InboundSetRejection::DescriptorMismatch => "setvalue descriptor does not match last descriptor"@,
                InboundSetRejection::DescriptorMissing => "descriptor must be provided"@,
            },
    {
        match self {
            InboundSetRejection::DescriptorMismatch => String::from_str(
                "setvalue descriptor does not match last descriptor",
            ),
            InboundSetRejection::DescriptorMissing => String::from_str("descriptor must be provided"),
        }
    }
}

/// The first steps of an inbound write.
#[derive(Debug)]
pub enum InboundSetStep<D> {
    /// The value held is newer: answer with it and keep it.
    ReturnCurrent,
    /// The write is refused.
    Reject(InboundSetRejection),
    /// Go on to check the value against the schema of this descriptor.
    Validate(D),
}

/// The first steps of an inbound write of a value with sequence number
/// `value_seq`: a value older than the one held is answered with the one
/// held; then the descriptor is the one held, which one sent along must
/// match, or else the one sent, which must then be there.
pub fn inbound_set_value_step<D>(
    last_value_seq: Option<ValueSeqNum>,
    value_seq: ValueSeqNum,
    last_descriptor: Option<D>,
    descriptor: Option<D>,
    descriptor_matches_last: bool,
) -> (r: InboundSetStep<D>)
    ensures
        ({
            if last_value_seq matches Some(ls) && value_seq < ls {
                r is ReturnCurrent
            } else {
                match last_descriptor {
                    Some(ld) => if descriptor is Some && !descriptor_matches_last {
                        r == InboundSetStep::<D>::Reject(InboundSetRejection::DescriptorMismatch)
                    } else {
                        r == InboundSetStep::<D>::Validate(ld)
                    },
                    None => match descriptor {
                        Some(d) => r == InboundSetStep::<D>::Validate(d),
                        None => r == InboundSetStep::<D>::Reject(InboundSetRejection::DescriptorMissing),
                    },
                }
            }
        }),
{
    if let Some(ls) = last_value_seq {
        if value_seq < ls {
            return InboundSetStep::ReturnCurrent;
        }
    }
    match last_descriptor {
        Some(ld) => {
            if descriptor.is_some() && !descriptor_matches_last {
                InboundSetStep::Reject(InboundSetRejection::DescriptorMismatch)
            } else {
                InboundSetStep::Validate(ld)
            }
        },
        None => match descriptor {
            Some(d) => InboundSetStep::Validate(d),
            None => InboundSetStep::Reject(InboundSetRejection::DescriptorMissing),
        },
    }
}

// ---------------------------------------------------------------------------
// Watches

/// Microseconds in `ms` milliseconds.
pub open spec fn ms_to_us(ms: u32) -> u64 {
    (ms * 1000) as u64
}

/// Microseconds in `ms` milliseconds.
pub fn ms_to_microseconds(ms: u32) -> (r: u64)
    ensures
        r == ms_to_us(ms),
{
    (ms as u64) * 1000
}

/// An empty set of subkeys stands for all of them.
pub fn subkeys_or_full(subkeys: ValueSubkeyRangeSet) -> (r: ValueSubkeyRangeSet)
    requires
        subkeys_wf(subkeys),
    ensures
        subkeys_wf(r),
        subkey_set(r) == if subkey_set(subkeys) == Set::<u32>::empty() {
            subkey_interval(0, u32::MAX)
        } else {
            subkey_set(subkeys)
        },
{
    if subkeys.is_empty() {
        ValueSubkeyRangeSet::full()
    } else {
        subkeys
    }
}

/// The outcome of a watch request: the expiration to report and the
/// expiration to keep locally for an active watch.
pub open spec fn watch_outcome(
    cur_ts: u64,
    rpc_timeout_us: u64,
    max_watch_expiration_us: u64,
    expiration: u64,
    count: u32,
    returned_expiration: u64,
) -> (u64, Option<u64>) {
    let min_expiration_ts = cur_ts + rpc_timeout_us;
    let max_expiration_ts = if expiration == 0 {
        cur_ts + max_watch_expiration_us
    } else {
        expiration as int
    };
    if returned_expiration < min_expiration_ts || count == 0 {
        (0, None)
    } else if returned_expiration > max_expiration_ts {
        (returned_expiration, Some(max_expiration_ts as u64))
    } else {
        (returned_expiration, Some(returned_expiration))
    }
}

/// A watch kept active expires no earlier than now plus the RPC timeout and
/// no later than the expiration asked for (or now plus the longest watch);
/// the expiration reported is zero exactly when no watch is kept.
pub proof fn lemma_watch_expiration_bounded(
    cur_ts: u64,
    rpc_timeout_us: u64,
    max_watch_expiration_us: u64,
    expiration: u64,
    count: u32,
    returned_expiration: u64,
)
    requires
        rpc_timeout_us > 0,
    ensures
        ({
            let (reported, kept) = watch_outcome(cur_ts, rpc_timeout_us, max_watch_expiration_us, expiration, count, returned_expiration);
            &&& (reported == 0 <==> kept is None)
            &&& (kept matches Some(k) ==> cur_ts + rpc_timeout_us <= returned_expiration && k <= returned_expiration
                && k <= (if expiration == 0 { cur_ts + max_watch_expiration_us } else { expiration as int }))
            &&& (kept is Some ==> count > 0)
        }),
{
}

/// Interprets the expiration that the network granted to a watch asked for
/// with `expiration` (zero: as long as allowed) and `count`. An expiration
/// before now plus the RPC timeout, or a cancellation (count zero), leaves
/// no active watch and reports zero; otherwise the granted expiration is
/// reported and the one kept locally is clamped to the one asked for, or to
/// now plus the largest watch expiration.
pub fn watch_values_outcome(
    cur_ts: u64,
    rpc_timeout_us: u64,
    max_watch_expiration_us: u64,
    expiration: u64,
    count: u32,
    returned_expiration: u64,
) -> (r: (u64, Option<u64>))
    requires
        cur_ts + rpc_timeout_us <= u64::MAX,
        cur_ts + max_watch_expiration_us <= u64::MAX,
    ensures
        r == watch_outcome(cur_ts, rpc_timeout_us, max_watch_expiration_us, expiration, count, returned_expiration),
{
    let min_expiration_ts = cur_ts + rpc_timeout_us;
    let max_expiration_ts = if expiration == 0 {
        cur_ts + max_watch_expiration_us
    } else {
        expiration
    };
    if returned_expiration < min_expiration_ts {
        return (0, None);
    }
    let mut expiration_ts = returned_expiration;
    if expiration_ts > max_expiration_ts {
        expiration_ts = max_expiration_ts;
    }
    if count == 0 {
        return (0, None);
    }
    (returned_expiration, Some(expiration_ts))
}

/// What cancelling `subkeys` (empty: all) of an active watch on
/// `active_subkeys` with `active_count` changes asks for: the subkeys left,
/// and the count, zero when none are left.
pub fn cancel_watch_plan(active_subkeys: &ValueSubkeyRangeSet, active_count: u32, subkeys: ValueSubkeyRangeSet) -> (r: (ValueSubkeyRangeSet, u32))
    requires
        subkeys_wf(*active_subkeys),
        subkeys_wf(subkeys),
    ensures
        subkeys_wf(r.0),
        subkey_set(r.0) == subkey_set(*active_subkeys).difference(
            if subkey_set(subkeys) == Set::<u32>::empty() {
                subkey_interval(0, u32::MAX)
            } else {
                subkey_set(subkeys)
            },
        ),
        r.1 == if subkey_set(r.0) == Set::<u32>::empty() {
            0
        } else {
            active_count
        },
{
    let subkeys = subkeys_or_full(subkeys);
    let new_subkeys = active_subkeys.difference(&subkeys);
    let count = if new_subkeys.is_empty() {
        0
    } else {
        active_count
    };
    (new_subkeys, count)
}

// ---------------------------------------------------------------------------
// Reads and readiness

/// Whether the DHT may be used: the node is attached (has an RPC processor)
/// and knows a valid network class on the public internet.
pub fn online_ready(has_rpc_processor: bool, network_class: Option<NetworkClass>) -> (r: bool)
    ensures
        r == (has_rpc_processor && (network_class matches Some(c) && c != NetworkClass::Invalid)),
{
    if !has_rpc_processor {
        return false;
    }
    match network_class {
        Some(c) => c != NetworkClass::Invalid,
        None => false,
    }
}

/// What a read of a subkey of an opened record does next.
#[derive(Clone, Copy, PartialEq, Eq, Structural, Debug)]
pub enum GetValueStep {
    /// Answer with the value held locally.
    ReturnLocal,
    /// Ask the network.
    Refresh,
}

/// The next step of a read: the local value unless a refresh is forced;
/// the network when online; offline, the local value, or an error when
/// there is none.
pub fn get_value_step(force_refresh: bool, online: bool, has_local_value: bool) -> (r: Result<GetValueStep, StorageError>)
    ensures
        r == if !force_refresh && has_local_value {
            Ok::<GetValueStep, StorageError>(GetValueStep::ReturnLocal)
        } else if online {
            Ok(GetValueStep::Refresh)
        } else if has_local_value {
            Ok(GetValueStep::ReturnLocal)
        } else {
            Err(StorageError::Offline)
        },
{
    if !force_refresh && has_local_value {
        return Ok(GetValueStep::ReturnLocal);
    }
    if !online {
        if has_local_value {
            return Ok(GetValueStep::ReturnLocal);
        }
        return Err(StorageError::Offline);
    }
    Ok(GetValueStep::Refresh)
}

/// A record fetched from the network is known only if a value or a
/// descriptor came back.
pub fn check_fetched_record(has_value: bool, has_descriptor: bool) -> (r: Result<(), StorageError>)
    ensures
        r == if has_value || has_descriptor {
            Ok::<(), StorageError>(())
        } else {
            Err(StorageError::KeyNotFound)
        },
{
    if !has_value && !has_descriptor {
        return Err(StorageError::KeyNotFound);
    }
    Ok(())
}

// ---------------------------------------------------------------------------
// Record store limits

/// The configuration values that the record store limits come from.
#[derive(Clone, Copy, Debug)]
pub struct DhtStorageConfig {
    pub local_subkey_cache_size: u32,
    pub local_max_subkey_cache_memory_mb: u32,
    pub remote_subkey_cache_size: u32,
    pub remote_max_records: u32,
    pub remote_max_subkey_cache_memory_mb: u32,
    pub remote_max_storage_space_mb: u32,
    pub public_watch_limit: u32,
    pub member_watch_limit: u32,
    pub max_watch_expiration_ms: u32,
    pub rpc_timeout_ms: u32,
}

/// The limits of a record store.
#[derive(Clone, Copy, Debug)]
pub struct RecordStoreLimits {
    /// Number of subkeys to keep in the memory cache.
    pub subkey_cache_size: usize,
    /// Largest size of one subkey.
    pub max_subkey_size: usize,
    /// Largest total size of a record's subkeys.
    pub max_record_total_size: usize,
    /// Largest number of records, if limited.
    pub max_records: Option<usize>,
    /// Largest memory of the subkey cache in megabytes, if limited.
    pub max_subkey_cache_memory_mb: Option<usize>,
    /// Largest storage space in megabytes, if limited.
    pub max_storage_space_mb: Option<usize>,
    /// Largest number of watches from anyone per record.
    pub public_watch_limit: usize,
    /// Largest number of watches from members per record.
    pub member_watch_limit: usize,
    /// Longest watch, in microseconds.
    pub max_watch_expiration: u64,
    /// Shortest watch, in microseconds.
    pub min_watch_expiration: u64,
}

/// The limits of the store of records this node made or opened: no limit
/// on their number or on storage space.
pub fn local_limits_from_config(c: &DhtStorageConfig) -> (r: RecordStoreLimits)
    ensures
        r.subkey_cache_size == c.local_subkey_cache_size as usize,
        r.max_subkey_size == MAX_SUBKEY_SIZE,
        r.max_record_total_size == MAX_RECORD_DATA_SIZE,
        r.max_records is None,
        r.max_subkey_cache_memory_mb == Some(c.local_max_subkey_cache_memory_mb as usize),
        r.max_storage_space_mb is None,
        r.public_watch_limit == c.public_watch_limit as usize,
        r.member_watch_limit == c.member_watch_limit as usize,
        r.max_watch_expiration == ms_to_us(c.max_watch_expiration_ms),
        r.min_watch_expiration == ms_to_us(c.rpc_timeout_ms),
{
    RecordStoreLimits {
        subkey_cache_size: c.local_subkey_cache_size as usize,
        max_subkey_size: MAX_SUBKEY_SIZE,
        max_record_total_size: MAX_RECORD_DATA_SIZE,
        max_records: None,
        max_subkey_cache_memory_mb: Some(c.local_max_subkey_cache_memory_mb as usize),
        max_storage_space_mb: None,
        public_watch_limit: c.public_watch_limit as usize,
        member_watch_limit: c.member_watch_limit as usize,
        max_watch_expiration: ms_to_microseconds(c.max_watch_expiration_ms),
        min_watch_expiration: ms_to_microseconds(c.rpc_timeout_ms),
    }
}

/// The limits of the store of records other nodes pushed to this one.
pub fn remote_limits_from_config(c: &DhtStorageConfig) -> (r: RecordStoreLimits)
    ensures
        r.subkey_cache_size == c.remote_subkey_cache_size as usize,
        r.max_subkey_size == MAX_SUBKEY_SIZE,
        r.max_record_total_size == MAX_RECORD_DATA_SIZE,
        r.max_records == Some(c.remote_max_records as usize),
        r.max_subkey_cache_memory_mb == Some(c.remote_max_subkey_cache_memory_mb as usize),
        r.max_storage_space_mb == Some(c.remote_max_storage_space_mb as usize),
        r.public_watch_limit == c.public_watch_limit as usize,
        r.member_watch_limit == c.member_watch_limit as usize,
        r.max_watch_expiration == ms_to_us(c.max_watch_expiration_ms),
        r.min_watch_expiration == ms_to_us(c.rpc_timeout_ms),
{
    RecordStoreLimits {
        subkey_cache_size: c.remote_subkey_cache_size as usize,
        max_subkey_size: MAX_SUBKEY_SIZE,
        max_record_total_size: MAX_RECORD_DATA_SIZE,
        max_records: Some(c.remote_max_records as usize),
        max_subkey_cache_memory_mb: Some(c.remote_max_subkey_cache_memory_mb as usize),
        max_storage_space_mb: Some(c.remote_max_storage_space_mb as usize),
        public_watch_limit: c.public_watch_limit as usize,
        member_watch_limit: c.member_watch_limit as usize,
        max_watch_expiration: ms_to_microseconds(c.max_watch_expiration_ms),
        min_watch_expiration: ms_to_microseconds(c.rpc_timeout_ms),
    }
}

// ---------------------------------------------------------------------------
// Writes waiting for the network

/// The subkeys of a record written while offline, and the safety selection
/// to send them with.
pub struct OfflineSubkeyWrite<S> {
    pub safety_selection: S,
    pub subkeys: ValueSubkeyRangeSet,
}

/// The records with subkeys written while offline, each record once.
pub struct OfflineSubkeyWrites<S> {
    entries: Vec<(TypedKey, OfflineSubkeyWrite<S>)>,
}

impl<S: Copy> OfflineSubkeyWrites<S> {
    /// The number of records.
    pub closed spec fn spec_len(&self) -> nat {
        self.entries@.len()
    }

    /// The key of the `i`-th record.
    pub closed spec fn key_at(&self, i: int) -> TypedKey {
        self.entries@[i].0
    }

    /// The safety selection of the `i`-th record.
    pub closed spec fn safety_at(&self, i: int) -> S {
        self.entries@[i].1.safety_selection
    }

    /// The subkeys waiting of the `i`-th record.
    pub closed spec fn subkeys_at(&self, i: int) -> Set<u32> {
        subkey_set(self.entries@[i].1.subkeys)
    }

    /// The position of the record with the key, if any.
    pub open spec fn find(&self, key: TypedKey) -> Option<int> {
        if exists|i: int| 0 <= i < self.spec_len() && typed_key_same(#[trigger] self.key_at(i), key) {
            Some(choose|i: int| 0 <= i < self.spec_len() && typed_key_same(#[trigger] self.key_at(i), key))
        } else {
            None
        }
    }

    /// The subkeys waiting of the record with the key: none if it has no entry.
    pub open spec fn subkeys_of(&self, key: TypedKey) -> Set<u32> {
        match self.find(key) {
            Some(i) => self.subkeys_at(i),
            None => Set::empty(),
        }
    }

    /// Each record has one entry, and each set of subkeys is well formed.
    pub closed spec fn wf(&self) -> bool {
        &&& forall|i: int, j: int|
            0 <= i < self.entries@.len() && 0 <= j < self.entries@.len() && i != j ==> !typed_key_same(
                #[trigger] self.entries@[i].0,
                #[trigger] self.entries@[j].0,
            )
        &&& forall|i: int| 0 <= i < self.entries@.len() ==> subkeys_wf(#[trigger] self.entries@[i].1.subkeys)
    }

    /// No writes waiting.
    pub fn new() -> (r: Self)
        ensures
            r.wf(),
            r.spec_len() == 0,
    {
        OfflineSubkeyWrites { entries: Vec::new() }
    }

    /// Whether no writes are waiting.
    pub fn is_empty(&self) -> (r: bool)
        ensures
            r == (self.spec_len() == 0),
    {
        self.entries.len() == 0
    }

    fn position(&self, key: &TypedKey) -> (r: Option<usize>)
        requires
            self.wf(),
        ensures
            r matches Some(i) ==> i < self.spec_len() && self.find(*key) == Some(i as int),
            r is None ==> self.find(*key) is None,
    {
        let mut i: usize = 0;
        while i < self.entries.len()
            invariant
                self.wf(),
                i <= self.entries@.len(),
                forall|j: int| 0 <= j < i ==> !typed_key_same(#[trigger] self.key_at(j), *key),
            decreases self.entries@.len() - i,
        {
            if typed_key_eq(&self.entries[i].0, key) {
                proof {
                    assert(typed_key_same(self.key_at(i as int), *key));
                    let c = choose|c: int| 0 <= c < self.spec_len() && typed_key_same(#[trigger] self.key_at(c), *key);
                    if c != i {
                        assert(!typed_key_same(self.entries@[c].0, self.entries@[i as int].0));
                    }
                    assert(self.find(*key) == Some(i as int));
                }
                return Some(i);
            }
            i += 1;
        }
        None
    }

    /// Records that `subkey` of the record `key` was written while offline:
    /// added to the record's entry, or a new entry for the record with the
    /// safety selection given.
    pub fn add_offline_subkey_write(&mut self, key: TypedKey, subkey: ValueSubkey, safety_selection: S)
        requires
            old(self).wf(),
        ensures
            final(self).wf(),
            final(self).subkeys_of(key) == old(self).subkeys_of(key).insert(subkey),
            forall|other: TypedKey| !typed_key_same(other, key) ==> #[trigger] final(self).subkeys_of(other)
                == old(self).subkeys_of(other),
            match old(self).find(key) {
                Some(i) => final(self).spec_len() == old(self).spec_len() && final(self).subkeys_at(i)
                    == old(self).subkeys_at(i).insert(subkey) && (forall|j: int|
                    0 <= j < old(self).spec_len() ==> #[trigger] final(self).key_at(j) == old(self).key_at(j)
                        && final(self).safety_at(j) == old(self).safety_at(j)) && (forall|j: int|
                    0 <= j < old(self).spec_len() && j != i ==> #[trigger] final(self).subkeys_at(j)
                        == old(self).subkeys_at(j)),
                None => final(self).spec_len() == old(self).spec_len() + 1 && (forall|j: int|
                    0 <= j < old(self).spec_len() ==> #[trigger] final(self).key_at(j) == old(self).key_at(j)
                        && final(self).safety_at(j) == old(self).safety_at(j) && final(self).subkeys_at(j)
                        == old(self).subkeys_at(j)) && final(self).key_at(old(self).spec_len() as int) == key
                    && final(self).safety_at(old(self).spec_len() as int) == safety_selection
                    && final(self).subkeys_at(old(self).spec_len() as int) == Set::<u32>::empty().insert(subkey),
            },
    {
        match self.position(&key) {
            Some(i) => {
                let ghost pre = self.entries@;
                let (k, mut w) = self.entries.remove(i);
                let ghost mid = self.entries@;
                proof {
                    assert(subkeys_wf(pre[i as int].1.subkeys));
                }
                w.subkeys.insert(subkey);
                self.entries.insert(i, (k, w));
                proof {
                    assert forall|j: int| 0 <= j < pre.len() && j != i implies #[trigger] self.entries@[j] == pre[j] by {
                        if j < i {
                            assert(mid[j] == pre[j]);
                        } else {
                            assert(mid[j - 1] == pre[j]);
                        }
                    }
                    assert forall|a: int, b: int|
                        0 <= a < self.entries@.len() && 0 <= b < self.entries@.len() && a != b implies !typed_key_same(
                        #[trigger] self.entries@[a].0,
                        #[trigger] self.entries@[b].0,
                    ) by {
                        assert(self.entries@[a].0 == pre[a].0);
                        assert(self.entries@[b].0 == pre[b].0);
                    }
                    assert forall|a: int| 0 <= a < self.entries@.len() implies subkeys_wf(#[trigger] self.entries@[a].1.subkeys) by {
                        if a != i {
                            assert(self.entries@[a] == pre[a]);
                        }
                    }
                }
            },
            None => {
                let ghost pre = self.entries@;
                self.entries.push((key, OfflineSubkeyWrite { safety_selection, subkeys: ValueSubkeyRangeSet::single(subkey) }));
                proof {
                    assert forall|a: int, b: int|
                        0 <= a < self.entries@.len() && 0 <= b < self.entries@.len() && a != b implies !typed_key_same(
                        #[trigger] self.entries@[a].0,
                        #[trigger] self.entries@[b].0,
                    ) by {
                        if a == pre.len() {
                            assert(self.key_at(b) == old(self).key_at(b));
                            assert(!typed_key_same(old(self).key_at(b), key));
                        } else if b == pre.len() {
                            assert(self.key_at(a) == old(self).key_at(a));
                            assert(!typed_key_same(old(self).key_at(a), key));
                        }
                    }
                    assert forall|a: int| 0 <= a < self.entries@.len() implies subkeys_wf(#[trigger] self.entries@[a].1.subkeys) by {
                        if a < pre.len() {
                            assert(self.entries@[a] == pre[a]);
                        }
                    }
                }
            },
        }
        proof {
            old(self).lemma_find_after_add(self, key, subkey);
        }
    }

    proof fn lemma_find_unique(&self, k: TypedKey, i: int)
        requires
            self.wf(),
            0 <= i < self.spec_len(),
            typed_key_same(self.key_at(i), k),
        ensures
            self.find(k) == Some(i),
    {
        let c = choose|c: int| 0 <= c < self.spec_len() && typed_key_same(#[trigger] self.key_at(c), k);
        if c != i {
            assert(!typed_key_same(self.entries@[c].0, self.entries@[i].0));
        }
    }

    proof fn lemma_find_after_add(&self, other: &Self, key: TypedKey, subkey: ValueSubkey)
        requires
            self.wf(),
            other.wf(),
            match self.find(key) {
                Some(i) => other.spec_len() == self.spec_len() && other.subkeys_at(i) == self.subkeys_at(i).insert(
                    subkey,
                ) && (forall|j: int|
                    0 <= j < self.spec_len() ==> #[trigger] other.key_at(j) == self.key_at(j)) && (forall|j: int|
                    0 <= j < self.spec_len() && j != i ==> #[trigger] other.subkeys_at(j) == self.subkeys_at(j)),
                None => other.spec_len() == self.spec_len() + 1 && (forall|j: int|
                    0 <= j < self.spec_len() ==> #[trigger] other.key_at(j) == self.key_at(j) && other.subkeys_at(j)
                        == self.subkeys_at(j)) && other.key_at(self.spec_len() as int) == key
                    && other.subkeys_at(self.spec_len() as int) == Set::<u32>::empty().insert(subkey),
            },
        ensures
            other.subkeys_of(key) == self.subkeys_of(key).insert(subkey),
            forall|k2: TypedKey| !typed_key_same(k2, key) ==> #[trigger] other.subkeys_of(k2) == self.subkeys_of(k2),
    {
        match self.find(key) {
            Some(i) => {
                other.lemma_find_unique(key, i);
            },
            None => {
                other.lemma_find_unique(key, self.spec_len() as int);
                assert(Set::<u32>::empty().insert(subkey) =~= Set::<u32>::empty().insert(subkey));
            },
        }
        assert forall|k2: TypedKey| !typed_key_same(k2, key) implies #[trigger] other.subkeys_of(k2) == self.subkeys_of(k2) by {
            match self.find(k2) {
                Some(j) => {
                    assert(typed_key_same(other.key_at(j), k2));
                    other.lemma_find_unique(k2, j);
                    if let Some(i) = self.find(key) {
                        if i == j {
                            assert(typed_key_same(self.key_at(i), key));
                        }
                    }
                },
                None => {
                    if let Some(j) = other.find(k2) {
                        if j < self.spec_len() {
                            assert(typed_key_same(self.key_at(j), k2));
                        } else {
                            assert(typed_key_same(other.key_at(j), k2));
                        }
                    }
                },
            }
        }
    }

    /// The subkeys of the record `key` waiting among `subkeys`.
    pub fn offline_subkeys_within(&self, key: &TypedKey, subkeys: &ValueSubkeyRangeSet) -> (r: ValueSubkeyRangeSet)
        requires
            self.wf(),
            subkeys_wf(*subkeys),
        ensures
            subkeys_wf(r),
            subkey_set(r) == self.subkeys_of(*key).intersect(subkey_set(*subkeys)),
    {
        match self.position(key) {
            Some(i) => {
                proof {
                    assert(subkeys_wf(self.entries@[i as int].1.subkeys));
                    assert(self.find(*key) == Some(i as int));
                    assert(self.subkeys_of(*key) == subkey_set(self.entries@[i as int].1.subkeys));
                }
                self.entries[i].1.subkeys.intersect(subkeys)
            },
            None => {
                let e = ValueSubkeyRangeSet::new();
                let r = e.intersect(subkeys);
                proof {
                    assert(subkey_set(r) =~= Set::<u32>::empty());
                    assert(self.subkeys_of(*key) == Set::<u32>::empty());
                    assert(Set::<u32>::empty().intersect(subkey_set(*subkeys)) =~= Set::<u32>::empty());
                }
                r
            },
        }
    }
}

/// How a local write reached the network after it was stored locally.
#[derive(Clone, Copy, PartialEq, Eq, Structural, Debug)]
pub enum SetValueSend {
    /// The node was offline, so nothing was sent.
    Offline,
    /// Sending to the network failed.
    Failed,
    /// The write was sent.
    Sent,
}

/// After a local write of `subkey` of `key`: when it could not be sent
/// (offline, or the send failed), the subkey is queued to be written to
/// the network later; a record not yet queued is queued with
/// `safety_selection`, the one the record was opened with, and one already
/// queued keeps its own. Returns whether it was queued.
pub fn queue_unsent_set_value<S: Copy>(
    writes: &mut OfflineSubkeyWrites<S>,
    key: TypedKey,
    subkey: ValueSubkey,
    safety_selection: S,
    send: SetValueSend,
) -> (r: bool)
    requires
        old(writes).wf(),
    ensures
        final(writes).wf(),
        r == (send != SetValueSend::Sent),
        r ==> final(writes).subkeys_of(key) == old(writes).subkeys_of(key).insert(subkey) && forall|other: TypedKey|
            !typed_key_same(other, key) ==> #[trigger] final(writes).subkeys_of(other) == old(writes).subkeys_of(
                other,
            ),
        r ==> match old(writes).find(key) {
            Some(i) => final(writes).spec_len() == old(writes).spec_len() && final(writes).subkeys_at(i)
                == old(writes).subkeys_at(i).insert(subkey) && (forall|j: int|
                0 <= j < old(writes).spec_len() ==> #[trigger] final(writes).key_at(j) == old(writes).key_at(j)
                    && final(writes).safety_at(j) == old(writes).safety_at(j)) && (forall|j: int|
                0 <= j < old(writes).spec_len() && j != i ==> #[trigger] final(writes).subkeys_at(j)
                    == old(writes).subkeys_at(j)),
            None => final(writes).spec_len() == old(writes).spec_len() + 1 && (forall|j: int|
                0 <= j < old(writes).spec_len() ==> #[trigger] final(writes).key_at(j) == old(writes).key_at(j)
                    && final(writes).safety_at(j) == old(writes).safety_at(j) && final(writes).subkeys_at(j)
                    == old(writes).subkeys_at(j)) && final(writes).key_at(old(writes).spec_len() as int) == key
                && final(writes).safety_at(old(writes).spec_len() as int) == safety_selection
                && final(writes).subkeys_at(old(writes).spec_len() as int) == Set::<u32>::empty().insert(subkey),
        },
        !r ==> *final(writes) == *old(writes),
{
    match send {
        SetValueSend::Sent => false,
        _ => {
            writes.add_offline_subkey_write(key, subkey, safety_selection);
            true
        },
    }
}

// ---------------------------------------------------------------------------
// Nodes holding a record's values

/// What is known of one node that holds values of a record: when a write
/// to it last succeeded, when it was last seen with a value, and which
/// subkeys it was seen with.
pub struct PerNodeRecordDetail {
    pub last_set: u64,
    pub last_seen: u64,
    pub subkeys: ValueSubkeyRangeSet,
}

/// A node and what is known of it.
pub type NodeEntry = (PublicKey, PerNodeRecordDetail);

/// A node and what is known of it, as plain values: key, last write, last
/// seen, subkeys.
pub type NodeView = (PublicKey, u64, u64, Set<u32>);

/// The plain values of an entry.
pub open spec fn entry_view(e: NodeEntry) -> NodeView {
    (e.0, e.1.last_set, e.1.last_seen, subkey_set(e.1.subkeys))
}

/// Whether two node keys are the same.
pub open spec fn node_same(a: PublicKey, b: PublicKey) -> bool {
    a.valid == b.valid && a.bytes@ == b.bytes@
}

/// The position of the node among `vs`, if present.
pub open spec fn view_find(vs: Seq<NodeView>, node: PublicKey) -> Option<int> {
    if exists|i: int| 0 <= i < vs.len() && node_same(#[trigger] vs[i].0, node) {
        Some(choose|i: int| 0 <= i < vs.len() && node_same(#[trigger] vs[i].0, node))
    } else {
        None
    }
}

/// The nodes after `node` was seen with a value of `subkey` at `ts`: a
/// known node is marked seen and as holding the subkey, and its last write
/// becomes `ts` for a write or when none was known; an unknown node is
/// added last with all three.
pub open spec fn noted(vs: Seq<NodeView>, node: PublicKey, subkey: u32, is_set: bool, ts: u64) -> Seq<NodeView> {
    match view_find(vs, node) {
        Some(i) => vs.update(
            i,
            (vs[i].0, if is_set || vs[i].1 == 0 { ts } else { vs[i].1 }, ts, vs[i].3.insert(subkey)),
        ),
        None => vs.push((node, ts, ts, Set::empty().insert(subkey))),
    }
}

/// The nodes after each of `nodes`, in order, was seen with a value of `subkey`.
pub open spec fn noted_nodes(vs: Seq<NodeView>, nodes: Seq<PublicKey>, subkey: u32, is_set: bool, ts: u64) -> Seq<NodeView>
    decreases nodes.len(),
{
    if nodes.len() == 0 {
        vs
    } else {
        noted(noted_nodes(vs, nodes.drop_last(), subkey, is_set, ts), nodes.last(), subkey, is_set, ts)
    }
}

/// The nodes after the results of a fanout, subkey by subkey.
pub open spec fn noted_results(
    vs: Seq<NodeView>,
    results: Seq<(ValueSubkey, Vec<PublicKey>)>,
    is_set: bool,
    ts: u64,
) -> Seq<NodeView>
    decreases results.len(),
{
    if results.len() == 0 {
        vs
    } else {
        noted_nodes(noted_results(vs, results.drop_last(), is_set, ts), results.last().1@, results.last().0, is_set, ts)
    }
}

/// `kept` keeps at most `keep` of `vs`, as many as it can, and what it
/// drops was seen no later than anything it keeps.
pub open spec fn purged(vs: Seq<NodeView>, kept: Seq<NodeView>, keep: usize) -> bool {
    &&& kept.len() == if vs.len() <= keep { vs.len() as int } else { keep as int }
    &&& forall|i: int| 0 <= i < kept.len() ==> vs.contains(#[trigger] kept[i])
    &&& forall|j: int|
        0 <= j < vs.len() ==> kept.contains(#[trigger] vs[j]) || (forall|i: int|
            0 <= i < kept.len() ==> vs[j].2 <= #[trigger] kept[i].2)
}

/// The nodes known to hold values of a record, each once.
pub struct RecordNodes {
    nodes: Vec<NodeEntry>,
}

impl RecordNodes {
    /// The nodes and what is known of them, as plain values.
    pub closed spec fn view(&self) -> Seq<NodeView> {
        self.nodes@.map_values(|e: NodeEntry| entry_view(e))
    }

    /// Each node appears once and every set of subkeys is well formed.
    pub closed spec fn wf(&self) -> bool {
        &&& forall|i: int, j: int|
            0 <= i < self.nodes@.len() && 0 <= j < self.nodes@.len() && i != j ==> !node_same(
                #[trigger] self.nodes@[i].0,
                #[trigger] self.nodes@[j].0,
            )
        &&& forall|i: int| 0 <= i < self.nodes@.len() ==> subkeys_wf(#[trigger] self.nodes@[i].1.subkeys)
    }

    /// A well-formed table lists each node once.
    pub proof fn lemma_wf_distinct(&self)
        requires
            self.wf(),
        ensures
            nodes_distinct(self.view()),
    {
        assert forall|i: int, j: int|
            0 <= i < self.view().len() && 0 <= j < self.view().len() && i != j implies !node_same(
            #[trigger] self.view()[i].0,
            #[trigger] self.view()[j].0,
        ) by {
            assert(self.view()[i].0 == self.nodes@[i].0);
            assert(self.view()[j].0 == self.nodes@[j].0);
        }
    }

    /// No nodes known.
    pub fn new() -> (r: Self)
        ensures
            r.wf(),
            r.view().len() == 0,
    {
        RecordNodes { nodes: Vec::new() }
    }

    /// The number of nodes known.
    pub fn len(&self) -> (r: usize)
        ensures
            r == self.view().len(),
    {
        self.nodes.len()
    }

    fn position(&self, node: &PublicKey) -> (r: Option<usize>)
        requires
            self.wf(),
        ensures
            r matches Some(i) ==> i < self.view().len() && view_find(self.view(), *node) == Some(i as int),
            r is None ==> view_find(self.view(), *node) is None,
    {
        let mut i: usize = 0;
        while i < self.nodes.len()
            invariant
                self.wf(),
                i <= self.nodes@.len(),
                forall|j: int| 0 <= j < i ==> !node_same(#[trigger] self.view()[j].0, *node),
            decreases self.nodes@.len() - i,
        {
            if self.nodes[i].0 == *node {
                proof {
                    let v = self.view();
                    assert(node_same(v[i as int].0, *node));
                    let c = choose|c: int| 0 <= c < v.len() && node_same(#[trigger] v[c].0, *node);
                    if c != i {
                        assert(!node_same(self.nodes@[c].0, self.nodes@[i as int].0));
                    }
                    assert(view_find(v, *node) == Some(i as int));
                }
                return Some(i);
            }
            proof {
                assert(self.view()[i as int].0 == self.nodes@[i as int].0);
            }
            i += 1;
        }
        None
    }

    /// Notes that `node` was seen with a value of `subkey` at `cur_ts`.
    pub fn note_value_node(&mut self, node: PublicKey, subkey: ValueSubkey, is_set: bool, cur_ts: u64)
        requires
            old(self).wf(),
        ensures
            final(self).wf(),
            final(self).view() == noted(old(self).view(), node, subkey, is_set, cur_ts),
            nodes_distinct(final(self).view()),
    {
        let ghost v0 = self.view();
        match self.position(&node) {
            Some(i) => {
                let ghost pre = self.nodes@;
                let (k, mut d) = self.nodes.remove(i);
                let ghost mid = self.nodes@;
                proof {
                    assert(subkeys_wf(pre[i as int].1.subkeys));
                }
                if is_set || d.last_set == 0 {
                    d.last_set = cur_ts;
                }
                d.last_seen = cur_ts;
                d.subkeys.insert(subkey);
                self.nodes.insert(i, (k, d));
                proof {
                    assert forall|j: int| 0 <= j < pre.len() && j != i implies #[trigger] self.nodes@[j] == pre[j] by {
                        if j < i {
                            assert(mid[j] == pre[j]);
                        } else {
                            assert(mid[j - 1] == pre[j]);
                        }
                    }
                    assert forall|a: int, b: int|
                        0 <= a < self.nodes@.len() && 0 <= b < self.nodes@.len() && a != b implies !node_same(
                        #[trigger] self.nodes@[a].0,
                        #[trigger] self.nodes@[b].0,
                    ) by {
                        assert(self.nodes@[a].0 == pre[a].0);
                        assert(self.nodes@[b].0 == pre[b].0);
                    }
                    assert forall|a: int| 0 <= a < self.nodes@.len() implies subkeys_wf(#[trigger] self.nodes@[a].1.subkeys) by {
                        if a != i {
                            assert(self.nodes@[a] == pre[a]);
                        }
                    }
                    assert(self.view() =~= noted(v0, node, subkey, is_set, cur_ts)) by {
                        assert(v0[i as int] == entry_view(pre[i as int]));
                        assert forall|j: int| 0 <= j < pre.len() && j != i implies #[trigger] self.view()[j] == v0[j] by {
                            assert(self.nodes@[j] == pre[j]);
                        }
                    }
                }
            },
            None => {
                let ghost pre = self.nodes@;
                self.nodes.push((node, PerNodeRecordDetail { last_set: cur_ts, last_seen: cur_ts, subkeys: ValueSubkeyRangeSet::single(subkey) }));
                proof {
                    assert forall|a: int, b: int|
                        0 <= a < self.nodes@.len() && 0 <= b < self.nodes@.len() && a != b implies !node_same(
                        #[trigger] self.nodes@[a].0,
                        #[trigger] self.nodes@[b].0,
                    ) by {
                        if a == pre.len() {
                            assert(v0[b].0 == pre[b].0);
                            assert(!node_same(v0[b].0, node));
                        } else if b == pre.len() {
                            assert(v0[a].0 == pre[a].0);
                            assert(!node_same(v0[a].0, node));
                        }
                    }
                    assert forall|a: int| 0 <= a < self.nodes@.len() implies subkeys_wf(#[trigger] self.nodes@[a].1.subkeys) by {
                        if a < pre.len() {
                            assert(self.nodes@[a] == pre[a]);
                        }
                    }
                    assert(self.view() =~= noted(v0, node, subkey, is_set, cur_ts));
                }
            },
        }
        proof {
            self.lemma_wf_distinct();
        }
    }

    /// Forgets all but the `keep` most recently seen nodes. Of nodes seen
    /// at the same time, those listed first are kept first; the order of
    /// the nodes kept does not change.
    pub fn purge_to_most_recent(&mut self, keep: usize)
        requires
            old(self).wf(),
        ensures
            final(self).wf(),
            purged(old(self).view(), final(self).view(), keep),
            nodes_distinct(final(self).view()),
    {
        let ghost orig = self.nodes@;
        while self.nodes.len() > keep
            invariant
                self.wf(),
                self.nodes@.len() <= orig.len(),
                orig.len() > keep ==> self.nodes@.len() >= keep,
                orig.len() <= keep ==> self.nodes@ == orig,
                forall|i: int| 0 <= i < self.nodes@.len() ==> orig.contains(#[trigger] self.nodes@[i]),
                forall|j: int|
                    0 <= j < orig.len() ==> self.nodes@.contains(#[trigger] orig[j]) || (forall|i: int|
                        0 <= i < self.nodes@.len() ==> orig[j].1.last_seen <= #[trigger] self.nodes@[i].1.last_seen),
            decreases self.nodes@.len(),
        {
            let ghost pre_self = *self;
            let ghost pre = self.nodes@;
            let mut m: usize = 0;
            let mut k: usize = 1;
            while k < self.nodes.len()
                invariant
                    self.nodes@ == pre,
                    pre.len() > keep,
                    m < k <= pre.len(),
                    forall|i: int| 0 <= i < k ==> pre[m as int].1.last_seen <= #[trigger] pre[i].1.last_seen,
                decreases pre.len() - k,
            {
                if self.nodes[k].1.last_seen < self.nodes[m].1.last_seen {
                    m = k;
                }
                k += 1;
            }
            let _ = self.nodes.remove(m);
            proof {
                let cur = self.nodes@;
                assert forall|i: int| 0 <= i < cur.len() implies #[trigger] cur[i] == pre[if i < m { i } else { i + 1 }] by {}
                assert forall|i: int| 0 <= i < cur.len() implies orig.contains(#[trigger] cur[i]) by {
                    let pi = if i < m { i } else { i + 1 };
                    assert(pre[pi] == cur[i]);
                    assert(orig.contains(pre[pi]));
                }
                assert forall|j: int|
                    0 <= j < orig.len() implies cur.contains(#[trigger] orig[j]) || (forall|i: int|
                        0 <= i < cur.len() ==> orig[j].1.last_seen <= #[trigger] cur[i].1.last_seen) by {
                    if pre.contains(orig[j]) {
                        let q = choose|q: int| 0 <= q < pre.len() && pre[q] == orig[j];
                        if q < m {
                            assert(cur[q] == orig[j]);
                        } else if q > m {
                            assert(cur[q - 1] == orig[j]);
                        } else {
                            assert forall|i: int| 0 <= i < cur.len() implies orig[j].1.last_seen <= #[trigger] cur[i].1.last_seen by {
                                let pi = if i < m { i } else { i + 1 };
                                assert(cur[i] == pre[pi]);
                            }
                        }
                    } else {
                        assert forall|i: int| 0 <= i < cur.len() implies orig[j].1.last_seen <= #[trigger] cur[i].1.last_seen by {
                            let pi = if i < m { i } else { i + 1 };
                            assert(cur[i] == pre[pi]);
                        }
                    }
                }
                assert forall|a: int, b: int|
                    0 <= a < cur.len() && 0 <= b < cur.len() && a != b implies !node_same(
                    #[trigger] cur[a].0,
                    #[trigger] cur[b].0,
                ) by {
                    let pa = if a < m { a } else { a + 1 };
                    let pb = if b < m { b } else { b + 1 };
                    assert(cur[a] == pre_self.nodes@[pa]);
                    assert(cur[b] == pre_self.nodes@[pb]);
                    assert(!node_same(pre_self.nodes@[pa].0, pre_self.nodes@[pb].0));
                }
                assert forall|a: int| 0 <= a < cur.len() implies subkeys_wf(#[trigger] cur[a].1.subkeys) by {
                    let pa = if a < m { a } else { a + 1 };
                    assert(cur[a] == pre_self.nodes@[pa]);
                    assert(subkeys_wf(pre_self.nodes@[pa].1.subkeys));
                }
            }
        }
        proof {
            if orig.len() <= keep {
                assert(self.nodes@ == orig);
            }
            lemma_purged_views(orig, self.nodes@, keep);
            self.lemma_wf_distinct();
        }
    }

    /// Takes the nodes that a fanout found holding values, per subkey, and
    /// then forgets all but the `consensus_count` most recently seen.
    pub fn process_fanout_results(
        &mut self,
        subkey_results: &Vec<(ValueSubkey, Vec<PublicKey>)>,
        is_set: bool,
        cur_ts: u64,
        consensus_count: usize,
    )
        requires
            old(self).wf(),
        ensures
            final(self).wf(),
            purged(noted_results(old(self).view(), subkey_results@, is_set, cur_ts), final(self).view(), consensus_count),
            nodes_distinct(final(self).view()),
    {
        let mut r: usize = 0;
        while r < subkey_results.len()
            invariant
                self.wf(),
                r <= subkey_results@.len(),
                self.view() == noted_results(old(self).view(), subkey_results@.take(r as int), is_set, cur_ts),
            decreases subkey_results@.len() - r,
        {
            let subkey = subkey_results[r].0;
            let nodes = &subkey_results[r].1;
            let ghost base = self.view();
            let mut n: usize = 0;
            while n < nodes.len()
                invariant
                    self.wf(),
                    n <= nodes@.len(),
                    self.view() == noted_nodes(base, nodes@.take(n as int), subkey, is_set, cur_ts),
                decreases nodes@.len() - n,
            {
                self.note_value_node(nodes[n], subkey, is_set, cur_ts);
                proof {
                    assert(nodes@.take(n + 1).drop_last() =~= nodes@.take(n as int));
                }
                n += 1;
            }
            proof {
                assert(nodes@.take(n as int) =~= nodes@);
                let t = subkey_results@.take(r + 1);
                assert(t.drop_last() =~= subkey_results@.take(r as int));
                assert(t.last() == subkey_results@[r as int]);
            }
            r += 1;
        }
        proof {
            assert(subkey_results@.take(r as int) =~= subkey_results@);
        }
        self.purge_to_most_recent(consensus_count);
    }
}

/// No node is listed twice.
pub open spec fn nodes_distinct(vs: Seq<NodeView>) -> bool {
    forall|i: int, j: int| 0 <= i < vs.len() && 0 <= j < vs.len() && i != j ==> !node_same(#[trigger] vs[i].0, #[trigger] vs[j].0)
}

/// Whether some entry of `vs` is `node`, last seen at `ts`.
pub open spec fn seen_at(vs: Seq<NodeView>, node: PublicKey, ts: u64) -> bool {
    exists|k: int| 0 <= k < vs.len() && node_same(#[trigger] vs[k].0, node) && vs[k].2 == ts
}

/// Noting that `node` was seen with `subkey` at `ts` leaves it listed once,
/// last seen at `ts` and holding `subkey`, whether it was known before or
/// not; every other node keeps its entry and position, and no node is
/// listed twice.
pub proof fn lemma_noted_node_is_seen_now(vs: Seq<NodeView>, node: PublicKey, subkey: u32, is_set: bool, ts: u64)
    requires
        nodes_distinct(vs),
    ensures
        ({
            let out = noted(vs, node, subkey, is_set, ts);
            &&& nodes_distinct(out)
            &&& out.len() >= vs.len()
            &&& exists|k: int|
                0 <= k < out.len() && node_same(#[trigger] out[k].0, node) && out[k].2 == ts && out[k].3.contains(subkey)
            &&& forall|k: int|
                0 <= k < out.len() && node_same(#[trigger] out[k].0, node) ==> out[k].2 == ts
            &&& forall|k: int|
                0 <= k < vs.len() && !node_same(vs[k].0, node) ==> #[trigger] out[k] == vs[k]
            &&& forall|k: int| 0 <= k < vs.len() ==> (#[trigger] out[k]).0 == vs[k].0
        }),
{
    let out = noted(vs, node, subkey, is_set, ts);
    match view_find(vs, node) {
        Some(i) => {
            assert(0 <= i < vs.len() && node_same(vs[i].0, node));
            assert(out[i].2 == ts && out[i].3.contains(subkey) && node_same(out[i].0, node));
            assert forall|k: int| 0 <= k < out.len() && node_same(#[trigger] out[k].0, node) implies out[k].2 == ts by {
                if k != i {
                    assert(out[k] == vs[k]);
                    assert(!node_same(vs[k].0, vs[i].0));
                }
            }
            assert forall|a: int, b: int| 0 <= a < out.len() && 0 <= b < out.len() && a != b implies !node_same(
                #[trigger] out[a].0,
                #[trigger] out[b].0,
            ) by {
                assert(out[a].0 == vs[a].0 && out[b].0 == vs[b].0);
            }
        },
        None => {
            let n = vs.len() as int;
            assert(out[n].0 == node && out[n].2 == ts && out[n].3.contains(subkey));
            assert(node_same(out[n].0, node));
            assert forall|k: int| 0 <= k < out.len() && node_same(#[trigger] out[k].0, node) implies out[k].2 == ts by {
                if k < n {
                    assert(out[k] == vs[k]);
                    assert(!node_same(vs[k].0, node));
                }
            }
            assert forall|a: int, b: int| 0 <= a < out.len() && 0 <= b < out.len() && a != b implies !node_same(
                #[trigger] out[a].0,
                #[trigger] out[b].0,
            ) by {
                if a == n {
                    assert(out[b] == vs[b]);
                    assert(!node_same(vs[b].0, node));
                } else if b == n {
                    assert(out[a] == vs[a]);
                    assert(!node_same(vs[a].0, node));
                } else {
                    assert(out[a] == vs[a] && out[b] == vs[b]);
                }
            }
        },
    }
}

proof fn lemma_seen_at_kept(vs: Seq<NodeView>, a: PublicKey, node: PublicKey, subkey: u32, is_set: bool, ts: u64)
    requires
        nodes_distinct(vs),
        seen_at(vs, a, ts),
    ensures
        seen_at(noted(vs, node, subkey, is_set, ts), a, ts),
        nodes_distinct(noted(vs, node, subkey, is_set, ts)),
{
    lemma_noted_node_is_seen_now(vs, node, subkey, is_set, ts);
    let out = noted(vs, node, subkey, is_set, ts);
    let k = choose|k: int| 0 <= k < vs.len() && node_same(#[trigger] vs[k].0, a) && vs[k].2 == ts;
    assert(out[k].0 == vs[k].0);
    if node_same(vs[k].0, node) {
        assert(out[k].2 == ts);
    } else {
        assert(out[k] == vs[k]);
    }
    assert(0 <= k < out.len() && node_same(out[k].0, a) && out[k].2 == ts);
}

proof fn lemma_noted_nodes_seen(vs: Seq<NodeView>, nodes: Seq<PublicKey>, subkey: u32, is_set: bool, ts: u64)
    requires
        nodes_distinct(vs),
    ensures
        nodes_distinct(noted_nodes(vs, nodes, subkey, is_set, ts)),
        forall|n: int| 0 <= n < nodes.len() ==> seen_at(noted_nodes(vs, nodes, subkey, is_set, ts), #[trigger] nodes[n], ts),
        forall|a: PublicKey| seen_at(vs, a, ts) ==> #[trigger] seen_at(noted_nodes(vs, nodes, subkey, is_set, ts), a, ts),
    decreases nodes.len(),
{
    if nodes.len() > 0 {
        let p = nodes.drop_last();
        lemma_noted_nodes_seen(vs, p, subkey, is_set, ts);
        let mid = noted_nodes(vs, p, subkey, is_set, ts);
        let out = noted_nodes(vs, nodes, subkey, is_set, ts);
        assert(out == noted(mid, nodes.last(), subkey, is_set, ts));
        lemma_noted_node_is_seen_now(mid, nodes.last(), subkey, is_set, ts);
        let k = choose|k: int|
            0 <= k < out.len() && node_same(#[trigger] out[k].0, nodes.last()) && out[k].2 == ts && out[k].3.contains(subkey);
        assert(seen_at(out, nodes.last(), ts));
        assert forall|n: int| 0 <= n < nodes.len() implies seen_at(out, #[trigger] nodes[n], ts) by {
            if n < p.len() {
                assert(p[n] == nodes[n]);
                lemma_seen_at_kept(mid, nodes[n], nodes.last(), subkey, is_set, ts);
            }
        }
        assert forall|a: PublicKey| seen_at(vs, a, ts) implies #[trigger] seen_at(out, a, ts) by {
            lemma_seen_at_kept(mid, a, nodes.last(), subkey, is_set, ts);
        }
    }
}

/// After the results of a fanout at `ts` are noted, every node in them is
/// listed, once, as last seen at `ts`, and so is every node already last
/// seen at `ts`.
pub proof fn lemma_fanout_nodes_are_seen_now(
    vs: Seq<NodeView>,
    results: Seq<(ValueSubkey, Vec<PublicKey>)>,
    is_set: bool,
    ts: u64,
)
    requires
        nodes_distinct(vs),
    ensures
        nodes_distinct(noted_results(vs, results, is_set, ts)),
        forall|r: int, n: int|
            0 <= r < results.len() && 0 <= n < results[r].1@.len() ==> seen_at(
                noted_results(vs, results, is_set, ts),
                #[trigger] results[r].1@[n],
                ts,
            ),
        forall|a: PublicKey| seen_at(vs, a, ts) ==> #[trigger] seen_at(noted_results(vs, results, is_set, ts), a, ts),
    decreases results.len(),
{
    if results.len() > 0 {
        let p = results.drop_last();
        lemma_fanout_nodes_are_seen_now(vs, p, is_set, ts);
        let mid = noted_results(vs, p, is_set, ts);
        let last = results.last();
        lemma_noted_nodes_seen(mid, last.1@, last.0, is_set, ts);
        let out = noted_results(vs, results, is_set, ts);
        assert(out == noted_nodes(mid, last.1@, last.0, is_set, ts));
        assert forall|r: int, n: int| 0 <= r < results.len() && 0 <= n < results[r].1@.len() implies seen_at(
            out,
            #[trigger] results[r].1@[n],
            ts,
        ) by {
            if r < p.len() {
                assert(p[r] == results[r]);
                assert(seen_at(mid, p[r].1@[n], ts));
            } else {
                assert(results[r] == last);
                assert(seen_at(out, last.1@[n], ts));
            }
        }
    }
}

/// Purging keeps everything seen at or after `t` when there are at most
/// `keep` such entries: only entries seen earlier than all kept ones are
/// dropped.
pub proof fn lemma_purge_keeps_recent(vs: Seq<NodeView>, kept: Seq<NodeView>, keep: usize, t: u64)
    requires
        nodes_distinct(kept),
        purged(vs, kept, keep),
        vs.filter(|v: NodeView| v.2 >= t).len() <= keep,
    ensures
        forall|j: int| 0 <= j < vs.len() && vs[j].2 >= t ==> kept.contains(#[trigger] vs[j]),
{
    let pred = |v: NodeView| v.2 >= t;
    let f = vs.filter(pred);
    assert forall|j: int| 0 <= j < vs.len() && vs[j].2 >= t implies kept.contains(#[trigger] vs[j]) by {
        if !kept.contains(vs[j]) {
            let x = vs[j];
            vs.lemma_filter_contains(pred, j);
            vs.lemma_filter_len(pred);
            assert(f.contains(x));
            assert forall|y: NodeView| kept.to_set().contains(y) implies #[trigger] f.to_set().remove(x).contains(y) by {
                let i = choose|i: int| 0 <= i < kept.len() && kept[i] == y;
                assert(vs.contains(kept[i]));
                assert(x.2 <= kept[i].2);
                let q = choose|q: int| 0 <= q < vs.len() && vs[q] == y;
                vs.lemma_filter_contains(pred, q);
                assert(y != x);
            }
            assert(kept.no_duplicates()) by {
                assert forall|a: int, b: int| 0 <= a < kept.len() && 0 <= b < kept.len() && a != b implies kept[a]
                    != kept[b] by {
                    assert(!node_same(kept[a].0, kept[b].0));
                }
            }
            kept.unique_seq_to_set();
            f.lemma_cardinality_of_set();
            assert(f.to_set().contains(x));
            lemma_len_subset(kept.to_set(), f.to_set().remove(x));
        }
    }
}

/// After a fanout at `ts`, when at most `keep` nodes are listed as last
/// seen at or after `ts`, every node of the results is kept, with last
/// seen `ts`.
pub proof fn lemma_fanout_keeps_its_nodes(
    vs: Seq<NodeView>,
    results: Seq<(ValueSubkey, Vec<PublicKey>)>,
    is_set: bool,
    ts: u64,
    kept: Seq<NodeView>,
    keep: usize,
)
    requires
        nodes_distinct(vs),
        nodes_distinct(kept),
        purged(noted_results(vs, results, is_set, ts), kept, keep),
        noted_results(vs, results, is_set, ts).filter(|v: NodeView| v.2 >= ts).len() <= keep,
    ensures
        forall|r: int, n: int|
            0 <= r < results.len() && 0 <= n < results[r].1@.len() ==> seen_at(kept, #[trigger] results[r].1@[n], ts),
{
    let out = noted_results(vs, results, is_set, ts);
    lemma_fanout_nodes_are_seen_now(vs, results, is_set, ts);
    lemma_purge_keeps_recent(out, kept, keep, ts);
    assert forall|r: int, n: int| 0 <= r < results.len() && 0 <= n < results[r].1@.len() implies seen_at(
        kept,
        #[trigger] results[r].1@[n],
        ts,
    ) by {
        let a = results[r].1@[n];
        assert(seen_at(out, a, ts));
        let k = choose|k: int| 0 <= k < out.len() && node_same(#[trigger] out[k].0, a) && out[k].2 == ts;
        assert(kept.contains(out[k]));
        let i = choose|i: int| 0 <= i < kept.len() && kept[i] == out[k];
        assert(node_same(kept[i].0, a) && kept[i].2 == ts);
    }
}

proof fn lemma_purged_views(orig: Seq<NodeEntry>, kept: Seq<NodeEntry>, keep: usize)
    requires
        kept.len() == if orig.len() <= keep { orig.len() as int } else { keep as int },
        forall|i: int| 0 <= i < kept.len() ==> orig.contains(#[trigger] kept[i]),
        forall|j: int|
            0 <= j < orig.len() ==> kept.contains(#[trigger] orig[j]) || (forall|i: int|
                0 <= i < kept.len() ==> orig[j].1.last_seen <= #[trigger] kept[i].1.last_seen),
    ensures
        purged(
            orig.map_values(|e: NodeEntry| entry_view(e)),
            kept.map_values(|e: NodeEntry| entry_view(e)),
            keep,
        ),
{
    let vo = orig.map_values(|e: NodeEntry| entry_view(e));
    let vk = kept.map_values(|e: NodeEntry| entry_view(e));
    assert forall|i: int| 0 <= i < vk.len() implies vo.contains(#[trigger] vk[i]) by {
        assert(orig.contains(kept[i]));
        let q = choose|q: int| 0 <= q < orig.len() && orig[q] == kept[i];
        assert(vo[q] == vk[i]);
    }
    assert forall|j: int|
        0 <= j < vo.len() implies vk.contains(#[trigger] vo[j]) || (forall|i: int|
            0 <= i < vk.len() ==> vo[j].2 <= #[trigger] vk[i].2) by {
        if kept.contains(orig[j]) {
            let q = choose|q: int| 0 <= q < kept.len() && kept[q] == orig[j];
            assert(vk[q] == vo[j]);
        } else {
            assert forall|i: int| 0 <= i < vk.len() implies vo[j].2 <= #[trigger] vk[i].2 by {
                assert(orig[j].1.last_seen <= kept[i].1.last_seen);
            }
        }
    }
}

// ---------------------------------------------------------------------------
// Inspecting records

/// How far an inspection of a record goes.
#[derive(Clone, Copy, PartialEq, Eq, Structural, Debug)]
pub enum DHTReportScope {
    /// Only what is held locally.
    Local,
    /// The network's view, as a read that ignores the local state would see it.
    SyncGet,
    /// The network's view, as a read from the local state would see it.
    UpdateGet,
    /// The network's view, as a write that ignores the local state would see it.
    SyncSet,
    /// The network's view, as a write from the local state would see it.
    UpdateSet,
}

/// Whether the inspection asks the network.
pub fn inspect_needs_network(scope: DHTReportScope) -> (r: bool)
    ensures
        r == (scope != DHTReportScope::Local),
{
    !matches!(scope, DHTReportScope::Local)
}

/// Whether the network inspection starts from the local sequence numbers.
pub fn inspect_uses_local_result(scope: DHTReportScope) -> (r: bool)
    ensures
        r == !(scope == DHTReportScope::SyncGet || scope == DHTReportScope::SyncSet),
{
    !matches!(scope, DHTReportScope::SyncGet | DHTReportScope::SyncSet)
}

/// Whether the network inspection looks as a write would.
pub fn inspect_is_set(scope: DHTReportScope) -> (r: bool)
    ensures
        r == (scope == DHTReportScope::UpdateSet || scope == DHTReportScope::SyncSet),
{
    matches!(scope, DHTReportScope::UpdateSet | DHTReportScope::SyncSet)
}

/// The sequence numbers a write from the local state would produce: each
/// one more, wrapping around.
pub open spec fn next_seqs(seqs: Seq<ValueSeqNum>) -> Seq<ValueSeqNum> {
    seqs.map_values(|s: ValueSeqNum| if s == u32::MAX { 0 } else { (s + 1) as u32 })
}

/// For an update-set inspection, advances the local sequence numbers as a
/// write would; other scopes leave them alone.
pub fn simulate_set_seqs(scope: DHTReportScope, seqs: &mut Vec<ValueSeqNum>)
    ensures
        final(seqs)@ == if scope == DHTReportScope::UpdateSet {
            next_seqs(old(seqs)@)
        } else {
            old(seqs)@
        },
{
    if !matches!(scope, DHTReportScope::UpdateSet) {
        return;
    }
    let ghost pre = seqs@;
    let mut i: usize = 0;
    while i < seqs.len()
        invariant
            i <= seqs@.len(),
            seqs@.len() == pre.len(),
            forall|j: int| 0 <= j < i ==> seqs@[j] == next_seqs(pre)[j],
            forall|j: int| i <= j < seqs@.len() ==> seqs@[j] == pre[j],
        decreases seqs@.len() - i,
    {
        let s = seqs[i];
        let n = s.wrapping_add(1);
        seqs.set(i, n);
        i += 1;
    }
    assert(seqs@ =~= next_seqs(pre));
}

/// What an inspection reports: the subkeys, those waiting to be written,
/// and the local and network sequence numbers.
pub struct DHTRecordReport {
    pub subkeys: ValueSubkeyRangeSet,
    pub offline_subkeys: ValueSubkeyRangeSet,
    pub local_seqs: Vec<ValueSeqNum>,
    pub network_seqs: Vec<ValueSeqNum>,
}

impl DHTRecordReport {
    pub fn new(
        subkeys: ValueSubkeyRangeSet,
        offline_subkeys: ValueSubkeyRangeSet,
        local_seqs: Vec<ValueSeqNum>,
        network_seqs: Vec<ValueSeqNum>,
    ) -> (r: Self)
        ensures
            r.subkeys == subkeys,
            r.offline_subkeys == offline_subkeys,
            r.local_seqs@ == local_seqs@,
            r.network_seqs@ == network_seqs@,
    {
        DHTRecordReport { subkeys, offline_subkeys, local_seqs, network_seqs }
    }
}

} // verus!
