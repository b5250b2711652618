//! Bookkeeping of outstanding receipts: each receipt waits for a number of
//! returns until it completes, is cancelled, or expires. The callbacks that
//! the events call are dispatched by the caller from the actions returned here.

use vstd::prelude::*;

verus! {

/// The nonce that identifies a receipt.
pub type ReceiptNonce = [u8; 24];

/// What happened to a receipt.
#[derive(Clone, Copy, PartialEq, Eq, Structural, Debug)]
pub enum ReceiptEvent<N> {
    /// The receipt came back through the given node.
    Returned(N),
    /// The receipt expired before enough returns.
    Expired,
    /// The receipt was cancelled.
    Cancelled,
}

/// How a receipt reports its events.
#[derive(Clone, Copy, PartialEq, Eq, Structural, Debug)]
pub enum ReceiptCallbackKind {
    /// A callback called on every event.
    Normal,
    /// A single-shot eventual, resolved by the first event only; `pending`
    /// is false once it has been resolved.
    SingleShot { pending: bool },
}

/// A callback to make: which receipt, the event, and the return counts the
/// callback sees; `single_shot` tells whether it resolves the receipt's
/// single-shot eventual rather than calling a normal callback.
#[derive(Clone, Copy, Debug)]
pub struct ReceiptCallbackAction<N> {
    pub nonce: ReceiptNonce,
    pub event: ReceiptEvent<N>,
    pub returns_so_far: u32,
    pub expected_returns: u32,
    pub single_shot: bool,
}

/// One outstanding receipt.
#[derive(Clone, Copy, Debug)]
pub struct ReceiptRecord {
    pub expiration_ts: u64,
    pub nonce: ReceiptNonce,
    pub expected_returns: u32,
    pub returns_so_far: u32,
    pub receipt_callback: ReceiptCallbackKind,
}

impl ReceiptRecord {
    /// A record for a receipt with a normal callback that expects `expected_returns` returns.
    pub fn from_receipt(nonce: ReceiptNonce, expiration_ts: u64, expected_returns: u32) -> (r: Self)
        ensures
            r == (ReceiptRecord {
                expiration_ts,
                nonce,
                expected_returns,
                returns_so_far: 0,
                receipt_callback: ReceiptCallbackKind::Normal,
            }),
    {
        ReceiptRecord {
            expiration_ts,
            nonce,
            expected_returns,
            returns_so_far: 0u32,
            receipt_callback: ReceiptCallbackKind::Normal,
        }
    }

    /// A record for a receipt with a single-shot eventual: one return is expected.
    pub fn from_single_shot_receipt(nonce: ReceiptNonce, expiration_ts: u64) -> (r: Self)
        ensures
            r == (ReceiptRecord {
                expiration_ts,
                nonce,
                expected_returns: 1,
                returns_so_far: 0,
                receipt_callback: ReceiptCallbackKind::SingleShot { pending: true },
            }),
    {
        ReceiptRecord {
            expiration_ts,
            nonce,
            returns_so_far: 0u32,
            expected_returns: 1u32,
            receipt_callback: ReceiptCallbackKind::SingleShot { pending: true },
        }
    }
}

/// The index of the record with nonce `n`, if there is one.
pub open spec fn nonce_index(recs: Seq<ReceiptRecord>, n: Seq<u8>) -> Option<int> {
    if exists|i: int| 0 <= i < recs.len() && (#[trigger] recs[i]).nonce@ == n {
        Some(choose|i: int| 0 <= i < recs.len() && (#[trigger] recs[i]).nonce@ == n)
    } else {
        None
    }
}

/// No two records share a nonce.
pub open spec fn nonces_distinct(recs: Seq<ReceiptRecord>) -> bool {
    forall|i: int, j: int|
        0 <= i < recs.len() && 0 <= j < recs.len() && i != j ==> (#[trigger] recs[i]).nonce@
            != (#[trigger] recs[j]).nonce@
}

/// Recording a receipt: it replaces the record with the same nonce, or is added.
pub open spec fn record_spec(recs: Seq<ReceiptRecord>, rec: ReceiptRecord) -> Seq<ReceiptRecord> {
    match nonce_index(recs, rec.nonce@) {
        Some(i) => recs.update(i, rec),
        None => recs.push(rec),
    }
}

/// The earliest expiration among the records.
pub open spec fn min_expiration(recs: Seq<ReceiptRecord>) -> Option<u64>
    decreases recs.len(),
{
    if recs.len() == 0 {
        None
    } else {
        match min_expiration(recs.drop_last()) {
            None => Some(recs.last().expiration_ts),
            Some(m) => if recs.last().expiration_ts < m {
                Some(recs.last().expiration_ts)
            } else {
                Some(m)
            },
        }
    }
}

/// The records that have not expired at `now`, in order.
pub open spec fn unexpired(recs: Seq<ReceiptRecord>, now: u64) -> Seq<ReceiptRecord>
    decreases recs.len(),
{
    if recs.len() == 0 {
        Seq::empty()
    } else if recs.last().expiration_ts <= now {
        unexpired(recs.drop_last(), now)
    } else {
        unexpired(recs.drop_last(), now).push(recs.last())
    }
}

/// The records that have expired at `now`, in order.
pub open spec fn expired(recs: Seq<ReceiptRecord>, now: u64) -> Seq<ReceiptRecord>
    decreases recs.len(),
{
    if recs.len() == 0 {
        Seq::empty()
    } else if recs.last().expiration_ts <= now {
        expired(recs.drop_last(), now).push(recs.last())
    } else {
        expired(recs.drop_last(), now)
    }
}

/// The callback, if any, that an event on a record makes, and the record's
/// callback state afterwards: a normal callback is always called; a pending
/// single-shot eventual is resolved once and is then no longer pending.
pub open spec fn callback_spec<N>(rec: ReceiptRecord, event: ReceiptEvent<N>) -> (
    Option<ReceiptCallbackAction<N>>,
    ReceiptCallbackKind,
) {
    match rec.receipt_callback {
        ReceiptCallbackKind::Normal => (
            Some(
                ReceiptCallbackAction {
                    nonce: rec.nonce,
                    event,
                    returns_so_far: rec.returns_so_far,
                    expected_returns: rec.expected_returns,
                    single_shot: false,
                },
            ),
            ReceiptCallbackKind::Normal,
        ),
        ReceiptCallbackKind::SingleShot { pending } => if pending {
            (
                Some(
                    ReceiptCallbackAction {
                        nonce: rec.nonce,
                        event,
                        returns_so_far: rec.returns_so_far,
                        expected_returns: rec.expected_returns,
                        single_shot: true,
                    },
                ),
                ReceiptCallbackKind::SingleShot { pending: false },
            )
        } else {
            (None, ReceiptCallbackKind::SingleShot { pending: false })
        },
    }
}

/// Every event reaches a normal callback, and the first event of any kind
/// (returned, expired or cancelled) resolves a pending single-shot
/// eventual: the callback carries exactly that event with the record's
/// nonce and counts, and the eventual is then resolved. A resolved eventual
/// gets nothing more.
pub proof fn lemma_callback_reports_each_event<N>(rec: ReceiptRecord, event: ReceiptEvent<N>)
    ensures
        (callback_spec(rec, event).0 is Some) == (rec.receipt_callback == ReceiptCallbackKind::Normal
            || rec.receipt_callback == (ReceiptCallbackKind::SingleShot { pending: true })),
        callback_spec(rec, event).0 matches Some(a) ==> a.event == event && a.nonce == rec.nonce
            && a.returns_so_far == rec.returns_so_far && a.expected_returns == rec.expected_returns
            && a.single_shot == (rec.receipt_callback is SingleShot),
        rec.receipt_callback is SingleShot ==> callback_spec(rec, event).1 == (ReceiptCallbackKind::SingleShot {
            pending: false,
        }),
        rec.receipt_callback == ReceiptCallbackKind::Normal ==> callback_spec(rec, event).1
            == ReceiptCallbackKind::Normal,
{
}

/// The outstanding receipts and the earliest expiration the timeout task must act on.
pub struct ReceiptManager {
    receipts: Vec<ReceiptRecord>,
    next_oldest_ts: Option<u64>,
}

fn nonce_eq(a: &ReceiptNonce, b: &ReceiptNonce) -> (r: bool)
    ensures
        r == (a@ == b@),
{
    let mut i: usize = 0;
    while i < 24
        invariant
            i <= 24,
            forall|k: int| 0 <= k < i ==> a@[k] == b@[k],
        decreases 24 - i,
    {
        if a[i] != b[i] {
            return false;
        }
        i += 1;
    }
    assert(a@ =~= b@);
    true
}

impl ReceiptManager {
    pub closed spec fn records(&self) -> Seq<ReceiptRecord> {
        self.receipts@
    }

    pub closed spec fn spec_next_oldest_ts(&self) -> Option<u64> {
        self.next_oldest_ts
    }

    /// Every manager holds at most one record per nonce.
    pub closed spec fn wf(&self) -> bool {
        nonces_distinct(self.receipts@)
    }

    /// A manager with no receipts.
    pub fn new() -> (r: Self)
        ensures
            r.wf(),
            r.records() == Seq::<ReceiptRecord>::empty(),
            r.spec_next_oldest_ts() is None,
    {
        ReceiptManager { receipts: Vec::new(), next_oldest_ts: None }
    }

    /// Forgets every receipt.
    pub fn shutdown(&mut self)
        ensures
            final(self).wf(),
            final(self).records() == Seq::<ReceiptRecord>::empty(),
            final(self).spec_next_oldest_ts() is None,
    {
        self.receipts = Vec::new();
        self.next_oldest_ts = None;
    }

    /// The earliest expiration the timeout task must act on, as last computed.
    pub fn next_oldest_ts(&self) -> (r: Option<u64>)
        ensures
            r == self.spec_next_oldest_ts(),
    {
        self.next_oldest_ts
    }

    fn find(&self, nonce: &ReceiptNonce) -> (r: Option<usize>)
        requires
            self.wf(),
        ensures
            r is None <==> nonce_index(self.records(), nonce@) is None,
            r matches Some(i) ==> nonce_index(self.records(), nonce@) == Some(i as int) && i
                < self.records().len(),
    {
        let mut i: usize = 0;
        while i < self.receipts.len()
            invariant
                i <= self.receipts@.len(),
                nonces_distinct(self.receipts@),
                forall|k: int| 0 <= k < i ==> (#[trigger] self.receipts@[k]).nonce@ != nonce@,
            decreases self.receipts@.len() - i,
        {
            if nonce_eq(&self.receipts[i].nonce, nonce) {
                assert(self.receipts@[i as int].nonce@ == nonce@);
                let ghost j = choose|j: int|
                    0 <= j < self.receipts@.len() && (#[trigger] self.receipts@[j]).nonce@
                        == nonce@;
                assert(j == i);
                return Some(i);
            }
            i += 1;
        }
        None
    }

    fn insert_record(&mut self, rec: ReceiptRecord)
        requires
            old(self).wf(),
        ensures
            final(self).wf(),
            final(self).records() == record_spec(old(self).records(), rec),
            final(self).spec_next_oldest_ts() == old(self).spec_next_oldest_ts(),
    {
        match self.find(&rec.nonce) {
            Some(i) => {
                self.receipts.set(i, rec);
            },
            None => {
                self.receipts.push(rec);
            },
        }
    }

    /// Records a receipt with a normal callback, replacing any receipt with
    /// the same nonce. The earliest expiration is left as it was.
    pub fn record_receipt(&mut self, nonce: ReceiptNonce, expiration: u64, expected_returns: u32)
        requires
            old(self).wf(),
        ensures
            final(self).wf(),
            final(self).records() == record_spec(
                old(self).records(),
                ReceiptRecord {
                    expiration_ts: expiration,
                    nonce,
                    expected_returns,
                    returns_so_far: 0,
                    receipt_callback: ReceiptCallbackKind::Normal,
                },
            ),
            final(self).spec_next_oldest_ts() == old(self).spec_next_oldest_ts(),
    {
        let record = ReceiptRecord::from_receipt(nonce, expiration, expected_returns);
        self.insert_record(record);
    }

    /// Records a receipt with a single-shot eventual, replacing any receipt
    /// with the same nonce. The earliest expiration is left as it was.
    pub fn record_single_shot_receipt(&mut self, nonce: ReceiptNonce, expiration: u64)
        requires
            old(self).wf(),
        ensures
            final(self).wf(),
            final(self).records() == record_spec(
                old(self).records(),
                ReceiptRecord {
                    expiration_ts: expiration,
                    nonce,
                    expected_returns: 1,
                    returns_so_far: 0,
                    receipt_callback: ReceiptCallbackKind::SingleShot { pending: true },
                },
            ),
            final(self).spec_next_oldest_ts() == old(self).spec_next_oldest_ts(),
    {
        let record = ReceiptRecord::from_single_shot_receipt(nonce, expiration);
        self.insert_record(record);
    }

    fn update_next_oldest_timestamp(&mut self)
        ensures
            final(self).records() == old(self).records(),
            final(self).spec_next_oldest_ts() == min_expiration(old(self).records()),
    {
        let mut new_next_oldest_ts: Option<u64> = None;
        let mut i: usize = 0;
        while i < self.receipts.len()
            invariant
                i <= self.receipts@.len(),
                new_next_oldest_ts == min_expiration(self.receipts@.subrange(0, i as int)),
            decreases self.receipts@.len() - i,
        {
            let exp = self.receipts[i].expiration_ts;
            proof {
                assert(self.receipts@.subrange(0, i + 1).drop_last() =~= self.receipts@.subrange(
                    0,
                    i as int,
                ));
            }
            match new_next_oldest_ts {
                None => {
                    new_next_oldest_ts = Some(exp);
                },
                Some(m) => {
                    if exp < m {
                        new_next_oldest_ts = Some(exp);
                    }
                },
            }
            i += 1;
        }
        assert(self.receipts@.subrange(0, self.receipts@.len() as int) =~= self.receipts@);
        self.next_oldest_ts = new_next_oldest_ts;
    }

    fn remove_at(&mut self, i: usize) -> (r: ReceiptRecord)
        requires
            old(self).wf(),
            i < old(self).records().len(),
        ensures
            final(self).wf(),
            r == old(self).records()[i as int],
            final(self).records() == old(self).records().remove(i as int),
            final(self).spec_next_oldest_ts() == min_expiration(final(self).records()),
    {
        let r = self.receipts.remove(i);
        proof {
            assert forall|a: int, b: int|
                0 <= a < self.receipts@.len() && 0 <= b < self.receipts@.len() && a != b implies (
            #[trigger] self.receipts@[a]).nonce@ != (#[trigger] self.receipts@[b]).nonce@ by {
                let a0 = if a < i { a } else { a + 1 };
                let b0 = if b < i { b } else { b + 1 };
                assert(old(self).receipts@[a0] == self.receipts@[a]);
                assert(old(self).receipts@[b0] == self.receipts@[b]);
            }
        }
        self.update_next_oldest_timestamp();
        r
    }

    /// Cancels a receipt: it is removed, the earliest expiration is
    /// recomputed, and its callback is told `Cancelled`. Fails when no
    /// receipt has the nonce.
    pub fn cancel_receipt<N>(&mut self, nonce: &ReceiptNonce) -> (r: Result<
        Option<ReceiptCallbackAction<N>>,
        String,
    >)
        requires
            old(self).wf(),
        ensures
            final(self).wf(),
            nonce_index(old(self).records(), nonce@) is None ==> (r matches Err(e) && e@
                == "receipt not recorded"@ && final(self).records() == old(self).records()
                && final(self).spec_next_oldest_ts() == old(self).spec_next_oldest_ts()),
            nonce_index(old(self).records(), nonce@) matches Some(i) ==> {
                &&& final(self).records() == old(self).records().remove(i)
                &&& final(self).spec_next_oldest_ts() == min_expiration(final(self).records())
                &&& r == Ok::<Option<ReceiptCallbackAction<N>>, String>(
                    callback_spec(old(self).records()[i], ReceiptEvent::<N>::Cancelled).0,
                )
            },
    {
        let i = match self.find(nonce) {
            Some(i) => i,
            None => {
                return Err(String::from_str("receipt not recorded"));
            },
        };
        let record = self.remove_at(i);
        Ok(Self::perform_callback(ReceiptEvent::Cancelled, &record).0)
    }

    fn perform_callback<N>(evt: ReceiptEvent<N>, record: &ReceiptRecord) -> (r: (
        Option<ReceiptCallbackAction<N>>,
        ReceiptCallbackKind,
    ))
        ensures
            r == callback_spec(*record, evt),
    {
        match record.receipt_callback {
            ReceiptCallbackKind::Normal => (
                Some(
                    ReceiptCallbackAction {
                        nonce: record.nonce,
                        event: evt,
                        returns_so_far: record.returns_so_far,
                        expected_returns: record.expected_returns,
                        single_shot: false,
                    },
                ),
                ReceiptCallbackKind::Normal,
            ),
            ReceiptCallbackKind::SingleShot { pending } => {
                if pending {
                    (
                        Some(
                            ReceiptCallbackAction {
                                nonce: record.nonce,
                                event: evt,
                                returns_so_far: record.returns_so_far,
                                expected_returns: record.expected_returns,
                                single_shot: true,
                            },
                        ),
                        ReceiptCallbackKind::SingleShot { pending: false },
                    )
                } else {
                    (None, ReceiptCallbackKind::SingleShot { pending: false })
                }
            },
        }
    }

    /// Handles a returned receipt: its return count goes up by one and its
    /// callback is told `Returned`; once the count reaches the expected
    /// number of returns the receipt is removed and the earliest expiration
    /// recomputed. Fails when no receipt has the nonce.
    pub fn handle_receipt<N: Copy>(&mut self, node_ref: N, nonce: &ReceiptNonce) -> (r: Result<
        Option<ReceiptCallbackAction<N>>,
        String,
    >)
        requires
            old(self).wf(),
            nonce_index(old(self).records(), nonce@) matches Some(i) ==> old(
                self,
            ).records()[i].returns_so_far < u32::MAX,
        ensures
            final(self).wf(),
            nonce_index(old(self).records(), nonce@) is None ==> (r matches Err(e) && e@
                == "receipt not recorded"@ && final(self).records() == old(self).records()
                && final(self).spec_next_oldest_ts() == old(self).spec_next_oldest_ts()),
            nonce_index(old(self).records(), nonce@) matches Some(i) ==> {
                let rec = old(self).records()[i];
                let counted = ReceiptRecord { returns_so_far: (rec.returns_so_far + 1) as u32, ..rec };
                let (action, kind) = callback_spec(counted, ReceiptEvent::Returned(node_ref));
                &&& r == Ok::<Option<ReceiptCallbackAction<N>>, String>(action)
                &&& counted.returns_so_far == counted.expected_returns ==> final(self).records()
                    == old(self).records().remove(i) && final(self).spec_next_oldest_ts()
                    == min_expiration(final(self).records())
                &&& counted.returns_so_far != counted.expected_returns ==> final(self).records()
                    == old(self).records().update(
                    i,
                    ReceiptRecord { receipt_callback: kind, ..counted },
                ) && final(self).spec_next_oldest_ts() == old(self).spec_next_oldest_ts()
            },
    {
        let i = match self.find(nonce) {
            Some(i) => i,
            None => {
                return Err(String::from_str("receipt not recorded"));
            },
        };
        let mut record = self.receipts[i];
        record.returns_so_far = record.returns_so_far + 1;
        let (action, kind) = Self::perform_callback(ReceiptEvent::Returned(node_ref), &record);
        if record.returns_so_far == record.expected_returns {
            self.remove_at(i);
        } else {
            record.receipt_callback = kind;
            self.receipts.set(i, record);
            proof {
                assert(self.receipts@ == old(self).receipts@.update(i as int, record));
                assert forall|a: int, b: int|
                    0 <= a < self.receipts@.len() && 0 <= b < self.receipts@.len() && a != b implies (
                #[trigger] self.receipts@[a]).nonce@ != (#[trigger] self.receipts@[b]).nonce@ by {
                    assert(old(self).receipts@[a].nonce@ == self.receipts@[a].nonce@);
                    assert(old(self).receipts@[b].nonce@ == self.receipts@[b].nonce@);
                }
            }
        }
        Ok(action)
    }

    /// Expires every receipt whose expiration is at or before `now`: when
    /// there is any, they are removed, the earliest expiration is recomputed
    /// over the rest, and each expired receipt's callback is told `Expired`;
    /// otherwise nothing changes.
    pub fn timeout_task_routine<N>(&mut self, now: u64) -> (r: Vec<ReceiptCallbackAction<N>>)
        requires
            old(self).wf(),
        ensures
            final(self).wf(),
            expired(old(self).records(), now).len() == 0 ==> final(self).records() == old(
                self,
            ).records() && final(self).spec_next_oldest_ts() == old(self).spec_next_oldest_ts()
                && r@ == Seq::<ReceiptCallbackAction<N>>::empty(),
            expired(old(self).records(), now).len() > 0 ==> final(self).records() == unexpired(
                old(self).records(),
                now,
            ) && final(self).spec_next_oldest_ts() == min_expiration(final(self).records())
                && r@ == expired_actions::<N>(expired(old(self).records(), now)),
    {
        let mut kept: Vec<ReceiptRecord> = Vec::new();
        let mut gone: Vec<ReceiptRecord> = Vec::new();
        let ghost recs = self.receipts@;
        let mut i: usize = 0;
        while i < self.receipts.len()
            invariant
                i <= recs.len(),
                recs == self.receipts@,
                recs == old(self).records(),
                nonces_distinct(recs),
                kept@ == unexpired(recs.subrange(0, i as int), now),
                gone@ == expired(recs.subrange(0, i as int), now),
            decreases recs.len() - i,
        {
            let rec = self.receipts[i];
            proof {
                assert(recs.subrange(0, i + 1).drop_last() =~= recs.subrange(0, i as int));
            }
            if rec.expiration_ts <= now {
                gone.push(rec);
            } else {
                kept.push(rec);
            }
            i += 1;
        }
        assert(recs.subrange(0, recs.len() as int) =~= recs);
        if gone.len() == 0 {
            return Vec::new();
        }
        self.receipts = kept;
        proof {
            lemma_unexpired_distinct(recs, now);
        }
        self.update_next_oldest_timestamp();
        let mut actions: Vec<ReceiptCallbackAction<N>> = Vec::new();
        let mut k: usize = 0;
        while k < gone.len()
            invariant
                k <= gone@.len(),
                actions@ == expired_actions::<N>(gone@.subrange(0, k as int)),
            decreases gone@.len() - k,
        {
            let (action, _) = Self::perform_callback(ReceiptEvent::Expired, &gone[k]);
            proof {
                assert(gone@.subrange(0, k + 1).drop_last() =~= gone@.subrange(0, k as int));
            }
            match action {
                Some(a) => {
                    actions.push(a);
                },
                None => {},
            }
            k += 1;
        }
        assert(gone@.subrange(0, gone@.len() as int) =~= gone@);
        actions
    }

    /// Runs the timeout task when the earliest expiration has been reached.
    pub fn tick<N>(&mut self, now: u64) -> (r: Vec<ReceiptCallbackAction<N>>)
        requires
            old(self).wf(),
        ensures
            final(self).wf(),
            !(old(self).spec_next_oldest_ts() matches Some(t) && now >= t) ==> final(self).records()
                == old(self).records() && final(self).spec_next_oldest_ts() == old(
                self,
            ).spec_next_oldest_ts() && r@ == Seq::<ReceiptCallbackAction<N>>::empty(),
            old(self).spec_next_oldest_ts() matches Some(t) && now >= t ==> {
                &&& expired(old(self).records(), now).len() == 0 ==> final(self).records() == old(
                    self,
                ).records() && final(self).spec_next_oldest_ts() == old(
                    self,
                ).spec_next_oldest_ts() && r@ == Seq::<ReceiptCallbackAction<N>>::empty()
                &&& expired(old(self).records(), now).len() > 0 ==> final(self).records()
                    == unexpired(old(self).records(), now) && final(self).spec_next_oldest_ts()
                    == min_expiration(final(self).records()) && r@ == expired_actions::<N>(
                    expired(old(self).records(), now),
                )
            },
    {
        match self.next_oldest_ts {
            Some(t) => {
                if now >= t {
                    return self.timeout_task_routine(now);
                }
            },
            None => {},
        }
        Vec::new()
    }

}


proof fn lemma_unexpired_from(recs: Seq<ReceiptRecord>, now: u64)
    ensures
        forall|k: int|
            0 <= k < unexpired(recs, now).len() ==> exists|j: int|
                0 <= j < recs.len() && #[trigger] unexpired(recs, now)[k] == recs[j],
    decreases recs.len(),
{
    if recs.len() > 0 {
        let init = recs.drop_last();
        lemma_unexpired_from(init, now);
        assert forall|k: int| 0 <= k < unexpired(recs, now).len() implies exists|j: int|
            0 <= j < recs.len() && #[trigger] unexpired(recs, now)[k] == recs[j] by {
            if k < unexpired(init, now).len() {
                let j = choose|j: int| 0 <= j < init.len() && #[trigger] unexpired(init, now)[k] == init[j];
                assert(recs[j] == init[j]);
            } else {
                assert(unexpired(recs, now)[k] == recs[recs.len() - 1]);
            }
        }
    }
}

proof fn lemma_unexpired_distinct(recs: Seq<ReceiptRecord>, now: u64)
    requires
        nonces_distinct(recs),
    ensures
        nonces_distinct(unexpired(recs, now)),
    decreases recs.len(),
{
    if recs.len() > 0 {
        let init = recs.drop_last();
        assert(nonces_distinct(init)) by {
            assert forall|i: int, j: int|
                0 <= i < init.len() && 0 <= j < init.len() && i != j implies (#[trigger] init[i]).nonce@
                != (#[trigger] init[j]).nonce@ by {
                assert(init[i] == recs[i]);
                assert(init[j] == recs[j]);
            }
        }
        lemma_unexpired_distinct(init, now);
        lemma_unexpired_from(init, now);
        let u = unexpired(recs, now);
        let ui = unexpired(init, now);
        if recs.last().expiration_ts > now {
            assert forall|i: int, j: int|
                0 <= i < u.len() && 0 <= j < u.len() && i != j implies (#[trigger] u[i]).nonce@
                != (#[trigger] u[j]).nonce@ by {
                if i < ui.len() && j < ui.len() {
                    assert(u[i] == ui[i]);
                    assert(u[j] == ui[j]);
                } else if i < ui.len() {
                    let ji = choose|jj: int| 0 <= jj < init.len() && #[trigger] ui[i] == init[jj];
                    assert(recs[ji] == init[ji]);
                    assert(u[j] == recs[recs.len() - 1]);
                } else {
                    let jj = choose|jx: int| 0 <= jx < init.len() && #[trigger] ui[j] == init[jx];
                    assert(recs[jj] == init[jj]);
                    assert(u[i] == recs[recs.len() - 1]);
                }
            }
        }
    }
}

/// The callbacks that expiring the records makes, in order.
pub open spec fn expired_actions<N>(recs: Seq<ReceiptRecord>) -> Seq<ReceiptCallbackAction<N>>
    decreases recs.len(),
{
    if recs.len() == 0 {
        Seq::empty()
    } else {
        match callback_spec(recs.last(), ReceiptEvent::<N>::Expired).0 {
            Some(a) => expired_actions(recs.drop_last()).push(a),
            None => expired_actions(recs.drop_last()),
        }
    }
}


/// Expiring at `now` keeps exactly the receipts that expire after `now`:
/// every kept receipt expires after `now`, every expired one at or before
/// it, and together they account for every receipt.
pub proof fn lemma_expiry_partition(recs: Seq<ReceiptRecord>, now: u64)
    ensures
        forall|k: int|
            0 <= k < unexpired(recs, now).len() ==> (#[trigger] unexpired(recs, now)[k]).expiration_ts
                > now,
        forall|k: int|
            0 <= k < expired(recs, now).len() ==> (#[trigger] expired(recs, now)[k]).expiration_ts
                <= now,
        unexpired(recs, now).len() + expired(recs, now).len() == recs.len(),
        forall|j: int|
            0 <= j < recs.len() && (#[trigger] recs[j]).expiration_ts > now ==> exists|k: int|
                0 <= k < unexpired(recs, now).len() && unexpired(recs, now)[k] == recs[j],
    decreases recs.len(),
{
    if recs.len() > 0 {
        let init = recs.drop_last();
        lemma_expiry_partition(init, now);
        assert forall|j: int|
            0 <= j < recs.len() && (#[trigger] recs[j]).expiration_ts > now implies exists|k: int|
                0 <= k < unexpired(recs, now).len() && unexpired(recs, now)[k] == recs[j] by {
            if j < recs.len() - 1 {
                assert(recs[j] == init[j]);
                let k = choose|k: int|
                    0 <= k < unexpired(init, now).len() && unexpired(init, now)[k] == init[j];
                assert(unexpired(recs, now)[k] == unexpired(init, now)[k]);
            } else {
                let k = unexpired(init, now).len() as int;
                assert(unexpired(recs, now)[k] == recs[j]);
            }
        }
    }
}

/// The earliest expiration is the expiration of some receipt and no later
/// than any receipt's; there is none exactly when there are no receipts.
pub proof fn lemma_min_expiration(recs: Seq<ReceiptRecord>)
    ensures
        min_expiration(recs) is None <==> recs.len() == 0,
        min_expiration(recs) matches Some(m) ==> (exists|j: int|
            0 <= j < recs.len() && (#[trigger] recs[j]).expiration_ts == m) && forall|j: int|
            0 <= j < recs.len() ==> m <= (#[trigger] recs[j]).expiration_ts,
    decreases recs.len(),
{
    if recs.len() > 0 {
        let init = recs.drop_last();
        lemma_min_expiration(init);
        let last = recs.len() - 1;
        match min_expiration(init) {
            None => {
                assert(recs[last].expiration_ts == recs.last().expiration_ts);
            },
            Some(m) => {
                let j0 = choose|j: int| 0 <= j < init.len() && (#[trigger] init[j]).expiration_ts == m;
                assert(recs[j0] == init[j0]);
                assert forall|j: int| 0 <= j < recs.len() implies min_expiration(recs).unwrap() <= (
                #[trigger] recs[j]).expiration_ts by {
                    if j < last {
                        assert(recs[j] == init[j]);
                    }
                }
            },
        }
    }
}

/// Recording a receipt keeps the nonces distinct, and the receipt is then
/// found under its nonce, so a later cancel or return reaches it.
pub proof fn lemma_recorded_receipt_is_found(recs: Seq<ReceiptRecord>, rec: ReceiptRecord)
    requires
        nonces_distinct(recs),
    ensures
        nonces_distinct(record_spec(recs, rec)),
        nonce_index(record_spec(recs, rec), rec.nonce@) matches Some(i) && record_spec(recs, rec)[i]
            == rec,
{
    let r = record_spec(recs, rec);
    match nonce_index(recs, rec.nonce@) {
        Some(i) => {
            assert(r[i].nonce@ == rec.nonce@);
            assert forall|a: int, b: int|
                0 <= a < r.len() && 0 <= b < r.len() && a != b implies (#[trigger] r[a]).nonce@
                != (#[trigger] r[b]).nonce@ by {
                if a != i && b != i {
                    assert(r[a] == recs[a]);
                    assert(r[b] == recs[b]);
                } else if a == i {
                    assert(r[b] == recs[b]);
                    assert(recs[i].nonce@ == rec.nonce@);
                } else {
                    assert(r[a] == recs[a]);
                    assert(recs[i].nonce@ == rec.nonce@);
                }
            }
            let k = choose|k: int| 0 <= k < r.len() && (#[trigger] r[k]).nonce@ == rec.nonce@;
            assert(k == i);
        },
        None => {
            let n = recs.len() as int;
            assert(r[n] == rec);
            assert forall|a: int, b: int|
                0 <= a < r.len() && 0 <= b < r.len() && a != b implies (#[trigger] r[a]).nonce@
                != (#[trigger] r[b]).nonce@ by {
                if a < n && b < n {
                    assert(r[a] == recs[a]);
                    assert(r[b] == recs[b]);
                } else if a == n {
                    assert(r[b] == recs[b]);
                } else {
                    assert(r[a] == recs[a]);
                }
            }
            let k = choose|k: int| 0 <= k < r.len() && (#[trigger] r[k]).nonce@ == rec.nonce@;
            assert(k == n);
        },
    }
}

/// A single-shot eventual is resolved at most once: after an event has
/// resolved it, no later event makes a callback.
pub proof fn lemma_single_shot_resolves_once<N>(
    rec: ReceiptRecord,
    first: ReceiptEvent<N>,
    later: ReceiptEvent<N>,
)
    requires
        rec.receipt_callback is SingleShot,
    ensures
        callback_spec(
            ReceiptRecord { receipt_callback: callback_spec(rec, first).1, ..rec },
            later,
        ).0 is None,
{
}

} // verus!
