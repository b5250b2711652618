//! The records a node has open: the writer and safety selection each was
//! opened with, and the watch kept on it; and the descriptor handed back
//! when a record is opened.

use crate::storage_manager::{typed_key_eq, watch_outcome, watch_values_outcome, StorageError};
use crate::subkeys::ValueSubkeyRangeSet;
use crate::types::{KeyPair, PublicKey, SecretKey, TypedKey};
use vstd::prelude::*;

verus! {

/// A typed key as plain values: its kind, whether it is valid, its bytes.
pub open spec fn typed_key_view(k: TypedKey) -> (Seq<u8>, bool, Seq<u8>) {
    (k.kind@, k.value.valid, k.value.bytes@)
}

/// A watch that the network granted on an opened record.
#[derive(Debug)]
pub struct ActiveWatch<N> {
    /// The id the watching node gave the watch.
    pub id: u64,
    /// When the watch ends, as kept locally.
    pub expiration_ts: u64,
    /// The node holding the watch.
    pub watch_node: N,
    /// The private route that value changes come back on, if any.
    pub opt_value_changed_route: Option<PublicKey>,
    /// The subkeys watched.
    pub subkeys: ValueSubkeyRangeSet,
    /// How many changes are still to be reported.
    pub count: u32,
}

/// How a record was opened, and the watch kept on it.
#[derive(Debug)]
pub struct OpenedRecord<S, N> {
    /// The key pair that writes go out under, unless a write names another.
    pub writer: Option<KeyPair>,
    /// The safety selection that network operations on the record use.
    pub safety_selection: S,
    /// The watch kept on the record, if any.
    pub active_watch: Option<ActiveWatch<N>>,
}

impl<S, N> OpenedRecord<S, N> {
    /// A record just opened, with no watch.
    pub fn new(writer: Option<KeyPair>, safety_selection: S) -> (r: Self)
        ensures
            r.writer == writer,
            r.safety_selection == safety_selection,
            r.active_watch is None,
    {
        OpenedRecord { writer, safety_selection, active_watch: None }
    }
}

/// The opened records as a map from key to record.
pub open spec fn entries_view<S, N>(s: Seq<(TypedKey, OpenedRecord<S, N>)>) -> Map<
    (Seq<u8>, bool, Seq<u8>),
    OpenedRecord<S, N>,
> {
    Map::new(
        |k: (Seq<u8>, bool, Seq<u8>)| exists|i: int| 0 <= i < s.len() && typed_key_view(#[trigger] s[i].0) == k,
        |k: (Seq<u8>, bool, Seq<u8>)| s[choose|i: int| 0 <= i < s.len() && typed_key_view(#[trigger] s[i].0) == k].1,
    )
}

/// No key is held twice.
pub open spec fn keys_distinct<S, N>(s: Seq<(TypedKey, OpenedRecord<S, N>)>) -> bool {
    forall|i: int, j: int|
        0 <= i < s.len() && 0 <= j < s.len() && i != j ==> typed_key_view(#[trigger] s[i].0) != typed_key_view(
            #[trigger] s[j].0,
        )
}

proof fn lemma_view_at<S, N>(s: Seq<(TypedKey, OpenedRecord<S, N>)>, i: int)
    requires
        keys_distinct(s),
        0 <= i < s.len(),
    ensures
        entries_view(s).dom().contains(typed_key_view(s[i].0)),
        entries_view(s)[typed_key_view(s[i].0)] == s[i].1,
{
    let k = typed_key_view(s[i].0);
    assert(0 <= i < s.len() && typed_key_view(s[i].0) == k);
    let j = choose|j: int| 0 <= j < s.len() && typed_key_view(#[trigger] s[j].0) == k;
    assert(j == i);
}

proof fn lemma_view_update<S, N>(s: Seq<(TypedKey, OpenedRecord<S, N>)>, i: int, e: (TypedKey, OpenedRecord<S, N>))
    requires
        keys_distinct(s),
        0 <= i < s.len(),
        typed_key_view(e.0) == typed_key_view(s[i].0),
    ensures
        keys_distinct(s.update(i, e)),
        entries_view(s.update(i, e)) == entries_view(s).insert(typed_key_view(e.0), e.1),
{
    let t = s.update(i, e);
    assert forall|a: int, b: int| 0 <= a < t.len() && 0 <= b < t.len() && a != b implies typed_key_view(
        #[trigger] t[a].0,
    ) != typed_key_view(#[trigger] t[b].0) by {
        assert(typed_key_view(t[a].0) == typed_key_view(s[a].0));
        assert(typed_key_view(t[b].0) == typed_key_view(s[b].0));
    }
    let m = entries_view(s).insert(typed_key_view(e.0), e.1);
    assert forall|k: (Seq<u8>, bool, Seq<u8>)| #[trigger] entries_view(t).dom().contains(k) <==> m.dom().contains(k) by {
        if entries_view(t).dom().contains(k) {
            let j = choose|j: int| 0 <= j < t.len() && typed_key_view(#[trigger] t[j].0) == k;
            if j != i {
                assert(typed_key_view(s[j].0) == k);
            }
        }
        if m.dom().contains(k) && k != typed_key_view(e.0) {
            let j = choose|j: int| 0 <= j < s.len() && typed_key_view(#[trigger] s[j].0) == k;
            assert(typed_key_view(t[j].0) == k);
        }
        if k == typed_key_view(e.0) {
            assert(typed_key_view(t[i].0) == k);
        }
    }
    assert forall|k: (Seq<u8>, bool, Seq<u8>)| #[trigger] entries_view(t).dom().contains(k) implies entries_view(t)[k]
        == m[k] by {
        let j = choose|j: int| 0 <= j < t.len() && typed_key_view(#[trigger] t[j].0) == k;
        lemma_view_at(t, j);
        if j != i {
            lemma_view_at(s, j);
        }
    }
    assert(entries_view(t) =~= m);
}

proof fn lemma_view_push<S, N>(s: Seq<(TypedKey, OpenedRecord<S, N>)>, e: (TypedKey, OpenedRecord<S, N>))
    requires
        keys_distinct(s),
        !entries_view(s).dom().contains(typed_key_view(e.0)),
    ensures
        keys_distinct(s.push(e)),
        entries_view(s.push(e)) == entries_view(s).insert(typed_key_view(e.0), e.1),
{
    let t = s.push(e);
    let n = s.len() as int;
    assert forall|a: int, b: int| 0 <= a < t.len() && 0 <= b < t.len() && a != b implies typed_key_view(
        #[trigger] t[a].0,
    ) != typed_key_view(#[trigger] t[b].0) by {
        if a == n {
            assert(typed_key_view(s[b].0) == typed_key_view(t[b].0));
        } else if b == n {
            assert(typed_key_view(s[a].0) == typed_key_view(t[a].0));
        } else {
            assert(typed_key_view(s[a].0) == typed_key_view(t[a].0));
            assert(typed_key_view(s[b].0) == typed_key_view(t[b].0));
        }
    }
    let m = entries_view(s).insert(typed_key_view(e.0), e.1);
    assert forall|k: (Seq<u8>, bool, Seq<u8>)| #[trigger] entries_view(t).dom().contains(k) <==> m.dom().contains(k) by {
        if entries_view(t).dom().contains(k) {
            let j = choose|j: int| 0 <= j < t.len() && typed_key_view(#[trigger] t[j].0) == k;
            if j != n {
                assert(typed_key_view(s[j].0) == k);
            }
        }
        if m.dom().contains(k) && k != typed_key_view(e.0) {
            let j = choose|j: int| 0 <= j < s.len() && typed_key_view(#[trigger] s[j].0) == k;
            assert(typed_key_view(t[j].0) == k);
        }
        if k == typed_key_view(e.0) {
            assert(typed_key_view(t[n].0) == k);
        }
    }
    assert forall|k: (Seq<u8>, bool, Seq<u8>)| #[trigger] entries_view(t).dom().contains(k) implies entries_view(t)[k]
        == m[k] by {
        let j = choose|j: int| 0 <= j < t.len() && typed_key_view(#[trigger] t[j].0) == k;
        lemma_view_at(t, j);
        if j != n {
            assert(t[j] == s[j]);
            lemma_view_at(s, j);
        }
    }
    assert(entries_view(t) =~= m);
}

proof fn lemma_view_remove<S, N>(s: Seq<(TypedKey, OpenedRecord<S, N>)>, i: int)
    requires
        keys_distinct(s),
        0 <= i < s.len(),
    ensures
        keys_distinct(s.remove(i)),
        entries_view(s.remove(i)) == entries_view(s).remove(typed_key_view(s[i].0)),
{
    let t = s.remove(i);
    let ki = typed_key_view(s[i].0);
    assert forall|a: int| 0 <= a < t.len() implies #[trigger] t[a] == s[if a < i { a } else { a + 1 }] by {}
    assert forall|a: int, b: int| 0 <= a < t.len() && 0 <= b < t.len() && a != b implies typed_key_view(
        #[trigger] t[a].0,
    ) != typed_key_view(#[trigger] t[b].0) by {
        let sa = if a < i { a } else { a + 1 };
        let sb = if b < i { b } else { b + 1 };
        assert(t[a] == s[sa]);
        assert(t[b] == s[sb]);
        assert(typed_key_view(s[sa].0) != typed_key_view(s[sb].0));
    }
    let m = entries_view(s).remove(ki);
    assert forall|k: (Seq<u8>, bool, Seq<u8>)| #[trigger] entries_view(t).dom().contains(k) <==> m.dom().contains(k) by {
        if entries_view(t).dom().contains(k) {
            let j = choose|j: int| 0 <= j < t.len() && typed_key_view(#[trigger] t[j].0) == k;
            let sj = if j < i { j } else { j + 1 };
            assert(t[j] == s[sj]);
            assert(typed_key_view(s[sj].0) == k);
            assert(sj != i);
        }
        if m.dom().contains(k) {
            let j = choose|j: int| 0 <= j < s.len() && typed_key_view(#[trigger] s[j].0) == k;
            assert(j != i);
            let tj = if j < i { j } else { j - 1 };
            assert(t[tj] == s[j]);
            assert(typed_key_view(t[tj].0) == k);
        }
    }
    assert forall|k: (Seq<u8>, bool, Seq<u8>)| #[trigger] entries_view(t).dom().contains(k) implies entries_view(t)[k]
        == m[k] by {
        let j = choose|j: int| 0 <= j < t.len() && typed_key_view(#[trigger] t[j].0) == k;
        let sj = if j < i { j } else { j + 1 };
        assert(t[j] == s[sj]);
        lemma_view_at(t, j);
        lemma_view_at(s, sj);
    }
    assert(entries_view(t) =~= m);
}

/// The table of opened records, keyed by record key.
#[derive(Debug)]
pub struct OpenedRecords<S, N> {
    entries: Vec<(TypedKey, OpenedRecord<S, N>)>,
}

impl<S, N> View for OpenedRecords<S, N> {
    type V = Map<(Seq<u8>, bool, Seq<u8>), OpenedRecord<S, N>>;

    closed spec fn view(&self) -> Self::V {
        entries_view(self.entries@)
    }
}

/// The nodes holding the watches of the records `ks`, in that order.
pub open spec fn watched_nodes<S, N>(
    m: Map<(Seq<u8>, bool, Seq<u8>), OpenedRecord<S, N>>,
    ks: Seq<(Seq<u8>, bool, Seq<u8>)>,
) -> Seq<N>
    decreases ks.len(),
{
    if ks.len() == 0 {
        Seq::empty()
    } else {
        let rest = watched_nodes(m, ks.drop_last());
        match m[ks.last()].active_watch {
            Some(w) => rest.push(w.watch_node),
            None => rest,
        }
    }
}

/// The table after opening `k` with `writer` and `safety_selection`: a
/// record opened again keeps its watch, a new one has none.
pub open spec fn reopened<S, N>(
    m: Map<(Seq<u8>, bool, Seq<u8>), OpenedRecord<S, N>>,
    k: (Seq<u8>, bool, Seq<u8>),
    writer: Option<KeyPair>,
    safety_selection: S,
) -> Map<(Seq<u8>, bool, Seq<u8>), OpenedRecord<S, N>> {
    m.insert(
        k,
        (OpenedRecord {
            writer,
            safety_selection,
            active_watch: if m.dom().contains(k) {
                m[k].active_watch
            } else {
                None
            },
        }),
    )
}

impl<S, N> OpenedRecords<S, N> {
    /// Each record key is held at most once.
    pub closed spec fn wf(&self) -> bool {
        keys_distinct(self.entries@)
    }

    /// The keys of the open records, in the table's order.
    pub closed spec fn keys(&self) -> Seq<(Seq<u8>, bool, Seq<u8>)> {
        self.entries@.map_values(|e: (TypedKey, OpenedRecord<S, N>)| typed_key_view(e.0))
    }

    /// The nodes holding the watches kept on open records, one per watched
    /// record, in the table's order, which lists each open record once.
    pub fn active_watch_nodes(&self) -> (r: Vec<&N>)
        requires
            self.wf(),
        ensures
            r@.map_values(|x: &N| *x) == watched_nodes(self@, self.keys()),
            self.keys().no_duplicates(),
            self.keys().to_set() == self@.dom(),
    {
        let mut out: Vec<&N> = Vec::new();
        let mut i: usize = 0;
        while i < self.entries.len()
            invariant
                self.wf(),
                i <= self.entries@.len(),
                out@.map_values(|x: &N| *x) == watched_nodes(self@, self.keys().take(i as int)),
            decreases self.entries@.len() - i,
        {
            proof {
                lemma_view_at(self.entries@, i as int);
                assert(self.keys().take(i + 1).drop_last() =~= self.keys().take(i as int));
                assert(self.keys().take(i + 1).last() == typed_key_view(self.entries@[i as int].0));
            }
            let ghost before = out@;
            match &self.entries[i].1.active_watch {
                Some(w) => {
                    out.push(&w.watch_node);
                    proof {
                        assert(out@.map_values(|x: &N| *x) =~= before.map_values(|x: &N| *x).push(w.watch_node));
                    }
                },
                None => {},
            }
            i += 1;
        }
        proof {
            assert(self.keys().take(i as int) =~= self.keys());
            let ks = self.keys();
            let s = self.entries@;
            assert forall|a: int, b: int| 0 <= a < ks.len() && 0 <= b < ks.len() && a != b implies ks[a]
                != ks[b] by {
                assert(typed_key_view(s[a].0) != typed_key_view(s[b].0));
            }
            assert forall|k| #[trigger] self@.dom().contains(k) <==> ks.to_set().contains(k) by {
                if self@.dom().contains(k) {
                    let j = choose|j: int| 0 <= j < s.len() && typed_key_view(#[trigger] s[j].0) == k;
                    assert(ks[j] == k);
                }
                if ks.to_set().contains(k) {
                    let j = choose|j: int| 0 <= j < ks.len() && ks[j] == k;
                    assert(typed_key_view(s[j].0) == k);
                }
            }
            assert(ks.to_set() =~= self@.dom());
        }
        out
    }

    /// No record open.
    pub fn new() -> (r: Self)
        ensures
            r.wf(),
            r@ == Map::<(Seq<u8>, bool, Seq<u8>), OpenedRecord<S, N>>::empty(),
    {
        let r = OpenedRecords { entries: Vec::new() };
        assert(r@ =~= Map::<(Seq<u8>, bool, Seq<u8>), OpenedRecord<S, N>>::empty());
        r
    }

    /// How many records are open.
    pub fn len(&self) -> (r: usize)
        requires
            self.wf(),
        ensures
            r == self@.len(),
    {
        proof {
            self.lemma_len();
        }
        self.entries.len()
    }

    proof fn lemma_len(&self)
        requires
            self.wf(),
        ensures
            self@.dom().finite(),
            self@.len() == self.entries@.len(),
    {
        let s = self.entries@;
        let keys = Seq::new(s.len(), |i: int| typed_key_view(s[i].0));
        assert forall|k| #[trigger] self@.dom().contains(k) <==> keys.to_set().contains(k) by {
            if self@.dom().contains(k) {
                let j = choose|j: int| 0 <= j < s.len() && typed_key_view(#[trigger] s[j].0) == k;
                assert(keys[j] == k);
            }
            if keys.to_set().contains(k) {
                let j = choose|j: int| 0 <= j < keys.len() && keys[j] == k;
                assert(typed_key_view(s[j].0) == k);
            }
        }
        assert(self@.dom() =~= keys.to_set());
        assert(keys.no_duplicates()) by {
            assert forall|a: int, b: int| 0 <= a < keys.len() && 0 <= b < keys.len() && a != b implies keys[a]
                != keys[b] by {
                assert(typed_key_view(s[a].0) != typed_key_view(s[b].0));
            }
        }
        keys.unique_seq_to_set();
    }

    fn find(&self, key: &TypedKey) -> (r: Option<usize>)
        requires
            self.wf(),
        ensures
            match r {
                Some(i) => i < self.entries@.len() && typed_key_view(self.entries@[i as int].0) == typed_key_view(
                    *key,
                ),
                None => !self@.dom().contains(typed_key_view(*key)),
            },
    {
        let mut i: usize = 0;
        while i < self.entries.len()
            invariant
                i <= self.entries@.len(),
                forall|j: int| 0 <= j < i ==> typed_key_view(#[trigger] self.entries@[j].0) != typed_key_view(*key),
            decreases self.entries@.len() - i,
        {
            if typed_key_eq(&self.entries[i].0, key) {
                return Some(i);
            }
            i += 1;
        }
        None
    }

    /// Whether the record is open.
    pub fn is_open(&self, key: &TypedKey) -> (r: bool)
        requires
            self.wf(),
        ensures
            r == self@.dom().contains(typed_key_view(*key)),
    {
        match self.find(key) {
            Some(i) => {
                proof {
                    lemma_view_at(self.entries@, i as int);
                }
                true
            },
            None => false,
        }
    }

    /// The opened record, if the record is open.
    pub fn get(&self, key: &TypedKey) -> (r: Option<&OpenedRecord<S, N>>)
        requires
            self.wf(),
        ensures
            r is Some == self@.dom().contains(typed_key_view(*key)),
            r matches Some(o) ==> *o == self@[typed_key_view(*key)],
    {
        match self.find(key) {
            Some(i) => {
                proof {
                    lemma_view_at(self.entries@, i as int);
                }
                Some(&self.entries[i].1)
            },
            None => None,
        }
    }

    /// Opens a record found in the local store: an open record takes the new
    /// writer and safety selection and keeps its watch; otherwise it is
    /// added with no watch.
    pub fn open_existing_record(&mut self, key: TypedKey, writer: Option<KeyPair>, safety_selection: S)
        requires
            old(self).wf(),
        ensures
            final(self).wf(),
            final(self)@ == reopened(old(self)@, typed_key_view(key), writer, safety_selection),
    {
        match self.find(&key) {
            Some(i) => {
                proof {
                    lemma_view_at(self.entries@, i as int);
                }
                let (k, rec) = self.entries.remove(i);
                let ghost removed = self.entries@;
                let updated = OpenedRecord { writer, safety_selection, active_watch: rec.active_watch };
                self.entries.insert(i, (k, updated));
                proof {
                    assert(self.entries@ =~= old(self).entries@.update(i as int, (k, updated)));
                    lemma_view_update(old(self).entries@, i as int, (k, updated));
                }
            },
            None => {
                let rec = OpenedRecord::new(writer, safety_selection);
                proof {
                    lemma_view_push(self.entries@, (key, rec));
                }
                self.entries.push((key, rec));
            },
        }
    }

    /// Opens a record just fetched from the network, which is not open yet.
    pub fn open_new_record(&mut self, key: TypedKey, writer: Option<KeyPair>, safety_selection: S)
        requires
            old(self).wf(),
            !old(self)@.dom().contains(typed_key_view(key)),
        ensures
            final(self).wf(),
            final(self)@ == old(self)@.insert(
                typed_key_view(key),
                (OpenedRecord { writer, safety_selection, active_watch: None }),
            ),
    {
        let rec = OpenedRecord::new(writer, safety_selection);
        proof {
            lemma_view_push(self.entries@, (key, rec));
        }
        self.entries.push((key, rec));
    }

    /// Closes a record, handing back how it was opened, if it was.
    pub fn close_record(&mut self, key: &TypedKey) -> (r: Option<OpenedRecord<S, N>>)
        requires
            old(self).wf(),
        ensures
            final(self).wf(),
            final(self)@ == old(self)@.remove(typed_key_view(*key)),
            r is Some == old(self)@.dom().contains(typed_key_view(*key)),
            r matches Some(o) ==> o == old(self)@[typed_key_view(*key)],
    {
        match self.find(key) {
            Some(i) => {
                proof {
                    lemma_view_at(self.entries@, i as int);
                    lemma_view_remove(self.entries@, i as int);
                }
                let (_, rec) = self.entries.remove(i);
                Some(rec)
            },
            None => {
                proof {
                    assert(old(self)@.remove(typed_key_view(*key)) =~= old(self)@);
                }
                None
            },
        }
    }

    /// Replaces the watch kept on an open record: `None` clears it.
    pub fn set_active_watch(&mut self, key: &TypedKey, watch: Option<ActiveWatch<N>>) -> (r: Result<(), StorageError>)
        requires
            old(self).wf(),
        ensures
            final(self).wf(),
            r is Ok == old(self)@.dom().contains(typed_key_view(*key)),
            r is Err ==> r == Err::<(), StorageError>(StorageError::RecordNotOpen) && final(self)@ == old(self)@,
            r is Ok ==> final(self)@ == old(self)@.insert(
                typed_key_view(*key),
                (OpenedRecord {
                    writer: old(self)@[typed_key_view(*key)].writer,
                    safety_selection: old(self)@[typed_key_view(*key)].safety_selection,
                    active_watch: watch,
                }),
            ),
    {
        match self.find(key) {
            Some(i) => {
                proof {
                    lemma_view_at(self.entries@, i as int);
                }
                let (k, rec) = self.entries.remove(i);
                let updated = OpenedRecord {
                    writer: rec.writer,
                    safety_selection: rec.safety_selection,
                    active_watch: watch,
                };
                self.entries.insert(i, (k, updated));
                proof {
                    assert(self.entries@ =~= old(self).entries@.update(i as int, (k, updated)));
                    lemma_view_update(old(self).entries@, i as int, (k, updated));
                }
                Ok(())
            },
            None => Err(StorageError::RecordNotOpen),
        }
    }
}

/// What the network answered to a watch request.
#[derive(Debug)]
pub struct WatchGrant<N> {
    /// The expiration the watching node granted; zero for none.
    pub expiration_ts: u64,
    /// The id the watching node gave the watch.
    pub watch_id: u64,
    /// The node holding the watch.
    pub watch_node: N,
    /// The private route that value changes come back on, if any.
    pub opt_value_changed_route: Option<PublicKey>,
}

/// The watch kept after a grant: none when the outcome keeps none.
pub open spec fn kept_watch<N>(
    kept_expiration: Option<u64>,
    grant: WatchGrant<N>,
    subkeys: ValueSubkeyRangeSet,
    count: u32,
) -> Option<ActiveWatch<N>> {
    match kept_expiration {
        Some(e) => Some(
            ActiveWatch {
                id: grant.watch_id,
                expiration_ts: e,
                watch_node: grant.watch_node,
                opt_value_changed_route: grant.opt_value_changed_route,
                subkeys,
                count,
            },
        ),
        None => None,
    }
}

/// Records on an open record the answer to a watch request made at
/// `cur_ts` on `subkeys` with `expiration` and `count`: the watch held
/// before is dropped, and a watch is kept, with its expiration clamped, when
/// the grant is long enough and not a cancellation. Returns the expiration
/// granted, zero when no watch is kept; a record not open is an error.
pub fn finish_watch_values<S, N>(
    records: &mut OpenedRecords<S, N>,
    key: &TypedKey,
    cur_ts: u64,
    rpc_timeout_us: u64,
    max_watch_expiration_us: u64,
    expiration: u64,
    count: u32,
    subkeys: ValueSubkeyRangeSet,
    grant: WatchGrant<N>,
) -> (r: Result<u64, StorageError>)
    requires
        old(records).wf(),
        cur_ts + rpc_timeout_us <= u64::MAX,
        cur_ts + max_watch_expiration_us <= u64::MAX,
    ensures
        final(records).wf(),
        !old(records)@.dom().contains(typed_key_view(*key)) ==> r == Err::<u64, StorageError>(
            StorageError::RecordNotOpen,
        ) && final(records)@ == old(records)@,
        old(records)@.dom().contains(typed_key_view(*key)) ==> {
            let outcome = watch_outcome(
                cur_ts,
                rpc_timeout_us,
                max_watch_expiration_us,
                expiration,
                count,
                grant.expiration_ts,
            );
            let k = typed_key_view(*key);
            &&& r == Ok::<u64, StorageError>(outcome.0)
            &&& final(records)@ == old(records)@.insert(
                k,
                (OpenedRecord {
                    writer: old(records)@[k].writer,
                    safety_selection: old(records)@[k].safety_selection,
                    active_watch: kept_watch(outcome.1, grant, subkeys, count),
                }),
            )
        },
{
    if !records.is_open(key) {
        return Err(StorageError::RecordNotOpen);
    }
    let (reported, kept) = watch_values_outcome(
        cur_ts,
        rpc_timeout_us,
        max_watch_expiration_us,
        expiration,
        count,
        grant.expiration_ts,
    );
    let watch = match kept {
        Some(e) => Some(
            ActiveWatch {
                id: grant.watch_id,
                expiration_ts: e,
                watch_node: grant.watch_node,
                opt_value_changed_route: grant.opt_value_changed_route,
                subkeys,
                count,
            },
        ),
        None => None,
    };
    let set = records.set_active_watch(key, watch);
    match set {
        Ok(()) => Ok(reported),
        Err(e) => Err(e),
    }
}

/// The start of a local write of a record: the record's cryptosystem must
/// be supported (`has_crypto`) and the record open; gives the opened record,
/// whose writer and safety selection the write uses.
pub fn set_value_target<'a, S, N>(records: &'a OpenedRecords<S, N>, key: &TypedKey, has_crypto: bool) -> (r: Result<
    &'a OpenedRecord<S, N>,
    StorageError,
>)
    requires
        records.wf(),
    ensures
        !has_crypto ==> r == Err::<&OpenedRecord<S, N>, StorageError>(StorageError::UnsupportedCryptosystem),
        has_crypto && !records@.dom().contains(typed_key_view(*key)) ==> r == Err::<
            &OpenedRecord<S, N>,
            StorageError,
        >(StorageError::RecordNotOpen),
        has_crypto && records@.dom().contains(typed_key_view(*key)) ==> (r matches Ok(o) && *o
            == records@[typed_key_view(*key)]),
{
    if !has_crypto {
        return Err(StorageError::UnsupportedCryptosystem);
    }
    match records.get(key) {
        Some(o) => Ok(o),
        None => Err(StorageError::RecordNotOpen),
    }
}

/// Opening a record and then closing it hands back the writer and safety
/// selection it was opened with, and leaves the other records as they were.
pub proof fn lemma_close_after_open<S, N>(
    m: Map<(Seq<u8>, bool, Seq<u8>), OpenedRecord<S, N>>,
    k: (Seq<u8>, bool, Seq<u8>),
    writer: Option<KeyPair>,
    safety_selection: S,
)
    ensures
        reopened(m, k, writer, safety_selection).dom().contains(k),
        reopened(m, k, writer, safety_selection)[k].writer == writer,
        reopened(m, k, writer, safety_selection)[k].safety_selection == safety_selection,
        reopened(m, k, writer, safety_selection).remove(k) == m.remove(k),
{
    assert(reopened(m, k, writer, safety_selection).remove(k) =~= m.remove(k));
}

/// Opening a record that is already open keeps the watch on it, and
/// opening it twice the same way is the same as opening it once.
pub proof fn lemma_reopen_keeps_watch<S, N>(
    m: Map<(Seq<u8>, bool, Seq<u8>), OpenedRecord<S, N>>,
    k: (Seq<u8>, bool, Seq<u8>),
    writer: Option<KeyPair>,
    safety_selection: S,
)
    ensures
        m.dom().contains(k) ==> reopened(m, k, writer, safety_selection)[k].active_watch == m[k].active_watch,
        reopened(reopened(m, k, writer, safety_selection), k, writer, safety_selection) == reopened(
            m,
            k,
            writer,
            safety_selection,
        ),
{
    assert(reopened(reopened(m, k, writer, safety_selection), k, writer, safety_selection) =~= reopened(
        m,
        k,
        writer,
        safety_selection,
    ));
}

/// The owner secret a writer gives: its secret when it is the owner's key
/// pair.
pub open spec fn writer_owner_secret(writer: Option<KeyPair>, owner: PublicKey) -> Option<SecretKey> {
    match writer {
        Some(w) => if w.key.valid == owner.valid && w.key.bytes@ == owner.bytes@ {
            Some(w.secret)
        } else {
            None
        },
        None => None,
    }
}

/// What opening a record hands back: its key, owner, the owner's secret if
/// the writer is the owner, and its compiled schema.
#[derive(Debug)]
pub struct DHTRecordDescriptor {
    pub key: TypedKey,
    pub owner: PublicKey,
    pub owner_secret: Option<SecretKey>,
    pub schema_data: Vec<u8>,
}

impl DHTRecordDescriptor {
    /// The descriptor of an opened record: the owner secret is known when
    /// the writer the record was opened with is the owner.
    pub fn new(key: TypedKey, owner: PublicKey, writer: Option<KeyPair>, schema_data: Vec<u8>) -> (r: Self)
        ensures
            r.key == key,
            r.owner == owner,
            r.owner_secret == writer_owner_secret(writer, owner),
            r.schema_data@ == schema_data@,
    {
        let owner_secret = match writer {
            Some(w) => if w.key == owner {
                Some(w.secret)
            } else {
                None
            },
            None => None,
        };
        DHTRecordDescriptor { key, owner, owner_secret, schema_data }
    }
}

/// The watch to cancel when a record is closed: the one kept on it, when
/// the record was open and the node is online.
pub fn watch_to_cancel_on_close<S, N>(closed: &Option<OpenedRecord<S, N>>, online: bool) -> (r: Option<&ActiveWatch<N>>)
    ensures
        r is Some == (online && match closed {
            Some(o) => o.active_watch is Some,
            None => false,
        }),
        r matches Some(w) ==> match closed {
            Some(o) => o.active_watch == Some(*w),
            None => false,
        },
{
    if !online {
        return None;
    }
    match closed {
        Some(o) => match &o.active_watch {
            Some(w) => Some(w),
            None => None,
        },
        None => None,
    }
}

} // verus!
