//! The registrations of the server's API clients: each client gets an id
//! when it registers, and every update is sent to every client, counting
//! the requests still in flight to each; a client whose request fails is
//! dropped.

use vstd::prelude::*;

verus! {

/// More requests in flight to one client than this is worth a warning.
pub const MAX_REQUESTS_IN_FLIGHT: i32 = 5;

/// The registered clients: each id with its requests in flight, in the
/// order they registered, and the next id to give.
pub struct RegistrationMap {
    registrations: Vec<(u64, i32)>,
    next_id: u64,
}

/// The position of `id`, if registered.
pub open spec fn reg_index(rs: Seq<(u64, i32)>, id: u64) -> Option<int> {
    if exists|i: int| 0 <= i < rs.len() && (#[trigger] rs[i]).0 == id {
        Some(choose|i: int| 0 <= i < rs.len() && (#[trigger] rs[i]).0 == id)
    } else {
        None
    }
}

/// Every client with one more request in flight.
pub open spec fn all_incremented(rs: Seq<(u64, i32)>) -> Seq<(u64, i32)> {
    rs.map_values(|r: (u64, i32)| (r.0, (r.1 + 1) as i32))
}

impl RegistrationMap {
    /// The clients and their requests in flight.
    pub closed spec fn registrations(&self) -> Seq<(u64, i32)> {
        self.registrations@
    }

    /// The next id to give.
    pub closed spec fn spec_next_id(&self) -> u64 {
        self.next_id
    }

    /// Ids are distinct and all below the next one to give; no count is negative.
    pub closed spec fn wf(&self) -> bool {
        &&& forall|i: int, j: int|
            0 <= i < self.registrations@.len() && 0 <= j < self.registrations@.len() && i != j
                ==> (#[trigger] self.registrations@[i]).0 != (#[trigger] self.registrations@[j]).0
        &&& forall|i: int| 0 <= i < self.registrations@.len() ==> (#[trigger] self.registrations@[i]).0 < self.next_id
        &&& forall|i: int| 0 <= i < self.registrations@.len() ==> (#[trigger] self.registrations@[i]).1 >= 0
    }

    /// No clients; the first id is zero.
    pub fn new() -> (r: Self)
        ensures
            r.wf(),
            r.registrations().len() == 0,
            r.spec_next_id() == 0,
    {
        RegistrationMap { registrations: Vec::new(), next_id: 0 }
    }

    /// Registers a client, with no requests in flight, under the next id,
    /// which is returned.
    pub fn register(&mut self) -> (r: u64)
        requires
            old(self).wf(),
            old(self).spec_next_id() < u64::MAX,
        ensures
            final(self).wf(),
            r == old(self).spec_next_id(),
            final(self).spec_next_id() == r + 1,
            final(self).registrations() == old(self).registrations().push((r, 0)),
    {
        let id = self.next_id;
        self.registrations.push((id, 0));
        self.next_id = id + 1;
        id
    }

    fn position(&self, id: u64) -> (r: Option<usize>)
        requires
            self.wf(),
        ensures
            r matches Some(i) ==> reg_index(self.registrations(), id) == Some(i as int) && i < self.registrations().len(),
            r is None ==> reg_index(self.registrations(), id) is None,
    {
        let mut i: usize = 0;
        while i < self.registrations.len()
            invariant
                self.wf(),
                i <= self.registrations@.len(),
                forall|j: int| 0 <= j < i ==> (#[trigger] self.registrations@[j]).0 != id,
            decreases self.registrations@.len() - i,
        {
            if self.registrations[i].0 == id {
                proof {
                    let c = choose|c: int| 0 <= c < self.registrations@.len() && (#[trigger] self.registrations@[c]).0 == id;
                    if c != i {
                        assert(self.registrations@[c].0 != self.registrations@[i as int].0);
                    }
                }
                return Some(i);
            }
            i += 1;
        }
        None
    }

    /// Forgets the client, if registered.
    pub fn unregister(&mut self, id: u64)
        requires
            old(self).wf(),
        ensures
            final(self).wf(),
            final(self).spec_next_id() == old(self).spec_next_id(),
            final(self).registrations() == match reg_index(old(self).registrations(), id) {
                Some(i) => old(self).registrations().remove(i),
                None => old(self).registrations(),
            },
    {
        match self.position(id) {
            Some(i) => {
                let ghost pre = self.registrations@;
                let _ = self.registrations.remove(i);
                proof {
                    let cur = self.registrations@;
                    assert forall|a: int| 0 <= a < cur.len() implies #[trigger] cur[a] == pre[if a < i { a } else { a + 1 }] by {}
                    assert forall|a: int, b: int|
                        0 <= a < cur.len() && 0 <= b < cur.len() && a != b implies (#[trigger] cur[a]).0 != (
                        #[trigger] cur[b]).0 by {
                        let pa = if a < i { a } else { a + 1 };
                        let pb = if b < i { b } else { b + 1 };
                        assert(cur[a] == pre[pa]);
                        assert(cur[b] == pre[pb]);
                    }
                    assert forall|a: int| 0 <= a < cur.len() implies (#[trigger] cur[a]).0 < self.next_id && cur[a].1 >= 0 by {
                        let pa = if a < i { a } else { a + 1 };
                        assert(cur[a] == pre[pa]);
                    }
                }
            },
            None => {},
        }
    }

    /// Starts sending an update to every client: each gets one more
    /// request in flight. Returns, in registration order, each client's id
    /// and whether it already had more than `MAX_REQUESTS_IN_FLIGHT`
    /// requests in flight, which is worth a warning; the update is sent
    /// all the same.
    pub fn begin_update(&mut self) -> (r: Vec<(u64, bool)>)
        requires
            old(self).wf(),
            forall|i: int| 0 <= i < old(self).registrations().len() ==> (#[trigger] old(self).registrations()[i]).1 < i32::MAX,
        ensures
            final(self).wf(),
            final(self).spec_next_id() == old(self).spec_next_id(),
            final(self).registrations() == all_incremented(old(self).registrations()),
            r@.len() == old(self).registrations().len(),
            forall|i: int| 0 <= i < r@.len() ==> (#[trigger] r@[i]) == (old(self).registrations()[i].0,
                old(self).registrations()[i].1 > MAX_REQUESTS_IN_FLIGHT),
    {
        let ghost pre = self.registrations@;
        assert forall|k: int| 0 <= k < pre.len() implies (#[trigger] pre[k]).1 < i32::MAX by {
            assert(pre[k] == old(self).registrations()[k]);
        }
        let mut out: Vec<(u64, bool)> = Vec::new();
        let mut i: usize = 0;
        while i < self.registrations.len()
            invariant
                i <= self.registrations@.len(),
                self.registrations@.len() == pre.len(),
                pre == old(self).registrations(),
                self.next_id == old(self).spec_next_id(),
                forall|k: int| 0 <= k < pre.len() ==> (#[trigger] pre[k]).1 < i32::MAX,
                forall|k: int| 0 <= k < i ==> #[trigger] self.registrations@[k] == all_incremented(pre)[k],
                forall|k: int| i <= k < pre.len() ==> #[trigger] self.registrations@[k] == pre[k],
                out@.len() == i,
                forall|k: int| 0 <= k < i ==> (#[trigger] out@[k]) == (pre[k].0, pre[k].1 > MAX_REQUESTS_IN_FLIGHT),
            decreases pre.len() - i,
        {
            let (id, n) = self.registrations[i];
            out.push((id, n > MAX_REQUESTS_IN_FLIGHT));
            self.registrations.set(i, (id, n + 1));
            i += 1;
        }
        proof {
            assert(self.registrations@ =~= all_incremented(pre));
            let cur = self.registrations@;
            assert forall|a: int, b: int|
                0 <= a < cur.len() && 0 <= b < cur.len() && a != b implies (#[trigger] cur[a]).0 != (#[trigger] cur[b]).0 by {
                assert(cur[a].0 == old(self).registrations@[a].0);
                assert(cur[b].0 == old(self).registrations@[b].0);
            }
            assert forall|a: int| 0 <= a < cur.len() implies (#[trigger] cur[a]).0 < self.next_id && cur[a].1 >= 0 by {
                assert(cur[a].0 == old(self).registrations@[a].0);
                assert(old(self).registrations@[a].1 >= 0);
            }
        }
        out
    }

    /// A request to the client ended: on success it has one request less
    /// in flight (if still registered); on failure it is dropped. A success
    /// answers a request counted in flight.
    pub fn request_finished(&mut self, id: u64, succeeded: bool)
        requires
            old(self).wf(),
            succeeded ==> (reg_index(old(self).registrations(), id) matches Some(i) ==> old(self).registrations()[i].1 > 0),
        ensures
            final(self).wf(),
            final(self).spec_next_id() == old(self).spec_next_id(),
            final(self).registrations() == match reg_index(old(self).registrations(), id) {
                Some(i) => if succeeded {
                    old(self).registrations().update(
                        i,
                        (id, (old(self).registrations()[i].1 - 1) as i32),
                    )
                } else {
                    old(self).registrations().remove(i)
                },
                None => old(self).registrations(),
            },
    {
        if !succeeded {
            self.unregister(id);
            return;
        }
        match self.position(id) {
            Some(i) => {
                let ghost pre = self.registrations@;
                let (k, n) = self.registrations[i];
                self.registrations.set(i, (k, n - 1));
                proof {
                    let cur = self.registrations@;
                    assert forall|a: int, b: int|
                        0 <= a < cur.len() && 0 <= b < cur.len() && a != b implies (#[trigger] cur[a]).0 != (
                        #[trigger] cur[b]).0 by {
                        assert(cur[a].0 == pre[a].0);
                        assert(cur[b].0 == pre[b].0);
                    }
                    assert forall|a: int| 0 <= a < cur.len() implies (#[trigger] cur[a]).0 < self.next_id && cur[a].1 >= 0 by {
                        if a != i {
                            assert(cur[a] == pre[a]);
                        }
                    }
                }
            },
            None => {},
        }
    }

    /// The number of registered clients.
    pub fn len(&self) -> (r: usize)
        ensures
            r == self.registrations().len(),
    {
        self.registrations.len()
    }
}

} // verus!
