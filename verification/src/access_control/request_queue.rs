//! The request queue and the status registry: the requests that wait for
//! approval or rejection, and where every request stands that was ever made.

use crate::access_control::model::lists_pending;
use crate::access_control::request::{
    PendingRequest, ReqIdx, Request, RequestStatus, RequestView,
};
use crate::assoc::{
    assoc_map, has_key, keys_distinct, lemma_assoc_absent, lemma_assoc_at, lemma_assoc_push,
    lemma_assoc_remove, position,
};
use crate::types::{Address, Cid};
use vstd::prelude::*;

verus! {

/// Which pending requests a listing asks for.
#[derive(Clone, Copy, Debug, PartialEq, Eq)]
pub enum Selector {
    /// Those about one resource.
    Resource(Cid),
    /// Those made by one principal.
    Principal(Address),
}

impl Selector {
    /// Whether the selector admits `req`.
    pub open spec fn admits(self, req: RequestView) -> bool {
        match self {
            Selector::Resource(cid) => req.cid() == cid,
            Selector::Principal(user) => req.user() == user,
        }
    }

    /// Decides whether the selector admits `req`.
    pub fn selects(&self, req: &Request) -> (r: bool)
        ensures
            r == self.admits(req@),
    {
        match self {
            Selector::Resource(cid) => *req.cid() == *cid,
            Selector::Principal(user) => *req.user() == *user,
        }
    }
}

/// The pending requests by ascending number, the status of request `n` at
/// index `n - 1`, and the number of requests made.
#[derive(Clone, Debug, PartialEq, Eq)]
pub struct RequestQueue {
    pub pending: Vec<PendingRequest>,
    pub status: Vec<RequestStatus>,
    pub counter: u64,
}

impl RequestQueue {
    /// The pending requests as pairs of a number and a request.
    pub open spec fn entries(self) -> Seq<(nat, RequestView)> {
        Seq::new(
            self.pending.len() as nat,
            |i: int| (self.pending[i].req_idx.0 as nat, self.pending[i].req@),
        )
    }

    /// The pending requests by number.
    pub open spec fn pending_map(self) -> Map<nat, RequestView> {
        assoc_map(self.entries())
    }

    /// The status of every request made so far, by number.
    pub open spec fn status_map(self) -> Map<nat, RequestStatus> {
        Map::new(|id: nat| 1 <= id <= self.status.len(), |id: nat| self.status[id - 1])
    }

    /// The numbers of the pending requests ascend.
    pub open spec fn ordered(self) -> bool {
        forall|i: int, j: int|
            0 <= i < j < self.pending.len() ==> (#[trigger] self.pending[i]).req_idx.0 < (
            #[trigger] self.pending[j]).req_idx.0
    }

    /// The registry has one status for each request made, the pending
    /// requests are in order, and a request is in the queue exactly if its
    /// status is `Pending`.
    pub open spec fn wf(self) -> bool {
        &&& self.status.len() == self.counter
        &&& self.ordered()
        &&& forall|i: int|
            0 <= i < self.pending.len() ==> {
                &&& 1 <= (#[trigger] self.pending[i]).req_idx.0 <= self.counter
                &&& self.status[self.pending[i].req_idx.0 - 1] == RequestStatus::Pending
            }
        &&& forall|n: int|
            0 <= n < self.status.len() && #[trigger] self.status[n] == RequestStatus::Pending
                ==> has_key(self.entries(), (n + 1) as nat)
    }

    /// In a well-formed queue no number occurs twice.
    pub proof fn lemma_distinct(self)
        requires
            self.ordered(),
        ensures
            keys_distinct(self.entries()),
    {
        assert forall|i: int, j: int| 0 <= i < j < self.entries().len() implies (
        #[trigger] self.entries()[i]).0 != (#[trigger] self.entries()[j]).0 by {
            assert(self.pending[i].req_idx.0 < self.pending[j].req_idx.0);
        }
    }

    /// In a well-formed queue the requests are numbered from 1 and a request
    /// is pending exactly if it waits in the queue.
    pub proof fn lemma_consistent(self)
        requires
            self.wf(),
        ensures
            forall|id: nat| #[trigger]
                self.status_map().contains_key(id) <==> 1 <= id <= self.counter,
            forall|id: nat| #[trigger]
                self.pending_map().contains_key(id) <==> (self.status_map().contains_key(id)
                    && self.status_map()[id] == RequestStatus::Pending),
    {
        self.lemma_distinct();
        assert forall|id: nat| #[trigger]
            self.pending_map().contains_key(id) <==> (self.status_map().contains_key(id)
                && self.status_map()[id] == RequestStatus::Pending) by {
            if self.pending_map().contains_key(id) {
                let i = position(self.entries(), id);
                assert(self.entries()[i].0 == id);
                assert(self.pending[i].req_idx.0 == id);
            }
            if self.status_map().contains_key(id) && self.status_map()[id]
                == RequestStatus::Pending {
                assert(self.status[id - 1] == RequestStatus::Pending);
                assert(has_key(self.entries(), ((id - 1) + 1) as nat));
            }
        }
    }

    /// Decides whether the queue is well-formed.
    pub fn is_wf(&self) -> (r: bool)
        ensures
            r == self.wf(),
    {
        if self.status.len() as u64 != self.counter {
            return false;
        }
        // The pending requests must be the requests with the status
        // `Pending`, in the order of the registry.
        let mut p: usize = 0;
        let mut n: usize = 0;
        while n < self.status.len()
            invariant
                self.status.len() == self.counter,
                n <= self.status.len(),
                p <= self.pending.len(),
                forall|i: int|
                    0 <= i < p ==> {
                        &&& 1 <= (#[trigger] self.pending[i]).req_idx.0 <= n
                        &&& self.status[self.pending[i].req_idx.0 - 1] == RequestStatus::Pending
                    },
                forall|i: int, j: int|
                    0 <= i < j < p ==> (#[trigger] self.pending[i]).req_idx.0 < (
                    #[trigger] self.pending[j]).req_idx.0,
                forall|m: int|
                    0 <= m < n && #[trigger] self.status[m] == RequestStatus::Pending ==> exists|
                        i: int,
                    | 0 <= i < p && (#[trigger] self.pending[i]).req_idx.0 == m + 1,
            decreases self.status.len() - n,
        {
            if self.status[n] == RequestStatus::Pending {
                if p >= self.pending.len() || self.pending[p].req_idx.0 != n as u64 + 1 {
                    proof {
                        if self.wf() {
                            self.lemma_no_pending_status_is_skipped(p as int, n as int);
                        }
                    }
                    return false;
                }
                proof {
                    assert forall|m: int|
                        0 <= m < n + 1 && #[trigger] self.status[m]
                            == RequestStatus::Pending implies exists|i: int|
                        0 <= i < p + 1 && (#[trigger] self.pending[i]).req_idx.0 == m + 1 by {
                        if m < n {
                            let i = choose|i: int|
                                0 <= i < p && (#[trigger] self.pending[i]).req_idx.0 == m + 1;
                            assert(self.pending[i].req_idx.0 == m + 1);
                        } else {
                            assert(self.pending[p as int].req_idx.0 == m + 1);
                        }
                    }
                }
                p += 1;
            }
            n += 1;
        }
        if p != self.pending.len() {
            proof {
                if self.wf() {
                    // The request at `p` is pending, so it was met already.
                    let m = self.pending[p as int].req_idx.0 - 1;
                    assert(self.status[m] == RequestStatus::Pending);
                    let i = choose|i: int|
                        0 <= i < p && (#[trigger] self.pending[i]).req_idx.0 == m + 1;
                    assert(self.pending[i].req_idx.0 < self.pending[p as int].req_idx.0);
                }
            }
            return false;
        }
        proof {
            assert forall|m: int|
                0 <= m < self.status.len() && #[trigger] self.status[m]
                    == RequestStatus::Pending implies has_key(self.entries(), (m + 1) as nat) by {
                let i = choose|i: int|
                    0 <= i < p && (#[trigger] self.pending[i]).req_idx.0 == m + 1;
                assert(self.entries()[i].0 == (m + 1) as nat);
            }
        }
        true
    }

    /// In a well-formed queue, once the first `p` pending requests are those
    /// with a number up to `n`, a request with the number `n + 1` and the
    /// status `Pending` is the next in the queue.
    proof fn lemma_no_pending_status_is_skipped(self, p: int, n: int)
        requires
            self.wf(),
            0 <= n < self.status.len(),
            0 <= p <= self.pending.len(),
            self.status[n] == RequestStatus::Pending,
            forall|i: int| 0 <= i < p ==> (#[trigger] self.pending[i]).req_idx.0 <= n,
            forall|m: int|
                0 <= m < n && #[trigger] self.status[m] == RequestStatus::Pending ==> exists|i: int|
                    0 <= i < p && (#[trigger] self.pending[i]).req_idx.0 == m + 1,
        ensures
            p < self.pending.len(),
            self.pending[p].req_idx.0 == n + 1,
    {
        assert(has_key(self.entries(), (n + 1) as nat));
        let i = position(self.entries(), (n + 1) as nat);
        assert(self.entries()[i].0 == (n + 1) as nat);
        assert(self.pending[i].req_idx.0 == n + 1);
        assert(i >= p);
        if i > p {
            assert(self.pending[p].req_idx.0 < self.pending[i].req_idx.0);
            let m = self.pending[p].req_idx.0 - 1;
            assert(self.status[m] == RequestStatus::Pending);
            let k = choose|k: int| 0 <= k < p && (#[trigger] self.pending[k]).req_idx.0 == m + 1;
            assert(self.pending[k].req_idx.0 < self.pending[p].req_idx.0);
        }
    }

    /// A queue into which no request was made yet.
    pub fn new() -> (r: RequestQueue)
        ensures
            r.wf(),
            r.counter == 0,
            r.pending_map() == Map::<nat, RequestView>::empty(),
            r.status_map() == Map::<nat, RequestStatus>::empty(),
    {
        let r = RequestQueue { pending: Vec::new(), status: Vec::new(), counter: 0 };
        proof {
            assert(r.pending_map() =~= Map::<nat, RequestView>::empty());
            assert(r.status_map() =~= Map::<nat, RequestStatus>::empty());
        }
        r
    }

    /// Takes `req` into the queue under the next number, which it returns.
    pub fn submit(&mut self, req: Request) -> (r: ReqIdx)
        requires
            old(self).wf(),
        ensures
            final(self).wf(),
            r.0 == old(self).counter + 1,
            final(self).counter == old(self).counter + 1,
            final(self).pending_map() == old(self).pending_map().insert(r.0 as nat, req@),
            final(self).status_map() == old(self).status_map().insert(
                r.0 as nat,
                RequestStatus::Pending,
            ),
    {
        // The registry grows first: it has one entry for each request made,
        // so the count of them fits wherever the registry fits.
        self.status.push(RequestStatus::Pending);
        self.counter = self.status.len() as u64;
        let req_idx = ReqIdx(self.counter);
        let ghost id = req_idx.0 as nat;
        proof {
            old(self).lemma_distinct();
            assert forall|i: int| 0 <= i < old(self).entries().len() implies (
            #[trigger] old(self).entries()[i]).0 != id by {
                assert(old(self).pending[i].req_idx.0 <= old(self).counter);
            }
            lemma_assoc_absent(old(self).entries(), id);
            lemma_assoc_push(old(self).entries(), id, req@);
        }
        self.pending.push(PendingRequest { req_idx, req });
        proof {
            assert(self.entries() =~= old(self).entries().push((id, req@)));
            assert(self.status_map() =~= old(self).status_map().insert(
                id,
                RequestStatus::Pending,
            ));
            assert forall|i: int, j: int| 0 <= i < j < self.pending.len() implies (
            #[trigger] self.pending[i]).req_idx.0 < (#[trigger] self.pending[j]).req_idx.0 by {
                if j < old(self).pending.len() {
                    assert(old(self).pending[i].req_idx.0 < old(self).pending[j].req_idx.0);
                } else {
                    assert(old(self).pending[i].req_idx.0 <= old(self).counter);
                }
            }
            assert forall|i: int| 0 <= i < self.pending.len() implies {
                &&& 1 <= (#[trigger] self.pending[i]).req_idx.0 <= self.counter
                &&& self.status[self.pending[i].req_idx.0 - 1] == RequestStatus::Pending
            } by {
                if i < old(self).pending.len() {
                    assert(self.pending[i] == old(self).pending[i]);
                    assert(1 <= old(self).pending[i].req_idx.0 <= old(self).counter);
                }
            }
            assert forall|n: int|
                0 <= n < self.status.len() && #[trigger] self.status[n]
                    == RequestStatus::Pending implies has_key(self.entries(), (n + 1) as nat) by {
                if n < old(self).status.len() {
                    assert(old(self).status[n] == RequestStatus::Pending);
                    let i = position(old(self).entries(), (n + 1) as nat);
                    assert(old(self).entries()[i].0 == (n + 1) as nat);
                    assert(self.entries()[i].0 == (n + 1) as nat);
                } else {
                    assert(self.entries()[old(self).pending.len() as int].0 == id);
                }
            }
        }
        req_idx
    }

    /// The index in the queue of request `req_idx`, if it is pending.
    pub fn find(&self, req_idx: ReqIdx) -> (r: Option<usize>)
        requires
            self.wf(),
        ensures
            match r {
                Some(i) => {
                    &&& i < self.pending.len()
                    &&& self.pending[i as int].req_idx == req_idx
                    &&& self.pending_map().contains_key(req_idx.0 as nat)
                    &&& self.pending_map()[req_idx.0 as nat] == self.pending[i as int].req@
                },
                None => !self.pending_map().contains_key(req_idx.0 as nat),
            },
    {
        let mut i: usize = 0;
        while i < self.pending.len()
            invariant
                self.wf(),
                i <= self.pending.len(),
                forall|j: int| 0 <= j < i ==> self.pending[j].req_idx.0 != req_idx.0,
            decreases self.pending.len() - i,
        {
            if self.pending[i].req_idx.0 == req_idx.0 {
                proof {
                    self.lemma_distinct();
                    lemma_assoc_at(self.entries(), i as int);
                }
                return Some(i);
            }
            i += 1;
        }
        proof {
            lemma_assoc_absent(self.entries(), req_idx.0 as nat);
        }
        None
    }

    /// Takes the request at index `i` out of the queue and records `outcome`
    /// as its status.
    pub fn resolve(&mut self, i: usize, outcome: RequestStatus)
        requires
            old(self).wf(),
            i < old(self).pending.len(),
            outcome != RequestStatus::Pending,
        ensures
            final(self).wf(),
            final(self).counter == old(self).counter,
            final(self).pending_map() == old(self).pending_map().remove(
                old(self).pending[i as int].req_idx.0 as nat,
            ),
            final(self).status_map() == old(self).status_map().insert(
                old(self).pending[i as int].req_idx.0 as nat,
                outcome,
            ),
    {
        let idx: u64 = self.pending[i].req_idx.0;
        let ghost id = idx as nat;
        proof {
            old(self).lemma_distinct();
            lemma_assoc_remove(old(self).entries(), i as int);
            assert(1 <= old(self).pending[i as int].req_idx.0 <= old(self).counter);
        }
        self.pending.remove(i);
        let slot: usize = (idx - 1) as usize;
        self.status[slot] = outcome;
        proof {
            assert(self.entries() =~= old(self).entries().remove(i as int));
            assert(self.status_map() =~= old(self).status_map().insert(id, outcome));
            assert forall|a: int| 0 <= a < self.pending.len() implies #[trigger] self.pending[a]
                == old(self).pending[if a < i {
                a
            } else {
                a + 1
            }] by {}
            assert forall|a: int, b: int| 0 <= a < b < self.pending.len() implies (
            #[trigger] self.pending[a]).req_idx.0 < (#[trigger] self.pending[b]).req_idx.0 by {
                let a2 = if a < i {
                    a
                } else {
                    a + 1
                };
                let b2 = if b < i {
                    b
                } else {
                    b + 1
                };
                assert(old(self).pending[a2].req_idx.0 < old(self).pending[b2].req_idx.0);
            }
            assert forall|a: int| 0 <= a < self.pending.len() implies {
                &&& 1 <= (#[trigger] self.pending[a]).req_idx.0 <= self.counter
                &&& self.status[self.pending[a].req_idx.0 - 1] == RequestStatus::Pending
            } by {
                let a2 = if a < i {
                    a
                } else {
                    a + 1
                };
                assert(1 <= old(self).pending[a2].req_idx.0 <= old(self).counter);
                if a2 < i {
                    assert(old(self).pending[a2].req_idx.0 < old(self).pending[i as int].req_idx.0);
                } else {
                    assert(old(self).pending[i as int].req_idx.0 < old(self).pending[a2].req_idx.0);
                }
            }
            assert forall|n: int|
                0 <= n < self.status.len() && #[trigger] self.status[n]
                    == RequestStatus::Pending implies has_key(self.entries(), (n + 1) as nat) by {
                assert(n != slot);
                assert(old(self).status[n] == RequestStatus::Pending);
                let p = position(old(self).entries(), (n + 1) as nat);
                assert(old(self).entries()[p].0 == (n + 1) as nat);
                assert(p != i);
                let p2 = if p < i {
                    p
                } else {
                    p - 1
                };
                assert(self.entries()[p2].0 == (n + 1) as nat);
            }
        }
    }

    /// Where request `req_idx` stands; `None` if no request has that number.
    pub fn status_of(&self, req_idx: ReqIdx) -> (r: Option<RequestStatus>)
        requires
            self.wf(),
        ensures
            match r {
                Some(status) => {
                    &&& self.status_map().contains_key(req_idx.0 as nat)
                    &&& self.status_map()[req_idx.0 as nat] == status
                },
                None => !self.status_map().contains_key(req_idx.0 as nat),
            },
    {
        if req_idx.0 == 0 || req_idx.0 > self.counter {
            None
        } else {
            let slot: usize = (req_idx.0 - 1) as usize;
            Some(self.status[slot])
        }
    }

    /// The pending requests that `selector` admits, by ascending number.
    pub fn list(&self, selector: &Selector) -> (r: Vec<PendingRequest>)
        requires
            self.wf(),
        ensures
            lists_pending(
                self.pending_map(),
                |req: RequestView| selector.admits(req),
                r@.map_values(|p: PendingRequest| p@),
            ),
    {
        let ghost wanted = |req: RequestView| selector.admits(req);
        let mut out: Vec<PendingRequest> = Vec::new();
        let mut source: Ghost<Seq<int>> = Ghost(Seq::empty());
        let mut k: usize = 0;
        proof {
            self.lemma_distinct();
        }
        while k < self.pending.len()
            invariant
                self.wf(),
                keys_distinct(self.entries()),
                k <= self.pending.len(),
                source@.len() == out.len(),
                forall|i: int|
                    0 <= i < out.len() ==> {
                        &&& 0 <= (#[trigger] source@[i]) < k
                        &&& out[i]@ == self.pending[source@[i]]@
                        &&& selector.admits(out[i]@.req)
                    },
                forall|i: int, j: int|
                    0 <= i < j < out.len() ==> (#[trigger] source@[i]) < (#[trigger] source@[j]),
                forall|p: int|
                    0 <= p < k && selector.admits((#[trigger] self.pending[p])@.req) ==> exists|
                        i: int,
                    | 0 <= i < out.len() && #[trigger] source@[i] == p,
            decreases self.pending.len() - k,
        {
            if selector.selects(&self.pending[k].req) {
                let item = PendingRequest {
                    req_idx: self.pending[k].req_idx,
                    req: self.pending[k].req.duplicate(),
                };
                let ghost old_source = source@;
                let ghost old_out = out@;
                out.push(item);
                proof {
                    source@ = old_source.push(k as int);
                    assert forall|p: int|
                        0 <= p < k + 1 && selector.admits(
                            (#[trigger] self.pending[p])@.req,
                        ) implies exists|i: int|
                        0 <= i < out.len() && #[trigger] source@[i] == p by {
                        if p < k {
                            let i = choose|i: int|
                                0 <= i < old_out.len() && #[trigger] old_source[i] == p;
                            assert(source@[i] == p);
                        } else {
                            assert(source@[old_out.len() as int] == p);
                        }
                    }
                }
            }
            k += 1;
        }
        proof {
            let listed = out@.map_values(|p: PendingRequest| p@);
            assert forall|i: int, j: int| 0 <= i < j < listed.len() implies (
            #[trigger] listed[i]).req_idx < (#[trigger] listed[j]).req_idx by {
                assert(source@[i] < source@[j]);
                assert(self.pending[source@[i]].req_idx.0 < self.pending[source@[j]].req_idx.0);
            }
            assert forall|i: int| 0 <= i < listed.len() implies {
                &&& self.pending_map().contains_key((#[trigger] listed[i]).req_idx)
                &&& self.pending_map()[listed[i].req_idx] == listed[i].req
                &&& wanted(listed[i].req)
            } by {
                let p = source@[i];
                lemma_assoc_at(self.entries(), p);
            }
            assert forall|id: nat| #[trigger]
                self.pending_map().contains_key(id) && wanted(
                    self.pending_map()[id],
                ) implies exists|i: int| 0 <= i < listed.len() && (#[trigger] listed[i]).req_idx
                == id by {
                let p = position(self.entries(), id);
                assert(self.entries()[p].0 == id);
                lemma_assoc_at(self.entries(), p);
                assert(selector.admits(self.pending[p]@.req));
                let i = choose|i: int| 0 <= i < out.len() && #[trigger] source@[i] == p;
                assert(listed[i].req_idx == id);
            }
        }
        out
    }
}

} // verus!
