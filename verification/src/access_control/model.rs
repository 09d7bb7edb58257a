//! The authorization engine as a mathematical state machine: its state as
//! maps and sets, and each operation as a function from a state to the next
//! state or to a failure.

use crate::access_control::error::Error;
use crate::access_control::permission::{full_permissions, Permission};
use crate::access_control::request::{PendingRequestView, RequestStatus, RequestView};
use crate::types::{Address, Cid};
use vstd::prelude::*;

verus! {

/// Granted permission kinds: for each resource, for each principal, a set.
pub type Grants = Map<Cid, Map<Address, Set<Permission>>>;

/// The kinds that `grants` holds for `user` on `cid`, if it has an entry for
/// them.
pub open spec fn granted(grants: Grants, cid: Cid, user: Address) -> Option<Set<Permission>> {
    if grants.contains_key(cid) && grants[cid].contains_key(user) {
        Some(grants[cid][user])
    } else {
        None
    }
}

/// `grants` with `perm` added to the kinds of `user` on `cid`.
pub open spec fn with_grant(grants: Grants, cid: Cid, user: Address, perm: Permission) -> Grants {
    let row = if grants.contains_key(cid) {
        grants[cid]
    } else {
        Map::empty()
    };
    let held = if row.contains_key(user) {
        row[user]
    } else {
        Set::empty()
    };
    grants.insert(cid, row.insert(user, held.insert(perm)))
}

/// `grants` with `perm` taken from the kinds of `user` on `cid`. An entry
/// whose set becomes empty is dropped, and so is a resource without entries.
pub open spec fn without_grant(grants: Grants, cid: Cid, user: Address, perm: Permission) -> Grants {
    let held = grants[cid][user].remove(perm);
    let row = if held.is_empty() {
        grants[cid].remove(user)
    } else {
        grants[cid].insert(user, held)
    };
    if row.is_empty() {
        grants.remove(cid)
    } else {
        grants.insert(cid, row)
    }
}

/// Approved shares: for each source resource, the set of its targets.
pub type Shares = Map<Cid, Set<Cid>>;

/// Whether `target` is committed as a share under any source.
pub open spec fn claimed(shares: Shares, target: Cid) -> bool {
    exists|source: Cid| shares.contains_key(source) && #[trigger] shares[source].contains(target)
}

/// `shares` with `target` added to the targets of `source`.
pub open spec fn with_share(shares: Shares, source: Cid, target: Cid) -> Shares {
    let row = if shares.contains_key(source) {
        shares[source]
    } else {
        Set::empty()
    };
    shares.insert(source, row.insert(target))
}

/// `out` lists exactly the requests of `pending` that `wanted` admits, by
/// ascending number.
pub open spec fn lists_pending(
    pending: Map<nat, RequestView>,
    wanted: spec_fn(RequestView) -> bool,
    out: Seq<PendingRequestView>,
) -> bool {
    &&& forall|i: int, j: int|
        0 <= i < j < out.len() ==> (#[trigger] out[i]).req_idx < (#[trigger] out[j]).req_idx
    &&& forall|i: int|
        0 <= i < out.len() ==> {
            &&& pending.contains_key((#[trigger] out[i]).req_idx)
            &&& pending[out[i].req_idx] == out[i].req
            &&& wanted(out[i].req)
        }
    &&& forall|id: nat| #[trigger]
        pending.contains_key(id) && wanted(pending[id]) ==> exists|i: int|
            0 <= i < out.len() && (#[trigger] out[i]).req_idx == id
}

/// The state of the engine.
pub struct State {
    /// The one principal who may extend the deny-lists.
    pub admin: Address,
    /// The requests that wait for approval or rejection, by number.
    pub pending: Map<nat, RequestView>,
    /// Where each request stands that was ever made, by number.
    pub status: Map<nat, RequestStatus>,
    /// The granted permissions.
    pub grants: Grants,
    /// The approved shares.
    pub shares: Shares,
    /// The denied public keys.
    pub denied_keys: Set<Seq<u8>>,
    /// The denied resources.
    pub denied_cids: Set<Cid>,
    /// How many requests were made so far.
    pub counter: nat,
}

impl State {
    /// The state of an engine that was just set up for `admin`.
    pub open spec fn init(admin: Address) -> State {
        State {
            admin,
            pending: Map::empty(),
            status: Map::empty(),
            grants: Map::empty(),
            shares: Map::empty(),
            denied_keys: Set::empty(),
            denied_cids: Set::empty(),
            counter: 0,
        }
    }

    /// The requests made so far are numbered 1 to `counter`.
    pub open spec fn numbered(self) -> bool {
        forall|id: nat| #[trigger] self.status.contains_key(id) <==> 1 <= id <= self.counter
    }

    /// A request is pending exactly if it waits in the queue.
    pub open spec fn queue_matches_status(self) -> bool {
        forall|id: nat| #[trigger]
            self.pending.contains_key(id) <==> (self.status.contains_key(id) && self.status[id]
                == RequestStatus::Pending)
    }

    /// No resource is left without a principal, no principal without a kind.
    pub open spec fn grants_compact(self) -> bool {
        &&& forall|c: Cid| #[trigger]
            self.grants.contains_key(c) ==> exists|a: Address| #[trigger]
                self.grants[c].contains_key(a)
        &&& forall|c: Cid, a: Address|
            self.grants.contains_key(c) && #[trigger] self.grants[c].contains_key(a)
                ==> exists|p: Permission| #[trigger] self.grants[c][a].contains(p)
    }

    /// No target is committed under two sources.
    pub open spec fn targets_unique(self) -> bool {
        forall|c1: Cid, c2: Cid, t: Cid|
            self.shares.contains_key(c1) && self.shares.contains_key(c2)
                && #[trigger] self.shares[c1].contains(t) && #[trigger] self.shares[c2].contains(t)
                ==> c1 == c2
    }

    /// What holds of every state that the engine can reach.
    pub open spec fn wf(self) -> bool {
        &&& self.numbered()
        &&& self.queue_matches_status()
        &&& self.grants_compact()
        &&& self.targets_unique()
    }

    /// The permission kinds of `user` on `cid`, where `owner` is the
    /// registered owner of `cid`. The owner holds all five without an entry;
    /// anyone else holds what the ledger has for them, and without an entry
    /// there the query fails.
    pub open spec fn permissions(self, user: Address, cid: Cid, owner: Address) -> Result<
        Set<Permission>,
        Error,
    > {
        if user == owner {
            Ok(full_permissions())
        } else {
            match granted(self.grants, cid, user) {
                Some(held) => Ok(held),
                None => Err(Error::NotFound),
            }
        }
    }

    /// Whether `user` holds `perm` on `cid`, where `owner` is the registered
    /// owner of `cid`. Fails where [`State::permissions`] fails.
    pub open spec fn has_perm(self, user: Address, cid: Cid, perm: Permission, owner: Address)
        -> Result<bool, Error> {
        if user == owner {
            Ok(true)
        } else {
            match granted(self.grants, cid, user) {
                Some(held) => Ok(held.contains(perm)),
                None => Err(Error::NotFound),
            }
        }
    }

    /// The failure, if any, that `caller` meets when an operation on `cid`
    /// needs `perm`.
    pub open spec fn authorize(self, caller: Address, cid: Cid, perm: Permission, owner: Address)
        -> Option<Error> {
        match self.has_perm(caller, cid, perm, owner) {
            Err(e) => Some(e),
            Ok(false) => Some(Error::Forbidden),
            Ok(true) => None,
        }
    }

    /// The targets approved as shares of `cid`.
    pub open spec fn approved_shares(self, cid: Cid) -> Result<Set<Cid>, Error> {
        if self.shares.contains_key(cid) {
            Ok(self.shares[cid])
        } else {
            Err(Error::NotFound)
        }
    }

    /// Whether `cid` is approved as a share of `from_cid`.
    pub open spec fn has_approved_share(self, cid: Cid, from_cid: Cid) -> Result<bool, Error> {
        if self.shares.contains_key(from_cid) {
            Ok(self.shares[from_cid].contains(cid))
        } else {
            Err(Error::NotFound)
        }
    }

    /// Where request `id` stands.
    pub open spec fn status_of(self, id: nat) -> Result<RequestStatus, Error> {
        if self.status.contains_key(id) {
            Ok(self.status[id])
        } else {
            Err(Error::NotFound)
        }
    }

    /// The deny-list entry, if any, that stands against `req`: its resource
    /// first, then, for a share, its declared key.
    pub open spec fn denial(self, req: RequestView) -> Option<Error> {
        if self.denied_cids.contains(req.cid()) {
            Some(Error::DeniedResource)
        } else {
            match req {
                RequestView::Share { pub_key, .. } => if self.denied_keys.contains(pub_key) {
                    Some(Error::DeniedKey)
                } else {
                    None
                },
                RequestView::Permission { .. } => None,
            }
        }
    }

    /// Making the request `req`: it gets the next number and waits in the
    /// queue, unless a deny-list stands against it.
    pub open spec fn submit(self, req: RequestView) -> Result<(State, nat), Error> {
        match self.denial(req) {
            Some(e) => Err(e),
            None => {
                let id = self.counter + 1;
                Ok(
                    (
                        State {
                            counter: id,
                            pending: self.pending.insert(id, req),
                            status: self.status.insert(id, RequestStatus::Pending),
                            ..self
                        },
                        id,
                    ),
                )
            },
        }
    }

    /// The state after request `id` has left the queue with the final status
    /// `outcome`.
    pub open spec fn resolved(self, id: nat, outcome: RequestStatus) -> State {
        State { pending: self.pending.remove(id), status: self.status.insert(id, outcome), ..self }
    }

    /// `caller` approves request `id`. `owner` is the registered owner of
    /// the resource of that request. `shared` is absent for a permission
    /// request; for a share request it is the target together with the key
    /// that the content registry publishes for it.
    pub open spec fn approve(
        self,
        caller: Address,
        owner: Address,
        id: nat,
        shared: Option<(Cid, Seq<u8>)>,
    ) -> Result<State, Error> {
        if !self.pending.contains_key(id) {
            Err(Error::NotFound)
        } else {
            let req = self.pending[id];
            if let Some(e) = self.denial(req) {
                Err(e)
            } else if let Some(e) = self.authorize(caller, req.cid(), Permission::Approve, owner) {
                Err(e)
            } else {
                match req {
                    RequestView::Permission { user, cid, perm } => {
                        if shared is Some {
                            Err(Error::InvalidArgument)
                        } else {
                            Ok(
                                State {
                                    grants: with_grant(self.grants, cid, user, perm),
                                    ..self.resolved(id, RequestStatus::Approved)
                                },
                            )
                        }
                    },
                    RequestView::Share { user, cid, pub_key } => {
                        match shared {
                            None => Err(Error::InvalidArgument),
                            Some((target, registered_key)) => {
                                if claimed(self.shares, target) {
                                    Err(Error::AlreadyApproved)
                                } else if registered_key != pub_key {
                                    Err(Error::KeyMismatch)
                                } else {
                                    Ok(
                                        State {
                                            shares: with_share(self.shares, cid, target),
                                            ..self.resolved(id, RequestStatus::Approved)
                                        },
                                    )
                                }
                            },
                        }
                    },
                }
            }
        }
    }

    /// `caller` rejects request `id`. `owner` is the registered owner of the
    /// resource of that request. The deny-lists are not consulted.
    pub open spec fn reject(self, caller: Address, owner: Address, id: nat) -> Result<State, Error> {
        if !self.pending.contains_key(id) {
            Err(Error::NotFound)
        } else if let Some(e) = self.authorize(
            caller,
            self.pending[id].cid(),
            Permission::Reject,
            owner,
        ) {
            Err(e)
        } else {
            Ok(self.resolved(id, RequestStatus::Rejected))
        }
    }

    /// `caller` takes the permission `perm` on `cid` from `user`. `owner` is
    /// the registered owner of `cid`. The deny-lists are not consulted.
    pub open spec fn revoke(
        self,
        caller: Address,
        owner: Address,
        cid: Cid,
        user: Address,
        perm: Permission,
    ) -> Result<State, Error> {
        if let Some(e) = self.authorize(caller, cid, Permission::Revoke, owner) {
            Err(e)
        } else {
            match granted(self.grants, cid, user) {
                None => Err(Error::NotFound),
                Some(held) => {
                    if !held.contains(perm) {
                        Err(Error::PermissionNotHeld)
                    } else {
                        Ok(State { grants: without_grant(self.grants, cid, user, perm), ..self })
                    }
                },
            }
        }
    }

    /// `caller` puts the public key `key` on the deny-list.
    pub open spec fn deny_pubkey(self, caller: Address, key: Seq<u8>) -> Result<State, Error> {
        if caller != self.admin {
            Err(Error::Forbidden)
        } else {
            Ok(State { denied_keys: self.denied_keys.insert(key), ..self })
        }
    }

    /// `caller` puts the resource `cid` on the deny-list.
    pub open spec fn deny_cid(self, caller: Address, cid: Cid) -> Result<State, Error> {
        if caller != self.admin {
            Err(Error::Forbidden)
        } else {
            Ok(State { denied_cids: self.denied_cids.insert(cid), ..self })
        }
    }

    /// `out` lists exactly the pending requests that `wanted` admits, by
    /// ascending number.
    pub open spec fn lists_pending(
        self,
        wanted: spec_fn(RequestView) -> bool,
        out: Seq<PendingRequestView>,
    ) -> bool {
        lists_pending(self.pending, wanted, out)
    }
}

} // verus!
