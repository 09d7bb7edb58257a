//! The authorization engine: the request queue, the two ledgers and the
//! deny-lists behind one set of operations.
//!
//! The engine does not know who called it, who owns a resource or which key
//! the content registry publishes for a resource. Each operation takes what
//! it needs of these as arguments: the caller, the registered owner of the
//! resource that it concerns, and for the approval of a share the key that is
//! registered for the target.

use crate::access_control::deny_list::DenyLists;
use crate::access_control::error::Error;
use crate::access_control::model::{lists_pending, State};
use crate::access_control::permission::{
    lemma_permission_seq_contains, permission_seq, Permission, PermissionSet,
};
use crate::access_control::permission_ledger::PermissionLedger;
use crate::access_control::request::{
    PendingRequest, PermissionRequest, ReqIdx, Request, RequestStatus, RequestView, ShareRequest,
};
use crate::access_control::request_queue::{RequestQueue, Selector};
use crate::access_control::share_ledger::{ascending, ShareLedger};
use crate::types::{Address, Cid, PublicKey};
use vstd::prelude::*;

verus! {

/// The target of a share approval as a mathematical value: the resource and
/// the bytes of the key registered for it.
pub open spec fn shared_view(shared: Option<(Cid, PublicKey)>) -> Option<(Cid, Seq<u8>)> {
    match shared {
        Some((target, key)) => Some((target, key@)),
        None => None,
    }
}

/// Whether `kinds` holds `perm`.
pub fn holds_kind(kinds: &Vec<Permission>, perm: Permission) -> (r: bool)
    ensures
        r == kinds@.contains(perm),
{
    let mut i: usize = 0;
    while i < kinds.len()
        invariant
            i <= kinds.len(),
            forall|j: int| 0 <= j < i ==> kinds@[j] != perm,
        decreases kinds.len() - i,
    {
        if kinds[i] == perm {
            return true;
        }
        i += 1;
    }
    false
}

/// The state of the authorization engine.
#[derive(Clone, Debug, PartialEq, Eq)]
pub struct Contract {
    pub admin: Address,
    pub queue: RequestQueue,
    pub ledger: PermissionLedger,
    pub shares: ShareLedger,
    pub deny: DenyLists,
}

impl View for Contract {
    type V = State;

    open spec fn view(&self) -> State {
        State {
            admin: self.admin,
            pending: self.queue.pending_map(),
            status: self.queue.status_map(),
            grants: self.ledger@,
            shares: self.shares@,
            denied_keys: self.deny.denied_keys(),
            denied_cids: self.deny.denied_cids(),
            counter: self.queue.counter as nat,
        }
    }
}

impl Contract {
    /// The queue and the ledgers are each well-formed.
    pub open spec fn wf(&self) -> bool {
        &&& self.queue.wf()
        &&& self.ledger.wf()
        &&& self.shares.wf()
    }

    /// Decides whether the engine is well-formed. An engine that was put
    /// together from its parts, such as stored ones, must pass before
    /// anything else is asked of it.
    pub fn is_wf(&self) -> (r: bool)
        ensures
            r == self.wf(),
    {
        self.queue.is_wf() && self.ledger.is_wf() && self.shares.is_wf()
    }

    /// In every well-formed engine a request is in the queue exactly while
    /// it is pending, the requests made so far are numbered from 1 without a
    /// gap, no entry or row of the permission ledger is empty, and no target
    /// is a share under two sources.
    pub proof fn law_state_is_wf(&self)
        requires
            self.wf(),
        ensures
            self@.wf(),
            self@.counter <= u64::MAX,
    {
        self.queue.lemma_consistent();
        self.ledger.lemma_compact();
        self.shares.lemma_targets_unique();
    }

    /// Sets the engine up. `caller` is who asks for it, `contract_owner` is
    /// the owner of the contract, who becomes the administrator, and
    /// `initialized` says whether an engine was set up before. Only the
    /// owner may set the engine up, and only once.
    pub fn new(caller: Address, contract_owner: Address, initialized: bool) -> (r: Result<
        Contract,
        Error,
    >)
        ensures
            match r {
                Ok(c) => {
                    &&& caller == contract_owner
                    &&& !initialized
                    &&& c.wf()
                    &&& c@ == State::init(contract_owner)
                },
                Err(e) => if caller != contract_owner {
                    e == Error::Forbidden
                } else {
                    initialized && e == Error::AlreadyInitialized
                },
            },
    {
        if caller != contract_owner {
            return Err(Error::Forbidden);
        }
        if initialized {
            return Err(Error::AlreadyInitialized);
        }
        Ok(
            Contract {
                admin: contract_owner,
                queue: RequestQueue::new(),
                ledger: PermissionLedger::new(),
                shares: ShareLedger::new(),
                deny: DenyLists::new(),
            },
        )
    }

    /// The engine that was stored, if one was: without one the engine is not
    /// set up.
    pub fn load(stored: Option<Contract>) -> (r: Result<Contract, Error>)
        ensures
            match r {
                Ok(c) => stored == Some(c),
                Err(e) => stored is None && e == Error::NotInitialized,
            },
    {
        match stored {
            Some(c) => Ok(c),
            None => Err(Error::NotInitialized),
        }
    }

    /// The administrator.
    pub fn admin(&self) -> (r: Address)
        ensures
            r == self@.admin,
    {
        self.admin
    }

    /// How many requests were made so far.
    pub fn requests_counter(&self) -> (r: u64)
        requires
            self.wf(),
        ensures
            r == self@.counter,
    {
        self.queue.counter
    }

    /// The permission kinds of `user` on `cid`, in ascending order. `owner`
    /// is the registered owner of `cid`.
    pub fn permissions(&self, user: Address, cid: Cid, owner: Address) -> (r: Result<
        Vec<Permission>,
        Error,
    >)
        requires
            self.wf(),
        ensures
            match r {
                Ok(kinds) => {
                    &&& self@.permissions(user, cid, owner) matches Ok(held)
                    &&& kinds@ == permission_seq(held)
                },
                Err(e) => self@.permissions(user, cid, owner) == Err::<Set<Permission>, Error>(e),
            },
    {
        if user == owner {
            Ok(PermissionSet::full().to_vec())
        } else {
            match self.ledger.lookup(&cid, &user) {
                Some(held) => Ok(held.to_vec()),
                None => Err(Error::NotFound),
            }
        }
    }

    /// Whether `user` holds `perm` on `cid`. `owner` is the registered owner
    /// of `cid`. Where `user` is neither the owner nor has an entry in the
    /// ledger, the query fails with `NotFound`: it does not answer `false`.
    pub fn has_perm(&self, user: Address, cid: Cid, perm: Permission, owner: Address) -> (r: Result<
        bool,
        Error,
    >)
        requires
            self.wf(),
        ensures
            r == self@.has_perm(user, cid, perm, owner),
            r == match self@.permissions(user, cid, owner) {
                Ok(held) => Ok::<bool, Error>(held.contains(perm)),
                Err(e) => Err::<bool, Error>(e),
            },
    {
        match self.permissions(user, cid, owner) {
            Ok(kinds) => {
                proof {
                    let held = self@.permissions(user, cid, owner)->Ok_0;
                    lemma_permission_seq_contains(held, perm);
                    crate::access_control::permission::lemma_full_permissions();
                }
                Ok(holds_kind(&kinds, perm))
            },
            Err(e) => Err(e),
        }
    }

    /// The resources approved as shares of `cid`, in ascending order.
    pub fn approved_shares(&self, cid: Cid) -> (r: Result<Vec<Cid>, Error>)
        requires
            self.wf(),
        ensures
            match r {
                Ok(targets) => {
                    &&& self@.approved_shares(cid) == Ok::<Set<Cid>, Error>(targets@.to_set())
                    &&& ascending(targets@)
                },
                Err(e) => self@.approved_shares(cid) == Err::<Set<Cid>, Error>(e),
            },
    {
        match self.shares.targets(&cid) {
            Some(targets) => Ok(targets),
            None => Err(Error::NotFound),
        }
    }

    /// Whether `cid` is approved as a share of `from_cid`.
    pub fn has_approved_share(&self, cid: Cid, from_cid: Cid) -> (r: Result<bool, Error>)
        requires
            self.wf(),
        ensures
            r == self@.has_approved_share(cid, from_cid),
    {
        match self.shares.has_share(&cid, &from_cid) {
            Some(b) => Ok(b),
            None => Err(Error::NotFound),
        }
    }

    /// Where request `req_idx` stands.
    pub fn status_of_request(&self, req_idx: ReqIdx) -> (r: Result<RequestStatus, Error>)
        requires
            self.wf(),
        ensures
            r == self@.status_of(req_idx.0 as nat),
    {
        match self.queue.status_of(req_idx) {
            Some(status) => Ok(status),
            None => Err(Error::NotFound),
        }
    }

    /// The pending request with the number `req_idx`.
    pub fn pending_request(&self, req_idx: ReqIdx) -> (r: Result<Request, Error>)
        requires
            self.wf(),
        ensures
            match r {
                Ok(req) => {
                    &&& self@.pending.contains_key(req_idx.0 as nat)
                    &&& self@.pending[req_idx.0 as nat] == req@
                },
                Err(e) => !self@.pending.contains_key(req_idx.0 as nat) && e == Error::NotFound,
            },
    {
        match self.queue.find(req_idx) {
            Some(i) => Ok(self.queue.pending[i].req.duplicate()),
            None => Err(Error::NotFound),
        }
    }

    /// The deny-list entry, if any, that stands against `req`.
    fn denial_of(&self, req: &Request) -> (r: Option<Error>)
        ensures
            r == self@.denial(req@),
    {
        if self.deny.has_cid(req.cid()) {
            return Some(Error::DeniedResource);
        }
        match req {
            Request::Share(share) => {
                if self.deny.has_key(&share.pub_key) {
                    Some(Error::DeniedKey)
                } else {
                    None
                }
            },
            Request::Permission(_) => None,
        }
    }

    /// The failure, if any, that `caller` meets when an operation on `cid`
    /// needs `perm`.
    fn authorize(&self, caller: Address, cid: Cid, perm: Permission, owner: Address) -> (r: Option<
        Error,
    >)
        requires
            self.wf(),
        ensures
            r == self@.authorize(caller, cid, perm, owner),
    {
        match self.has_perm(caller, cid, perm, owner) {
            Err(e) => Some(e),
            Ok(false) => Some(Error::Forbidden),
            Ok(true) => None,
        }
    }

    /// Takes `req` into the queue, unless a deny-list stands against it.
    fn request_perm_internal(&mut self, req: Request) -> (r: Result<ReqIdx, Error>)
        requires
            old(self).wf(),
        ensures
            final(self).wf(),
            match r {
                Ok(req_idx) => old(self)@.submit(req@) == Ok::<(State, nat), Error>(
                    (final(self)@, req_idx.0 as nat),
                ),
                Err(e) => {
                    &&& old(self)@.submit(req@) == Err::<(State, nat), Error>(e)
                    &&& *final(self) == *old(self)
                },
            },
    {
        if let Some(e) = self.denial_of(&req) {
            return Err(e);
        }
        let req_idx = self.queue.submit(req);
        Ok(req_idx)
    }

    /// `caller` asks for the permission `perm` on `cid`. The request gets
    /// the next number and waits for approval or rejection. Fails with
    /// `DeniedResource` where `cid` is denied.
    pub fn request_perm(&mut self, caller: Address, cid: Cid, perm: Permission) -> (r: Result<
        ReqIdx,
        Error,
    >)
        requires
            old(self).wf(),
        ensures
            final(self).wf(),
            match r {
                Ok(req_idx) => old(self)@.submit(
                    RequestView::Permission { user: caller, cid, perm },
                ) == Ok::<(State, nat), Error>((final(self)@, req_idx.0 as nat)),
                Err(e) => {
                    &&& old(self)@.submit(RequestView::Permission { user: caller, cid, perm })
                        == Err::<(State, nat), Error>(e)
                    &&& *final(self) == *old(self)
                },
            },
    {
        let req = Request::Permission(PermissionRequest { user: caller, cid, perm });
        self.request_perm_internal(req)
    }

    /// `caller` asks that a resource with the public key `pub_key` be
    /// approved as a share of `cid`. The request gets the next number and
    /// waits for approval or rejection. Fails with `DeniedResource` where
    /// `cid` is denied, else with `DeniedKey` where `pub_key` is.
    pub fn request_share(&mut self, caller: Address, cid: Cid, pub_key: PublicKey) -> (r: Result<
        ReqIdx,
        Error,
    >)
        requires
            old(self).wf(),
        ensures
            final(self).wf(),
            match r {
                Ok(req_idx) => old(self)@.submit(
                    RequestView::Share { user: caller, cid, pub_key: pub_key@ },
                ) == Ok::<(State, nat), Error>((final(self)@, req_idx.0 as nat)),
                Err(e) => {
                    &&& old(self)@.submit(
                        RequestView::Share { user: caller, cid, pub_key: pub_key@ },
                    ) == Err::<(State, nat), Error>(e)
                    &&& *final(self) == *old(self)
                },
            },
    {
        let req = Request::Share(ShareRequest { user: caller, pub_key, cid });
        self.request_perm_internal(req)
    }

    /// The resource of the pending request `req_idx`, whose registered owner
    /// an approval has to be given, where the approval can still succeed:
    /// where the request is not pending or a deny-list stands against it,
    /// the failure of every approval of it.
    pub fn approval_resource(&self, req_idx: ReqIdx) -> (r: Result<Cid, Error>)
        requires
            self.wf(),
        ensures
            match r {
                Ok(cid) => {
                    &&& self@.pending.contains_key(req_idx.0 as nat)
                    &&& self@.pending[req_idx.0 as nat].cid() == cid
                    &&& self@.denial(self@.pending[req_idx.0 as nat]) is None
                },
                Err(e) => forall|caller: Address, owner: Address, shared: Option<(Cid, Seq<u8>)>|
                    #[trigger] self@.approve(caller, owner, req_idx.0 as nat, shared) == Err::<
                        State,
                        Error,
                    >(e),
            },
    {
        let i = match self.queue.find(req_idx) {
            Some(i) => i,
            None => {
                return Err(Error::NotFound);
            },
        };
        if let Some(e) = self.denial_of(&self.queue.pending[i].req) {
            return Err(e);
        }
        Ok(*self.queue.pending[i].req.cid())
    }

    /// Whether the approval of request `req_idx` by `caller` hangs on the
    /// key that is registered for the target, where it can still succeed:
    /// `true` where the approval succeeds if and only if the key registered
    /// for `shared_cid` is the key that the request declares, `false` where
    /// it succeeds without a target. Where the approval fails whatever that
    /// key is, it is this failure. `owner` is the registered owner of the
    /// resource of the request.
    pub fn approval_needs_key(
        &self,
        caller: Address,
        owner: Address,
        req_idx: ReqIdx,
        shared_cid: Option<Cid>,
    ) -> (r: Result<bool, Error>)
        requires
            self.wf(),
        ensures
            match r {
                Ok(needed) => match shared_cid {
                    Some(target) => {
                        &&& needed
                        &&& self@.pending.contains_key(req_idx.0 as nat)
                        &&& self@.pending[req_idx.0 as nat] matches RequestView::Share {
                            pub_key,
                            ..
                        }
                        &&& forall|key: Seq<u8>|
                            key == pub_key ==> #[trigger] self@.approve(
                                caller,
                                owner,
                                req_idx.0 as nat,
                                Some((target, key)),
                            ) is Ok
                        &&& forall|key: Seq<u8>|
                            key != pub_key ==> #[trigger] self@.approve(
                                caller,
                                owner,
                                req_idx.0 as nat,
                                Some((target, key)),
                            ) == Err::<State, Error>(Error::KeyMismatch)
                    },
                    None => !needed && self@.approve(caller, owner, req_idx.0 as nat, None) is Ok,
                },
                Err(e) => match shared_cid {
                    Some(target) => forall|key: Seq<u8>|
                        #[trigger] self@.approve(
                            caller,
                            owner,
                            req_idx.0 as nat,
                            Some((target, key)),
                        ) == Err::<State, Error>(e),
                    None => self@.approve(caller, owner, req_idx.0 as nat, None) == Err::<
                        State,
                        Error,
                    >(e),
                },
            },
    {
        let i = match self.queue.find(req_idx) {
            Some(i) => i,
            None => {
                return Err(Error::NotFound);
            },
        };
        let req = &self.queue.pending[i].req;
        if let Some(e) = self.denial_of(req) {
            return Err(e);
        }
        if let Some(e) = self.authorize(caller, *req.cid(), Permission::Approve, owner) {
            return Err(e);
        }
        match req {
            Request::Permission(_) => {
                if shared_cid.is_some() {
                    return Err(Error::InvalidArgument);
                }
                Ok(false)
            },
            Request::Share(_) => {
                let target = match shared_cid {
                    Some(target) => target,
                    None => {
                        return Err(Error::InvalidArgument);
                    },
                };
                if self.shares.is_claimed(&target) {
                    return Err(Error::AlreadyApproved);
                }
                Ok(true)
            },
        }
    }

    /// `caller` approves request `req_idx`. `owner` is the registered owner
    /// of the resource of that request. `shared` is absent for a permission
    /// request; for a share request it is the target together with the key
    /// registered for it.
    fn approve_perm_internal(
        &mut self,
        caller: Address,
        owner: Address,
        req_idx: ReqIdx,
        shared: Option<(Cid, PublicKey)>,
    ) -> (r: Result<(), Error>)
        requires
            old(self).wf(),
        ensures
            final(self).wf(),
            match r {
                Ok(()) => old(self)@.approve(caller, owner, req_idx.0 as nat, shared_view(shared))
                    == Ok::<State, Error>(final(self)@),
                Err(e) => {
                    &&& old(self)@.approve(caller, owner, req_idx.0 as nat, shared_view(shared))
                        == Err::<State, Error>(e)
                    &&& *final(self) == *old(self)
                },
            },
    {
        let i = match self.queue.find(req_idx) {
            Some(i) => i,
            None => {
                return Err(Error::NotFound);
            },
        };
        let req = self.queue.pending[i].req.duplicate();
        if let Some(e) = self.denial_of(&req) {
            return Err(e);
        }
        if let Some(e) = self.authorize(caller, *req.cid(), Permission::Approve, owner) {
            return Err(e);
        }
        match req {
            Request::Permission(grant) => {
                if shared.is_some() {
                    return Err(Error::InvalidArgument);
                }
                self.ledger.grant(grant.cid, grant.user, grant.perm);
            },
            Request::Share(share) => {
                let (target, registered_key) = match shared {
                    Some(pair) => pair,
                    None => {
                        return Err(Error::InvalidArgument);
                    },
                };
                if self.shares.is_claimed(&target) {
                    return Err(Error::AlreadyApproved);
                }
                if registered_key != share.pub_key {
                    return Err(Error::KeyMismatch);
                }
                self.shares.commit(share.cid, target);
            },
        }
        self.queue.resolve(i, RequestStatus::Approved);
        Ok(())
    }

    /// `caller` approves the permission request `req_idx`; `owner` is the
    /// registered owner of its resource. The requester then holds the kind
    /// asked for, and the request is `Approved`.
    ///
    /// Fails, in this order: with `NotFound` where no such request is
    /// pending; with `DeniedResource` where its resource is denied by now;
    /// as [`Contract::has_perm`] fails for `caller` and `Approve`; with
    /// `Forbidden` where `caller` does not hold `Approve`; with
    /// `InvalidArgument` where the request is for a share.
    pub fn approve_perm(&mut self, caller: Address, owner: Address, req_idx: ReqIdx) -> (r: Result<
        (),
        Error,
    >)
        requires
            old(self).wf(),
        ensures
            final(self).wf(),
            match r {
                Ok(()) => old(self)@.approve(caller, owner, req_idx.0 as nat, None) == Ok::<
                    State,
                    Error,
                >(final(self)@),
                Err(e) => {
                    &&& old(self)@.approve(caller, owner, req_idx.0 as nat, None) == Err::<
                        State,
                        Error,
                    >(e)
                    &&& *final(self) == *old(self)
                },
            },
    {
        self.approve_perm_internal(caller, owner, req_idx, None)
    }

    /// `caller` approves the share request `req_idx` with `shared_cid` as
    /// the target; `owner` is the registered owner of the resource of the
    /// request, and `registered_key` is the key that the content registry
    /// publishes for `shared_cid`. The target then is a share of that
    /// resource, and the request is `Approved`.
    ///
    /// Fails, in this order: with `NotFound` where no such request is
    /// pending; with `DeniedResource` or `DeniedKey` where the resource or
    /// the declared key of the request is denied by now; as
    /// [`Contract::has_perm`] fails for `caller` and `Approve`; with
    /// `Forbidden` where `caller` does not hold `Approve`; with
    /// `InvalidArgument` where the request is for a permission; with
    /// `AlreadyApproved` where `shared_cid` is a share of any resource
    /// already; with `KeyMismatch` where `registered_key` is not the
    /// declared key.
    pub fn approve_share(
        &mut self,
        caller: Address,
        owner: Address,
        req_idx: ReqIdx,
        shared_cid: Cid,
        registered_key: PublicKey,
    ) -> (r: Result<(), Error>)
        requires
            old(self).wf(),
        ensures
            final(self).wf(),
            match r {
                Ok(()) => old(self)@.approve(
                    caller,
                    owner,
                    req_idx.0 as nat,
                    Some((shared_cid, registered_key@)),
                ) == Ok::<State, Error>(final(self)@),
                Err(e) => {
                    &&& old(self)@.approve(
                        caller,
                        owner,
                        req_idx.0 as nat,
                        Some((shared_cid, registered_key@)),
                    ) == Err::<State, Error>(e)
                    &&& *final(self) == *old(self)
                },
            },
    {
        self.approve_perm_internal(caller, owner, req_idx, Some((shared_cid, registered_key)))
    }

    /// `caller` rejects request `req_idx`; `owner` is the registered owner
    /// of its resource. The request leaves the queue as `Rejected` and
    /// nothing is granted. The deny-lists are not consulted.
    ///
    /// Fails with `NotFound` where no such request is pending, else as
    /// [`Contract::has_perm`] fails for `caller` and `Reject`, else with
    /// `Forbidden` where `caller` does not hold `Reject`.
    pub fn reject_request(&mut self, caller: Address, owner: Address, req_idx: ReqIdx) -> (r:
        Result<(), Error>)
        requires
            old(self).wf(),
        ensures
            final(self).wf(),
            match r {
                Ok(()) => old(self)@.reject(caller, owner, req_idx.0 as nat) == Ok::<State, Error>(
                    final(self)@,
                ),
                Err(e) => {
                    &&& old(self)@.reject(caller, owner, req_idx.0 as nat) == Err::<State, Error>(e)
                    &&& *final(self) == *old(self)
                },
            },
    {
        let i = match self.queue.find(req_idx) {
            Some(i) => i,
            None => {
                return Err(Error::NotFound);
            },
        };
        let cid = *self.queue.pending[i].req.cid();
        if let Some(e) = self.authorize(caller, cid, Permission::Reject, owner) {
            return Err(e);
        }
        self.queue.resolve(i, RequestStatus::Rejected);
        Ok(())
    }

    /// `caller` takes the permission `perm` on `cid` from `user`; `owner` is
    /// the registered owner of `cid`. An entry that is left without a kind
    /// goes, and so does a resource that is left without an entry. The
    /// deny-lists are not consulted.
    ///
    /// Fails as [`Contract::has_perm`] fails for `caller` and `Revoke`, else
    /// with `Forbidden` where `caller` does not hold `Revoke`, else with
    /// `NotFound` where the ledger has no entry for `user` on `cid`, else
    /// with `PermissionNotHeld` where that entry lacks `perm`.
    pub fn revoke_perm(
        &mut self,
        caller: Address,
        owner: Address,
        cid: Cid,
        user: Address,
        perm: Permission,
    ) -> (r: Result<(), Error>)
        requires
            old(self).wf(),
        ensures
            final(self).wf(),
            match r {
                Ok(()) => old(self)@.revoke(caller, owner, cid, user, perm) == Ok::<State, Error>(
                    final(self)@,
                ),
                Err(e) => {
                    &&& old(self)@.revoke(caller, owner, cid, user, perm) == Err::<State, Error>(e)
                    &&& *final(self) == *old(self)
                },
            },
    {
        if let Some(e) = self.authorize(caller, cid, Permission::Revoke, owner) {
            return Err(e);
        }
        self.ledger.revoke(&cid, &user, perm)
    }

    /// The pending requests about `cid`, by ascending number.
    pub fn pending_requests_by_cid(&self, cid: Cid) -> (r: Vec<PendingRequest>)
        requires
            self.wf(),
        ensures
            self@.lists_pending(
                |req: RequestView| req.cid() == cid,
                r@.map_values(|p: PendingRequest| p@),
            ),
    {
        let selector = Selector::Resource(cid);
        let r = self.queue.list(&selector);
        proof {
            let listed = r@.map_values(|p: PendingRequest| p@);
            let by_selector = |req: RequestView| selector.admits(req);
            let by_cid = |req: RequestView| req.cid() == cid;
            assert(lists_pending(self@.pending, by_selector, listed));
            assert(lists_pending(self@.pending, by_cid, listed));
        }
        r
    }

    /// The pending requests made by `user`, by ascending number.
    pub fn pending_requests_by_user(&self, user: Address) -> (r: Vec<PendingRequest>)
        requires
            self.wf(),
        ensures
            self@.lists_pending(
                |req: RequestView| req.user() == user,
                r@.map_values(|p: PendingRequest| p@),
            ),
    {
        let selector = Selector::Principal(user);
        let r = self.queue.list(&selector);
        proof {
            let listed = r@.map_values(|p: PendingRequest| p@);
            let by_selector = |req: RequestView| selector.admits(req);
            let by_user = |req: RequestView| req.user() == user;
            assert(lists_pending(self@.pending, by_selector, listed));
            assert(lists_pending(self@.pending, by_user, listed));
        }
        r
    }

    /// `caller` puts `pub_key` on the deny-list. Only the administrator may.
    pub fn deny_pubkey(&mut self, caller: Address, pub_key: PublicKey) -> (r: Result<(), Error>)
        requires
            old(self).wf(),
        ensures
            final(self).wf(),
            match r {
                Ok(()) => old(self)@.deny_pubkey(caller, pub_key@) == Ok::<State, Error>(
                    final(self)@,
                ),
                Err(e) => {
                    &&& old(self)@.deny_pubkey(caller, pub_key@) == Err::<State, Error>(e)
                    &&& *final(self) == *old(self)
                },
            },
    {
        if caller != self.admin {
            return Err(Error::Forbidden);
        }
        self.deny.deny_key(pub_key);
        proof {
            assert(self.deny.denied_cids() =~= old(self).deny.denied_cids());
        }
        Ok(())
    }

    /// Whether `pub_key` is on the deny-list.
    pub fn pubkey_is_denied(&self, pub_key: &PublicKey) -> (r: bool)
        ensures
            r == self@.denied_keys.contains(pub_key@),
    {
        self.deny.has_key(pub_key)
    }

    /// `caller` puts `cid` on the deny-list. Only the administrator may.
    pub fn deny_cid(&mut self, caller: Address, cid: Cid) -> (r: Result<(), Error>)
        requires
            old(self).wf(),
        ensures
            final(self).wf(),
            match r {
                Ok(()) => old(self)@.deny_cid(caller, cid) == Ok::<State, Error>(final(self)@),
                Err(e) => {
                    &&& old(self)@.deny_cid(caller, cid) == Err::<State, Error>(e)
                    &&& *final(self) == *old(self)
                },
            },
    {
        if caller != self.admin {
            return Err(Error::Forbidden);
        }
        self.deny.deny_cid(cid);
        proof {
            assert(self.deny.denied_keys() =~= old(self).deny.denied_keys());
        }
        Ok(())
    }

    /// Whether `cid` is on the deny-list.
    pub fn cid_is_denied(&self, cid: &Cid) -> (r: bool)
        ensures
            r == self@.denied_cids.contains(*cid),
    {
        self.deny.has_cid(cid)
    }
}

} // verus!
