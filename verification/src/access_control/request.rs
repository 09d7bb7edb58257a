//! Requests for a permission or for a share, and where they stand.

use crate::access_control::permission::Permission;
use crate::types::{Address, Cid, PublicKey};
use vstd::prelude::*;

verus! {

/// Number of a request. Requests are numbered 1, 2, 3, ... in the order in
/// which they are made; a number is never given twice.
#[derive(Clone, Copy, Debug, PartialEq, Eq, Structural, PartialOrd, Ord, Hash)]
pub struct ReqIdx(pub u64);

/// Where a request stands. `Rejected` and `Approved` are final.
#[derive(Clone, Copy, Debug, PartialEq, Eq, Structural, Hash)]
pub enum RequestStatus {
    Pending,
    Rejected,
    Approved,
}

/// `user` asks that a resource be approved as a share of `cid`, and declares
/// the public key of that resource.
#[derive(Clone, Debug, PartialEq, Eq)]
pub struct ShareRequest {
    pub user: Address,
    pub pub_key: PublicKey,
    pub cid: Cid,
}

/// `user` asks for the permission `perm` on `cid`.
#[derive(Clone, Copy, Debug, PartialEq, Eq)]
pub struct PermissionRequest {
    pub user: Address,
    pub cid: Cid,
    pub perm: Permission,
}

/// A request, of either kind.
#[derive(Clone, Debug, PartialEq, Eq)]
pub enum Request {
    Permission(PermissionRequest),
    Share(ShareRequest),
}

/// A request as a mathematical value: the declared key is a sequence of
/// bytes.
pub enum RequestView {
    Permission { user: Address, cid: Cid, perm: Permission },
    Share { user: Address, cid: Cid, pub_key: Seq<u8> },
}

impl RequestView {
    /// The resource that the request is about.
    pub open spec fn cid(self) -> Cid {
        match self {
            RequestView::Permission { cid, .. } => cid,
            RequestView::Share { cid, .. } => cid,
        }
    }

    /// The principal who made the request.
    pub open spec fn user(self) -> Address {
        match self {
            RequestView::Permission { user, .. } => user,
            RequestView::Share { user, .. } => user,
        }
    }
}

impl View for Request {
    type V = RequestView;

    open spec fn view(&self) -> RequestView {
        match *self {
            Request::Permission(r) => RequestView::Permission {
                user: r.user,
                cid: r.cid,
                perm: r.perm,
            },
            Request::Share(r) => RequestView::Share { user: r.user, cid: r.cid, pub_key: r.pub_key@ },
        }
    }
}

impl Request {
    /// The resource that the request is about.
    pub fn cid(&self) -> (r: &Cid)
        ensures
            *r == self@.cid(),
    {
        match self {
            Request::Permission(r) => &r.cid,
            Request::Share(r) => &r.cid,
        }
    }

    /// The principal who made the request.
    pub fn user(&self) -> (r: &Address)
        ensures
            *r == self@.user(),
    {
        match self {
            Request::Permission(r) => &r.user,
            Request::Share(r) => &r.user,
        }
    }

    /// A copy of the request.
    pub fn duplicate(&self) -> (r: Request)
        ensures
            r@ == self@,
    {
        match self {
            Request::Permission(p) => Request::Permission(
                PermissionRequest { user: p.user, cid: p.cid, perm: p.perm },
            ),
            Request::Share(s) => Request::Share(
                ShareRequest { user: s.user, pub_key: s.pub_key.duplicate(), cid: s.cid },
            ),
        }
    }
}

/// A request that is waiting to be approved or rejected, with its number.
#[derive(Clone, Debug, PartialEq, Eq)]
pub struct PendingRequest {
    pub req_idx: ReqIdx,
    pub req: Request,
}

/// A pending request as a mathematical value.
pub struct PendingRequestView {
    pub req_idx: nat,
    pub req: RequestView,
}

impl View for PendingRequest {
    type V = PendingRequestView;

    open spec fn view(&self) -> PendingRequestView {
        PendingRequestView { req_idx: self.req_idx.0 as nat, req: self.req@ }
    }
}

} // verus!
