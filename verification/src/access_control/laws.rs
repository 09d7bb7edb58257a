//! What the operations of the engine mean for one another.

use crate::access_control::error::Error;
use crate::access_control::model::{claimed, granted, State};
use crate::access_control::permission::{
    full_permissions, kind_if_held, lemma_full_permissions, lemma_permission_seq_contains,
    permission_seq, Permission,
};
use crate::access_control::request::{RequestStatus, RequestView};
use crate::types::{Address, Cid};
use vstd::prelude::*;

verus! {

/// Whether a principal holds a kind is whether the kind is among the
/// principal's permissions. Where the permissions cannot be told, because
/// the principal is neither the owner nor has an entry in the ledger, both
/// queries fail with `NotFound`.
pub proof fn law_has_perm_is_membership(
    s: State,
    user: Address,
    cid: Cid,
    perm: Permission,
    owner: Address,
)
    ensures
        s.has_perm(user, cid, perm, owner) == match s.permissions(user, cid, owner) {
            Ok(held) => Ok::<bool, Error>(held.contains(perm)),
            Err(e) => Err::<bool, Error>(e),
        },
        s.permissions(user, cid, owner) is Err ==> {
            &&& s.permissions(user, cid, owner) == Err::<Set<Permission>, Error>(Error::NotFound)
            &&& s.has_perm(user, cid, perm, owner) == Err::<bool, Error>(Error::NotFound)
        },
{
    lemma_full_permissions();
}

/// The registered owner of a resource holds exactly the five permission
/// kinds on it, whatever the ledger says.
pub proof fn law_owner_holds_all(s: State, cid: Cid, owner: Address)
    ensures
        s.permissions(owner, cid, owner) == Ok::<Set<Permission>, Error>(full_permissions()),
        full_permissions().len() == 5,
        forall|p: Permission| full_permissions().contains(p),
        forall|p: Permission| #[trigger] s.has_perm(owner, cid, p, owner) == Ok::<bool, Error>(true),
{
    lemma_full_permissions();
}

/// The listing of a set of kinds holds no kind twice, and the kinds stand in
/// it by ascending rank.
pub proof fn law_kinds_listed_once(held: Set<Permission>)
    ensures
        permission_seq(held).no_duplicates(),
{
    let a = kind_if_held(held, Permission::Write);
    let b = kind_if_held(held, Permission::Remove);
    let c = kind_if_held(held, Permission::Approve);
    let d = kind_if_held(held, Permission::Reject);
    let e = kind_if_held(held, Permission::Revoke);
    let all = permission_seq(held);
    assert forall|i: int, j: int| 0 <= i < all.len() && 0 <= j < all.len() && i != j implies all[i]
        != all[j] by {
        // The kinds stand in the listing by ascending rank.
        assert forall|x: int, y: int| 0 <= x < y < all.len() implies all[x].rank() < all[y].rank() by {
            let la = a.len() as int;
            let lb = la + b.len();
            let lc = lb + c.len();
            let ld = lc + d.len();
            assert(all[x] == if x < la {
                a[x]
            } else if x < lb {
                b[x - la]
            } else if x < lc {
                c[x - lb]
            } else if x < ld {
                d[x - lc]
            } else {
                e[x - ld]
            });
            assert(all[y] == if y < la {
                a[y]
            } else if y < lb {
                b[y - la]
            } else if y < lc {
                c[y - lb]
            } else if y < ld {
                d[y - lc]
            } else {
                e[y - ld]
            });
        }
        if i < j {
            assert(all[i].rank() < all[j].rank());
        } else {
            assert(all[j].rank() < all[i].rank());
        }
    }
}

/// Once a pending request for a permission is approved, the requester holds
/// the kind asked for on the resource, and the request is `Approved`.
pub proof fn law_approval_grants(
    s: State,
    approver: Address,
    owner: Address,
    id: nat,
    shared: Option<(Cid, Seq<u8>)>,
    any_owner: Address,
)
    requires
        s.pending.contains_key(id),
        s.pending[id] is Permission,
        s.approve(approver, owner, id, shared) is Ok,
    ensures
        ({
            let after = s.approve(approver, owner, id, shared)->Ok_0;
            let requester = s.pending[id]->Permission_user;
            let cid = s.pending[id]->Permission_cid;
            let perm = s.pending[id]->Permission_perm;
            &&& after.has_perm(requester, cid, perm, any_owner) == Ok::<bool, Error>(true)
            &&& after.permissions(requester, cid, any_owner) matches Ok(held) && held.contains(perm)
            &&& after.status_of(id) == Ok::<RequestStatus, Error>(RequestStatus::Approved)
            &&& !after.pending.contains_key(id)
        }),
{
    lemma_full_permissions();
}

/// A request for a permission that is made and then approved leaves the
/// requester with the kind asked for, and the request `Approved`.
pub proof fn law_request_then_approve(
    s: State,
    requester: Address,
    cid: Cid,
    perm: Permission,
    approver: Address,
    owner: Address,
    any_owner: Address,
)
    requires
        s.wf(),
        s.submit(RequestView::Permission { user: requester, cid, perm }) is Ok,
        ({
            let (made, id) = s.submit(RequestView::Permission { user: requester, cid, perm })->Ok_0;
            made.approve(approver, owner, id, None) is Ok
        }),
    ensures
        ({
            let (made, id) = s.submit(RequestView::Permission { user: requester, cid, perm })->Ok_0;
            let after = made.approve(approver, owner, id, None)->Ok_0;
            &&& made.status_of(id) == Ok::<RequestStatus, Error>(RequestStatus::Pending)
            &&& after.has_perm(requester, cid, perm, any_owner) == Ok::<bool, Error>(true)
            &&& after.status_of(id) == Ok::<RequestStatus, Error>(RequestStatus::Approved)
        }),
{
    let (made, id) = s.submit(RequestView::Permission { user: requester, cid, perm })->Ok_0;
    law_approval_grants(made, approver, owner, id, None, any_owner);
}

/// Once a pending request is rejected, every principal holds on every
/// resource what it held before, and the request is `Rejected`.
pub proof fn law_rejection_grants_nothing(s: State, rejecter: Address, owner: Address, id: nat)
    requires
        s.reject(rejecter, owner, id) is Ok,
    ensures
        ({
            let after = s.reject(rejecter, owner, id)->Ok_0;
            &&& after.grants == s.grants
            &&& after.shares == s.shares
            &&& forall|user: Address, cid: Cid, any_owner: Address| #[trigger]
                after.permissions(user, cid, any_owner) == s.permissions(user, cid, any_owner)
            &&& after.status_of(id) == Ok::<RequestStatus, Error>(RequestStatus::Rejected)
            &&& !after.pending.contains_key(id)
        }),
{
}

/// A request for a permission that is made and then rejected leaves the
/// permissions of the requester as they were before the request, and the
/// request `Rejected`.
pub proof fn law_request_then_reject(
    s: State,
    requester: Address,
    cid: Cid,
    perm: Permission,
    rejecter: Address,
    owner: Address,
    any_owner: Address,
)
    requires
        s.submit(RequestView::Permission { user: requester, cid, perm }) is Ok,
        ({
            let (made, id) = s.submit(RequestView::Permission { user: requester, cid, perm })->Ok_0;
            made.reject(rejecter, owner, id) is Ok
        }),
    ensures
        ({
            let (made, id) = s.submit(RequestView::Permission { user: requester, cid, perm })->Ok_0;
            let after = made.reject(rejecter, owner, id)->Ok_0;
            &&& after.permissions(requester, cid, any_owner) == s.permissions(
                requester,
                cid,
                any_owner,
            )
            &&& after.status_of(id) == Ok::<RequestStatus, Error>(RequestStatus::Rejected)
        }),
{
}

/// Approving a request for a kind that the requester holds already changes
/// no grant: the kinds are a set, and a kind is in it once.
pub proof fn law_grant_is_idempotent(
    s: State,
    approver: Address,
    owner: Address,
    id: nat,
    shared: Option<(Cid, Seq<u8>)>,
)
    requires
        s.pending.contains_key(id),
        s.pending[id] matches RequestView::Permission { user, cid, perm } && (granted(
            s.grants,
            cid,
            user,
        ) matches Some(held) && held.contains(perm)),
        s.approve(approver, owner, id, shared) is Ok,
    ensures
        s.approve(approver, owner, id, shared)->Ok_0.grants == s.grants,
{
    let after = s.approve(approver, owner, id, shared)->Ok_0;
    let user = s.pending[id]->Permission_user;
    let cid = s.pending[id]->Permission_cid;
    let perm = s.pending[id]->Permission_perm;
    assert(s.grants[cid][user].insert(perm) =~= s.grants[cid][user]);
    assert(s.grants[cid].insert(user, s.grants[cid][user]) =~= s.grants[cid]);
    assert(after.grants =~= s.grants);
}

/// Two different pending requests ask for the same kind on the same
/// resource for the same principal, and both are approved: after the second
/// approval the principal holds the same set of kinds as after the first,
/// with the kind in it once.
pub proof fn law_second_grant_changes_nothing(
    s: State,
    user: Address,
    cid: Cid,
    perm: Permission,
    first: nat,
    second: nat,
    approver1: Address,
    owner1: Address,
    approver2: Address,
    owner2: Address,
)
    requires
        first != second,
        s.pending.contains_key(first),
        s.pending.contains_key(second),
        s.pending[first] == (RequestView::Permission { user, cid, perm }),
        s.pending[second] == (RequestView::Permission { user, cid, perm }),
        s.approve(approver1, owner1, first, None) is Ok,
        s.approve(approver1, owner1, first, None)->Ok_0.approve(approver2, owner2, second, None)
            is Ok,
    ensures
        ({
            let once = s.approve(approver1, owner1, first, None)->Ok_0;
            let twice = once.approve(approver2, owner2, second, None)->Ok_0;
            &&& granted(once.grants, cid, user) matches Some(held) && held.contains(perm)
            &&& granted(twice.grants, cid, user) == granted(once.grants, cid, user)
            &&& twice.grants == once.grants
            &&& permission_seq(granted(twice.grants, cid, user)->Some_0).contains(perm)
            &&& permission_seq(granted(twice.grants, cid, user)->Some_0).no_duplicates()
        }),
{
    let once = s.approve(approver1, owner1, first, None)->Ok_0;
    assert(once.pending.contains_key(second));
    assert(once.pending[second] == s.pending[second]);
    assert(once.grants[cid].contains_key(user));
    assert(once.grants[cid][user].contains(perm));
    law_grant_is_idempotent(once, approver2, owner2, second, None);
    let twice = once.approve(approver2, owner2, second, None)->Ok_0;
    law_kinds_listed_once(granted(twice.grants, cid, user)->Some_0);
    lemma_permission_seq_contains(granted(twice.grants, cid, user)->Some_0, perm);
}

/// Revoking the last kind that a principal holds on a resource removes the
/// entry of the principal: asking for the principal's permissions then fails
/// with `NotFound`, it does not give the empty set. Where the principal was
/// the last with an entry on the resource, the row of the resource goes too.
pub proof fn law_revoking_the_last_kind(
    s: State,
    caller: Address,
    owner: Address,
    cid: Cid,
    user: Address,
    perm: Permission,
    any_owner: Address,
)
    requires
        s.revoke(caller, owner, cid, user, perm) is Ok,
        granted(s.grants, cid, user) matches Some(held) && held == set![perm],
    ensures
        ({
            let after = s.revoke(caller, owner, cid, user, perm)->Ok_0;
            &&& granted(after.grants, cid, user) is None
            &&& user != any_owner ==> after.permissions(user, cid, any_owner) == Err::<
                Set<Permission>,
                Error,
            >(Error::NotFound)
            &&& (forall|other: Address| #[trigger]
                s.grants[cid].contains_key(other) ==> other == user)
                ==> !after.grants.contains_key(cid)
            &&& (exists|other: Address| #[trigger]
                s.grants[cid].contains_key(other) && other != user) ==> after.grants.contains_key(
                cid,
            )
        }),
{
    let after = s.revoke(caller, owner, cid, user, perm)->Ok_0;
    let held = s.grants[cid][user].remove(perm);
    assert(held =~= Set::<Permission>::empty());
    assert(held.is_empty());
    let row = s.grants[cid].remove(user);
    if forall|other: Address| #[trigger] s.grants[cid].contains_key(other) ==> other == user {
        assert(row.dom() =~= Set::<Address>::empty());
        assert(row.is_empty());
    }
    if exists|other: Address| #[trigger] s.grants[cid].contains_key(other) && other != user {
        let other = choose|other: Address| #[trigger]
            s.grants[cid].contains_key(other) && other != user;
        assert(row.dom().contains(other));
        assert(!row.is_empty());
    }
}

/// Revoking a kind leaves the other kinds of the principal, and the grants
/// of every other principal and resource, as they were.
pub proof fn law_revoking_takes_one_kind(
    s: State,
    caller: Address,
    owner: Address,
    cid: Cid,
    user: Address,
    perm: Permission,
)
    requires
        s.revoke(caller, owner, cid, user, perm) is Ok,
    ensures
        ({
            let after = s.revoke(caller, owner, cid, user, perm)->Ok_0;
            let held = granted(s.grants, cid, user)->Some_0;
            &&& granted(s.grants, cid, user) is Some
            &&& held.contains(perm)
            &&& match granted(after.grants, cid, user) {
                Some(left) => left == held.remove(perm),
                None => held.remove(perm) == Set::<Permission>::empty(),
            }
            &&& forall|c: Cid, a: Address|
                c != cid || a != user ==> #[trigger] granted(after.grants, c, a) == granted(
                    s.grants,
                    c,
                    a,
                )
        }),
{
    let after = s.revoke(caller, owner, cid, user, perm)->Ok_0;
    let held = s.grants[cid][user];
    let left = held.remove(perm);
    let row = if left.is_empty() {
        s.grants[cid].remove(user)
    } else {
        s.grants[cid].insert(user, left)
    };
    if left.is_empty() {
        assert(left =~= Set::<Permission>::empty());
        assert(!row.contains_key(user));
    } else {
        assert(row.dom().contains(user));
        assert(!row.is_empty());
        assert(after.grants[cid] == row);
    }
    assert forall|c: Cid, a: Address| c != cid || a != user implies #[trigger] granted(
        after.grants,
        c,
        a,
    ) == granted(s.grants, c, a) by {
        if c == cid {
            if row.is_empty() {
                if s.grants[cid].contains_key(a) {
                    assert(row.dom().contains(a));
                }
            } else {
                assert(after.grants[cid] == row);
                assert(row.contains_key(a) == s.grants[cid].contains_key(a));
            }
        }
    }
}

/// A resource is denied after a request about it was made: the request can
/// no longer be approved, by whomever and with whatever target, but whoever
/// holds `Reject` on the resource can still reject it.
pub proof fn law_late_denial(
    s: State,
    req: RequestView,
    admin: Address,
    approver: Address,
    approver_owner: Address,
    shared: Option<(Cid, Seq<u8>)>,
    rejecter: Address,
    rejecter_owner: Address,
)
    requires
        s.wf(),
        s.submit(req) is Ok,
        s.submit(req)->Ok_0.0.deny_cid(admin, req.cid()) is Ok,
    ensures
        ({
            let (made, id) = s.submit(req)->Ok_0;
            let denied = made.deny_cid(admin, req.cid())->Ok_0;
            &&& denied.approve(approver, approver_owner, id, shared) == Err::<State, Error>(
                Error::DeniedResource,
            )
            &&& denied.has_perm(rejecter, req.cid(), Permission::Reject, rejecter_owner) == Ok::<
                bool,
                Error,
            >(true) ==> {
                &&& denied.reject(rejecter, rejecter_owner, id) is Ok
                &&& denied.reject(rejecter, rejecter_owner, id)->Ok_0.status_of(id) == Ok::<
                    RequestStatus,
                    Error,
                >(RequestStatus::Rejected)
            }
        }),
{
}

/// What is on the deny-lists bears neither on a rejection nor on a
/// revocation: with other deny-lists each fails in the same way or succeeds
/// with the same queue, registry and ledgers.
pub proof fn law_deny_lists_gate_neither_reject_nor_revoke(
    s: State,
    denied_keys: Set<Seq<u8>>,
    denied_cids: Set<Cid>,
    caller: Address,
    owner: Address,
    id: nat,
    cid: Cid,
    user: Address,
    perm: Permission,
)
    ensures
        ({
            let other = State { denied_keys, denied_cids, ..s };
            &&& match s.reject(caller, owner, id) {
                Ok(after) => other.reject(caller, owner, id) == Ok::<State, Error>(
                    State { denied_keys, denied_cids, ..after },
                ),
                Err(e) => other.reject(caller, owner, id) == Err::<State, Error>(e),
            }
            &&& match s.revoke(caller, owner, cid, user, perm) {
                Ok(after) => other.revoke(caller, owner, cid, user, perm) == Ok::<State, Error>(
                    State { denied_keys, denied_cids, ..after },
                ),
                Err(e) => other.revoke(caller, owner, cid, user, perm) == Err::<State, Error>(e),
            }
        }),
{
}

/// Once a share request is approved with some target, no request can be
/// approved with that target again, under whatever source: a second
/// approval that gets as far as the target fails with `AlreadyApproved`.
pub proof fn law_target_is_shared_once(
    s: State,
    approver1: Address,
    owner1: Address,
    first: nat,
    target: Cid,
    key1: Seq<u8>,
    approver2: Address,
    owner2: Address,
    second: nat,
    key2: Seq<u8>,
)
    requires
        s.wf(),
        s.pending.contains_key(first),
        s.pending[first] is Share,
        s.approve(approver1, owner1, first, Some((target, key1))) is Ok,
    ensures
        ({
            let once = s.approve(approver1, owner1, first, Some((target, key1)))->Ok_0;
            let again = once.approve(approver2, owner2, second, Some((target, key2)));
            &&& claimed(once.shares, target)
            &&& once.has_approved_share(target, s.pending[first].cid()) == Ok::<bool, Error>(true)
            &&& again is Err
            &&& (once.pending.contains_key(second) && once.pending[second] is Share && once.denial(
                once.pending[second],
            ) is None && once.authorize(
                approver2,
                once.pending[second].cid(),
                Permission::Approve,
                owner2,
            ) is None) ==> again == Err::<State, Error>(Error::AlreadyApproved)
        }),
{
    let once = s.approve(approver1, owner1, first, Some((target, key1)))->Ok_0;
    let source = s.pending[first].cid();
    assert(once.shares.contains_key(source) && once.shares[source].contains(target));
}

/// However the engine goes on after a target became a share, no request is
/// approved with that target again.
pub proof fn law_target_is_never_shared_again(
    s: State,
    target: Cid,
    approver: Address,
    owner: Address,
    id: nat,
    key: Seq<u8>,
)
    requires
        claimed(s.shares, target),
    ensures
        s.approve(approver, owner, id, Some((target, key))) is Err,
{
}

} // verus!
