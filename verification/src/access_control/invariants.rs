//! Every operation of the engine keeps the state well-formed.

use crate::access_control::model::{claimed, granted, with_grant, with_share, without_grant, State};
use crate::access_control::permission::Permission;
use crate::access_control::request::{RequestStatus, RequestView};
use crate::types::{Address, Cid};
use vstd::prelude::*;

verus! {

/// A freshly set up engine is well-formed.
pub proof fn lemma_init_wf(admin: Address)
    ensures
        State::init(admin).wf(),
{
}

/// Adding a kind keeps the grants compact.
pub proof fn lemma_with_grant_compact(s: State, cid: Cid, user: Address, perm: Permission)
    requires
        s.grants_compact(),
    ensures
        (State { grants: with_grant(s.grants, cid, user, perm), ..s }).grants_compact(),
        granted(with_grant(s.grants, cid, user, perm), cid, user) is Some,
        granted(with_grant(s.grants, cid, user, perm), cid, user)->Some_0.contains(perm),
{
    let g = with_grant(s.grants, cid, user, perm);
    let t = State { grants: g, ..s };
    assert(g[cid].contains_key(user));
    assert(g[cid][user].contains(perm));
    assert forall|c: Cid| #[trigger] t.grants.contains_key(c) implies exists|a: Address| #[trigger]
        t.grants[c].contains_key(a) by {
        if c == cid {
            assert(t.grants[c].contains_key(user));
        } else {
            assert(s.grants.contains_key(c));
            let a = choose|a: Address| #[trigger] s.grants[c].contains_key(a);
            assert(t.grants[c].contains_key(a));
        }
    }
    assert forall|c: Cid, a: Address|
        t.grants.contains_key(c) && #[trigger] t.grants[c].contains_key(a) implies exists|
        p: Permission,
    | #[trigger] t.grants[c][a].contains(p) by {
        if c == cid && a == user {
            assert(t.grants[c][a].contains(perm));
        } else if c == cid {
            assert(s.grants.contains_key(c) && s.grants[c].contains_key(a));
            let p = choose|p: Permission| #[trigger] s.grants[c][a].contains(p);
            assert(t.grants[c][a].contains(p));
        } else {
            assert(s.grants.contains_key(c) && s.grants[c].contains_key(a));
            let p = choose|p: Permission| #[trigger] s.grants[c][a].contains(p);
            assert(t.grants[c][a].contains(p));
        }
    }
}

/// Taking a kind away keeps the grants compact.
pub proof fn lemma_without_grant_compact(s: State, cid: Cid, user: Address, perm: Permission)
    requires
        s.grants_compact(),
        granted(s.grants, cid, user) is Some,
    ensures
        (State { grants: without_grant(s.grants, cid, user, perm), ..s }).grants_compact(),
{
    let g = without_grant(s.grants, cid, user, perm);
    let t = State { grants: g, ..s };
    let held = s.grants[cid][user].remove(perm);
    let row = if held.is_empty() {
        s.grants[cid].remove(user)
    } else {
        s.grants[cid].insert(user, held)
    };
    assert forall|c: Cid| #[trigger] t.grants.contains_key(c) implies exists|a: Address| #[trigger]
        t.grants[c].contains_key(a) by {
        if c == cid {
            assert(!row.is_empty());
            assert(t.grants[c] == row);
            assert(!(row.dom() =~= Set::<Address>::empty()));
            let a = choose|a: Address| row.dom().contains(a);
            assert(t.grants[c].contains_key(a));
        } else {
            assert(s.grants.contains_key(c));
            let a = choose|a: Address| #[trigger] s.grants[c].contains_key(a);
            assert(t.grants[c].contains_key(a));
        }
    }
    assert forall|c: Cid, a: Address|
        t.grants.contains_key(c) && #[trigger] t.grants[c].contains_key(a) implies exists|
        p: Permission,
    | #[trigger] t.grants[c][a].contains(p) by {
        if c == cid && a == user {
            assert(!held.is_empty());
            assert(t.grants[c][a] == held);
            assert(!(held =~= Set::<Permission>::empty()));
            let p = choose|p: Permission| held.contains(p);
            assert(t.grants[c][a].contains(p));
        } else {
            assert(s.grants.contains_key(c) && s.grants[c].contains_key(a));
            let p = choose|p: Permission| #[trigger] s.grants[c][a].contains(p);
            assert(t.grants[c][a].contains(p));
        }
    }
}

/// Committing a target that no source holds keeps the targets unique.
pub proof fn lemma_with_share_unique(s: State, source: Cid, target: Cid)
    requires
        s.targets_unique(),
        !claimed(s.shares, target),
    ensures
        (State { shares: with_share(s.shares, source, target), ..s }).targets_unique(),
        claimed(with_share(s.shares, source, target), target),
{
    let sh = with_share(s.shares, source, target);
    let t = State { shares: sh, ..s };
    assert(sh.contains_key(source) && sh[source].contains(target));
    assert forall|c1: Cid, c2: Cid, x: Cid|
        t.shares.contains_key(c1) && t.shares.contains_key(c2) && #[trigger] t.shares[c1].contains(
            x,
        ) && #[trigger] t.shares[c2].contains(x) implies c1 == c2 by {
        if x == target {
            if c1 != source {
                assert(s.shares.contains_key(c1) && s.shares[c1].contains(target));
            }
            if c2 != source {
                assert(s.shares.contains_key(c2) && s.shares[c2].contains(target));
            }
        } else {
            assert(s.shares.contains_key(c1) && s.shares[c1].contains(x));
            assert(s.shares.contains_key(c2) && s.shares[c2].contains(x));
        }
    }
}

/// A request that leaves the queue with a final status keeps the numbering
/// and the queue in step.
pub proof fn lemma_resolved_wf(s: State, id: nat, outcome: RequestStatus)
    requires
        s.wf(),
        s.pending.contains_key(id),
        outcome != RequestStatus::Pending,
    ensures
        s.resolved(id, outcome).wf(),
{
    let t = s.resolved(id, outcome);
    assert(s.status.contains_key(id));
    assert forall|i: nat| #[trigger] t.status.contains_key(i) <==> 1 <= i <= t.counter by {
        assert(s.status.contains_key(i) <==> 1 <= i <= s.counter);
    }
    assert forall|i: nat| #[trigger]
        t.pending.contains_key(i) <==> (t.status.contains_key(i) && t.status[i]
            == RequestStatus::Pending) by {
        assert(s.pending.contains_key(i) <==> (s.status.contains_key(i) && s.status[i]
            == RequestStatus::Pending));
    }
}

/// Making a request keeps the state well-formed, and the request gets the
/// next number.
pub proof fn lemma_submit_wf(s: State, req: RequestView)
    requires
        s.wf(),
        s.submit(req) is Ok,
    ensures
        s.submit(req)->Ok_0.0.wf(),
        s.submit(req)->Ok_0.1 == s.counter + 1,
        s.submit(req)->Ok_0.0.counter == s.counter + 1,
{
    let (t, id) = s.submit(req)->Ok_0;
    assert forall|i: nat| #[trigger] t.status.contains_key(i) <==> 1 <= i <= t.counter by {
        assert(s.status.contains_key(i) <==> 1 <= i <= s.counter);
    }
    assert(!s.status.contains_key(id));
    assert forall|i: nat| #[trigger]
        t.pending.contains_key(i) <==> (t.status.contains_key(i) && t.status[i]
            == RequestStatus::Pending) by {
        assert(s.pending.contains_key(i) <==> (s.status.contains_key(i) && s.status[i]
            == RequestStatus::Pending));
    }
}

/// Approving a request keeps the state well-formed.
pub proof fn lemma_approve_wf(
    s: State,
    caller: Address,
    owner: Address,
    id: nat,
    shared: Option<(Cid, Seq<u8>)>,
)
    requires
        s.wf(),
        s.approve(caller, owner, id, shared) is Ok,
    ensures
        s.approve(caller, owner, id, shared)->Ok_0.wf(),
{
    let t = s.approve(caller, owner, id, shared)->Ok_0;
    let r = s.resolved(id, RequestStatus::Approved);
    lemma_resolved_wf(s, id, RequestStatus::Approved);
    match s.pending[id] {
        RequestView::Permission { user, cid, perm } => {
            lemma_with_grant_compact(r, cid, user, perm);
        },
        RequestView::Share { user, cid, pub_key } => {
            let target = shared->Some_0.0;
            lemma_with_share_unique(r, cid, target);
        },
    }
}

/// Rejecting a request keeps the state well-formed.
pub proof fn lemma_reject_wf(s: State, caller: Address, owner: Address, id: nat)
    requires
        s.wf(),
        s.reject(caller, owner, id) is Ok,
    ensures
        s.reject(caller, owner, id)->Ok_0.wf(),
{
    lemma_resolved_wf(s, id, RequestStatus::Rejected);
}

/// Revoking a permission keeps the state well-formed.
pub proof fn lemma_revoke_wf(
    s: State,
    caller: Address,
    owner: Address,
    cid: Cid,
    user: Address,
    perm: Permission,
)
    requires
        s.wf(),
        s.revoke(caller, owner, cid, user, perm) is Ok,
    ensures
        s.revoke(caller, owner, cid, user, perm)->Ok_0.wf(),
{
    lemma_without_grant_compact(s, cid, user, perm);
}

/// Extending a deny-list keeps the state well-formed.
pub proof fn lemma_deny_wf(s: State, caller: Address, key: Seq<u8>, cid: Cid)
    requires
        s.wf(),
    ensures
        s.deny_pubkey(caller, key) is Ok ==> s.deny_pubkey(caller, key)->Ok_0.wf(),
        s.deny_cid(caller, cid) is Ok ==> s.deny_cid(caller, cid)->Ok_0.wf(),
{
}

} // verus!
