//! Histories of the engine: what holds after any sequence of operations,
//! whether each of them succeeded or failed.

use crate::access_control::invariants::{
    lemma_approve_wf, lemma_deny_wf, lemma_init_wf, lemma_reject_wf, lemma_revoke_wf,
    lemma_submit_wf,
};
use crate::access_control::model::{claimed, State};
use crate::access_control::permission::Permission;
use crate::access_control::request::{RequestStatus, RequestView};
use crate::types::{Address, Cid};
use vstd::prelude::*;

verus! {

/// One call into the engine, with all that it is given.
pub enum Op {
    /// A request is made.
    Request { req: RequestView },
    /// `caller` approves request `id`.
    Approve { caller: Address, owner: Address, id: nat, shared: Option<(Cid, Seq<u8>)> },
    /// `caller` rejects request `id`.
    Reject { caller: Address, owner: Address, id: nat },
    /// `caller` takes `perm` on `cid` from `user`.
    Revoke { caller: Address, owner: Address, cid: Cid, user: Address, perm: Permission },
    /// `caller` denies the public key `key`.
    DenyKey { caller: Address, key: Seq<u8> },
    /// `caller` denies the resource `cid`.
    DenyCid { caller: Address, cid: Cid },
}

impl State {
    /// The state after the call `op`. A call that fails changes nothing.
    pub open spec fn step(self, op: Op) -> State {
        match op {
            Op::Request { req } => match self.submit(req) {
                Ok((next, _)) => next,
                Err(_) => self,
            },
            Op::Approve { caller, owner, id, shared } => match self.approve(
                caller,
                owner,
                id,
                shared,
            ) {
                Ok(next) => next,
                Err(_) => self,
            },
            Op::Reject { caller, owner, id } => match self.reject(caller, owner, id) {
                Ok(next) => next,
                Err(_) => self,
            },
            Op::Revoke { caller, owner, cid, user, perm } => match self.revoke(
                caller,
                owner,
                cid,
                user,
                perm,
            ) {
                Ok(next) => next,
                Err(_) => self,
            },
            Op::DenyKey { caller, key } => match self.deny_pubkey(caller, key) {
                Ok(next) => next,
                Err(_) => self,
            },
            Op::DenyCid { caller, cid } => match self.deny_cid(caller, cid) {
                Ok(next) => next,
                Err(_) => self,
            },
        }
    }

    /// The number that the call `op` hands out: that of the request that it
    /// makes, if it makes one and succeeds.
    pub open spec fn issued(self, op: Op) -> Option<nat> {
        match op {
            Op::Request { req } => match self.submit(req) {
                Ok((_, id)) => Some(id),
                Err(_) => None,
            },
            _ => None,
        }
    }

    /// The state after the calls `ops`, one after the other.
    pub open spec fn run(self, ops: Seq<Op>) -> State
        decreases ops.len(),
    {
        if ops.len() == 0 {
            self
        } else {
            self.run(ops.drop_last()).step(ops.last())
        }
    }

    /// The numbers that the calls `ops` hand out, in the order of the calls.
    pub open spec fn issued_by(self, ops: Seq<Op>) -> Seq<nat>
        decreases ops.len(),
    {
        if ops.len() == 0 {
            Seq::empty()
        } else {
            let before = self.issued_by(ops.drop_last());
            match self.run(ops.drop_last()).issued(ops.last()) {
                Some(id) => before.push(id),
                None => before,
            }
        }
    }
}

/// A call keeps the state well-formed, whether it succeeds or fails.
pub proof fn lemma_step_wf(s: State, op: Op)
    requires
        s.wf(),
    ensures
        s.step(op).wf(),
{
    match op {
        Op::Request { req } => {
            if s.submit(req) is Ok {
                lemma_submit_wf(s, req);
            }
        },
        Op::Approve { caller, owner, id, shared } => {
            if s.approve(caller, owner, id, shared) is Ok {
                lemma_approve_wf(s, caller, owner, id, shared);
            }
        },
        Op::Reject { caller, owner, id } => {
            if s.reject(caller, owner, id) is Ok {
                lemma_reject_wf(s, caller, owner, id);
            }
        },
        Op::Revoke { caller, owner, cid, user, perm } => {
            if s.revoke(caller, owner, cid, user, perm) is Ok {
                lemma_revoke_wf(s, caller, owner, cid, user, perm);
            }
        },
        Op::DenyKey { caller, key } => {
            lemma_deny_wf(s, caller, key, arbitrary());
        },
        Op::DenyCid { caller, cid } => {
            lemma_deny_wf(s, caller, arbitrary(), cid);
        },
    }
}

/// Every state that the engine reaches from a well-formed state is
/// well-formed: a request is in the queue exactly while it is pending, no
/// empty entry or row is left in the permission ledger, and no target is a
/// share twice.
pub proof fn law_reachable_states_wf(s: State, ops: Seq<Op>)
    requires
        s.wf(),
    ensures
        s.run(ops).wf(),
    decreases ops.len(),
{
    if ops.len() > 0 {
        law_reachable_states_wf(s, ops.drop_last());
        lemma_step_wf(s.run(ops.drop_last()), ops.last());
    }
}

/// Every state that the engine reaches after it was set up is well-formed.
pub proof fn law_states_after_init_wf(admin: Address, ops: Seq<Op>)
    ensures
        State::init(admin).run(ops).wf(),
{
    lemma_init_wf(admin);
    law_reachable_states_wf(State::init(admin), ops);
}

/// The requests made by any sequence of calls are numbered without a gap in
/// the order in which they are made: the first gets the number after the
/// count so far, each next one the number after the one before. Calls that
/// fail, approvals, rejections and revocations in between neither use a
/// number up nor free one.
pub proof fn law_numbers_are_consecutive(s: State, ops: Seq<Op>)
    ensures
        s.run(ops).counter == s.counter + s.issued_by(ops).len(),
        forall|i: int|
            0 <= i < s.issued_by(ops).len() ==> #[trigger] s.issued_by(ops)[i] == s.counter + i + 1,
    decreases ops.len(),
{
    if ops.len() > 0 {
        law_numbers_are_consecutive(s, ops.drop_last());
    }
}

/// After the engine was set up, the `n` requests that any sequence of calls
/// makes get the numbers 1 to `n`, in this order.
pub proof fn law_numbers_from_one(admin: Address, ops: Seq<Op>)
    ensures
        State::init(admin).issued_by(ops) == Seq::new(
            State::init(admin).issued_by(ops).len(),
            |i: int| (i + 1) as nat,
        ),
{
    law_numbers_are_consecutive(State::init(admin), ops);
    assert(State::init(admin).issued_by(ops) =~= Seq::new(
        State::init(admin).issued_by(ops).len(),
        |i: int| (i + 1) as nat,
    ));
}

/// A request that was approved or rejected stays so, whatever is called
/// later.
pub proof fn law_final_status_stays(s: State, ops: Seq<Op>, id: nat)
    requires
        s.wf(),
        s.status.contains_key(id),
        s.status[id] != RequestStatus::Pending,
    ensures
        s.run(ops).status_of(id) == s.status_of(id),
    decreases ops.len(),
{
    if ops.len() > 0 {
        law_final_status_stays(s, ops.drop_last(), id);
        law_reachable_states_wf(s, ops.drop_last());
        let before = s.run(ops.drop_last());
        assert(!before.pending.contains_key(id));
        assert(before.status.contains_key(id));
    }
}

/// What is on a deny-list stays there, whatever is called later.
pub proof fn law_deny_lists_only_grow(s: State, ops: Seq<Op>)
    ensures
        s.denied_keys.subset_of(s.run(ops).denied_keys),
        s.denied_cids.subset_of(s.run(ops).denied_cids),
    decreases ops.len(),
{
    if ops.len() > 0 {
        law_deny_lists_only_grow(s, ops.drop_last());
    }
}

/// A target that is a share of some source stays one, whatever is called
/// later.
pub proof fn law_shares_stay(s: State, ops: Seq<Op>, target: Cid)
    requires
        claimed(s.shares, target),
    ensures
        claimed(s.run(ops).shares, target),
    decreases ops.len(),
{
    if ops.len() > 0 {
        law_shares_stay(s, ops.drop_last(), target);
        let before = s.run(ops.drop_last());
        let after = before.step(ops.last());
        let source = choose|source: Cid|
            before.shares.contains_key(source) && #[trigger] before.shares[source].contains(target);
        assert(after.shares.contains_key(source) && after.shares[source].contains(target));
    }
}

/// Whatever is called after a target became a share, no request is approved
/// with that target again.
pub proof fn law_no_second_share_ever(
    s: State,
    ops: Seq<Op>,
    target: Cid,
    approver: Address,
    owner: Address,
    id: nat,
    key: Seq<u8>,
)
    requires
        claimed(s.shares, target),
    ensures
        s.run(ops).approve(approver, owner, id, Some((target, key))) is Err,
{
    law_shares_stay(s, ops, target);
}

} // verus!
