//! The permission ledger: for each resource and principal, the set of
//! permission kinds that were granted and not revoked since.

use crate::access_control::error::Error;
use crate::access_control::model::{granted, with_grant, without_grant, Grants};
use crate::access_control::permission::{Permission, PermissionSet};
use crate::assoc::{
    assoc_map, keys_distinct, lemma_assoc_absent, lemma_assoc_at, lemma_assoc_push,
    lemma_assoc_remove, lemma_assoc_update,
};
use crate::types::{Address, Cid};
use vstd::prelude::*;

verus! {

/// The kinds that one principal holds on a resource.
#[derive(Clone, Copy, Debug, PartialEq, Eq)]
pub struct UserGrant {
    pub user: Address,
    pub perms: PermissionSet,
}

/// The grants on one resource, one entry for each principal that holds any.
#[derive(Clone, Debug, PartialEq, Eq)]
pub struct ResourceGrants {
    pub cid: Cid,
    pub users: Vec<UserGrant>,
}

impl ResourceGrants {
    /// The entries as pairs of a principal and a set of kinds.
    pub open spec fn entries(self) -> Seq<(Address, Set<Permission>)> {
        Seq::new(self.users.len() as nat, |i: int| (self.users[i].user, self.users[i].perms@))
    }

    /// There is an entry, no principal has two, and no entry is empty.
    pub open spec fn wf(self) -> bool {
        &&& self.users.len() > 0
        &&& keys_distinct(self.entries())
        &&& forall|i: int| 0 <= i < self.users.len() ==> !(#[trigger] self.users[i]).perms@.is_empty()
    }

    /// Decides whether the row is well-formed.
    pub fn is_wf(&self) -> (r: bool)
        ensures
            r == self.wf(),
    {
        if self.users.len() == 0 {
            return false;
        }
        let mut i: usize = 0;
        while i < self.users.len()
            invariant
                i <= self.users.len(),
                forall|a: int, b: int|
                    0 <= a < b < i ==> (#[trigger] self.users[a]).user != (
                    #[trigger] self.users[b]).user,
                forall|a: int| 0 <= a < i ==> !(#[trigger] self.users[a]).perms@.is_empty(),
            decreases self.users.len() - i,
        {
            if self.users[i].perms.is_empty() {
                return false;
            }
            let mut j: usize = 0;
            while j < i
                invariant
                    j <= i,
                    i < self.users.len(),
                    forall|a: int| 0 <= a < j ==> (#[trigger] self.users[a]).user != self.users[i as int].user,
                decreases i - j,
            {
                if self.users[j].user == self.users[i].user {
                    proof {
                        assert(self.entries()[j as int].0 == self.entries()[i as int].0);
                    }
                    return false;
                }
                j += 1;
            }
            i += 1;
        }
        proof {
            assert forall|a: int, b: int| 0 <= a < b < self.entries().len() implies (
            #[trigger] self.entries()[a]).0 != (#[trigger] self.entries()[b]).0 by {
                assert(self.users[a].user != self.users[b].user);
            }
        }
        true
    }

    /// The index of the entry of `user`, if there is one.
    pub fn find_user(&self, user: &Address) -> (r: Option<usize>)
        ensures
            match r {
                Some(i) => i < self.users.len() && self.users[i as int].user == *user,
                None => forall|i: int| 0 <= i < self.users.len() ==> self.users[i].user != *user,
            },
    {
        let mut i: usize = 0;
        while i < self.users.len()
            invariant
                i <= self.users.len(),
                forall|j: int| 0 <= j < i ==> self.users[j].user != *user,
            decreases self.users.len() - i,
        {
            if self.users[i].user == *user {
                return Some(i);
            }
            i += 1;
        }
        None
    }
}

impl View for ResourceGrants {
    type V = Map<Address, Set<Permission>>;

    open spec fn view(&self) -> Map<Address, Set<Permission>> {
        assoc_map(self.entries())
    }
}

/// The permission ledger, one row for each resource on which anyone holds a
/// granted permission.
#[derive(Clone, Debug, PartialEq, Eq)]
pub struct PermissionLedger {
    pub rows: Vec<ResourceGrants>,
}

impl View for PermissionLedger {
    type V = Grants;

    open spec fn view(&self) -> Grants {
        assoc_map(self.entries())
    }
}

impl PermissionLedger {
    /// The rows as pairs of a resource and its grants.
    pub open spec fn entries(self) -> Seq<(Cid, Map<Address, Set<Permission>>)> {
        Seq::new(self.rows.len() as nat, |i: int| (self.rows[i].cid, self.rows[i]@))
    }

    /// No resource has two rows, and every row is well-formed.
    pub open spec fn wf(self) -> bool {
        &&& keys_distinct(self.entries())
        &&& forall|i: int| 0 <= i < self.rows.len() ==> (#[trigger] self.rows[i]).wf()
    }

    /// In a well-formed ledger no resource is left without a principal and
    /// no principal without a kind.
    pub proof fn lemma_compact(self)
        requires
            self.wf(),
        ensures
            forall|c: Cid| #[trigger]
                self@.contains_key(c) ==> exists|a: Address| #[trigger] self@[c].contains_key(a),
            forall|c: Cid, a: Address|
                self@.contains_key(c) && #[trigger] self@[c].contains_key(a) ==> exists|
                    p: Permission,
                | #[trigger] self@[c][a].contains(p),
    {
        assert forall|c: Cid| #[trigger] self@.contains_key(c) implies exists|a: Address| #[trigger]
            self@[c].contains_key(a) by {
            let i = crate::assoc::position(self.entries(), c);
            lemma_assoc_at(self.entries(), i);
            let row = self.rows[i];
            assert(row.wf());
            lemma_assoc_at(row.entries(), 0);
            assert(self@[c].contains_key(row.users[0].user));
        }
        assert forall|c: Cid, a: Address|
            self@.contains_key(c) && #[trigger] self@[c].contains_key(a) implies exists|
            p: Permission,
        | #[trigger] self@[c][a].contains(p) by {
            let i = crate::assoc::position(self.entries(), c);
            lemma_assoc_at(self.entries(), i);
            let row = self.rows[i];
            assert(row.wf());
            let j = crate::assoc::position(row.entries(), a);
            lemma_assoc_at(row.entries(), j);
            let held = row.users[j].perms@;
            assert(!held.is_empty());
            assert(!(held =~= Set::<Permission>::empty()));
            let p = choose|p: Permission| held.contains(p);
            assert(self@[c][a].contains(p));
        }
    }

    /// Decides whether the ledger is well-formed.
    pub fn is_wf(&self) -> (r: bool)
        ensures
            r == self.wf(),
    {
        let mut i: usize = 0;
        while i < self.rows.len()
            invariant
                i <= self.rows.len(),
                forall|a: int, b: int|
                    0 <= a < b < i ==> (#[trigger] self.rows[a]).cid != (#[trigger] self.rows[b]).cid,
                forall|a: int| 0 <= a < i ==> (#[trigger] self.rows[a]).wf(),
            decreases self.rows.len() - i,
        {
            if !self.rows[i].is_wf() {
                return false;
            }
            let mut j: usize = 0;
            while j < i
                invariant
                    j <= i,
                    i < self.rows.len(),
                    forall|a: int| 0 <= a < j ==> (#[trigger] self.rows[a]).cid != self.rows[i as int].cid,
                decreases i - j,
            {
                if self.rows[j].cid == self.rows[i].cid {
                    proof {
                        assert(self.entries()[j as int].0 == self.entries()[i as int].0);
                    }
                    return false;
                }
                j += 1;
            }
            i += 1;
        }
        proof {
            assert forall|a: int, b: int| 0 <= a < b < self.entries().len() implies (
            #[trigger] self.entries()[a]).0 != (#[trigger] self.entries()[b]).0 by {
                assert(self.rows[a].cid != self.rows[b].cid);
            }
        }
        true
    }

    /// A ledger without rows.
    pub fn new() -> (r: PermissionLedger)
        ensures
            r.wf(),
            r@ == Map::<Cid, Map<Address, Set<Permission>>>::empty(),
    {
        let r = PermissionLedger { rows: Vec::new() };
        proof {
            assert(r@ =~= Map::<Cid, Map<Address, Set<Permission>>>::empty());
        }
        r
    }

    /// The index of the row of `cid`, if there is one.
    pub fn find_row(&self, cid: &Cid) -> (r: Option<usize>)
        ensures
            match r {
                Some(i) => i < self.rows.len() && self.rows[i as int].cid == *cid,
                None => forall|i: int| 0 <= i < self.rows.len() ==> self.rows[i].cid != *cid,
            },
    {
        let mut i: usize = 0;
        while i < self.rows.len()
            invariant
                i <= self.rows.len(),
                forall|j: int| 0 <= j < i ==> self.rows[j].cid != *cid,
            decreases self.rows.len() - i,
        {
            if self.rows[i].cid == *cid {
                return Some(i);
            }
            i += 1;
        }
        None
    }

    /// The kinds that `user` holds on `cid`, if the ledger has an entry for
    /// them.
    pub fn lookup(&self, cid: &Cid, user: &Address) -> (r: Option<PermissionSet>)
        requires
            self.wf(),
        ensures
            match r {
                Some(held) => granted(self@, *cid, *user) == Some(held@),
                None => granted(self@, *cid, *user) is None,
            },
    {
        match self.find_row(cid) {
            None => {
                proof {
                    lemma_assoc_absent(self.entries(), *cid);
                }
                None
            },
            Some(i) => {
                proof {
                    lemma_assoc_at(self.entries(), i as int);
                }
                let row = &self.rows[i];
                match row.find_user(user) {
                    None => {
                        proof {
                            lemma_assoc_absent(row.entries(), *user);
                        }
                        None
                    },
                    Some(j) => {
                        proof {
                            assert(row.wf());
                            lemma_assoc_at(row.entries(), j as int);
                        }
                        Some(row.users[j].perms)
                    },
                }
            },
        }
    }

    /// Adds `perm` to the kinds that `user` holds on `cid`.
    pub fn grant(&mut self, cid: Cid, user: Address, perm: Permission)
        requires
            old(self).wf(),
        ensures
            final(self).wf(),
            final(self)@ == with_grant(old(self)@, cid, user, perm),
    {
        match self.find_row(&cid) {
            None => {
                let mut perms = PermissionSet::empty();
                perms.insert(perm);
                let mut users: Vec<UserGrant> = Vec::new();
                users.push(UserGrant { user, perms });
                let row = ResourceGrants { cid, users };
                proof {
                    assert(perms@.contains(perm));
                    assert(row.entries() =~= Seq::<(Address, Set<Permission>)>::empty().push(
                        (user, perms@),
                    ));
                    lemma_assoc_push(
                        Seq::<(Address, Set<Permission>)>::empty(),
                        user,
                        perms@,
                    );
                    assert(assoc_map(Seq::<(Address, Set<Permission>)>::empty()) =~= Map::<
                        Address,
                        Set<Permission>,
                    >::empty());
                    assert(row.wf());
                    lemma_assoc_absent(old(self).entries(), cid);
                    lemma_assoc_push(old(self).entries(), cid, row@);
                }
                self.rows.push(row);
                proof {
                    assert(self.entries() =~= old(self).entries().push((cid, row@)));
                    assert forall|i: int| 0 <= i < self.rows.len() implies (
                    #[trigger] self.rows[i]).wf() by {
                        if i < old(self).rows.len() {
                            assert(self.rows[i] == old(self).rows[i]);
                        }
                    }
                }
            },
            Some(i) => {
                let ghost old_row = self.rows[i as int];
                proof {
                    assert(old_row.wf());
                    lemma_assoc_at(old(self).entries(), i as int);
                }
                match self.rows[i].find_user(&user) {
                    None => {
                        let mut perms = PermissionSet::empty();
                        perms.insert(perm);
                        self.rows[i].users.push(UserGrant { user, perms });
                        proof {
                            let new_row = self.rows[i as int];
                            assert(perms@.contains(perm));
                            lemma_assoc_absent(old_row.entries(), user);
                            lemma_assoc_push(old_row.entries(), user, perms@);
                            assert(new_row.entries() =~= old_row.entries().push((user, perms@)));
                            assert(new_row.wf()) by {
                                assert forall|k: int| 0 <= k < new_row.users.len() implies !(
                                #[trigger] new_row.users[k]).perms@.is_empty() by {
                                    if k < old_row.users.len() {
                                        assert(new_row.users[k] == old_row.users[k]);
                                    }
                                }
                            }
                            lemma_assoc_update(old(self).entries(), i as int, new_row@);
                            assert(self.entries() =~= old(self).entries().update(
                                i as int,
                                (cid, new_row@),
                            ));
                            assert forall|k: int| 0 <= k < self.rows.len() implies (
                            #[trigger] self.rows[k]).wf() by {
                                if k != i {
                                    assert(self.rows[k] == old(self).rows[k]);
                                }
                            }
                        }
                    },
                    Some(j) => {
                        let ghost held = old_row.users[j as int].perms@;
                        self.rows[i].users[j].perms.insert(perm);
                        proof {
                            let new_row = self.rows[i as int];
                            lemma_assoc_at(old_row.entries(), j as int);
                            lemma_assoc_update(old_row.entries(), j as int, held.insert(perm));
                            assert(new_row.entries() =~= old_row.entries().update(
                                j as int,
                                (user, held.insert(perm)),
                            ));
                            assert(new_row.wf()) by {
                                assert forall|k: int| 0 <= k < new_row.users.len() implies !(
                                #[trigger] new_row.users[k]).perms@.is_empty() by {
                                    if k != j {
                                        assert(new_row.users[k] == old_row.users[k]);
                                    } else {
                                        assert(new_row.users[k].perms@.contains(perm));
                                    }
                                }
                            }
                            lemma_assoc_update(old(self).entries(), i as int, new_row@);
                            assert(self.entries() =~= old(self).entries().update(
                                i as int,
                                (cid, new_row@),
                            ));
                            assert forall|k: int| 0 <= k < self.rows.len() implies (
                            #[trigger] self.rows[k]).wf() by {
                                if k != i {
                                    assert(self.rows[k] == old(self).rows[k]);
                                }
                            }
                        }
                    },
                }
            },
        }
    }

    /// Takes `perm` from the kinds that `user` holds on `cid`. Fails with
    /// `NotFound` where the ledger has no entry for them and with
    /// `PermissionNotHeld` where the entry lacks `perm`. An entry that
    /// becomes empty is dropped, and so is a row without entries.
    pub fn revoke(&mut self, cid: &Cid, user: &Address, perm: Permission) -> (r: Result<(), Error>)
        requires
            old(self).wf(),
        ensures
            final(self).wf(),
            match r {
                Ok(()) => {
                    &&& granted(old(self)@, *cid, *user) matches Some(held)
                    &&& held.contains(perm)
                    &&& final(self)@ == without_grant(old(self)@, *cid, *user, perm)
                },
                Err(e) => {
                    &&& *final(self) == *old(self)
                    &&& match granted(old(self)@, *cid, *user) {
                        None => e == Error::NotFound,
                        Some(held) => !held.contains(perm) && e == Error::PermissionNotHeld,
                    }
                },
            },
    {
        let i = match self.find_row(cid) {
            None => {
                proof {
                    lemma_assoc_absent(self.entries(), *cid);
                }
                return Err(Error::NotFound);
            },
            Some(i) => i,
        };
        let ghost old_row = self.rows[i as int];
        proof {
            assert(old_row.wf());
            lemma_assoc_at(self.entries(), i as int);
        }
        let j = match self.rows[i].find_user(user) {
            None => {
                proof {
                    lemma_assoc_absent(old_row.entries(), *user);
                }
                return Err(Error::NotFound);
            },
            Some(j) => j,
        };
        proof {
            lemma_assoc_at(old_row.entries(), j as int);
        }
        if !self.rows[i].users[j].perms.contains(perm) {
            return Err(Error::PermissionNotHeld);
        }
        let ghost held = old_row.users[j as int].perms@.remove(perm);
        self.rows[i].users[j].perms.remove(perm);
        let ghost mid_row = self.rows[i as int];
        proof {
            assert(mid_row.entries() =~= old_row.entries().update(j as int, (*user, held)));
            lemma_assoc_update(old_row.entries(), j as int, held);
            assert(mid_row@ == old_row@.insert(*user, held));
        }
        if self.rows[i].users[j].perms.is_empty() {
            self.rows[i].users.remove(j);
            proof {
                let new_row = self.rows[i as int];
                assert(new_row.entries() =~= mid_row.entries().remove(j as int));
                lemma_assoc_remove(mid_row.entries(), j as int);
                assert(new_row@ =~= old_row@.remove(*user));
                assert forall|k: int| 0 <= k < new_row.users.len() implies !(
                #[trigger] new_row.users[k]).perms@.is_empty() by {
                    if k < j {
                        assert(new_row.users[k] == old_row.users[k]);
                    } else {
                        assert(new_row.users[k] == old_row.users[k + 1]);
                    }
                }
            }
        } else {
            proof {
                let new_row = self.rows[i as int];
                assert forall|k: int| 0 <= k < new_row.users.len() implies !(
                #[trigger] new_row.users[k]).perms@.is_empty() by {
                    if k != j {
                        assert(new_row.users[k] == old_row.users[k]);
                    }
                }
            }
        }
        let ghost new_row = self.rows[i as int];
        let ghost mid = *self;
        proof {
            assert(mid.entries() =~= old(self).entries().update(i as int, (*cid, new_row@)));
            lemma_assoc_update(old(self).entries(), i as int, new_row@);
            assert(new_row@ == if held.is_empty() {
                old_row@.remove(*user)
            } else {
                old_row@.insert(*user, held)
            });
        }
        if self.rows[i].users.len() == 0 {
            self.rows.remove(i);
            proof {
                assert(new_row.entries() =~= Seq::<(Address, Set<Permission>)>::empty());
                assert(new_row@ =~= Map::<Address, Set<Permission>>::empty());
                assert(new_row@.is_empty());
                assert(self.entries() =~= mid.entries().remove(i as int));
                lemma_assoc_remove(mid.entries(), i as int);
                assert(self@ =~= old(self)@.remove(*cid));
                assert forall|k: int| 0 <= k < self.rows.len() implies (
                #[trigger] self.rows[k]).wf() by {
                    if k < i {
                        assert(self.rows[k] == old(self).rows[k]);
                    } else {
                        assert(self.rows[k] == old(self).rows[k + 1]);
                    }
                }
            }
        } else {
            proof {
                lemma_assoc_at(new_row.entries(), 0);
                assert(new_row@.contains_key(new_row.users[0].user));
                assert(!new_row@.is_empty());
                assert(new_row.wf());
                assert forall|k: int| 0 <= k < self.rows.len() implies (
                #[trigger] self.rows[k]).wf() by {
                    if k != i {
                        assert(self.rows[k] == old(self).rows[k]);
                    }
                }
            }
        }
        Ok(())
    }
}

} // verus!
