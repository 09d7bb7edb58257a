//! Permission kinds and sets of them.

use vstd::prelude::*;

verus! {

/// One of the five actions that can be authorized on a resource. The kinds
/// are ordered as they are declared.
#[derive(Clone, Copy, Debug, PartialEq, Eq, Structural, PartialOrd, Ord, Hash)]
pub enum Permission {
    Write,
    Remove,
    Approve,
    Reject,
    Revoke,
}

impl Permission {
    /// The place of the kind in the order of the kinds, from 0.
    pub open spec fn rank(self) -> int {
        match self {
            Permission::Write => 0,
            Permission::Remove => 1,
            Permission::Approve => 2,
            Permission::Reject => 3,
            Permission::Revoke => 4,
        }
    }
}

/// The set of all five permission kinds.
pub open spec fn full_permissions() -> Set<Permission> {
    set![
        Permission::Write,
        Permission::Remove,
        Permission::Approve,
        Permission::Reject,
        Permission::Revoke,
    ]
}

/// `seq![p]` if `p` is in `s`, else the empty sequence.
pub open spec fn kind_if_held(s: Set<Permission>, p: Permission) -> Seq<Permission> {
    if s.contains(p) {
        seq![p]
    } else {
        Seq::empty()
    }
}

/// The kinds of `s` in ascending order, each once.
pub open spec fn permission_seq(s: Set<Permission>) -> Seq<Permission> {
    kind_if_held(s, Permission::Write) + kind_if_held(s, Permission::Remove) + kind_if_held(
        s,
        Permission::Approve,
    ) + kind_if_held(s, Permission::Reject) + kind_if_held(s, Permission::Revoke)
}

/// Every kind is one of the five, so every set of kinds lies within the full
/// set, and the full set lists as all five kinds in order.
pub proof fn lemma_full_permissions()
    ensures
        forall|p: Permission| full_permissions().contains(p),
        full_permissions().finite(),
        full_permissions().len() == 5,
        permission_seq(full_permissions()) =~= seq![
            Permission::Write,
            Permission::Remove,
            Permission::Approve,
            Permission::Reject,
            Permission::Revoke,
        ],
{
    assert forall|p: Permission| full_permissions().contains(p) by {
        match p {
            Permission::Write => {},
            Permission::Remove => {},
            Permission::Approve => {},
            Permission::Reject => {},
            Permission::Revoke => {},
        }
    }
    let s0 = Set::<Permission>::empty();
    let s1 = s0.insert(Permission::Write);
    let s2 = s1.insert(Permission::Remove);
    let s3 = s2.insert(Permission::Approve);
    let s4 = s3.insert(Permission::Reject);
    let s5 = s4.insert(Permission::Revoke);
    assert(full_permissions() =~= s5);
    assert(s1.len() == 1);
    assert(s2.len() == 2);
    assert(s3.len() == 3);
    assert(s4.len() == 4);
    assert(s5.len() == 5);
}

/// `permission_seq(s)` holds exactly the kinds of `s`.
pub proof fn lemma_permission_seq_contains(s: Set<Permission>, p: Permission)
    ensures
        permission_seq(s).contains(p) <==> s.contains(p),
{
    let a = kind_if_held(s, Permission::Write);
    let b = kind_if_held(s, Permission::Remove);
    let c = kind_if_held(s, Permission::Approve);
    let d = kind_if_held(s, Permission::Reject);
    let e = kind_if_held(s, Permission::Revoke);
    let all = permission_seq(s);
    assert(all =~= a + b + c + d + e);
    if s.contains(p) {
        let single = kind_if_held(s, p);
        assert(single[0] == p);
        match p {
            Permission::Write => {
                assert(all[0] == p);
            },
            Permission::Remove => {
                assert(all[a.len() as int] == p);
            },
            Permission::Approve => {
                assert(all[(a.len() + b.len()) as int] == p);
            },
            Permission::Reject => {
                assert(all[(a.len() + b.len() + c.len()) as int] == p);
            },
            Permission::Revoke => {
                assert(all[(a.len() + b.len() + c.len() + d.len()) as int] == p);
            },
        }
    }
    if all.contains(p) {
        let i = choose|i: int| 0 <= i < all.len() && all[i] == p;
        assert(all[i] == p);
    }
}

/// A set of permission kinds, one flag for each kind.
#[derive(Clone, Copy, Debug, PartialEq, Eq, Structural)]
pub struct PermissionSet {
    pub write: bool,
    pub remove: bool,
    pub approve: bool,
    pub reject: bool,
    pub revoke: bool,
}

impl View for PermissionSet {
    type V = Set<Permission>;

    open spec fn view(&self) -> Set<Permission> {
        Set::new(|p: Permission| self.holds(p))
    }
}

impl PermissionSet {
    /// Whether the flag of `p` is set.
    pub open spec fn holds(self, p: Permission) -> bool {
        match p {
            Permission::Write => self.write,
            Permission::Remove => self.remove,
            Permission::Approve => self.approve,
            Permission::Reject => self.reject,
            Permission::Revoke => self.revoke,
        }
    }

    /// The set without any kind.
    pub fn empty() -> (r: PermissionSet)
        ensures
            r@ == Set::<Permission>::empty(),
    {
        let r = PermissionSet {
            write: false,
            remove: false,
            approve: false,
            reject: false,
            revoke: false,
        };
        proof {
            assert(r@ =~= Set::<Permission>::empty());
        }
        r
    }

    /// The set of all five kinds.
    pub fn full() -> (r: PermissionSet)
        ensures
            r@ == full_permissions(),
    {
        let r = PermissionSet { write: true, remove: true, approve: true, reject: true, revoke: true };
        proof {
            lemma_full_permissions();
            assert(r@ =~= full_permissions());
        }
        r
    }

    /// The set that holds `p` and nothing else.
    pub fn single(p: Permission) -> (r: PermissionSet)
        ensures
            r@ == set![p],
    {
        let mut r = PermissionSet::empty();
        r.insert(p);
        proof {
            assert(r@ =~= set![p]);
        }
        r
    }

    /// Whether `p` is in the set.
    pub fn contains(&self, p: Permission) -> (r: bool)
        ensures
            r == self@.contains(p),
    {
        match p {
            Permission::Write => self.write,
            Permission::Remove => self.remove,
            Permission::Approve => self.approve,
            Permission::Reject => self.reject,
            Permission::Revoke => self.revoke,
        }
    }

    /// Whether the set holds no kind.
    pub fn is_empty(&self) -> (r: bool)
        ensures
            r == (self@ == Set::<Permission>::empty()),
    {
        let r = !(self.write || self.remove || self.approve || self.reject || self.revoke);
        proof {
            if r {
                assert(self@ =~= Set::<Permission>::empty());
            } else {
                if self.write {
                    assert(self@.contains(Permission::Write));
                } else if self.remove {
                    assert(self@.contains(Permission::Remove));
                } else if self.approve {
                    assert(self@.contains(Permission::Approve));
                } else if self.reject {
                    assert(self@.contains(Permission::Reject));
                } else {
                    assert(self@.contains(Permission::Revoke));
                }
            }
        }
        r
    }

    /// Adds `p`. Returns whether `p` was new to the set.
    pub fn insert(&mut self, p: Permission) -> (r: bool)
        ensures
            final(self)@ == old(self)@.insert(p),
            r == !old(self)@.contains(p),
    {
        let was = self.contains(p);
        match p {
            Permission::Write => {
                self.write = true;
            },
            Permission::Remove => {
                self.remove = true;
            },
            Permission::Approve => {
                self.approve = true;
            },
            Permission::Reject => {
                self.reject = true;
            },
            Permission::Revoke => {
                self.revoke = true;
            },
        }
        proof {
            assert(self@ =~= old(self)@.insert(p));
        }
        !was
    }

    /// Takes `p` out. Returns whether `p` was in the set.
    pub fn remove(&mut self, p: Permission) -> (r: bool)
        ensures
            final(self)@ == old(self)@.remove(p),
            r == old(self)@.contains(p),
    {
        let was = self.contains(p);
        match p {
            Permission::Write => {
                self.write = false;
            },
            Permission::Remove => {
                self.remove = false;
            },
            Permission::Approve => {
                self.approve = false;
            },
            Permission::Reject => {
                self.reject = false;
            },
            Permission::Revoke => {
                self.revoke = false;
            },
        }
        proof {
            assert(self@ =~= old(self)@.remove(p));
        }
        was
    }

    /// The kinds of the set in ascending order.
    pub fn to_vec(&self) -> (r: Vec<Permission>)
        ensures
            r@ == permission_seq(self@),
    {
        let mut r: Vec<Permission> = Vec::new();
        if self.write {
            r.push(Permission::Write);
        }
        if self.remove {
            r.push(Permission::Remove);
        }
        if self.approve {
            r.push(Permission::Approve);
        }
        if self.reject {
            r.push(Permission::Reject);
        }
        if self.revoke {
            r.push(Permission::Revoke);
        }
        proof {
            assert(self@.contains(Permission::Write) == self.write);
            assert(self@.contains(Permission::Remove) == self.remove);
            assert(self@.contains(Permission::Approve) == self.approve);
            assert(self@.contains(Permission::Reject) == self.reject);
            assert(self@.contains(Permission::Revoke) == self.revoke);
            assert(r@ =~= permission_seq(self@));
        }
        r
    }
}

} // verus!
