//! The share ledger: for each source resource, the resources approved as
//! its shares. A resource is approved as a share at most once, under
//! whatever source.

use crate::access_control::model::{claimed, with_share, Shares};
use crate::assoc::{
    assoc_map, keys_distinct, lemma_assoc_absent, lemma_assoc_at, lemma_assoc_push,
    lemma_assoc_update, position,
};
use crate::types::Cid;
use vstd::prelude::*;

verus! {

/// Each element of `s` precedes all that follow it.
pub open spec fn ascending(s: Seq<Cid>) -> bool {
    forall|i: int, j: int| 0 <= i < j < s.len() ==> (#[trigger] s[i]).precedes(#[trigger] s[j])
}

/// Putting `x` into a sequence adds it to the set of its elements.
pub proof fn lemma_insert_to_set(s: Seq<Cid>, p: int, x: Cid)
    requires
        0 <= p <= s.len(),
    ensures
        s.insert(p, x).to_set() == s.to_set().insert(x),
{
    let t = s.insert(p, x);
    assert forall|y: Cid| t.to_set().contains(y) <==> s.to_set().insert(x).contains(y) by {
        if t.contains(y) {
            let k = choose|k: int| 0 <= k < t.len() && t[k] == y;
            if k < p {
                assert(s[k] == y);
            } else if k > p {
                assert(s[k - 1] == y);
            }
        }
        if s.contains(y) {
            let k = choose|k: int| 0 <= k < s.len() && s[k] == y;
            if k < p {
                assert(t[k] == y);
            } else {
                assert(t[k + 1] == y);
            }
        }
        if y == x {
            assert(t[p] == x);
        }
    }
    assert(t.to_set() =~= s.to_set().insert(x));
}

/// The shares approved under one source, in ascending order.
#[derive(Clone, Debug, PartialEq, Eq)]
pub struct ShareRow {
    pub cid: Cid,
    pub targets: Vec<Cid>,
}

impl View for ShareRow {
    type V = Set<Cid>;

    open spec fn view(&self) -> Set<Cid> {
        self.targets@.to_set()
    }
}

impl ShareRow {
    /// The row holds a target, and its targets ascend.
    pub open spec fn wf(self) -> bool {
        &&& self.targets.len() > 0
        &&& ascending(self.targets@)
    }

    /// Decides whether the row is well-formed.
    pub fn is_wf(&self) -> (r: bool)
        ensures
            r == self.wf(),
    {
        if self.targets.len() == 0 {
            return false;
        }
        let mut i: usize = 1;
        while i < self.targets.len()
            invariant
                1 <= i <= self.targets.len(),
                forall|a: int, b: int|
                    0 <= a < b < i ==> (#[trigger] self.targets@[a]).precedes(
                        #[trigger] self.targets@[b],
                    ),
            decreases self.targets.len() - i,
        {
            if !self.targets[i - 1].is_before(&self.targets[i]) {
                return false;
            }
            proof {
                assert forall|a: int, b: int| 0 <= a < b < i + 1 implies (
                #[trigger] self.targets@[a]).precedes(#[trigger] self.targets@[b]) by {
                    if b == i && a < i - 1 {
                        assert(self.targets@[a].precedes(self.targets@[i - 1]));
                        Cid::lemma_precedes_transitive(
                            self.targets@[a],
                            self.targets@[i - 1],
                            self.targets@[i as int],
                        );
                    }
                }
            }
            i += 1;
        }
        true
    }

    /// Whether `target` is one of the targets of the row.
    pub fn has_target(&self, target: &Cid) -> (r: bool)
        ensures
            r == self@.contains(*target),
    {
        let mut i: usize = 0;
        while i < self.targets.len()
            invariant
                i <= self.targets.len(),
                forall|j: int| 0 <= j < i ==> self.targets@[j] != *target,
            decreases self.targets.len() - i,
        {
            if self.targets[i] == *target {
                proof {
                    assert(self.targets@.contains(*target));
                }
                return true;
            }
            i += 1;
        }
        proof {
            if self.targets@.contains(*target) {
                let k = choose|k: int| 0 <= k < self.targets@.len() && self.targets@[k] == *target;
                assert(self.targets@[k] != *target);
            }
        }
        false
    }
}

/// The share ledger, one row for each source that has an approved share.
#[derive(Clone, Debug, PartialEq, Eq)]
pub struct ShareLedger {
    pub rows: Vec<ShareRow>,
}

impl View for ShareLedger {
    type V = Shares;

    open spec fn view(&self) -> Shares {
        assoc_map(self.entries())
    }
}

impl ShareLedger {
    /// The rows as pairs of a source and the set of its targets.
    pub open spec fn entries(self) -> Seq<(Cid, Set<Cid>)> {
        Seq::new(self.rows.len() as nat, |i: int| (self.rows[i].cid, self.rows[i]@))
    }

    /// No two rows hold the same target.
    pub open spec fn rows_disjoint(self) -> bool {
        forall|i: int, j: int, t: Cid|
            #![trigger self.rows[i]@.contains(t), self.rows[j]@.contains(t)]
            0 <= i < self.rows.len() && 0 <= j < self.rows.len() && i != j
                && self.rows[i]@.contains(t) ==> !self.rows[j]@.contains(t)
    }

    /// No source has two rows, every row is well-formed, and no target
    /// stands in two rows.
    pub open spec fn wf(self) -> bool {
        &&& keys_distinct(self.entries())
        &&& forall|i: int| 0 <= i < self.rows.len() ==> (#[trigger] self.rows[i]).wf()
        &&& self.rows_disjoint()
    }

    /// In a well-formed ledger no target is committed under two sources.
    pub proof fn lemma_targets_unique(self)
        requires
            self.wf(),
        ensures
            forall|c1: Cid, c2: Cid, t: Cid|
                self@.contains_key(c1) && self@.contains_key(c2) && #[trigger] self@[c1].contains(t)
                    && #[trigger] self@[c2].contains(t) ==> c1 == c2,
    {
        assert forall|c1: Cid, c2: Cid, t: Cid|
            self@.contains_key(c1) && self@.contains_key(c2) && #[trigger] self@[c1].contains(t)
                && #[trigger] self@[c2].contains(t) implies c1 == c2 by {
            let i = position(self.entries(), c1);
            let j = position(self.entries(), c2);
            lemma_assoc_at(self.entries(), i);
            lemma_assoc_at(self.entries(), j);
            assert(self.rows[i]@.contains(t));
            assert(self.rows[j]@.contains(t));
        }
    }

    /// `claimed` holds of a target exactly if some row holds it.
    pub proof fn lemma_claimed(self, target: Cid)
        requires
            self.wf(),
        ensures
            claimed(self@, target) <==> exists|i: int|
                0 <= i < self.rows.len() && (#[trigger] self.rows[i])@.contains(target),
    {
        if claimed(self@, target) {
            let c = choose|c: Cid| self@.contains_key(c) && #[trigger] self@[c].contains(target);
            let i = position(self.entries(), c);
            lemma_assoc_at(self.entries(), i);
            assert(self.rows[i]@.contains(target));
        }
        if exists|i: int| 0 <= i < self.rows.len() && (#[trigger] self.rows[i])@.contains(target) {
            let i = choose|i: int|
                0 <= i < self.rows.len() && (#[trigger] self.rows[i])@.contains(target);
            lemma_assoc_at(self.entries(), i);
            assert(self@.contains_key(self.rows[i].cid) && self@[self.rows[i].cid].contains(target));
        }
    }

    /// Decides whether the ledger is well-formed.
    pub fn is_wf(&self) -> (r: bool)
        ensures
            r == self.wf(),
    {
        let mut i: usize = 0;
        while i < self.rows.len()
            invariant
                i <= self.rows.len(),
                forall|a: int, b: int|
                    0 <= a < b < i ==> (#[trigger] self.rows[a]).cid != (#[trigger] self.rows[b]).cid,
                forall|a: int| 0 <= a < i ==> (#[trigger] self.rows[a]).wf(),
                forall|a: int, b: int, t: Cid|
                    #![trigger self.rows[a]@.contains(t), self.rows[b]@.contains(t)]
                    0 <= a < i && 0 <= b < i && a != b && self.rows[a]@.contains(t)
                        ==> !self.rows[b]@.contains(t),
            decreases self.rows.len() - i,
        {
            if !self.rows[i].is_wf() {
                return false;
            }
            let mut j: usize = 0;
            while j < i
                invariant
                    j <= i,
                    i < self.rows.len(),
                    forall|a: int| 0 <= a < j ==> (#[trigger] self.rows[a]).cid != self.rows[i as int].cid,
                    forall|a: int, t: Cid|
                        #![trigger self.rows[a]@.contains(t)]
                        0 <= a < j && self.rows[a]@.contains(t) ==> !self.rows[i as int]@.contains(t),
                decreases i - j,
            {
                if self.rows[j].cid == self.rows[i].cid {
                    proof {
                        assert(self.entries()[j as int].0 == self.entries()[i as int].0);
                    }
                    return false;
                }
                let mut k: usize = 0;
                while k < self.rows[i].targets.len()
                    invariant
                        j < i,
                        i < self.rows.len(),
                        k <= self.rows[i as int].targets.len(),
                        forall|x: int|
                            0 <= x < k ==> !self.rows[j as int]@.contains(
                                #[trigger] self.rows[i as int].targets@[x],
                            ),
                    decreases self.rows[i as int].targets.len() - k,
                {
                    if self.rows[j].has_target(&self.rows[i].targets[k]) {
                        proof {
                            let t = self.rows[i as int].targets@[k as int];
                            assert(self.rows[i as int].targets@.contains(t));
                            assert(self.rows[j as int]@.contains(t) && self.rows[i as int]@.contains(t));
                        }
                        return false;
                    }
                    k += 1;
                }
                proof {
                    assert forall|t: Cid| self.rows[j as int]@.contains(t) implies !self.rows[i as int]@.contains(t) by {
                        let row = self.rows[i as int].targets@;
                        if row.contains(t) {
                            let x = choose|x: int| 0 <= x < row.len() && row[x] == t;
                            assert(!self.rows[j as int]@.contains(self.rows[i as int].targets@[x]));
                        }
                    }
                }
                j += 1;
            }
            i += 1;
        }
        proof {
            assert forall|a: int, b: int| 0 <= a < b < self.entries().len() implies (
            #[trigger] self.entries()[a]).0 != (#[trigger] self.entries()[b]).0 by {
                assert(self.rows[a].cid != self.rows[b].cid);
            }
        }
        true
    }

    /// A ledger without rows.
    pub fn new() -> (r: ShareLedger)
        ensures
            r.wf(),
            r@ == Map::<Cid, Set<Cid>>::empty(),
    {
        let r = ShareLedger { rows: Vec::new() };
        proof {
            assert(r@ =~= Map::<Cid, Set<Cid>>::empty());
        }
        r
    }

    /// The index of the row of `cid`, if there is one.
    pub fn find_row(&self, cid: &Cid) -> (r: Option<usize>)
        ensures
            match r {
                Some(i) => i < self.rows.len() && self.rows[i as int].cid == *cid,
                None => forall|i: int| 0 <= i < self.rows.len() ==> self.rows[i].cid != *cid,
            },
    {
        let mut i: usize = 0;
        while i < self.rows.len()
            invariant
                i <= self.rows.len(),
                forall|j: int| 0 <= j < i ==> self.rows[j].cid != *cid,
            decreases self.rows.len() - i,
        {
            if self.rows[i].cid == *cid {
                return Some(i);
            }
            i += 1;
        }
        None
    }

    /// Whether `target` is committed under any source.
    pub fn is_claimed(&self, target: &Cid) -> (r: bool)
        requires
            self.wf(),
        ensures
            r == claimed(self@, *target),
    {
        let mut i: usize = 0;
        while i < self.rows.len()
            invariant
                self.wf(),
                i <= self.rows.len(),
                forall|j: int| 0 <= j < i ==> !(#[trigger] self.rows[j])@.contains(*target),
            decreases self.rows.len() - i,
        {
            if self.rows[i].has_target(target) {
                proof {
                    assert(self.rows[i as int]@.contains(*target));
                    self.lemma_claimed(*target);
                }
                return true;
            }
            i += 1;
        }
        proof {
            self.lemma_claimed(*target);
        }
        false
    }

    /// The targets approved under `cid`, in ascending order; `None` where
    /// `cid` has no row.
    pub fn targets(&self, cid: &Cid) -> (r: Option<Vec<Cid>>)
        requires
            self.wf(),
        ensures
            match r {
                Some(v) => {
                    &&& self@.contains_key(*cid)
                    &&& v@.to_set() == self@[*cid]
                    &&& ascending(v@)
                },
                None => !self@.contains_key(*cid),
            },
    {
        match self.find_row(cid) {
            None => {
                proof {
                    lemma_assoc_absent(self.entries(), *cid);
                }
                None
            },
            Some(i) => {
                proof {
                    lemma_assoc_at(self.entries(), i as int);
                    assert(self.rows[i as int].wf());
                }
                let row = &self.rows[i];
                let mut out: Vec<Cid> = Vec::new();
                let mut k: usize = 0;
                while k < row.targets.len()
                    invariant
                        k <= row.targets.len(),
                        out@ == row.targets@.subrange(0, k as int),
                    decreases row.targets.len() - k,
                {
                    out.push(row.targets[k]);
                    proof {
                        assert(out@ =~= row.targets@.subrange(0, k + 1));
                    }
                    k += 1;
                }
                proof {
                    assert(out@ =~= row.targets@);
                }
                Some(out)
            },
        }
    }

    /// Whether `cid` is approved as a share of `from_cid`; `None` where
    /// `from_cid` has no row.
    pub fn has_share(&self, cid: &Cid, from_cid: &Cid) -> (r: Option<bool>)
        requires
            self.wf(),
        ensures
            match r {
                Some(b) => self@.contains_key(*from_cid) && b == self@[*from_cid].contains(*cid),
                None => !self@.contains_key(*from_cid),
            },
    {
        match self.find_row(from_cid) {
            None => {
                proof {
                    lemma_assoc_absent(self.entries(), *from_cid);
                }
                None
            },
            Some(i) => {
                proof {
                    lemma_assoc_at(self.entries(), i as int);
                }
                Some(self.rows[i].has_target(cid))
            },
        }
    }

    /// Commits `target` as a share of `source`.
    pub fn commit(&mut self, source: Cid, target: Cid)
        requires
            old(self).wf(),
            !claimed(old(self)@, target),
        ensures
            final(self).wf(),
            final(self)@ == with_share(old(self)@, source, target),
    {
        proof {
            old(self).lemma_claimed(target);
        }
        match self.find_row(&source) {
            None => {
                let mut targets: Vec<Cid> = Vec::new();
                targets.push(target);
                let row = ShareRow { cid: source, targets };
                proof {
                    let none = Seq::<Cid>::empty();
                    assert(row.targets@ =~= none.insert(0, target));
                    lemma_insert_to_set(none, 0, target);
                    assert(none.to_set() =~= Set::<Cid>::empty());
                    assert(row@ == Set::<Cid>::empty().insert(target));
                    lemma_assoc_absent(old(self).entries(), source);
                    lemma_assoc_push(old(self).entries(), source, row@);
                }
                self.rows.push(row);
                proof {
                    assert(self.entries() =~= old(self).entries().push((source, row@)));
                    assert forall|i: int| 0 <= i < self.rows.len() implies (
                    #[trigger] self.rows[i]).wf() by {
                        if i < old(self).rows.len() {
                            assert(self.rows[i] == old(self).rows[i]);
                        }
                    }
                    assert forall|i: int, j: int, t: Cid|
                        #![trigger self.rows[i]@.contains(t), self.rows[j]@.contains(t)]
                        0 <= i < self.rows.len() && 0 <= j < self.rows.len() && i != j
                            && self.rows[i]@.contains(t) implies !self.rows[j]@.contains(t) by {
                        let n = old(self).rows.len() as int;
                        if i < n && j < n {
                            assert(self.rows[i] == old(self).rows[i]);
                            assert(self.rows[j] == old(self).rows[j]);
                        } else if i == n {
                            assert(t == target);
                            assert(self.rows[j] == old(self).rows[j]);
                        } else {
                            assert(self.rows[i] == old(self).rows[i]);
                            if self.rows[j]@.contains(t) {
                                assert(t == target);
                            }
                        }
                    }
                }
            },
            Some(i) => {
                let ghost old_row = self.rows[i as int];
                proof {
                    assert(old_row.wf());
                    lemma_assoc_at(old(self).entries(), i as int);
                    assert(!old_row@.contains(target));
                }
                let mut p: usize = 0;
                while p < self.rows[i].targets.len() && self.rows[i].targets[p].is_before(&target)
                    invariant
                        p <= self.rows[i as int].targets.len(),
                        i < self.rows.len(),
                        *self == *old(self),
                        forall|k: int| 0 <= k < p ==> self.rows[i as int].targets@[k].precedes(target),
                    decreases self.rows[i as int].targets.len() - p,
                {
                    p += 1;
                }
                self.rows[i].targets.insert(p, target);
                proof {
                    let new_row = self.rows[i as int];
                    let before = old_row.targets@;
                    let after = new_row.targets@;
                    assert(after == before.insert(p as int, target));
                    lemma_insert_to_set(before, p as int, target);
                    assert(ascending(after)) by {
                        assert forall|x: int, y: int| 0 <= x < y < after.len() implies (
                        #[trigger] after[x]).precedes(#[trigger] after[y]) by {
                            if y < p {
                                assert(before[x].precedes(before[y]));
                            } else if y == p {
                                assert(before[x].precedes(target));
                            } else if x > p {
                                assert(before[x - 1].precedes(before[y - 1]));
                            } else {
                                // Here x <= p < y, and the target stands before
                                // whatever followed position p.
                                assert(!before[p as int].precedes(target));
                                assert(before.contains(before[p as int]));
                                assert(before[p as int] != target);
                                Cid::lemma_total_order(target, before[p as int]);
                                if y - 1 > p {
                                    assert(before[p as int].precedes(before[y - 1]));
                                    Cid::lemma_precedes_transitive(
                                        target,
                                        before[p as int],
                                        before[y - 1],
                                    );
                                }
                                if x < p {
                                    assert(before[x].precedes(before[y - 1]));
                                }
                            }
                        }
                    }
                    assert(new_row.wf());
                    lemma_assoc_update(old(self).entries(), i as int, new_row@);
                    assert(self.entries() =~= old(self).entries().update(
                        i as int,
                        (source, new_row@),
                    ));
                    assert forall|k: int| 0 <= k < self.rows.len() implies (
                    #[trigger] self.rows[k]).wf() by {
                        if k != i {
                            assert(self.rows[k] == old(self).rows[k]);
                        }
                    }
                    assert forall|a: int, b: int, t: Cid|
                        #![trigger self.rows[a]@.contains(t), self.rows[b]@.contains(t)]
                        0 <= a < self.rows.len() && 0 <= b < self.rows.len() && a != b
                            && self.rows[a]@.contains(t) implies !self.rows[b]@.contains(t) by {
                        if a != i {
                            assert(self.rows[a] == old(self).rows[a]);
                        }
                        if b != i {
                            assert(self.rows[b] == old(self).rows[b]);
                        }
                        if self.rows[b]@.contains(t) {
                            if a == i {
                                if t != target {
                                    assert(old(self).rows[a]@.contains(t));
                                }
                            } else {
                                if t != target {
                                    assert(old(self).rows[b]@.contains(t));
                                }
                            }
                        }
                    }
                }
            },
        }
    }
}

} // verus!
