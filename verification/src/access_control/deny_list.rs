//! The deny-lists: public keys and resources against which no request is
//! taken or approved. Entries are only ever added.

use crate::types::{Cid, PublicKey};
use vstd::prelude::*;

verus! {

/// The denied public keys and the denied resources.
#[derive(Clone, Debug, PartialEq, Eq)]
pub struct DenyLists {
    pub keys: Vec<PublicKey>,
    pub cids: Vec<Cid>,
}

impl DenyLists {
    /// The set of denied public keys.
    pub open spec fn denied_keys(self) -> Set<Seq<u8>> {
        Set::new(|k: Seq<u8>| exists|i: int| 0 <= i < self.keys.len() && (#[trigger] self.keys[i])@ == k)
    }

    /// The set of denied resources.
    pub open spec fn denied_cids(self) -> Set<Cid> {
        Set::new(|c: Cid| exists|i: int| 0 <= i < self.cids.len() && #[trigger] self.cids[i] == c)
    }

    /// Deny-lists without entries.
    pub fn new() -> (r: DenyLists)
        ensures
            r.denied_keys() == Set::<Seq<u8>>::empty(),
            r.denied_cids() == Set::<Cid>::empty(),
    {
        let r = DenyLists { keys: Vec::new(), cids: Vec::new() };
        proof {
            assert(r.denied_keys() =~= Set::<Seq<u8>>::empty());
            assert(r.denied_cids() =~= Set::<Cid>::empty());
        }
        r
    }

    /// Whether `key` is denied.
    pub fn has_key(&self, key: &PublicKey) -> (r: bool)
        ensures
            r == self.denied_keys().contains(key@),
    {
        let mut i: usize = 0;
        while i < self.keys.len()
            invariant
                i <= self.keys.len(),
                forall|j: int| 0 <= j < i ==> (#[trigger] self.keys[j])@ != key@,
            decreases self.keys.len() - i,
        {
            if self.keys[i] == *key {
                return true;
            }
            i += 1;
        }
        false
    }

    /// Whether `cid` is denied.
    pub fn has_cid(&self, cid: &Cid) -> (r: bool)
        ensures
            r == self.denied_cids().contains(*cid),
    {
        let mut i: usize = 0;
        while i < self.cids.len()
            invariant
                i <= self.cids.len(),
                forall|j: int| 0 <= j < i ==> #[trigger] self.cids[j] != *cid,
            decreases self.cids.len() - i,
        {
            if self.cids[i] == *cid {
                return true;
            }
            i += 1;
        }
        false
    }

    /// Puts `key` on the deny-list. A key that is there already stays once.
    pub fn deny_key(&mut self, key: PublicKey)
        ensures
            final(self).denied_keys() == old(self).denied_keys().insert(key@),
            final(self).cids == old(self).cids,
    {
        if !self.has_key(&key) {
            self.keys.push(key);
            proof {
                assert forall|k: Seq<u8>|
                    self.denied_keys().contains(k) <==> old(self).denied_keys().insert(
                        key@,
                    ).contains(k) by {
                    if self.denied_keys().contains(k) {
                        let i = choose|i: int|
                            0 <= i < self.keys.len() && (#[trigger] self.keys[i])@ == k;
                        if i < old(self).keys.len() {
                            assert(old(self).keys[i]@ == k);
                        }
                    }
                    if old(self).denied_keys().contains(k) {
                        let i = choose|i: int|
                            0 <= i < old(self).keys.len() && (#[trigger] old(self).keys[i])@ == k;
                        assert(self.keys[i]@ == k);
                    }
                    if k == key@ {
                        assert(self.keys[old(self).keys.len() as int]@ == k);
                    }
                }
            }
        }
        proof {
            assert(self.denied_keys() =~= old(self).denied_keys().insert(key@));
        }
    }

    /// Puts `cid` on the deny-list. A resource that is there already stays
    /// once.
    pub fn deny_cid(&mut self, cid: Cid)
        ensures
            final(self).denied_cids() == old(self).denied_cids().insert(cid),
            final(self).keys == old(self).keys,
    {
        if !self.has_cid(&cid) {
            self.cids.push(cid);
            proof {
                assert forall|c: Cid|
                    self.denied_cids().contains(c) <==> old(self).denied_cids().insert(
                        cid,
                    ).contains(c) by {
                    if self.denied_cids().contains(c) {
                        let i = choose|i: int| 0 <= i < self.cids.len() && #[trigger] self.cids[i] == c;
                        if i < old(self).cids.len() {
                            assert(old(self).cids[i] == c);
                        }
                    }
                    if old(self).denied_cids().contains(c) {
                        let i = choose|i: int|
                            0 <= i < old(self).cids.len() && #[trigger] old(self).cids[i] == c;
                        assert(self.cids[i] == c);
                    }
                    if c == cid {
                        assert(self.cids[old(self).cids.len() as int] == c);
                    }
                }
            }
        }
        proof {
            assert(self.denied_cids() =~= old(self).denied_cids().insert(cid));
        }
    }
}

} // verus!
