//! The version history of a content item: the storage contracts that held
//! its versions, and the content that was shared into it.

use crate::types::{Address, Cid, Metadata, PublicKey};
use vstd::prelude::*;

verus! {

/// One version of the content: where it is stored, or that it was removed.
#[derive(Clone, Copy, Debug, PartialEq, Eq)]
pub enum DataInfo {
    Content(Cid),
    Removed,
}

/// Content shared into the history from the version at `from_version`.
#[derive(Clone, Copy, Debug, PartialEq, Eq)]
pub struct SharedDataInfo {
    pub cid: Cid,
    pub from_version: u64,
}

/// Why an operation on the history failed. A failed operation leaves the
/// history as it was.
#[derive(Clone, Copy, Debug, PartialEq, Eq, Structural, Hash)]
pub enum VersionError {
    /// The caller is not the owner of the contract.
    NotContractOwner,
    /// The history has been set up before.
    AlreadyInitialized,
    /// The history has not been set up yet.
    NotInitialized,
    /// The caller does not hold `Write` on the content.
    NoWritePermission,
    /// The caller does not hold `Remove` on the content.
    NoRemovePermission,
    /// The new version belongs to another owner.
    OwnersNotEqual,
    /// The new version has another name.
    NamesNotEqual,
    /// The share has not been approved.
    ShareNotApproved,
    /// No version is stored where the share comes from.
    FromVersionNotFound,
    /// The history has no version with that number.
    NoSuchVersion,
    /// The content has no description.
    NoDescription,
}

/// The first index at which `versions` holds the content stored at `cid`,
/// if it holds it at all.
pub open spec fn version_of(versions: Seq<DataInfo>, cid: Cid) -> Option<int> {
    if exists|i: int| 0 <= i < versions.len() && #[trigger] versions[i] == DataInfo::Content(cid) {
        Some(
            choose|i: int|
                0 <= i < versions.len() && #[trigger] versions[i] == DataInfo::Content(cid)
                    && forall|j: int| 0 <= j < i ==> versions[j] != DataInfo::Content(cid),
        )
    } else {
        None
    }
}

/// The version history of a content item.
#[derive(Clone, Debug, PartialEq, Eq)]
pub struct Contract {
    pub versions: Vec<DataInfo>,
    pub shared: Vec<SharedDataInfo>,
    pub access_control: Address,
    pub metadata: Metadata,
}

impl Contract {
    /// The history has a first version.
    pub open spec fn wf(self) -> bool {
        0 < self.versions.len()
    }

    /// Decides whether the history is well-formed.
    pub fn is_wf(&self) -> (r: bool)
        ensures
            r == self.wf(),
    {
        self.versions.len() > 0
    }

    /// Sets the history up with the content stored at `cid` as its first
    /// version. `cid_metadata` is what the storage contract at `cid` says of
    /// that content; the history takes it over and marks it as versioned.
    /// Only the owner of the contract may set the history up, and only once.
    pub fn new(
        caller: Address,
        contract_owner: Address,
        initialized: bool,
        access_control: Address,
        cid: Cid,
        cid_metadata: Metadata,
    ) -> (r: Result<Contract, VersionError>)
        ensures
            match r {
                Ok(c) => {
                    &&& caller == contract_owner
                    &&& !initialized
                    &&& c.wf()
                    &&& c.versions@ == seq![DataInfo::Content(cid)]
                    &&& c.shared@ == Seq::<SharedDataInfo>::empty()
                    &&& c.access_control == access_control
                    &&& c.metadata == (Metadata { versioned: true, ..cid_metadata })
                },
                Err(e) => if caller != contract_owner {
                    e == VersionError::NotContractOwner
                } else {
                    initialized && e == VersionError::AlreadyInitialized
                },
            },
    {
        if caller != contract_owner {
            return Err(VersionError::NotContractOwner);
        }
        if initialized {
            return Err(VersionError::AlreadyInitialized);
        }
        let mut metadata = cid_metadata;
        metadata.versioned = true;
        let mut versions: Vec<DataInfo> = Vec::new();
        versions.push(DataInfo::Content(cid));
        let c = Contract { versions, shared: Vec::new(), access_control, metadata };
        proof {
            assert(c.versions@ =~= seq![DataInfo::Content(cid)]);
        }
        Ok(c)
    }

    /// The stored history, if there is one: without one the history is not
    /// set up.
    pub fn load(stored: Option<Contract>) -> (r: Result<Contract, VersionError>)
        ensures
            match r {
                Ok(c) => stored == Some(c),
                Err(e) => stored is None && e == VersionError::NotInitialized,
            },
    {
        match stored {
            Some(c) => Ok(c),
            None => Err(VersionError::NotInitialized),
        }
    }

    /// Appends the content stored at `cid` as the newest version.
    /// `may_write` says whether the caller holds `Write` on the content of
    /// this history, and `cid_metadata` is what the storage contract at
    /// `cid` says of the new version.
    ///
    /// Fails with `NoWritePermission` where the caller may not write, else
    /// with `OwnersNotEqual` where the new version has another owner than
    /// the history, else with `NamesNotEqual` where it has another name.
    pub fn submit(&mut self, may_write: bool, cid: Cid, cid_metadata: &Metadata) -> (r: Result<
        (),
        VersionError,
    >)
        requires
            old(self).wf(),
        ensures
            final(self).wf(),
            match r {
                Ok(()) => {
                    &&& may_write
                    &&& old(self).metadata.owner == cid_metadata.owner
                    &&& old(self).metadata.name@ == cid_metadata.name@
                    &&& *final(self) == (Contract {
                        versions: final(self).versions,
                        ..*old(self)
                    })
                    &&& final(self).versions@ == old(self).versions@.push(DataInfo::Content(cid))
                },
                Err(e) => {
                    &&& *final(self) == *old(self)
                    &&& e == if !may_write {
                        VersionError::NoWritePermission
                    } else if old(self).metadata.owner != cid_metadata.owner {
                        VersionError::OwnersNotEqual
                    } else {
                        VersionError::NamesNotEqual
                    }
                    &&& (!may_write || old(self).metadata.owner != cid_metadata.owner || old(
                        self,
                    ).metadata.name@ != cid_metadata.name@)
                },
            },
    {
        if !may_write {
            return Err(VersionError::NoWritePermission);
        }
        if self.metadata.owner != cid_metadata.owner {
            return Err(VersionError::OwnersNotEqual);
        }
        if self.metadata.name != cid_metadata.name {
            return Err(VersionError::NamesNotEqual);
        }
        self.versions.push(DataInfo::Content(cid));
        Ok(())
    }

    /// Appends the removal of the content as the newest version.
    /// `may_remove` says whether the caller holds `Remove` on the content of
    /// this history.
    pub fn remove(&mut self, may_remove: bool) -> (r: Result<(), VersionError>)
        requires
            old(self).wf(),
        ensures
            final(self).wf(),
            match r {
                Ok(()) => {
                    &&& may_remove
                    &&& *final(self) == (Contract {
                        versions: final(self).versions,
                        ..*old(self)
                    })
                    &&& final(self).versions@ == old(self).versions@.push(DataInfo::Removed)
                },
                Err(e) => {
                    &&& !may_remove
                    &&& e == VersionError::NoRemovePermission
                    &&& *final(self) == *old(self)
                },
            },
    {
        if !may_remove {
            return Err(VersionError::NoRemovePermission);
        }
        self.versions.push(DataInfo::Removed);
        Ok(())
    }

    /// The number of the first version that is the content stored at `cid`.
    pub fn find_version(&self, cid: &Cid) -> (r: Option<u64>)
        requires
            self.wf(),
        ensures
            match r {
                Some(n) => {
                    &&& n < self.versions.len()
                    &&& self.versions[n as int] == DataInfo::Content(*cid)
                    &&& forall|j: int| 0 <= j < n ==> self.versions[j] != DataInfo::Content(*cid)
                },
                None => forall|j: int|
                    0 <= j < self.versions.len() ==> self.versions[j] != DataInfo::Content(*cid),
            },
    {
        let mut i: usize = 0;
        while i < self.versions.len()
            invariant
                self.wf(),
                i <= self.versions.len(),
                forall|j: int| 0 <= j < i ==> self.versions[j] != DataInfo::Content(*cid),
            decreases self.versions.len() - i,
        {
            let found = match self.versions[i] {
                DataInfo::Content(c) => c == *cid,
                DataInfo::Removed => false,
            };
            if found {
                return Some(i as u64);
            }
            i += 1;
        }
        None
    }

    /// Records that the content stored at `cid` was shared into the history
    /// from its version stored at `from_cid`. `may_write` says whether the
    /// caller holds `Write` on the content of this history, and
    /// `share_approved` whether `cid` is an approved share of `from_cid`.
    ///
    /// Fails with `NoWritePermission` where the caller may not write, else
    /// with `ShareNotApproved` where the share is not approved, else with
    /// `FromVersionNotFound` where no version is stored at `from_cid`.
    pub fn submit_shared(&mut self, may_write: bool, share_approved: bool, cid: Cid, from_cid: Cid)
        -> (r: Result<(), VersionError>)
        requires
            old(self).wf(),
        ensures
            final(self).wf(),
            match r {
                Ok(()) => {
                    &&& may_write
                    &&& share_approved
                    &&& version_of(old(self).versions@, from_cid) matches Some(n)
                    &&& *final(self) == (Contract { shared: final(self).shared, ..*old(self) })
                    &&& final(self).shared@ == old(self).shared@.push(
                        SharedDataInfo { cid, from_version: n as u64 },
                    )
                },
                Err(e) => {
                    &&& *final(self) == *old(self)
                    &&& e == if !may_write {
                        VersionError::NoWritePermission
                    } else if !share_approved {
                        VersionError::ShareNotApproved
                    } else {
                        VersionError::FromVersionNotFound
                    }
                    &&& (!may_write || !share_approved || version_of(
                        old(self).versions@,
                        from_cid,
                    ) is None)
                },
            },
    {
        if !may_write {
            return Err(VersionError::NoWritePermission);
        }
        if !share_approved {
            return Err(VersionError::ShareNotApproved);
        }
        match self.find_version(&from_cid) {
            None => Err(VersionError::FromVersionNotFound),
            Some(from_version) => {
                proof {
                    let versions = self.versions@;
                    assert(versions[from_version as int] == DataInfo::Content(from_cid));
                    let n = version_of(versions, from_cid)->Some_0;
                    if n < from_version {
                        assert(versions[n] != DataInfo::Content(from_cid));
                    } else if from_version < n {
                        assert(versions[from_version as int] != DataInfo::Content(from_cid));
                    }
                }
                self.shared.push(SharedDataInfo { cid, from_version });
                Ok(())
            },
        }
    }

    /// The name of the content.
    pub fn name(&self) -> (r: String)
        ensures
            r == self.metadata.name,
    {
        self.metadata.name.clone()
    }

    /// The description of the content. Fails with `NoDescription` where it
    /// has none.
    pub fn description(&self) -> (r: Result<String, VersionError>)
        ensures
            match r {
                Ok(text) => self.metadata.description == Some(text),
                Err(e) => self.metadata.description is None && e == VersionError::NoDescription,
            },
    {
        match &self.metadata.description {
            Some(text) => Ok(text.clone()),
            None => Err(VersionError::NoDescription),
        }
    }

    /// The public key of the content.
    pub fn public_key(&self) -> (r: PublicKey)
        ensures
            r@ == self.metadata.pub_key@,
    {
        self.metadata.pub_key.duplicate()
    }

    /// The owner of the content.
    pub fn owner(&self) -> (r: Address)
        ensures
            r == self.metadata.owner,
    {
        self.metadata.owner
    }

    /// What is known of the content.
    pub fn metadata(&self) -> (r: Metadata)
        ensures
            r.name == self.metadata.name,
            r.description == self.metadata.description,
            r.pub_key@ == self.metadata.pub_key@,
            r.owner == self.metadata.owner,
            r.versioned == self.metadata.versioned,
    {
        self.metadata.duplicate()
    }

    /// All versions, oldest first.
    pub fn get(&self) -> (r: Vec<DataInfo>)
        ensures
            r@ == self.versions@,
    {
        let mut out: Vec<DataInfo> = Vec::new();
        let mut i: usize = 0;
        while i < self.versions.len()
            invariant
                i <= self.versions.len(),
                out@ == self.versions@.subrange(0, i as int),
            decreases self.versions.len() - i,
        {
            out.push(self.versions[i]);
            proof {
                assert(out@ =~= self.versions@.subrange(0, i + 1));
            }
            i += 1;
        }
        proof {
            assert(out@ =~= self.versions@);
        }
        out
    }

    /// The version with the number `version`, counted from 0. Fails with
    /// `NoSuchVersion` where the history is shorter.
    pub fn get_version(&self, version: u64) -> (r: Result<DataInfo, VersionError>)
        requires
            self.wf(),
        ensures
            match r {
                Ok(info) => version < self.versions.len() && info == self.versions[version as int],
                Err(e) => version >= self.versions.len() && e == VersionError::NoSuchVersion,
            },
    {
        if version >= self.versions.len() as u64 {
            return Err(VersionError::NoSuchVersion);
        }
        Ok(self.versions[version as usize])
    }

    /// The newest version.
    pub fn get_newest(&self) -> (r: DataInfo)
        requires
            self.wf(),
        ensures
            r == self.versions@.last(),
    {
        self.versions[self.versions.len() - 1]
    }

    /// All that was shared into the history, oldest first.
    pub fn get_shared(&self) -> (r: Vec<SharedDataInfo>)
        ensures
            r@ == self.shared@,
    {
        let mut out: Vec<SharedDataInfo> = Vec::new();
        let mut i: usize = 0;
        while i < self.shared.len()
            invariant
                i <= self.shared.len(),
                out@ == self.shared@.subrange(0, i as int),
            decreases self.shared.len() - i,
        {
            out.push(self.shared[i]);
            proof {
                assert(out@ =~= self.shared@.subrange(0, i + 1));
            }
            i += 1;
        }
        proof {
            assert(out@ =~= self.shared@);
        }
        out
    }
}

} // verus!
