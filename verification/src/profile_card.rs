//! A profile card: the domain names that a profile holds, each backed by a
//! token and, if the profile has one, by the token of its avatar.

use crate::assoc::{
    assoc_map, has_key, keys_distinct, lemma_assoc_absent, lemma_assoc_at, lemma_assoc_remove,
    lemma_assoc_update, position,
};
use crate::string_set::{
    lemma_text_precedes_transitive, lemma_text_total_order, text_before, text_precedes,
    texts_ascending,
};
use crate::types::{copy_text, Address};
use vstd::prelude::*;

verus! {

/// A token: the ledger that keeps it and its id there.
#[derive(Clone, Copy, Debug, PartialEq, Eq)]
pub struct Nft {
    pub address: Address,
    pub id: u128,
}

/// A domain name of the profile with the tokens that back it.
#[derive(Clone, Debug, PartialEq, Eq)]
pub struct DomainName {
    pub name: String,
    pub name_nft: Nft,
    pub provatar_nft: Option<Nft>,
}

/// The tokens that back a domain name.
pub struct Backing {
    pub name_nft: Nft,
    pub provatar_nft: Option<Nft>,
}

/// What the profile says of itself.
#[derive(Clone, Debug, PartialEq, Eq)]
pub struct Metadata {
    pub name: String,
    pub description: Option<String>,
}

/// A token that is to be moved on its ledger from one holder to another.
#[derive(Clone, Copy, Debug, PartialEq, Eq)]
pub struct NftTransfer {
    pub nft: Nft,
    pub from: Address,
    pub to: Address,
}

/// Why an operation on a profile card failed. A failed operation leaves the
/// profile card as it was.
#[derive(Clone, Copy, Debug, PartialEq, Eq, Structural, Hash)]
pub enum ProfileError {
    /// The caller is not the owner of the contract.
    NotContractOwner,
    /// The profile card has been set up before.
    AlreadyInitialized,
    /// The profile card has not been set up yet.
    NotInitialized,
    /// The caller does not hold the token of the name.
    NotNameNftOwner,
    /// The caller does not hold the token of the avatar.
    NotProvatarNftOwner,
    /// The profile has no such name.
    CannotFindName,
}

/// The names of a profile with their backings.
pub type Names = Map<Seq<char>, Backing>;

/// The names after `caller` has added `name`, backed by `name_nft`, which
/// `name_nft_owner` holds, and by the avatar token `provatar`, if one is
/// given together with its holder. A name that the profile has already is
/// replaced.
pub open spec fn added(
    names: Names,
    caller: Address,
    contract_owner: Address,
    name: Seq<char>,
    name_nft: Nft,
    name_nft_owner: Address,
    provatar: Option<(Nft, Address)>,
) -> Result<Names, ProfileError> {
    if caller != contract_owner {
        Err(ProfileError::NotContractOwner)
    } else if name_nft_owner != caller {
        Err(ProfileError::NotNameNftOwner)
    } else {
        match provatar {
            None => Ok(names.insert(name, Backing { name_nft, provatar_nft: None })),
            Some((nft, holder)) => if holder != caller {
                Err(ProfileError::NotProvatarNftOwner)
            } else {
                Ok(names.insert(name, Backing { name_nft, provatar_nft: Some(nft) }))
            },
        }
    }
}

/// The names after `caller` has given `name` the avatar token `nft`, which
/// `nft_owner` holds.
pub open spec fn with_provatar(
    names: Names,
    caller: Address,
    contract_owner: Address,
    name: Seq<char>,
    nft: Nft,
    nft_owner: Address,
) -> Result<Names, ProfileError> {
    if caller != contract_owner {
        Err(ProfileError::NotContractOwner)
    } else if !names.contains_key(name) {
        Err(ProfileError::CannotFindName)
    } else if nft_owner != caller {
        Err(ProfileError::NotProvatarNftOwner)
    } else {
        Ok(names.insert(name, Backing { provatar_nft: Some(nft), ..names[name] }))
    }
}

/// The tokens of a name that leaves the profile go from `instance` to `to`:
/// the token of the name first, then that of the avatar if there is one.
pub open spec fn handing_over(backing: Backing, instance: Address, to: Address) -> Seq<NftTransfer> {
    let first = NftTransfer { nft: backing.name_nft, from: instance, to };
    match backing.provatar_nft {
        Some(nft) => seq![first, NftTransfer { nft, from: instance, to }],
        None => seq![first],
    }
}

/// A profile card. The names are kept in ascending order.
#[derive(Clone, Debug, PartialEq, Eq)]
pub struct Contract {
    pub metadata: Metadata,
    pub names: Vec<DomainName>,
}

impl View for Contract {
    type V = Names;

    open spec fn view(&self) -> Names {
        assoc_map(self.entries())
    }
}

impl Contract {
    /// The names as pairs of a name and its backing.
    pub open spec fn entries(self) -> Seq<(Seq<char>, Backing)> {
        Seq::new(
            self.names.len() as nat,
            |i: int|
                (
                    self.names[i].name@,
                    Backing {
                        name_nft: self.names[i].name_nft,
                        provatar_nft: self.names[i].provatar_nft,
                    },
                ),
        )
    }

    /// The names in the order in which they are kept.
    pub open spec fn texts(self) -> Seq<Seq<char>> {
        Seq::new(self.names.len() as nat, |i: int| self.names[i].name@)
    }

    /// The names ascend.
    pub open spec fn wf(self) -> bool {
        texts_ascending(self.texts())
    }

    /// Decides whether the profile card is well-formed.
    pub fn is_wf(&self) -> (r: bool)
        ensures
            r == self.wf(),
    {
        let ghost texts = self.texts();
        if self.names.len() == 0 {
            return true;
        }
        let mut i: usize = 1;
        while i < self.names.len()
            invariant
                texts == self.texts(),
                1 <= i <= self.names.len(),
                forall|a: int, b: int|
                    0 <= a < b < i ==> text_precedes(#[trigger] texts[a], #[trigger] texts[b]),
            decreases self.names.len() - i,
        {
            if !text_before(&self.names[i - 1].name, &self.names[i].name) {
                proof {
                    assert(!text_precedes(texts[i - 1], texts[i as int]));
                }
                return false;
            }
            proof {
                assert forall|a: int, b: int| 0 <= a < b < i + 1 implies text_precedes(
                    #[trigger] texts[a],
                    #[trigger] texts[b],
                ) by {
                    if b == i && a < i - 1 {
                        assert(text_precedes(texts[a], texts[i - 1]));
                        lemma_text_precedes_transitive(texts[a], texts[i - 1], texts[i as int]);
                    }
                }
            }
            i += 1;
        }
        true
    }

    /// In a well-formed profile card no name occurs twice.
    pub proof fn lemma_distinct(self)
        requires
            self.wf(),
        ensures
            keys_distinct(self.entries()),
    {
        assert forall|i: int, j: int| 0 <= i < j < self.entries().len() implies (
        #[trigger] self.entries()[i]).0 != (#[trigger] self.entries()[j]).0 by {
            assert(text_precedes(self.texts()[i], self.texts()[j]));
            lemma_text_total_order(self.texts()[i], self.texts()[j]);
        }
    }

    /// Sets the profile card up. It can be set up only once, and only by the
    /// owner of the contract.
    pub fn new(caller: Address, contract_owner: Address, initialized: bool, metadata: Metadata) -> (r:
        Result<Contract, ProfileError>)
        ensures
            match r {
                Ok(c) => {
                    &&& !initialized
                    &&& caller == contract_owner
                    &&& c.wf()
                    &&& c.metadata == metadata
                    &&& c@ == Map::<Seq<char>, Backing>::empty()
                },
                Err(e) => if initialized {
                    e == ProfileError::AlreadyInitialized
                } else {
                    caller != contract_owner && e == ProfileError::NotContractOwner
                },
            },
    {
        if initialized {
            return Err(ProfileError::AlreadyInitialized);
        }
        if caller != contract_owner {
            return Err(ProfileError::NotContractOwner);
        }
        let c = Contract { metadata, names: Vec::new() };
        proof {
            assert(c@ =~= Map::<Seq<char>, Backing>::empty());
        }
        Ok(c)
    }

    /// Whether `caller` may change the profile card: only the owner of the
    /// contract may.
    pub fn assert_owner(caller: Address, contract_owner: Address) -> (r: Result<(), ProfileError>)
        ensures
            match r {
                Ok(()) => caller == contract_owner,
                Err(e) => caller != contract_owner && e == ProfileError::NotContractOwner,
            },
    {
        if caller != contract_owner {
            Err(ProfileError::NotContractOwner)
        } else {
            Ok(())
        }
    }

    /// The stored profile card, if there is one: without one the profile
    /// card is not set up.
    pub fn load(stored: Option<Contract>) -> (r: Result<Contract, ProfileError>)
        ensures
            match r {
                Ok(c) => stored == Some(c),
                Err(e) => stored is None && e == ProfileError::NotInitialized,
            },
    {
        match stored {
            Some(c) => Ok(c),
            None => Err(ProfileError::NotInitialized),
        }
    }

    /// The index of `name`, if the profile has it.
    pub fn find_name(&self, name: &String) -> (r: Option<usize>)
        requires
            self.wf(),
        ensures
            match r {
                Some(i) => {
                    &&& i < self.names.len()
                    &&& self.names[i as int].name@ == name@
                    &&& self@.contains_key(name@)
                    &&& self@[name@] == self.entries()[i as int].1
                },
                None => !self@.contains_key(name@),
            },
    {
        let mut i: usize = 0;
        while i < self.names.len()
            invariant
                self.wf(),
                i <= self.names.len(),
                forall|j: int| 0 <= j < i ==> self.names[j].name@ != name@,
            decreases self.names.len() - i,
        {
            if self.names[i].name == *name {
                proof {
                    self.lemma_distinct();
                    lemma_assoc_at(self.entries(), i as int);
                }
                return Some(i);
            }
            i += 1;
        }
        proof {
            lemma_assoc_absent(self.entries(), name@);
        }
        None
    }

    /// Puts `name` with its backing into the profile, in place of what the
    /// profile has for it.
    fn put(&mut self, name: String, name_nft: Nft, provatar_nft: Option<Nft>)
        requires
            old(self).wf(),
        ensures
            final(self).wf(),
            final(self).metadata == old(self).metadata,
            final(self)@ == old(self)@.insert(name@, Backing { name_nft, provatar_nft }),
    {
        let ghost backing = Backing { name_nft, provatar_nft };
        proof {
            old(self).lemma_distinct();
        }
        match self.find_name(&name) {
            Some(i) => {
                self.names[i].name_nft = name_nft;
                self.names[i].provatar_nft = provatar_nft;
                proof {
                    lemma_assoc_update(old(self).entries(), i as int, backing);
                    assert(self.entries() =~= old(self).entries().update(
                        i as int,
                        (name@, backing),
                    ));
                    assert(self.texts() =~= old(self).texts());
                }
            },
            None => {
                let ghost before = old(self).texts();
                let mut p: usize = 0;
                while p < self.names.len() && text_before(&self.names[p].name, &name)
                    invariant
                        p <= self.names.len(),
                        *self == *old(self),
                        before == self.texts(),
                        forall|k: int| 0 <= k < p ==> text_precedes(#[trigger] before[k], name@),
                    decreases self.names.len() - p,
                {
                    p += 1;
                }
                let ghost text = name@;
                self.names.insert(p, DomainName { name, name_nft, provatar_nft });
                proof {
                    let after = self.texts();
                    let old_e = old(self).entries();
                    let new_e = self.entries();
                    assert(after =~= before.insert(p as int, text));
                    assert forall|k: int| 0 <= k < before.len() implies #[trigger] before[k]
                        != text by {
                        assert(old_e[k].0 == before[k]);
                    }
                    assert forall|x: int, y: int| 0 <= x < y < after.len() implies text_precedes(
                        #[trigger] after[x],
                        #[trigger] after[y],
                    ) by {
                        if y < p {
                            assert(text_precedes(before[x], before[y]));
                        } else if y == p {
                            assert(text_precedes(before[x], text));
                        } else if x > p {
                            assert(text_precedes(before[x - 1], before[y - 1]));
                        } else if x == p {
                            assert(!text_precedes(before[p as int], text));
                            assert(before[p as int] != text);
                            lemma_text_total_order(text, before[p as int]);
                            if y - 1 > p {
                                assert(text_precedes(before[p as int], before[y - 1]));
                                lemma_text_precedes_transitive(
                                    text,
                                    before[p as int],
                                    before[y - 1],
                                );
                            }
                        } else {
                            assert(text_precedes(before[x], before[y - 1]));
                        }
                    }
                    self.lemma_distinct();
                    assert forall|x: Seq<char>| #[trigger]
                        assoc_map(new_e).contains_key(x) <==> assoc_map(old_e).insert(
                            text,
                            backing,
                        ).contains_key(x) by {
                        if has_key(new_e, x) {
                            let k = position(new_e, x);
                            if k < p {
                                assert(old_e[k].0 == x);
                            } else if k > p {
                                assert(old_e[k - 1].0 == x);
                            }
                        }
                        if has_key(old_e, x) {
                            let k = position(old_e, x);
                            if k < p {
                                assert(new_e[k].0 == x);
                            } else {
                                assert(new_e[k + 1].0 == x);
                            }
                        }
                        if x == text {
                            assert(new_e[p as int].0 == x);
                        }
                    }
                    assert forall|x: Seq<char>| #[trigger]
                        assoc_map(new_e).contains_key(x) implies assoc_map(new_e)[x] == assoc_map(
                        old_e,
                    ).insert(text, backing)[x] by {
                        let k = position(new_e, x);
                        lemma_assoc_at(new_e, k);
                        if k < p {
                            assert(old_e[k] == new_e[k]);
                            lemma_assoc_at(old_e, k);
                        } else if k > p {
                            assert(old_e[k - 1] == new_e[k]);
                            lemma_assoc_at(old_e, k - 1);
                        }
                    }
                    assert(assoc_map(new_e) =~= assoc_map(old_e).insert(text, backing));
                }
            },
        }
    }

    /// The owner of the contract adds the domain name `domain_name`, backed
    /// by the token `name_nft`, and by the avatar token of `provatar` if one
    /// is given. `name_nft_owner` is the holder of `name_nft`,
    /// `domain_name` is the name that the ledger of `name_nft` gives to it,
    /// and `provatar` comes with the holder of its token. `instance` is the
    /// address of this contract. Returns the transfers that put the tokens
    /// into the hands of this contract: that of the name, then that of the
    /// avatar.
    ///
    /// Fails with `NotContractOwner` where `caller` is not the owner, else
    /// with `NotNameNftOwner` where `caller` does not hold `name_nft`, else
    /// with `NotProvatarNftOwner` where an avatar token is given that
    /// `caller` does not hold.
    pub fn add_name(
        &mut self,
        caller: Address,
        contract_owner: Address,
        instance: Address,
        name_nft: Nft,
        name_nft_owner: Address,
        domain_name: String,
        provatar: Option<(Nft, Address)>,
    ) -> (r: Result<Vec<NftTransfer>, ProfileError>)
        requires
            old(self).wf(),
        ensures
            final(self).wf(),
            final(self).metadata == old(self).metadata,
            match r {
                Ok(transfers) => {
                    &&& added(
                        old(self)@,
                        caller,
                        contract_owner,
                        domain_name@,
                        name_nft,
                        name_nft_owner,
                        provatar,
                    ) == Ok::<Names, ProfileError>(final(self)@)
                    &&& transfers@ == match provatar {
                        Some((nft, _)) => seq![
                            NftTransfer { nft: name_nft, from: caller, to: instance },
                            NftTransfer { nft, from: caller, to: instance },
                        ],
                        None => seq![NftTransfer { nft: name_nft, from: caller, to: instance }],
                    }
                },
                Err(e) => {
                    &&& added(
                        old(self)@,
                        caller,
                        contract_owner,
                        domain_name@,
                        name_nft,
                        name_nft_owner,
                        provatar,
                    ) == Err::<Names, ProfileError>(e)
                    &&& *final(self) == *old(self)
                },
            },
    {
        if caller != contract_owner {
            return Err(ProfileError::NotContractOwner);
        }
        if name_nft_owner != caller {
            return Err(ProfileError::NotNameNftOwner);
        }
        let mut transfers: Vec<NftTransfer> = Vec::new();
        transfers.push(NftTransfer { nft: name_nft, from: caller, to: instance });
        let provatar_nft = match provatar {
            None => None,
            Some((nft, holder)) => {
                if holder != caller {
                    return Err(ProfileError::NotProvatarNftOwner);
                }
                transfers.push(NftTransfer { nft, from: caller, to: instance });
                Some(nft)
            },
        };
        self.put(domain_name, name_nft, provatar_nft);
        proof {
            match provatar {
                Some((nft, _)) => {
                    assert(transfers@ =~= seq![
                        NftTransfer { nft: name_nft, from: caller, to: instance },
                        NftTransfer { nft, from: caller, to: instance },
                    ]);
                },
                None => {
                    assert(transfers@ =~= seq![
                        NftTransfer { nft: name_nft, from: caller, to: instance },
                    ]);
                },
            }
        }
        Ok(transfers)
    }

    /// The owner of the contract gives the name `name` the avatar token
    /// `nft`, which `nft_owner` holds. `instance` is the address of this
    /// contract. Returns the transfer that puts the token into the hands of
    /// this contract.
    ///
    /// Fails with `NotContractOwner` where `caller` is not the owner, else
    /// with `CannotFindName` where the profile has no such name, else with
    /// `NotProvatarNftOwner` where `caller` does not hold `nft`.
    pub fn add_provatar(
        &mut self,
        caller: Address,
        contract_owner: Address,
        instance: Address,
        name: String,
        nft: Nft,
        nft_owner: Address,
    ) -> (r: Result<NftTransfer, ProfileError>)
        requires
            old(self).wf(),
        ensures
            final(self).wf(),
            final(self).metadata == old(self).metadata,
            match r {
                Ok(transfer) => {
                    &&& with_provatar(old(self)@, caller, contract_owner, name@, nft, nft_owner)
                        == Ok::<Names, ProfileError>(final(self)@)
                    &&& transfer == (NftTransfer { nft, from: caller, to: instance })
                },
                Err(e) => {
                    &&& with_provatar(old(self)@, caller, contract_owner, name@, nft, nft_owner)
                        == Err::<Names, ProfileError>(e)
                    &&& *final(self) == *old(self)
                },
            },
    {
        if caller != contract_owner {
            return Err(ProfileError::NotContractOwner);
        }
        let i = match self.find_name(&name) {
            Some(i) => i,
            None => {
                return Err(ProfileError::CannotFindName);
            },
        };
        if nft_owner != caller {
            return Err(ProfileError::NotProvatarNftOwner);
        }
        let name_nft = self.names[i].name_nft;
        self.put(name, name_nft, Some(nft));
        Ok(NftTransfer { nft, from: caller, to: instance })
    }

    /// The owner of the contract hands the name `name` over to `to`: the
    /// name leaves the profile. `instance` is the address of this contract.
    /// Returns the transfers that put the tokens of the name into the hands
    /// of `to`: that of the name, then that of the avatar if there is one.
    ///
    /// Fails with `NotContractOwner` where `caller` is not the owner, else
    /// with `CannotFindName` where the profile has no such name.
    pub fn transfer_name(
        &mut self,
        caller: Address,
        contract_owner: Address,
        instance: Address,
        name: &String,
        to: Address,
    ) -> (r: Result<Vec<NftTransfer>, ProfileError>)
        requires
            old(self).wf(),
        ensures
            final(self).wf(),
            final(self).metadata == old(self).metadata,
            match r {
                Ok(transfers) => {
                    &&& caller == contract_owner
                    &&& old(self)@.contains_key(name@)
                    &&& final(self)@ == old(self)@.remove(name@)
                    &&& transfers@ == handing_over(old(self)@[name@], instance, to)
                },
                Err(e) => {
                    &&& *final(self) == *old(self)
                    &&& if caller != contract_owner {
                        e == ProfileError::NotContractOwner
                    } else {
                        !old(self)@.contains_key(name@) && e == ProfileError::CannotFindName
                    }
                },
            },
    {
        if caller != contract_owner {
            return Err(ProfileError::NotContractOwner);
        }
        let i = match self.find_name(name) {
            Some(i) => i,
            None => {
                return Err(ProfileError::CannotFindName);
            },
        };
        proof {
            old(self).lemma_distinct();
            lemma_assoc_remove(old(self).entries(), i as int);
        }
        let record = self.names.remove(i);
        proof {
            let before = old(self).texts();
            let after = self.texts();
            assert(self.entries() =~= old(self).entries().remove(i as int));
            assert(after =~= before.remove(i as int));
            assert forall|x: int, y: int| 0 <= x < y < after.len() implies text_precedes(
                #[trigger] after[x],
                #[trigger] after[y],
            ) by {
                let x2 = if x < i {
                    x
                } else {
                    x + 1
                };
                let y2 = if y < i {
                    y
                } else {
                    y + 1
                };
                assert(text_precedes(before[x2], before[y2]));
            }
        }
        let mut transfers: Vec<NftTransfer> = Vec::new();
        transfers.push(NftTransfer { nft: record.name_nft, from: instance, to });
        match record.provatar_nft {
            Some(nft) => {
                transfers.push(NftTransfer { nft, from: instance, to });
            },
            None => {},
        }
        proof {
            assert(transfers@ =~= handing_over(old(self)@[name@], instance, to));
        }
        Ok(transfers)
    }

    /// The owner of the contract replaces what the profile says of itself.
    ///
    /// Fails with `NotContractOwner` where `caller` is not the owner.
    pub fn update_metadata(&mut self, caller: Address, contract_owner: Address, metadata: Metadata)
        -> (r: Result<(), ProfileError>)
        ensures
            match r {
                Ok(()) => {
                    &&& caller == contract_owner
                    &&& *final(self) == (Contract { metadata, ..*old(self) })
                },
                Err(e) => {
                    &&& caller != contract_owner
                    &&& e == ProfileError::NotContractOwner
                    &&& *final(self) == *old(self)
                },
            },
    {
        if caller != contract_owner {
            return Err(ProfileError::NotContractOwner);
        }
        self.metadata = metadata;
        Ok(())
    }

    /// What the profile says of itself.
    pub fn metadata(&self) -> (r: Metadata)
        ensures
            r == self.metadata,
    {
        Metadata {
            name: self.metadata.name.clone(),
            description: copy_text(&self.metadata.description),
        }
    }

    /// The names of the profile with their backings, in ascending order of
    /// the names.
    pub fn list_names(&self) -> (r: Vec<DomainName>)
        requires
            self.wf(),
        ensures
            r@.len() == self.names@.len(),
            forall|i: int|
                0 <= i < r@.len() ==> {
                    &&& (#[trigger] r@[i]).name@ == self.names@[i].name@
                    &&& r@[i].name_nft == self.names@[i].name_nft
                    &&& r@[i].provatar_nft == self.names@[i].provatar_nft
                },
    {
        let mut out: Vec<DomainName> = Vec::new();
        let mut i: usize = 0;
        while i < self.names.len()
            invariant
                i <= self.names.len(),
                out@.len() == i,
                forall|k: int|
                    0 <= k < i ==> {
                        &&& (#[trigger] out@[k]).name@ == self.names@[k].name@
                        &&& out@[k].name_nft == self.names@[k].name_nft
                        &&& out@[k].provatar_nft == self.names@[k].provatar_nft
                    },
            decreases self.names.len() - i,
        {
            out.push(
                DomainName {
                    name: self.names[i].name.clone(),
                    name_nft: self.names[i].name_nft,
                    provatar_nft: self.names[i].provatar_nft,
                },
            );
            i += 1;
        }
        out
    }
}

} // verus!
