//! The name service: names of the form `NAME.l1x`, each with an owner and
//! a resolver, the operators that may transfer a name, and the names that
//! are denied.

use crate::address_set::{lists_addresses, AddressSet};
use crate::assoc::{
    assoc_map, has_key, keys_distinct, lemma_assoc_absent, lemma_assoc_at, lemma_assoc_push,
    lemma_assoc_remove, lemma_assoc_update, position,
};
use crate::string_set::{lists_texts, texts_of, StringSet};
use crate::types::{copy_text, Address};
use vstd::prelude::*;
use vstd::string::StrSliceExecFns;
use vstd::utf8::encode_utf8;

verus! {

/// The greatest length of a name, in bytes.
pub const MAX_NAME_LENGTH: usize = 20;

/// The lowercase form of a string, as the standard library gives it.
pub uninterp spec fn lowercase_of(text: Seq<char>) -> Seq<char>;

/// The lowercase form of `text`.
///
/// Calls `str::to_lowercase` of the standard library. The claim is that
/// the result depends on the characters of `text` alone; which characters
/// it holds is not stated.
#[verifier::external_body]
fn to_lowercase(text: &String) -> (r: String)
    ensures
        r@ == lowercase_of(text@),
{
    text.to_lowercase()
}

/// `lower` is a name without a dot, then a dot, then `l1x`.
pub open spec fn has_root_form(lower: Seq<char>) -> bool {
    let n = lower.len();
    &&& n >= 4
    &&& lower[n - 4] == '.'
    &&& lower[n - 3] == 'l'
    &&& lower[n - 2] == '1'
    &&& lower[n - 1] == 'x'
    &&& forall|i: int| 0 <= i < n - 4 ==> lower[i] != '.'
}

/// Decides whether `lower` is a name without a dot, then a dot, then `l1x`.
pub fn is_root_form(lower: &String) -> (r: bool)
    ensures
        r == has_root_form(lower@),
{
    let text = lower.as_str();
    let n = text.unicode_len();
    if n < 4 {
        return false;
    }
    let dot = text.get_char(n - 4);
    let first = text.get_char(n - 3);
    let second = text.get_char(n - 2);
    let third = text.get_char(n - 1);
    proof {
        assert(lower@[n - 4] == dot);
        assert(lower@[n - 3] == first);
        assert(lower@[n - 2] == second);
        assert(lower@[n - 1] == third);
    }
    if dot != '.' || first != 'l' || second != '1' || third != 'x' {
        return false;
    }
    let mut i: usize = 0;
    while i < n - 4
        invariant
            n == text@.len(),
            text@ == lower@,
            n >= 4,
            i <= n - 4,
            forall|j: int| 0 <= j < i ==> lower@[j] != '.',
        decreases n - 4 - i,
    {
        if text.get_char(i) == '.' {
            proof {
                assert(lower@[i as int] == '.');
            }
            return false;
        }
        i += 1;
    }
    true
}

/// What stands against `name` as a name of the service: that it is longer
/// than 20 bytes, else that its lowercase form is not `NAME.l1x`.
pub open spec fn name_failure(name: Seq<char>) -> Option<NameError> {
    if encode_utf8(name).len() > MAX_NAME_LENGTH {
        Some(NameError::NameTooLong)
    } else if !has_root_form(lowercase_of(name)) {
        Some(NameError::InvalidName)
    } else {
        None
    }
}

/// Why an operation of the name service failed. A failed operation leaves
/// the service as it was.
#[derive(Clone, Copy, Debug, PartialEq, Eq, Structural, Hash)]
pub enum NameError {
    /// The caller is not the owner of the contract.
    NotContractOwner,
    /// The service has been set up before.
    AlreadyInitialized,
    /// The service has not been set up yet.
    NotInitialized,
    /// The name is longer than 20 bytes.
    NameTooLong,
    /// The name is not of the form `NAME.l1x`.
    InvalidName,
    /// The name is denied.
    NameDenied,
    /// The name is registered already.
    AlreadyRegistered,
    /// The name is not registered.
    NameNotFound,
    /// The caller does not own the name.
    NotOwned,
    /// The user is not the owner of the name.
    NotNameOwner,
    /// No operator is approved for the name.
    NoTransferApproval,
    /// The caller is neither the owner of the contract nor an administrator.
    NotOwnerOrAdministrator,
    /// The user is an administrator already.
    AlreadyAdministrator,
}

/// A registered name.
#[derive(Clone, Debug, PartialEq, Eq)]
pub struct Name {
    pub name: String,
    pub resolver: Address,
    pub owner: Address,
}

/// A registered name as a mathematical value.
pub struct NameView {
    pub name: Seq<char>,
    pub resolver: Address,
    pub owner: Address,
}

impl View for Name {
    type V = NameView;

    open spec fn view(&self) -> NameView {
        NameView { name: self.name@, resolver: self.resolver, owner: self.owner }
    }
}

impl Name {
    /// Whether the lowercase form of `name` is `NAME.l1x`. The name must not
    /// be longer than 20 bytes.
    pub fn is_valid(name: &String) -> (r: bool)
        requires
            encode_utf8(name@).len() <= MAX_NAME_LENGTH,
        ensures
            r == has_root_form(lowercase_of(name@)),
    {
        let lower = to_lowercase(name);
        is_root_form(&lower)
    }

    /// What stands against `name` as a name of the service, if anything.
    pub fn check(name: &String) -> (r: Option<NameError>)
        ensures
            r == name_failure(name@),
    {
        if name.as_str().as_bytes().len() > MAX_NAME_LENGTH {
            return Some(NameError::NameTooLong);
        }
        if !Name::is_valid(name) {
            return Some(NameError::InvalidName);
        }
        None
    }

    /// A copy of the record.
    pub fn duplicate(&self) -> (r: Name)
        ensures
            r@ == self@,
    {
        Name { name: self.name.clone(), resolver: self.resolver, owner: self.owner }
    }
}

/// The operator that may transfer a name.
#[derive(Clone, Debug, PartialEq, Eq)]
pub struct TransferApproval {
    pub name: String,
    pub operator: Address,
}

/// What the service says of itself.
#[derive(Clone, Debug, PartialEq, Eq)]
pub struct Metadata {
    pub name: String,
    pub description: Option<String>,
}

/// The state of the name service as a mathematical value.
pub struct NameState {
    /// The registered names. A name that changes its owner moves to the end.
    pub records: Seq<NameView>,
    /// For a name, the operator that may transfer it.
    pub approvals: Map<Seq<char>, Address>,
    /// The denied names.
    pub denied: Set<Seq<char>>,
    /// The administrators.
    pub admins: Set<Address>,
}

/// The records `records` as pairs of a name and a record.
pub open spec fn record_entries(records: Seq<NameView>) -> Seq<(Seq<char>, NameView)> {
    Seq::new(records.len(), |i: int| (records[i].name, records[i]))
}

impl NameState {
    /// Whether `name` is registered.
    pub open spec fn registered(self, name: Seq<char>) -> bool {
        has_key(record_entries(self.records), name)
    }

    /// The index of the record of `name`, which is registered.
    pub open spec fn index(self, name: Seq<char>) -> int {
        position(record_entries(self.records), name)
    }

    /// The record of `name`, which is registered.
    pub open spec fn record(self, name: Seq<char>) -> NameView {
        self.records[self.index(name)]
    }

    /// Whether `user` owns `name`.
    pub open spec fn owns(self, user: Address, name: Seq<char>) -> bool {
        self.registered(name) && self.record(name).owner == user
    }

    /// No name is registered twice, operators are approved for registered
    /// names only, and no denied name is registered.
    pub open spec fn wf(self) -> bool {
        &&& keys_distinct(record_entries(self.records))
        &&& forall|n: Seq<char>| #[trigger] self.approvals.contains_key(n) ==> self.registered(n)
        &&& forall|n: Seq<char>| #[trigger] self.denied.contains(n) ==> !self.registered(n)
    }

    /// Whether `caller` is the owner of the contract or an administrator.
    pub open spec fn owner_or_admin(self, caller: Address, contract_owner: Address) -> bool {
        caller == contract_owner || self.admins.contains(caller)
    }

    /// `caller` registers `name` for itself, with `resolver` or else itself
    /// as the resolver.
    pub open spec fn register(self, caller: Address, name: Seq<char>, resolver: Option<Address>)
        -> Result<NameState, NameError> {
        if let Some(e) = name_failure(name) {
            Err(e)
        } else if self.denied.contains(name) {
            Err(NameError::NameDenied)
        } else if self.registered(name) {
            Err(NameError::AlreadyRegistered)
        } else {
            let resolver = match resolver {
                Some(r) => r,
                None => caller,
            };
            Ok(
                NameState {
                    records: self.records.push(NameView { name, resolver, owner: caller }),
                    ..self
                },
            )
        }
    }

    /// The resolver of `name`.
    pub open spec fn resolve(self, name: Seq<char>) -> Result<Address, NameError> {
        if self.registered(name) {
            Ok(self.record(name).resolver)
        } else {
            Err(NameError::NameNotFound)
        }
    }

    /// The owner of `name`.
    pub open spec fn owner_of(self, name: Seq<char>) -> Result<Address, NameError> {
        if self.registered(name) {
            Ok(self.record(name).owner)
        } else {
            Err(NameError::NameNotFound)
        }
    }

    /// `caller`, who owns `name`, gives it a new resolver.
    pub open spec fn change_resolver(self, caller: Address, name: Seq<char>, new_resolver: Address)
        -> Result<NameState, NameError> {
        if let Some(e) = name_failure(name) {
            Err(e)
        } else if !self.owns(caller, name) {
            Err(NameError::NotOwned)
        } else {
            Ok(
                NameState {
                    records: self.records.update(
                        self.index(name),
                        NameView { resolver: new_resolver, ..self.record(name) },
                    ),
                    ..self
                },
            )
        }
    }

    /// `caller` hands `name` over to `new_owner`. The approved operator of
    /// the name may, and its approval is then used up; anyone else must own
    /// the name, and an approval that stands for the name stays.
    pub open spec fn transfer(self, caller: Address, name: Seq<char>, new_owner: Address) -> Result<
        NameState,
        NameError,
    > {
        if let Some(e) = name_failure(name) {
            Err(e)
        } else {
            let by_operator = self.approvals.contains_key(name) && self.approvals[name] == caller;
            if !by_operator && !self.owns(caller, name) {
                Err(NameError::NotOwned)
            } else {
                Ok(
                    NameState {
                        records: self.records.remove(self.index(name)).push(
                            NameView { owner: new_owner, ..self.record(name) },
                        ),
                        approvals: if by_operator {
                            self.approvals.remove(name)
                        } else {
                            self.approvals
                        },
                        ..self
                    },
                )
            }
        }
    }

    /// `caller`, who owns `name`, approves `operator` to transfer it.
    pub open spec fn approve_transfer(self, caller: Address, name: Seq<char>, operator: Address)
        -> Result<NameState, NameError> {
        if let Some(e) = name_failure(name) {
            Err(e)
        } else if self.denied.contains(name) {
            Err(NameError::NameDenied)
        } else if !self.owns(caller, name) {
            Err(NameError::NotOwned)
        } else {
            Ok(NameState { approvals: self.approvals.insert(name, operator), ..self })
        }
    }

    /// `caller`, who owns `name`, takes the approval of its operator back.
    pub open spec fn remove_approvals(self, caller: Address, name: Seq<char>) -> Result<
        NameState,
        NameError,
    > {
        if let Some(e) = name_failure(name) {
            Err(e)
        } else if !self.registered(name) {
            Err(NameError::NameNotFound)
        } else if self.record(name).owner != caller {
            Err(NameError::NotNameOwner)
        } else if !self.approvals.contains_key(name) {
            Err(NameError::NoTransferApproval)
        } else {
            Ok(NameState { approvals: self.approvals.remove(name), ..self })
        }
    }

    /// The owner of the contract or an administrator denies `name`, which
    /// is registered: the registration goes, and the approval of its
    /// operator with it.
    pub open spec fn deny(self, caller: Address, contract_owner: Address, name: Seq<char>) -> Result<
        NameState,
        NameError,
    > {
        if let Some(e) = name_failure(name) {
            Err(e)
        } else if self.denied.contains(name) {
            Err(NameError::NameDenied)
        } else if !self.owner_or_admin(caller, contract_owner) {
            Err(NameError::NotOwnerOrAdministrator)
        } else if !self.registered(name) {
            Err(NameError::NameNotFound)
        } else {
            Ok(
                NameState {
                    records: self.records.remove(self.index(name)),
                    approvals: self.approvals.remove(name),
                    denied: self.denied.insert(name),
                    ..self
                },
            )
        }
    }

    /// The owner of the contract or an administrator allows `name` again.
    pub open spec fn allow(self, caller: Address, contract_owner: Address, name: Seq<char>) -> Result<
        NameState,
        NameError,
    > {
        if let Some(e) = name_failure(name) {
            Err(e)
        } else if !self.owner_or_admin(caller, contract_owner) {
            Err(NameError::NotOwnerOrAdministrator)
        } else {
            Ok(NameState { denied: self.denied.remove(name), ..self })
        }
    }
}

/// The test whether a record belongs to `user`.
pub open spec fn owned_by(user: Address) -> spec_fn(NameView) -> bool {
    |record: NameView| record.owner == user
}

/// The name service.
#[derive(Clone, Debug, PartialEq, Eq)]
pub struct Contract {
    pub names: Vec<Name>,
    pub denied_names: StringSet,
    pub approved_transfers: Vec<TransferApproval>,
    pub administrators: AddressSet,
    pub metadata: Metadata,
}

impl View for Contract {
    type V = NameState;

    open spec fn view(&self) -> NameState {
        NameState {
            records: self.records(),
            approvals: assoc_map(self.approval_entries()),
            denied: self.denied_names@,
            admins: self.administrators@,
        }
    }
}

impl Contract {
    /// The registered names as mathematical values.
    pub open spec fn records(self) -> Seq<NameView> {
        Seq::new(self.names.len() as nat, |i: int| self.names[i]@)
    }

    /// The approvals as pairs of a name and an operator.
    pub open spec fn approval_entries(self) -> Seq<(Seq<char>, Address)> {
        Seq::new(
            self.approved_transfers.len() as nat,
            |i: int| (self.approved_transfers[i].name@, self.approved_transfers[i].operator),
        )
    }

    /// The state is well-formed, no name has two approvals, and the sets
    /// are in order.
    pub open spec fn wf(self) -> bool {
        &&& self@.wf()
        &&& keys_distinct(self.approval_entries())
        &&& self.denied_names.wf()
        &&& self.administrators.wf()
    }

    /// The index of the first record with the name `name`, if there is one.
    fn search(&self, name: &String) -> (r: Option<usize>)
        ensures
            match r {
                Some(i) => i < self.names.len() && self.names[i as int].name@ == name@
                    && self@.registered(name@),
                None => !self@.registered(name@),
            },
    {
        let mut i: usize = 0;
        while i < self.names.len()
            invariant
                i <= self.names.len(),
                forall|j: int| 0 <= j < i ==> self.names[j].name@ != name@,
            decreases self.names.len() - i,
        {
            if self.names[i].name == *name {
                proof {
                    assert(record_entries(self.records())[i as int].0 == name@);
                }
                return Some(i);
            }
            i += 1;
        }
        proof {
            lemma_assoc_absent(record_entries(self.records()), name@);
        }
        None
    }

    /// Decides whether the service is well-formed.
    pub fn is_wf(&self) -> (r: bool)
        ensures
            r == self.wf(),
    {
        if !self.denied_names.is_wf() || !self.administrators.is_wf() {
            return false;
        }
        let ghost records = record_entries(self.records());
        let mut i: usize = 0;
        while i < self.names.len()
            invariant
                i <= self.names.len(),
                records == record_entries(self.records()),
                forall|a: int, b: int|
                    0 <= a < b < i ==> (#[trigger] self.names[a]).name@ != (
                    #[trigger] self.names[b]).name@,
                forall|a: int|
                    0 <= a < i ==> !self@.denied.contains((#[trigger] self.names[a]).name@),
            decreases self.names.len() - i,
        {
            if self.denied_names.contains(&self.names[i].name) {
                proof {
                    assert(records[i as int].0 == self.names[i as int].name@);
                    assert(has_key(records, self.names[i as int].name@));
                    assert(self@.registered(self.names[i as int].name@));
                    assert(self@.denied.contains(self.names[i as int].name@));
                    assert(!self@.wf());
                }
                return false;
            }
            let mut j: usize = 0;
            while j < i
                invariant
                    j <= i,
                    i < self.names.len(),
                    records == record_entries(self.records()),
                    forall|a: int|
                        0 <= a < j ==> (#[trigger] self.names[a]).name@ != self.names[i as int].name@,
                decreases i - j,
            {
                if self.names[j].name == self.names[i].name {
                    proof {
                        assert(records[j as int].0 == records[i as int].0);
                    }
                    return false;
                }
                j += 1;
            }
            i += 1;
        }
        proof {
            assert forall|a: int, b: int| 0 <= a < b < records.len() implies (
            #[trigger] records[a]).0 != (#[trigger] records[b]).0 by {
                assert(self.names[a].name@ != self.names[b].name@);
            }
            assert forall|n: Seq<char>| #[trigger] self@.denied.contains(n) implies !self@.registered(
                n,
            ) by {
                if self@.registered(n) {
                    let k = position(records, n);
                    assert(records[k].0 == n);
                    assert(!self@.denied.contains(self.names[k].name@));
                }
            }
        }
        let ghost approvals = self.approval_entries();
        let mut i: usize = 0;
        while i < self.approved_transfers.len()
            invariant
                i <= self.approved_transfers.len(),
                approvals == self.approval_entries(),
                forall|a: int, b: int|
                    0 <= a < b < i ==> (#[trigger] self.approved_transfers[a]).name@ != (
                    #[trigger] self.approved_transfers[b]).name@,
                forall|a: int|
                    0 <= a < i ==> self@.registered((#[trigger] self.approved_transfers[a]).name@),
            decreases self.approved_transfers.len() - i,
        {
            if self.search(&self.approved_transfers[i].name).is_none() {
                proof {
                    assert(approvals[i as int].0 == self.approved_transfers[i as int].name@);
                    assert(has_key(approvals, self.approved_transfers[i as int].name@));
                    assert(self@.approvals.contains_key(self.approved_transfers[i as int].name@));
                }
                return false;
            }
            let mut j: usize = 0;
            while j < i
                invariant
                    j <= i,
                    i < self.approved_transfers.len(),
                    approvals == self.approval_entries(),
                    forall|a: int|
                        0 <= a < j ==> (#[trigger] self.approved_transfers[a]).name@
                            != self.approved_transfers[i as int].name@,
                decreases i - j,
            {
                if self.approved_transfers[j].name == self.approved_transfers[i].name {
                    proof {
                        assert(approvals[j as int].0 == approvals[i as int].0);
                    }
                    return false;
                }
                j += 1;
            }
            i += 1;
        }
        proof {
            assert forall|a: int, b: int| 0 <= a < b < approvals.len() implies (
            #[trigger] approvals[a]).0 != (#[trigger] approvals[b]).0 by {
                assert(self.approved_transfers[a].name@ != self.approved_transfers[b].name@);
            }
            assert forall|n: Seq<char>| #[trigger] self@.approvals.contains_key(n) implies self@.registered(
                n,
            ) by {
                let k = position(approvals, n);
                assert(approvals[k].0 == n);
                assert(self@.registered(self.approved_transfers[k].name@));
            }
        }
        true
    }

    /// Sets the service up. Only the owner of the contract may, and only
    /// once.
    pub fn new(caller: Address, contract_owner: Address, initialized: bool, metadata: Metadata) -> (r:
        Result<Contract, NameError>)
        ensures
            match r {
                Ok(c) => {
                    &&& caller == contract_owner
                    &&& !initialized
                    &&& c.wf()
                    &&& c.metadata == metadata
                    &&& c@.records == Seq::<NameView>::empty()
                    &&& c@.approvals == Map::<Seq<char>, Address>::empty()
                    &&& c@.denied == Set::<Seq<char>>::empty()
                    &&& c@.admins == Set::<Address>::empty()
                },
                Err(e) => if caller != contract_owner {
                    e == NameError::NotContractOwner
                } else {
                    initialized && e == NameError::AlreadyInitialized
                },
            },
    {
        if caller != contract_owner {
            return Err(NameError::NotContractOwner);
        }
        if initialized {
            return Err(NameError::AlreadyInitialized);
        }
        let c = Contract {
            names: Vec::new(),
            denied_names: StringSet::new(),
            approved_transfers: Vec::new(),
            administrators: AddressSet::new(),
            metadata,
        };
        proof {
            assert(c@.records =~= Seq::<NameView>::empty());
            assert(c@.approvals =~= Map::<Seq<char>, Address>::empty());
        }
        Ok(c)
    }

    /// The stored service, if there is one: without one the service is not
    /// set up.
    pub fn load(stored: Option<Contract>) -> (r: Result<Contract, NameError>)
        ensures
            match r {
                Ok(c) => stored == Some(c),
                Err(e) => stored is None && e == NameError::NotInitialized,
            },
    {
        match stored {
            Some(c) => Ok(c),
            None => Err(NameError::NotInitialized),
        }
    }

    /// The index of the record of `name`, if it is registered.
    pub fn find_name(&self, name: &String) -> (r: Option<usize>)
        requires
            self.wf(),
        ensures
            match r {
                Some(i) => {
                    &&& i < self.names.len()
                    &&& self.names[i as int].name@ == name@
                    &&& self@.registered(name@)
                    &&& self@.index(name@) == i
                    &&& self@.record(name@) == self.names[i as int]@
                },
                None => !self@.registered(name@),
            },
    {
        let mut i: usize = 0;
        while i < self.names.len()
            invariant
                self.wf(),
                i <= self.names.len(),
                forall|j: int| 0 <= j < i ==> self.names[j].name@ != name@,
            decreases self.names.len() - i,
        {
            if self.names[i].name == *name {
                proof {
                    lemma_assoc_at(record_entries(self.records()), i as int);
                }
                return Some(i);
            }
            i += 1;
        }
        proof {
            lemma_assoc_absent(record_entries(self.records()), name@);
        }
        None
    }

    /// The index of the approval for `name`, if there is one.
    pub fn find_approval(&self, name: &String) -> (r: Option<usize>)
        requires
            self.wf(),
        ensures
            match r {
                Some(i) => {
                    &&& i < self.approved_transfers.len()
                    &&& self.approved_transfers[i as int].name@ == name@
                    &&& self@.approvals.contains_key(name@)
                    &&& self@.approvals[name@] == self.approved_transfers[i as int].operator
                },
                None => !self@.approvals.contains_key(name@),
            },
    {
        let mut i: usize = 0;
        while i < self.approved_transfers.len()
            invariant
                self.wf(),
                i <= self.approved_transfers.len(),
                forall|j: int| 0 <= j < i ==> self.approved_transfers[j].name@ != name@,
            decreases self.approved_transfers.len() - i,
        {
            if self.approved_transfers[i].name == *name {
                proof {
                    lemma_assoc_at(self.approval_entries(), i as int);
                }
                return Some(i);
            }
            i += 1;
        }
        proof {
            lemma_assoc_absent(self.approval_entries(), name@);
        }
        None
    }

    /// Whether `caller` is the owner of the contract or an administrator.
    pub fn is_owner_or_admin(&self, caller: &Address, contract_owner: &Address) -> (r: bool)
        ensures
            r == self@.owner_or_admin(*caller, *contract_owner),
    {
        *caller == *contract_owner || self.administrators.contains(caller)
    }

    /// `caller` registers `name` for itself, with `resolver` or else itself
    /// as the resolver.
    ///
    /// Fails with `NameTooLong` or `InvalidName` where `name` is no name of
    /// the service, else with `NameDenied` where it is denied, else with
    /// `AlreadyRegistered` where it is registered.
    pub fn register_root_name(&mut self, caller: Address, name: String, resolver: Option<Address>)
        -> (r: Result<(), NameError>)
        requires
            old(self).wf(),
        ensures
            final(self).wf(),
            final(self).metadata == old(self).metadata,
            match r {
                Ok(()) => old(self)@.register(caller, name@, resolver) == Ok::<NameState, NameError>(
                    final(self)@,
                ),
                Err(e) => {
                    &&& old(self)@.register(caller, name@, resolver) == Err::<NameState, NameError>(
                        e,
                    )
                    &&& *final(self) == *old(self)
                },
            },
    {
        if let Some(e) = Name::check(&name) {
            return Err(e);
        }
        if self.denied_names.contains(&name) {
            return Err(NameError::NameDenied);
        }
        if self.find_name(&name).is_some() {
            return Err(NameError::AlreadyRegistered);
        }
        let resolver = match resolver {
            Some(r) => r,
            None => caller,
        };
        let record = Name { name, resolver, owner: caller };
        proof {
            lemma_assoc_push(record_entries(self.records()), record@.name, record@);
        }
        self.names.push(record);
        proof {
            assert(self.records() =~= old(self).records().push(record@));
            assert(record_entries(self.records()) =~= record_entries(old(self).records()).push(
                (record@.name, record@),
            ));
            assert(self.approval_entries() =~= old(self).approval_entries());
            Self::lemma_registered_after_push(old(self)@, self@, record@);
        }
        Ok(())
    }

    /// After a record is appended, the names registered before are still
    /// registered and the new name is.
    proof fn lemma_registered_after_push(before: NameState, after: NameState, record: NameView)
        requires
            after.records == before.records.push(record),
        ensures
            forall|n: Seq<char>|
                #[trigger] after.registered(n) <==> (before.registered(n) || n == record.name),
    {
        let b = record_entries(before.records);
        let a = record_entries(after.records);
        assert forall|n: Seq<char>|
            #[trigger] after.registered(n) <==> (before.registered(n) || n == record.name) by {
            if has_key(a, n) {
                let i = position(a, n);
                if i < b.len() {
                    assert(b[i].0 == n);
                }
            }
            if has_key(b, n) {
                let i = position(b, n);
                assert(a[i].0 == n);
            }
            if n == record.name {
                assert(a[b.len() as int].0 == n);
            }
        }
    }

    /// After the record at index `i` is dropped, the other names are still
    /// registered and the name that stood there is not.
    proof fn lemma_registered_after_remove(before: NameState, after: NameState, i: int)
        requires
            keys_distinct(record_entries(before.records)),
            0 <= i < before.records.len(),
            after.records == before.records.remove(i),
        ensures
            keys_distinct(record_entries(after.records)),
            forall|n: Seq<char>|
                #[trigger] after.registered(n) <==> (before.registered(n) && n
                    != before.records[i].name),
    {
        let b = record_entries(before.records);
        let a = record_entries(after.records);
        assert(a =~= b.remove(i));
        lemma_assoc_remove(b, i);
        assert forall|n: Seq<char>|
            #[trigger] after.registered(n) <==> (before.registered(n) && n
                != before.records[i].name) by {
            assert(assoc_map(a).contains_key(n) == has_key(a, n));
            assert(assoc_map(b).contains_key(n) == has_key(b, n));
        }
    }

    /// The resolver of `name`. Fails with `NameNotFound` where the name is
    /// not registered.
    pub fn resolve_name(&self, name: &String) -> (r: Result<Address, NameError>)
        requires
            self.wf(),
        ensures
            r == self@.resolve(name@),
    {
        match self.find_name(name) {
            Some(i) => Ok(self.names[i].resolver),
            None => Err(NameError::NameNotFound),
        }
    }

    /// The owner of `name`. Fails with `NameNotFound` where the name is not
    /// registered.
    pub fn owner_of(&self, name: &String) -> (r: Result<Address, NameError>)
        requires
            self.wf(),
        ensures
            r == self@.owner_of(name@),
    {
        match self.find_name(name) {
            Some(i) => Ok(self.names[i].owner),
            None => Err(NameError::NameNotFound),
        }
    }

    /// `caller`, who owns `name`, gives it the resolver `new_resolver`.
    ///
    /// Fails with `NameTooLong` or `InvalidName` where `name` is no name of
    /// the service, else with `NotOwned` where `caller` does not own it.
    pub fn change_name_resolver(&mut self, caller: Address, name: &String, new_resolver: Address)
        -> (r: Result<(), NameError>)
        requires
            old(self).wf(),
        ensures
            final(self).wf(),
            final(self).metadata == old(self).metadata,
            match r {
                Ok(()) => old(self)@.change_resolver(caller, name@, new_resolver) == Ok::<
                    NameState,
                    NameError,
                >(final(self)@),
                Err(e) => {
                    &&& old(self)@.change_resolver(caller, name@, new_resolver) == Err::<
                        NameState,
                        NameError,
                    >(e)
                    &&& *final(self) == *old(self)
                },
            },
    {
        if let Some(e) = Name::check(name) {
            return Err(e);
        }
        let i = match self.find_name(name) {
            Some(i) => i,
            None => {
                return Err(NameError::NotOwned);
            },
        };
        if self.names[i].owner != caller {
            return Err(NameError::NotOwned);
        }
        self.names[i].resolver = new_resolver;
        proof {
            let before = old(self)@;
            let record = NameView { resolver: new_resolver, ..before.record(name@) };
            assert(self.records() =~= old(self).records().update(i as int, record));
            lemma_assoc_update(record_entries(old(self).records()), i as int, record);
            assert(record_entries(self.records()) =~= record_entries(old(self).records()).update(
                i as int,
                (name@, record),
            ));
            assert(self.approval_entries() =~= old(self).approval_entries());
            assert forall|n: Seq<char>| #[trigger] self@.registered(n) <==> before.registered(n) by {
                let b = record_entries(before.records);
                let a = record_entries(self@.records);
                if has_key(a, n) {
                    let k = position(a, n);
                    assert(b[k].0 == n);
                }
                if has_key(b, n) {
                    let k = position(b, n);
                    assert(a[k].0 == n);
                }
            }
        }
        Ok(())
    }

    /// `caller` hands `name` over to `new_owner`. The approved operator of
    /// the name may, and its approval is then used up; anyone else must own
    /// the name, and an approval that stands for the name stays. The name
    /// becomes the last of those that its new owner owns.
    ///
    /// Fails with `NameTooLong` or `InvalidName` where `name` is no name of
    /// the service, else with `NotOwned` where `caller` is neither the
    /// approved operator nor the owner.
    pub fn transfer_name(&mut self, caller: Address, name: &String, new_owner: Address) -> (r:
        Result<(), NameError>)
        requires
            old(self).wf(),
        ensures
            final(self).wf(),
            final(self).metadata == old(self).metadata,
            match r {
                Ok(()) => old(self)@.transfer(caller, name@, new_owner) == Ok::<
                    NameState,
                    NameError,
                >(final(self)@),
                Err(e) => {
                    &&& old(self)@.transfer(caller, name@, new_owner) == Err::<
                        NameState,
                        NameError,
                    >(e)
                    &&& *final(self) == *old(self)
                },
            },
    {
        if let Some(e) = Name::check(name) {
            return Err(e);
        }
        let approval = match self.find_approval(name) {
            Some(a) => if self.approved_transfers[a].operator == caller {
                Some(a)
            } else {
                None
            },
            None => None,
        };
        let i = match self.find_name(name) {
            Some(i) => i,
            None => {
                return Err(NameError::NotOwned);
            },
        };
        if approval.is_none() && self.names[i].owner != caller {
            return Err(NameError::NotOwned);
        }
        let ghost before = old(self)@;
        let ghost moved = NameView { owner: new_owner, ..before.record(name@) };
        if let Some(a) = approval {
            proof {
                lemma_assoc_remove(self.approval_entries(), a as int);
            }
            self.approved_transfers.remove(a);
            proof {
                assert(self.approval_entries() =~= old(self).approval_entries().remove(a as int));
            }
        }
        let mut record = self.names.remove(i);
        record.owner = new_owner;
        let ghost mid = self@;
        proof {
            assert(self.records() =~= before.records.remove(i as int));
            Self::lemma_registered_after_remove(before, mid, i as int);
            assert(record@ == moved);
            assert(!mid.registered(name@));
            lemma_assoc_push(record_entries(mid.records), name@, moved);
        }
        self.names.push(record);
        proof {
            assert(self.records() =~= mid.records.push(moved));
            assert(record_entries(self.records()) =~= record_entries(mid.records).push(
                (name@, moved),
            ));
            Self::lemma_registered_after_push(mid, self@, moved);
        }
        Ok(())
    }

    /// `caller`, who owns `name`, approves `operator` to transfer it. An
    /// operator approved before is replaced.
    ///
    /// Fails with `NameTooLong` or `InvalidName` where `name` is no name of
    /// the service, else with `NameDenied` where it is denied, else with
    /// `NotOwned` where `caller` does not own it.
    pub fn approve_transfer(&mut self, caller: Address, name: String, operator: Address) -> (r:
        Result<(), NameError>)
        requires
            old(self).wf(),
        ensures
            final(self).wf(),
            final(self).metadata == old(self).metadata,
            match r {
                Ok(()) => old(self)@.approve_transfer(caller, name@, operator) == Ok::<
                    NameState,
                    NameError,
                >(final(self)@),
                Err(e) => {
                    &&& old(self)@.approve_transfer(caller, name@, operator) == Err::<
                        NameState,
                        NameError,
                    >(e)
                    &&& *final(self) == *old(self)
                },
            },
    {
        if let Some(e) = Name::check(&name) {
            return Err(e);
        }
        if self.denied_names.contains(&name) {
            return Err(NameError::NameDenied);
        }
        let i = match self.find_name(&name) {
            Some(i) => i,
            None => {
                return Err(NameError::NotOwned);
            },
        };
        if self.names[i].owner != caller {
            return Err(NameError::NotOwned);
        }
        match self.find_approval(&name) {
            Some(a) => {
                self.approved_transfers[a].operator = operator;
                proof {
                    lemma_assoc_update(old(self).approval_entries(), a as int, operator);
                    assert(self.approval_entries() =~= old(self).approval_entries().update(
                        a as int,
                        (name@, operator),
                    ));
                }
            },
            None => {
                proof {
                    lemma_assoc_push(old(self).approval_entries(), name@, operator);
                }
                let ghost text = name@;
                self.approved_transfers.push(TransferApproval { name, operator });
                proof {
                    assert(self.approval_entries() =~= old(self).approval_entries().push(
                        (text, operator),
                    ));
                }
            },
        }
        proof {
            assert(self.records() =~= old(self).records());
        }
        Ok(())
    }

    /// `caller`, who owns `name`, takes the approval of its operator back.
    ///
    /// Fails with `NameTooLong` or `InvalidName` where `name` is no name of
    /// the service, else with `NameNotFound` where it is not registered,
    /// else with `NotNameOwner` where `caller` does not own it, else with
    /// `NoTransferApproval` where no operator is approved for it.
    pub fn remove_all_transfer_approvals(&mut self, caller: Address, name: &String) -> (r: Result<
        (),
        NameError,
    >)
        requires
            old(self).wf(),
        ensures
            final(self).wf(),
            final(self).metadata == old(self).metadata,
            match r {
                Ok(()) => old(self)@.remove_approvals(caller, name@) == Ok::<NameState, NameError>(
                    final(self)@,
                ),
                Err(e) => {
                    &&& old(self)@.remove_approvals(caller, name@) == Err::<NameState, NameError>(e)
                    &&& *final(self) == *old(self)
                },
            },
    {
        if let Some(e) = Name::check(name) {
            return Err(e);
        }
        let i = match self.find_name(name) {
            Some(i) => i,
            None => {
                return Err(NameError::NameNotFound);
            },
        };
        if self.names[i].owner != caller {
            return Err(NameError::NotNameOwner);
        }
        let a = match self.find_approval(name) {
            Some(a) => a,
            None => {
                return Err(NameError::NoTransferApproval);
            },
        };
        proof {
            lemma_assoc_remove(self.approval_entries(), a as int);
        }
        self.approved_transfers.remove(a);
        proof {
            assert(self.approval_entries() =~= old(self).approval_entries().remove(a as int));
            assert(self.records() =~= old(self).records());
        }
        Ok(())
    }

    /// The approval for `name`: the name with its operator, or nothing.
    pub fn list_transfer_approvals(&self, name: String) -> (r: Vec<(String, Address)>)
        requires
            self.wf(),
        ensures
            if self@.approvals.contains_key(name@) {
                &&& r@.len() == 1
                &&& r@[0].0@ == name@
                &&& r@[0].1 == self@.approvals[name@]
            } else {
                r@.len() == 0
            },
    {
        let mut out: Vec<(String, Address)> = Vec::new();
        match self.find_approval(&name) {
            Some(a) => {
                out.push((name, self.approved_transfers[a].operator));
            },
            None => {},
        }
        out
    }

    /// The owner of the contract or an administrator denies `name`, which
    /// is registered: the registration goes, and the approval of its
    /// operator with it.
    ///
    /// Fails with `NameTooLong` or `InvalidName` where `name` is no name of
    /// the service, else with `NameDenied` where it is denied already, else
    /// with `NotOwnerOrAdministrator` where `caller` is neither, else with
    /// `NameNotFound` where the name is not registered.
    pub fn deny_name(&mut self, caller: Address, contract_owner: Address, name: String) -> (r:
        Result<(), NameError>)
        requires
            old(self).wf(),
        ensures
            final(self).wf(),
            final(self).metadata == old(self).metadata,
            match r {
                Ok(()) => old(self)@.deny(caller, contract_owner, name@) == Ok::<
                    NameState,
                    NameError,
                >(final(self)@),
                Err(e) => {
                    &&& old(self)@.deny(caller, contract_owner, name@) == Err::<
                        NameState,
                        NameError,
                    >(e)
                    &&& *final(self) == *old(self)
                },
            },
    {
        if let Some(e) = Name::check(&name) {
            return Err(e);
        }
        if self.denied_names.contains(&name) {
            return Err(NameError::NameDenied);
        }
        if !self.is_owner_or_admin(&caller, &contract_owner) {
            return Err(NameError::NotOwnerOrAdministrator);
        }
        let i = match self.find_name(&name) {
            Some(i) => i,
            None => {
                return Err(NameError::NameNotFound);
            },
        };
        let ghost before = old(self)@;
        match self.find_approval(&name) {
            Some(a) => {
                proof {
                    lemma_assoc_remove(self.approval_entries(), a as int);
                }
                self.approved_transfers.remove(a);
                proof {
                    assert(self.approval_entries() =~= old(self).approval_entries().remove(
                        a as int,
                    ));
                }
            },
            None => {
                proof {
                    assert(self@.approvals.remove(name@) =~= self@.approvals);
                }
            },
        }
        self.names.remove(i);
        proof {
            assert(self.records() =~= before.records.remove(i as int));
            Self::lemma_registered_after_remove(
                before,
                NameState { records: self.records(), ..before },
                i as int,
            );
        }
        let ghost text = name@;
        self.denied_names.insert(name);
        proof {
            assert forall|n: Seq<char>| #[trigger] self@.registered(n) <==> (before.registered(n)
                && n != text) by {
                assert((NameState { records: self.records(), ..before }).registered(n)
                    == self@.registered(n));
            }
        }
        Ok(())
    }

    /// The owner of the contract or an administrator allows `name` again.
    ///
    /// Fails with `NameTooLong` or `InvalidName` where `name` is no name of
    /// the service, else with `NotOwnerOrAdministrator` where `caller` is
    /// neither.
    pub fn allow_name(&mut self, caller: Address, contract_owner: Address, name: &String) -> (r:
        Result<(), NameError>)
        requires
            old(self).wf(),
        ensures
            final(self).wf(),
            final(self).metadata == old(self).metadata,
            match r {
                Ok(()) => old(self)@.allow(caller, contract_owner, name@) == Ok::<
                    NameState,
                    NameError,
                >(final(self)@),
                Err(e) => {
                    &&& old(self)@.allow(caller, contract_owner, name@) == Err::<
                        NameState,
                        NameError,
                    >(e)
                    &&& *final(self) == *old(self)
                },
            },
    {
        if let Some(e) = Name::check(name) {
            return Err(e);
        }
        if !self.is_owner_or_admin(&caller, &contract_owner) {
            return Err(NameError::NotOwnerOrAdministrator);
        }
        self.denied_names.remove(name);
        proof {
            assert(self.records() =~= old(self).records());
            assert(self.approval_entries() =~= old(self).approval_entries());
        }
        Ok(())
    }

    /// The denied names, in ascending order.
    pub fn list_denied_names(&self) -> (r: Vec<String>)
        requires
            self.wf(),
        ensures
            lists_texts(self@.denied, texts_of(r@)),
    {
        self.denied_names.to_vec()
    }

    /// The names that `user` owns, in the order in which it came to own
    /// them.
    pub fn list_owned_names(&self, user: Address) -> (r: Vec<Name>)
        requires
            self.wf(),
        ensures
            Seq::new(r@.len(), |i: int| r@[i]@) == self@.records.filter(owned_by(user)),
    {
        let mut out: Vec<Name> = Vec::new();
        let mut i: usize = 0;
        proof {
            reveal(Seq::filter);
            assert(self@.records.subrange(0, 0) =~= Seq::<NameView>::empty());
            assert(Seq::new(out@.len(), |k: int| out@[k]@) =~= Seq::<NameView>::empty());
        }
        while i < self.names.len()
            invariant
                i <= self.names.len(),
                Seq::new(out@.len(), |k: int| out@[k]@) == self@.records.subrange(
                    0,
                    i as int,
                ).filter(owned_by(user)),
            decreases self.names.len() - i,
        {
            let ghost done = self@.records.subrange(0, i as int);
            let ghost listed = Seq::new(out@.len(), |k: int| out@[k]@);
            let ghost next = self@.records.subrange(0, i + 1);
            proof {
                reveal(Seq::filter);
                assert(next =~= done.push(self@.records[i as int]));
                assert(next.drop_last() =~= done);
                assert(next.last() == self@.records[i as int]);
                assert(next.filter(owned_by(user)) == if owned_by(user)(next.last()) {
                    done.filter(owned_by(user)).push(next.last())
                } else {
                    done.filter(owned_by(user))
                });
            }
            if self.names[i].owner == user {
                out.push(self.names[i].duplicate());
                proof {
                    assert(Seq::new(out@.len(), |k: int| out@[k]@) =~= listed.push(
                        self@.records[i as int],
                    ));
                }
            }
            i += 1;
        }
        proof {
            assert(self@.records.subrange(0, self.names.len() as int) =~= self@.records);
        }
        out
    }

    /// The owner of the contract makes `user` an administrator.
    ///
    /// Fails with `NotContractOwner` where `caller` is not the owner, else
    /// with `AlreadyAdministrator` where `user` is an administrator.
    pub fn add_admin(&mut self, caller: Address, contract_owner: Address, user: Address) -> (r:
        Result<(), NameError>)
        requires
            old(self).wf(),
        ensures
            final(self).wf(),
            final(self).metadata == old(self).metadata,
            match r {
                Ok(()) => {
                    &&& caller == contract_owner
                    &&& !old(self)@.admins.contains(user)
                    &&& final(self)@ == (NameState {
                        admins: old(self)@.admins.insert(user),
                        ..old(self)@
                    })
                },
                Err(e) => {
                    &&& *final(self) == *old(self)
                    &&& if caller != contract_owner {
                        e == NameError::NotContractOwner
                    } else {
                        old(self)@.admins.contains(user) && e == NameError::AlreadyAdministrator
                    }
                },
            },
    {
        if caller != contract_owner {
            return Err(NameError::NotContractOwner);
        }
        if !self.administrators.insert(user) {
            return Err(NameError::AlreadyAdministrator);
        }
        proof {
            assert(self.records() =~= old(self).records());
            assert(self.approval_entries() =~= old(self).approval_entries());
        }
        Ok(())
    }

    /// The owner of the contract takes `user` from the administrators, if
    /// it is one.
    ///
    /// Fails with `NotContractOwner` where `caller` is not the owner.
    pub fn remove_admin(&mut self, caller: Address, contract_owner: Address, user: Address) -> (r:
        Result<(), NameError>)
        requires
            old(self).wf(),
        ensures
            final(self).wf(),
            final(self).metadata == old(self).metadata,
            match r {
                Ok(()) => {
                    &&& caller == contract_owner
                    &&& final(self)@ == (NameState {
                        admins: old(self)@.admins.remove(user),
                        ..old(self)@
                    })
                },
                Err(e) => {
                    &&& *final(self) == *old(self)
                    &&& caller != contract_owner
                    &&& e == NameError::NotContractOwner
                },
            },
    {
        if caller != contract_owner {
            return Err(NameError::NotContractOwner);
        }
        self.administrators.remove(&user);
        proof {
            assert(self.records() =~= old(self).records());
            assert(self.approval_entries() =~= old(self).approval_entries());
        }
        Ok(())
    }

    /// The administrators, by ascending address.
    pub fn list_admins(&self) -> (r: Vec<Address>)
        requires
            self.wf(),
        ensures
            lists_addresses(self@.admins, r@),
    {
        self.administrators.to_vec()
    }

    /// The name of the service.
    pub fn name(&self) -> (r: String)
        ensures
            r == self.metadata.name,
    {
        self.metadata.name.clone()
    }

    /// What the service says of itself.
    pub fn metadata(&self) -> (r: Metadata)
        ensures
            r == self.metadata,
    {
        Metadata {
            name: self.metadata.name.clone(),
            description: copy_text(&self.metadata.description),
        }
    }
}

} // verus!
